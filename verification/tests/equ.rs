use analyses::equ::equ_op;
use analyses::field::Fe;
use analyses::ideal::Ideal;
use analyses::namespace::IdealBuilder;
use analyses::poly::Polynomial;
use analyses::poly_source::Operand;
use analyses::typ::{ABase, ATyp};
use analyses::var::{Qualifier, Ref, Var};

/// Whether both polynomials take the same value at several points that
/// give every variable occurring in either of them a pseudo-random value.
fn same_values(got: &Polynomial, want: &Polynomial) -> bool {
    let mut vars = got.vars();
    for v in want.vars() {
        if !vars.iter().any(|w| w.same(&v)) {
            vars.push(v);
        }
    }
    let mut seed: u64 = 0x6a09_e667_f3bc_c908;
    for _ in 0..4 {
        let point: Vec<(Var, Fe)> = vars
            .iter()
            .map(|v| {
                seed = seed.wrapping_mul(6364136223846793005).wrapping_add(1442695040888963407);
                (v.clone(), Fe::from_u64(seed >> 11))
            })
            .collect();
        if !got.evaluate(&point).same(&want.evaluate(&point)) {
            return false;
        }
    }
    true
}

/// `let b = a == c` with the given operand type; returns (a, c, b, ideal).
fn equ_ideal(operand_typ: ATyp) -> (Var, Var, Var, Ideal) {
    let mut builder = IdealBuilder::new();
    let mut ideal = Ideal::new();
    let var_a = Var::from_node(0, operand_typ.clone(), Qualifier::Instance);
    ideal.register(&var_a);
    let var_c = Var::from_node(1, operand_typ.clone(), Qualifier::Instance);
    ideal.register(&var_c);
    let var_b = Var::from_node(2, ATyp::Base(ABase::Bool), Qualifier::Witness);
    ideal.register(&var_b);
    let a_op = Operand::Ref(Ref(0), operand_typ.clone());
    let c_op = Operand::Ref(Ref(1), operand_typ);
    equ_op(&mut builder, &mut ideal, &var_b, &a_op, &c_op);
    (var_a, var_c, var_b, ideal)
}

/// The expected `d_j * b` generator for slot `j`.
fn expected_db(a_j: &Var, c_j: &Var, b: &Var) -> Polynomial {
    Polynomial::var(a_j).sub(&Polynomial::var(c_j)).mul(&Polynomial::var(b))
}

fn assert_contains(ideal: &Ideal, expected: &Polynomial, label: &str) {
    assert!(
        ideal.generating_set.iter().any(|g| same_values(g, expected)),
        "{label}: expected generator not found"
    );
}

#[test]
fn test_equ_scalar_single_slot() {
    let (var_a, var_c, var_b, ideal) = equ_ideal(ATyp::scalar());
    assert_eq!(ideal.generating_set.len(), 2, "scalar equ should produce 2 constraints");
    assert_contains(&ideal, &expected_db(&var_a, &var_c, &var_b), "d*b");
}

#[test]
fn test_equ_uni1_two_slots() {
    let (var_a, var_c, var_b, ideal) = equ_ideal(ATyp::Uni(1));
    assert_eq!(ideal.generating_set.len(), 3, "Uni(1) equ should produce 3 constraints");
    let a0 = var_a.with_index(0).unwrap();
    let a1 = var_a.with_index(1).unwrap();
    let c0 = var_c.with_index(0).unwrap();
    let c1 = var_c.with_index(1).unwrap();
    assert_contains(&ideal, &expected_db(&a0, &c0, &var_b), "d_0*b");
    assert_contains(&ideal, &expected_db(&a1, &c1, &var_b), "d_1*b (regression: was missing)");
}

#[test]
fn test_equ_uni2_three_slots() {
    let (var_a, var_c, var_b, ideal) = equ_ideal(ATyp::Uni(2));
    assert_eq!(ideal.generating_set.len(), 4, "Uni(2) equ should produce 4 constraints");
    for i in 0..3 {
        let ai = var_a.with_index(i).unwrap();
        let ci = var_c.with_index(i).unwrap();
        assert_contains(&ideal, &expected_db(&ai, &ci, &var_b), &format!("d_{i}*b (regression: was only d_0*b)"));
    }
}

#[test]
fn test_equ_vpoly_2_1_three_slots() {
    let (var_a, var_c, var_b, ideal) = equ_ideal(ATyp::VPoly(2, 1));
    assert_eq!(ideal.generating_set.len(), 4, "VPoly(2,1) equ should produce 4 constraints");
    for i in 0..3 {
        let ai = var_a.with_index(i).unwrap();
        let ci = var_c.with_index(i).unwrap();
        assert_contains(&ideal, &expected_db(&ai, &ci, &var_b), &format!("d_{i}*b (regression: was only d_0*b)"));
    }
}

/// The aggregate generator is `b - 1 + sum_j d_j * inv_j` over fresh
/// scalar witnesses, introduced in order.
#[test]
fn equ_aggregate_uses_fresh_witnesses() {
    let (var_a, var_c, var_b, ideal) = equ_ideal(ATyp::Uni(1));
    let n = ideal.var_order.len();
    assert_eq!(n, 2, "one witness per slot");
    let inv0 = ideal.var_order[0].clone();
    let inv1 = ideal.var_order[1].clone();
    assert_eq!(inv0.name, "__zippel::gb::equ_inv::0");
    assert_eq!(inv1.name, "__zippel::gb::equ_inv::1");
    let d0 = Polynomial::var(&var_a.with_index(0).unwrap()).sub(&Polynomial::var(&var_c.with_index(0).unwrap()));
    let d1 = Polynomial::var(&var_a.with_index(1).unwrap()).sub(&Polynomial::var(&var_c.with_index(1).unwrap()));
    let expected = Polynomial::var(&var_b)
        .sub(&Polynomial::lit(&Fe::one()))
        .add(&d0.mul(&Polynomial::var(&inv0)))
        .add(&d1.mul(&Polynomial::var(&inv1)));
    assert!(same_values(&ideal.generating_set[2], &expected), "aggregate generator");
    assert!(ideal.pl.is_empty(), "equality defines nothing");
}

/// A vector of booleans compares element by element.
#[test]
fn equ_vector_elementwise() {
    let t = ATyp::Vec(Box::new(ATyp::scalar()), 2);
    let mut builder = IdealBuilder::new();
    let mut ideal = Ideal::new();
    let var_a = Var::from_node(0, t.clone(), Qualifier::Instance);
    ideal.register(&var_a);
    let var_c = Var::from_node(1, t.clone(), Qualifier::Instance);
    ideal.register(&var_c);
    let var_b = Var::from_node(2, ATyp::Vec(Box::new(ATyp::Base(ABase::Bool)), 2), Qualifier::Witness);
    ideal.register(&var_b);
    equ_op(&mut builder, &mut ideal, &var_b, &Operand::Ref(Ref(0), t.clone()), &Operand::Ref(Ref(1), t));
    assert_eq!(ideal.generating_set.len(), 4);
    for i in 0..2 {
        let expected = expected_db(&var_a.with_index(i).unwrap(), &var_c.with_index(i).unwrap(), &var_b.with_index(i).unwrap());
        assert_contains(&ideal, &expected, "element product");
    }
}

fn value_at(g: &Polynomial, point: &[(Var, Fe)]) -> Fe {
    g.evaluate(point)
}

/// With equal operands every generator vanishes exactly when the boolean
/// is one; with different operands the boolean zero and the witness the
/// inverse of the difference satisfy them all.
#[test]
fn equ_generators_decide_equality() {
    let (var_a, var_c, var_b, ideal) = equ_ideal(ATyp::scalar());
    let inv = ideal.var_order[0].clone();
    let five = Fe::from_u64(5);
    let nine = Fe::from_u64(9);
    let all_vanish = |a: Fe, c: Fe, b: Fe, w: Fe| {
        let point = vec![(var_a.clone(), a), (var_c.clone(), c), (var_b.clone(), b), (inv.clone(), w)];
        ideal.generating_set.iter().all(|g| value_at(g, &point).same(&Fe::zero()))
    };
    assert!(all_vanish(five, five, Fe::one(), Fe::from_u64(123)));
    assert!(!all_vanish(five, five, Fe::zero(), Fe::from_u64(123)));
    let d_inv = nine.sub(&five).inverse().unwrap();
    assert!(all_vanish(nine, five, Fe::zero(), d_inv));
    assert!(!all_vanish(nine, five, Fe::one(), d_inv));
}
