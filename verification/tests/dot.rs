use analyses::dot::dot_op;
use analyses::field::Fe;
use analyses::ideal::Ideal;
use analyses::namespace::IdealBuilder;
use analyses::poly::Polynomial;
use analyses::poly_source::Operand;
use analyses::typ::ATyp;
use analyses::var::{Qualifier, Ref, Var};

fn pv(v: &Var) -> Polynomial {
    Polynomial::var(v)
}

fn slot(v: &Var, i: usize) -> Var {
    v.with_index(i).unwrap()
}

/// Both polynomials take the same value at several points that give every
/// variable occurring in either of them a pseudo-random value.
fn assert_poly_eq(got: &Polynomial, want: &Polynomial, what: &str) {
    let mut vars = got.vars();
    for v in want.vars() {
        if !vars.iter().any(|w| w.same(&v)) {
            vars.push(v);
        }
    }
    let mut seed: u64 = 0x2545_f491_4f6c_dd1d;
    for _ in 0..4 {
        let point: Vec<(Var, Fe)> = vars
            .iter()
            .map(|v| {
                seed = seed.wrapping_mul(6364136223846793005).wrapping_add(1442695040888963407);
                (v.clone(), Fe::from_u64(seed >> 11))
            })
            .collect();
        assert!(got.evaluate(&point).same(&want.evaluate(&point)), "{what}");
    }
}

fn three_vars(ta: ATyp, tb: ATyp, tr: ATyp) -> (Ideal, Var, Var, Var) {
    let mut ideal = Ideal::new();
    let var_a = Var::from_node(0, ta, Qualifier::Private);
    ideal.register(&var_a);
    let var_b = Var::from_node(1, tb, Qualifier::Private);
    ideal.register(&var_b);
    let var_r = Var::from_node(2, tr, Qualifier::Private);
    ideal.register(&var_r);
    (ideal, var_a, var_b, var_r)
}

fn dot(builder: &mut IdealBuilder, ideal: &mut Ideal, var_r: &Var, ta: &ATyp, tb: &ATyp) {
    let a = Operand::Ref(Ref(0), ta.clone());
    let b = Operand::Ref(Ref(1), tb.clone());
    dot_op(builder, ideal, var_r, &a, &b);
}

#[test]
fn dot_test_dot_vec_scalar() {
    let mut builder = IdealBuilder::new();
    let s = ATyp::scalar();
    let vec_s = ATyp::Vec(Box::new(s.clone()), 3);
    let (mut ideal, _, _, var_r) = three_vars(vec_s.clone(), vec_s.clone(), s.clone());
    dot(&mut builder, &mut ideal, &var_r, &vec_s, &vec_s);
    assert!(ideal.pl_get(&var_r).is_some(), "Dot Vec(Scalar,3)·Vec(Scalar,3) ideal should be in pl");
    assert!(!ideal.generating_set.is_empty(), "Dot Vec(Scalar,3)·Vec(Scalar,3) should produce basis rows");
}

#[test]
fn dot_test_dot_vec_uni() {
    let mut builder = IdealBuilder::new();
    let vec_uni2 = ATyp::Vec(Box::new(ATyp::Uni(2)), 2);
    let vec_uni4 = ATyp::Vec(Box::new(ATyp::Uni(4)), 2);
    let dot_ideal = ATyp::Uni(6);
    let (mut ideal, _, _, var_r) = three_vars(vec_uni2.clone(), vec_uni4.clone(), dot_ideal.clone());
    dot(&mut builder, &mut ideal, &var_r, &vec_uni2, &vec_uni4);
    for i in 0..7 {
        let s = slot(&var_r, i);
        assert!(
            ideal.pl_get(&s).is_some(),
            "Dot Vec(Uni(2),2)·Vec(Uni(4),2) ideal slot {} missing from pl",
            i
        );
    }
}

#[test]
fn test_dot_vec_scalar_fast_path_no_sentinels() {
    let mut builder = IdealBuilder::new();
    let s = ATyp::scalar();
    let vec_s = ATyp::Vec(Box::new(s.clone()), 3);
    let (mut ideal, var_a, var_b, var_r) = three_vars(vec_s.clone(), vec_s.clone(), s.clone());
    let before = ideal.generating_set.len();
    dot(&mut builder, &mut ideal, &var_r, &vec_s, &vec_s);
    assert_eq!(
        ideal.generating_set.len() - before,
        1,
        "scalar dot fast path should emit exactly 1 linking row (no sentinels)"
    );
    let expected = pv(&slot(&var_a, 0))
        .mul(&pv(&slot(&var_b, 0)))
        .add(&pv(&slot(&var_a, 1)).mul(&pv(&slot(&var_b, 1))))
        .add(&pv(&slot(&var_a, 2)).mul(&pv(&slot(&var_b, 2))));
    assert_poly_eq(&ideal.pl_get(&var_r).unwrap(), &expected, "dot product polynomial mismatch");
}

#[test]
fn test_dot_nested_vec_scalar_fast_path() {
    let mut builder = IdealBuilder::new();
    let s = ATyp::scalar();
    let vec_s2 = ATyp::Vec(Box::new(s.clone()), 2);
    let vec_vec_s2 = ATyp::Vec(Box::new(vec_s2.clone()), 2);
    let (mut ideal, _, _, var_r) = three_vars(vec_vec_s2.clone(), vec_vec_s2.clone(), vec_s2.clone());
    let before = ideal.generating_set.len();
    dot(&mut builder, &mut ideal, &var_r, &vec_vec_s2, &vec_vec_s2);
    assert_eq!(
        ideal.generating_set.len() - before,
        2,
        "nested vec-of-scalar dot fast path should emit 2 linking rows (no sentinels)"
    );
    for j in 0..2 {
        assert!(ideal.pl_get(&slot(&var_r, j)).is_some(), "nested vec dot result slot {j} missing from pl");
    }
}

#[test]
fn test_dot_mismatched_elem_types_broadcasts_via_leaf() {
    let mut builder = IdealBuilder::new();
    let s = ATyp::scalar();
    let vec_s2 = ATyp::Vec(Box::new(s.clone()), 2);
    let vec_vec_s2_1 = ATyp::Vec(Box::new(vec_s2.clone()), 1);
    let vec_s1 = ATyp::Vec(Box::new(s.clone()), 1);
    let result_typ = ATyp::Vec(Box::new(s.clone()), 2);
    let (mut ideal, _, _, var_r) = three_vars(vec_vec_s2_1.clone(), vec_s1.clone(), result_typ.clone());
    dot(&mut builder, &mut ideal, &var_r, &vec_vec_s2_1, &vec_s1);
    for j in 0..2 {
        assert!(ideal.pl_get(&slot(&var_r, j)).is_some(), "dot mismatched-elem slot {j} missing from pl");
    }
}

/// The accumulating path: one accumulator per element pair, each bound
/// slot by slot, then one row per result slot summing the accumulators.
#[test]
fn dot_poly_result_sums_accumulators() {
    let mut builder = IdealBuilder::new();
    let vec_uni1 = ATyp::Vec(Box::new(ATyp::Uni(1)), 2);
    let r = ATyp::Uni(2);
    let (mut ideal, _, _, var_r) = three_vars(vec_uni1.clone(), vec_uni1.clone(), r.clone());
    let gens0 = ideal.generating_set.len();
    let order0 = ideal.var_order.len();
    dot(&mut builder, &mut ideal, &var_r, &vec_uni1, &vec_uni1);
    assert_eq!(ideal.var_order.len() - order0, 2, "one accumulator per element");
    assert_eq!(ideal.generating_set.len() - gens0, 3 + 3 + 3, "two accumulators and the result, 3 slots each");
    let acc0 = ideal.var_order[order0].clone();
    let acc1 = ideal.var_order[order0 + 1].clone();
    assert_eq!(acc0.name, "__zippel::gb::dot_acc::0");
    assert_eq!(acc1.name, "__zippel::gb::dot_acc::1");
    for j in 0..3 {
        let expected = pv(&slot(&acc0, j)).add(&pv(&slot(&acc1, j)));
        assert_poly_eq(&ideal.pl_get(&slot(&var_r, j)).unwrap(), &expected, "result slot is the sum of accumulator slots");
    }
}

/// An empty dot product of polynomials binds every result slot to zero.
#[test]
fn dot_empty_poly_is_zero() {
    let mut builder = IdealBuilder::new();
    let vec0 = ATyp::Vec(Box::new(ATyp::Uni(1)), 0);
    let r = ATyp::Uni(2);
    let (mut ideal, _, _, var_r) = three_vars(vec0.clone(), vec0.clone(), r.clone());
    dot(&mut builder, &mut ideal, &var_r, &vec0, &vec0);
    for j in 0..3 {
        assert_poly_eq(&ideal.pl_get(&slot(&var_r, j)).unwrap(), &Polynomial::zero(), "empty dot is zero");
    }
}
