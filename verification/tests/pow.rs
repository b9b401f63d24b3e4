use analyses::field::Fe;
use analyses::ideal::Ideal;
use analyses::namespace::IdealBuilder;
use analyses::poly::Polynomial;
use analyses::poly_source::Operand;
use analyses::pow::{mul_shape_of, pow_op};
use analyses::typ::ATyp;
use analyses::value::Value;
use analyses::var::{Qualifier, Ref, Var};

fn slot(v: &Var, i: usize) -> Var {
    v.with_index(i).unwrap()
}

/// Both polynomials take the same value at several points that give every
/// variable occurring in either of them a pseudo-random value.
fn assert_poly_eq(got: &Polynomial, want: &Polynomial, what: &str) {
    let mut vars = got.vars();
    for v in want.vars() {
        if !vars.iter().any(|w| w.same(&v)) {
            vars.push(v);
        }
    }
    let mut seed: u64 = 0x853c_49e6_748f_ea9b;
    for _ in 0..4 {
        let point: Vec<(Var, Fe)> = vars
            .iter()
            .map(|v| {
                seed = seed.wrapping_mul(6364136223846793005).wrapping_add(1442695040888963407);
                (v.clone(), Fe::from_u64(seed >> 11))
            })
            .collect();
        assert!(got.evaluate(&point).same(&want.evaluate(&point)), "{what}");
    }
}

/// Base (node 0) and result (node 1) registered in a fresh ideal.
fn base_and_result(ta: ATyp, tr: ATyp) -> (Ideal, Var, Var) {
    let mut ideal = Ideal::new();
    let var_a = Var::from_node(0, ta, Qualifier::Witness);
    ideal.register(&var_a);
    let var_r = Var::from_node(1, tr, Qualifier::Witness);
    ideal.register(&var_r);
    (ideal, var_a, var_r)
}

fn pow_value(builder: &mut IdealBuilder, ideal: &mut Ideal, var_r: &Var, ta: &ATyp, exp: Value, te: ATyp) {
    pow_op(builder, ideal, var_r, &Operand::Ref(Ref(0), ta.clone()), &Operand::Value(exp, te));
}

#[test]
fn test_pow_uni_const_exp() {
    let mut builder = IdealBuilder::new();
    let uni2 = ATyp::Uni(2);
    let (mut ideal, _, var_r) = base_and_result(uni2.clone(), ATyp::Uni(4));
    pow_value(&mut builder, &mut ideal, &var_r, &uni2, Value::Index(2), ATyp::fin(3));
    for i in 0..5 {
        assert!(ideal.pl_get(&slot(&var_r, i)).is_some(), "Pow Uni(2)^2 ideal slot {} missing from pl", i);
    }
}

#[test]
fn test_pow_vec_uni_const_exp() {
    let mut builder = IdealBuilder::new();
    let vec_uni2 = ATyp::Vec(Box::new(ATyp::Uni(2)), 2);
    let vec_ideal = ATyp::Vec(Box::new(ATyp::Uni(4)), 2);
    let (mut ideal, _, var_r) = base_and_result(vec_uni2.clone(), vec_ideal);
    pow_value(&mut builder, &mut ideal, &var_r, &vec_uni2, Value::Index(2), ATyp::fin(3));
    for i in 0..2 {
        let elem = slot(&var_r, i);
        for j in 0..5 {
            assert!(
                ideal.pl_get(&slot(&elem, j)).is_some(),
                "Pow Vec(Uni(2),2)^2 element {} slot {} missing from pl",
                i,
                j
            );
        }
    }
}

#[test]
fn test_pow_vec_vecindex_per_element() {
    let mut builder = IdealBuilder::new();
    let vec_s = ATyp::Vec(Box::new(ATyp::scalar()), 2);
    let (mut ideal, _, var_r) = base_and_result(vec_s.clone(), vec_s.clone());
    let te = ATyp::Vec(Box::new(ATyp::fin(4)), 2);
    pow_value(&mut builder, &mut ideal, &var_r, &vec_s, Value::VecIndex(vec![2, 3]), te);
    for i in 0..2 {
        assert!(
            ideal.pl_get(&slot(&var_r, i)).is_some(),
            "Pow Vec(Scalar,2)^VecIndex([2,3]) ideal element {} missing from pl",
            i
        );
    }
}

#[test]
fn test_pow_scalar_exp_zero() {
    let mut builder = IdealBuilder::new();
    let s = ATyp::scalar();
    let (mut ideal, _, var_r) = base_and_result(s.clone(), s.clone());
    pow_value(&mut builder, &mut ideal, &var_r, &s, Value::Index(0), ATyp::fin(1));
    let poly = ideal.pl_get(&var_r).expect("pow k=0: slot must be in pl");
    let c = poly.constant_value();
    assert!(c.is_some(), "pow k=0 on Scalar: ideal polynomial must be constant 1");
    assert!(c.unwrap().same(&Fe::one()), "pow k=0 on Scalar: constant coefficient must be 1");
}

#[test]
fn test_pow_scalar_exp_one() {
    let mut builder = IdealBuilder::new();
    let s = ATyp::scalar();
    let (mut ideal, _, var_r) = base_and_result(s.clone(), s.clone());
    pow_value(&mut builder, &mut ideal, &var_r, &s, Value::Index(1), ATyp::fin(2));
    let poly = ideal.pl_get(&var_r).expect("pow k=1: slot must be in pl");
    assert!(
        poly.constant_value().is_none(),
        "pow k=1: ideal polynomial must be the base variable, not a constant"
    );
}

#[test]
fn test_pow_vec_uni_per_element_exps() {
    let mut builder = IdealBuilder::new();
    let vec_uni2 = ATyp::Vec(Box::new(ATyp::Uni(2)), 2);
    let vec_ideal = ATyp::Vec(Box::new(ATyp::Uni(4)), 2);
    let (mut ideal, _, var_r) = base_and_result(vec_uni2.clone(), vec_ideal);
    let te = ATyp::Vec(Box::new(ATyp::fin(3)), 2);
    pow_value(&mut builder, &mut ideal, &var_r, &vec_uni2, Value::VecIndex(vec![2, 2]), te);
    for i in 0..2 {
        let elem = slot(&var_r, i);
        for j in 0..5 {
            assert!(
                ideal.pl_get(&slot(&elem, j)).is_some(),
                "Pow Vec(Uni(2),2)^VecIndex([2,2]) element {} slot {} missing from pl",
                i,
                j
            );
        }
    }
}

#[test]
fn test_pow_nested_vec_scalar_exp() {
    let mut builder = IdealBuilder::new();
    let vec_s2 = ATyp::Vec(Box::new(ATyp::scalar()), 2);
    let vec_vec_s2 = ATyp::Vec(Box::new(vec_s2.clone()), 2);
    let (mut ideal, _, var_r) = base_and_result(vec_vec_s2.clone(), vec_vec_s2.clone());
    pow_value(&mut builder, &mut ideal, &var_r, &vec_vec_s2, Value::Index(2), ATyp::fin(3));
    for i in 0..2 {
        let elem_i = slot(&var_r, i);
        for j in 0..2 {
            assert!(
                ideal.pl_get(&slot(&elem_i, j)).is_some(),
                "Pow Vec(Vec(Scalar,2),2)^2 element [{}][{}] missing from pl",
                i,
                j
            );
        }
    }
}

#[test]
fn test_pow_scalar_const_exp() {
    let mut builder = IdealBuilder::new();
    let s = ATyp::scalar();
    let (mut ideal, _, var_r) = base_and_result(s.clone(), s.clone());
    pow_value(&mut builder, &mut ideal, &var_r, &s, Value::Index(3), ATyp::fin(4));
    let poly = ideal.pl_get(&var_r).expect("pow k=3: slot must be in pl");
    assert!(poly.constant_value().is_none(), "pow k=3: ideal polynomial must depend on the base variable");
}

/// A scalar base is raised slot by slot: the result is bound to `a^3`,
/// with no accumulator.
#[test]
fn pow_scalar_cube_is_direct() {
    let mut builder = IdealBuilder::new();
    let s = ATyp::scalar();
    let (mut ideal, var_a, var_r) = base_and_result(s.clone(), s.clone());
    let order0 = ideal.var_order.len();
    pow_value(&mut builder, &mut ideal, &var_r, &s, Value::Index(3), ATyp::fin(4));
    assert_eq!(ideal.var_order.len(), order0);
    let a = Polynomial::var(&var_a);
    assert_poly_eq(&ideal.pl_get(&var_r).unwrap(), &a.mul(&a).mul(&a), "scalar cube");
}

/// `Uni(1)^3` goes through two accumulators of shapes `Uni(2)` and
/// `Uni(3)`; the result slots are bound to the last one's slots, and the
/// first accumulator holds the square's coefficients.
#[test]
fn pow_uni_cube_accumulates() {
    let mut builder = IdealBuilder::new();
    let u1 = ATyp::Uni(1);
    let (mut ideal, var_a, var_r) = base_and_result(u1.clone(), ATyp::Uni(3));
    let order0 = ideal.var_order.len();
    pow_value(&mut builder, &mut ideal, &var_r, &u1, Value::Index(3), ATyp::fin(4));
    assert_eq!(ideal.var_order.len() - order0, 2, "two accumulators");
    let acc0 = ideal.var_order[order0].clone();
    let acc1 = ideal.var_order[order0 + 1].clone();
    assert_eq!(acc0.name, "__zippel::gb::pow_acc::0");
    assert_eq!(acc1.name, "__zippel::gb::pow_acc::1");
    assert!(acc0.typ.same(&ATyp::Uni(2)));
    assert!(acc1.typ.same(&ATyp::Uni(3)));
    let a0 = Polynomial::var(&slot(&var_a, 0));
    let a1 = Polynomial::var(&slot(&var_a, 1));
    assert_poly_eq(&ideal.pl_get(&slot(&acc0, 0)).unwrap(), &a0.mul(&a0), "square constant coefficient");
    assert_poly_eq(
        &ideal.pl_get(&slot(&acc0, 1)).unwrap(),
        &a0.mul(&a1).add(&a1.mul(&a0)),
        "square linear coefficient",
    );
    assert_poly_eq(&ideal.pl_get(&slot(&acc0, 2)).unwrap(), &a1.mul(&a1), "square leading coefficient");
    for j in 0..4 {
        assert_poly_eq(
            &ideal.pl_get(&slot(&var_r, j)).unwrap(),
            &Polynomial::var(&slot(&acc1, j)),
            "result slot aliases the last accumulator",
        );
    }
}

#[test]
fn mul_shape_rules() {
    assert!(mul_shape_of(&ATyp::Uni(2), &ATyp::Uni(4)).unwrap().same(&ATyp::Uni(6)));
    assert!(mul_shape_of(&ATyp::Mle(2), &ATyp::Mle(2)).unwrap().same(&ATyp::VPoly(2, 4)));
    assert!(mul_shape_of(&ATyp::Mle(2), &ATyp::VPoly(2, 3)).unwrap().same(&ATyp::VPoly(2, 5)));
    assert!(mul_shape_of(&ATyp::VPoly(2, 1), &ATyp::VPoly(2, 2)).unwrap().same(&ATyp::VPoly(2, 3)));
    let v = ATyp::Vec(Box::new(ATyp::Uni(1)), 3);
    assert!(mul_shape_of(&v, &v).unwrap().same(&ATyp::Vec(Box::new(ATyp::Uni(2)), 3)));
    assert!(mul_shape_of(&ATyp::Mle(2), &ATyp::Mle(3)).is_none());
    assert!(mul_shape_of(&ATyp::Uni(usize::MAX), &ATyp::Uni(1)).is_none());
}
