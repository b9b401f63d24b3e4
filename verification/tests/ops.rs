use analyses::combinatorics::multi_indices;
use analyses::field::Fe;
use analyses::ideal::Ideal;
use analyses::ops::{add_op, mul_op, pair_op, sub_op, value_op};
use analyses::poly::Polynomial;
use analyses::poly_source::Operand;
use analyses::typ::ATyp;
use analyses::value::Value;
use analyses::var::{Qualifier, Ref, Var};

fn pv(v: &Var) -> Polynomial {
    Polynomial::var(v)
}

fn slot(v: &Var, i: usize) -> Var {
    v.with_index(i).unwrap()
}

fn stored(ideal: &Ideal, v: &Var) -> Polynomial {
    ideal.pl_get(v).expect("slot bound")
}

fn bound(ideal: &Ideal, v: &Var) -> bool {
    ideal.pl_get(v).is_some()
}

/// Both polynomials take the same value at several points that give every
/// variable occurring in either of them a pseudo-random value.
fn assert_poly_eq(got: &Polynomial, want: &Polynomial, what: &str) {
    let mut vars = got.vars();
    for v in want.vars() {
        if !vars.iter().any(|w| w.same(&v)) {
            vars.push(v);
        }
    }
    let mut seed: u64 = 0x9e37_79b9_7f4a_7c15;
    for _ in 0..4 {
        let point: Vec<(Var, Fe)> = vars
            .iter()
            .map(|v| {
                seed = seed.wrapping_mul(6364136223846793005).wrapping_add(1442695040888963407);
                (v.clone(), Fe::from_u64(seed >> 11))
            })
            .collect();
        assert!(got.evaluate(&point).same(&want.evaluate(&point)), "{what}");
    }
}

fn three_vars(ta: ATyp, tb: ATyp, tr: ATyp, q: Qualifier) -> (Ideal, Var, Var, Var) {
    let mut ideal = Ideal::new();
    let var_a = Var::from_node(0, ta, q);
    ideal.register(&var_a);
    let var_b = Var::from_node(1, tb, q);
    ideal.register(&var_b);
    let var_r = Var::from_node(2, tr, q);
    ideal.register(&var_r);
    (ideal, var_a, var_b, var_r)
}

fn refs(ta: &ATyp, tb: &ATyp) -> (Operand, Operand) {
    (Operand::Ref(Ref(0), ta.clone()), Operand::Ref(Ref(1), tb.clone()))
}

/// Scalar (node 0) and polynomial (node 1) combined into node 2, the
/// scalar on the left or on the right.
fn scalar_poly_binop_ideal(add: bool, sub: bool, scalar_left: bool, poly_typ: ATyp) -> (Var, Var, Var, Ideal) {
    let mut ideal = Ideal::new();
    let var_s = Var::from_node(0, ATyp::scalar(), Qualifier::Instance);
    ideal.register(&var_s);
    let var_p = Var::from_node(1, poly_typ.clone(), Qualifier::Instance);
    ideal.register(&var_p);
    let var_r = Var::from_node(2, poly_typ.clone(), Qualifier::Instance);
    ideal.register(&var_r);
    let s_op = Operand::Ref(Ref(0), ATyp::scalar());
    let p_op = Operand::Ref(Ref(1), poly_typ.clone());
    let (l, r) = if scalar_left { (s_op, p_op) } else { (p_op, s_op) };
    if add {
        add_op(&mut ideal, &var_r, &l, &r, &poly_typ);
    } else if sub {
        sub_op(&mut ideal, &var_r, &l, &r, &poly_typ);
    } else {
        mul_op(&mut ideal, &var_r, &l, &r, &poly_typ);
    }
    (var_s, var_p, var_r, ideal)
}

fn assert_ideal_slot(ideal: &Ideal, var_r: &Var, i: usize, expected: Polynomial) {
    let got = stored(ideal, &slot(var_r, i));
    assert!(got.same(&expected), "ideal slot {i} mismatch");
}

#[test]
fn test_add_op_vpoly_add_coefficient_wise() {
    let t = ATyp::VPoly(2, 1);
    let (mut ideal, var_a, var_b, _) = three_vars(t.clone(), t.clone(), ATyp::unit(), Qualifier::Witness);
    let var = Var::from_node(2, t.clone(), Qualifier::Witness);
    let (a, b) = refs(&t, &t);
    add_op(&mut ideal, &var, &a, &b, &t);
    for i in 0..3 {
        assert!(bound(&ideal, &slot(&var, i)), "add ideal slot {} missing", i);
    }
    for i in 0..3 {
        let expected = pv(&slot(&var_a, i)).add(&pv(&slot(&var_b, i)));
        assert!(stored(&ideal, &slot(&var, i)).same(&expected), "vpoly add slot {} mismatch", i);
    }
}

#[test]
fn test_add_op_mle_add_pointwise() {
    let t = ATyp::Mle(2);
    let (mut ideal, var_a, var_b, _) = three_vars(t.clone(), t.clone(), ATyp::unit(), Qualifier::Witness);
    let var = Var::from_node(2, t.clone(), Qualifier::Witness);
    let (a, b) = refs(&t, &t);
    add_op(&mut ideal, &var, &a, &b, &t);
    for i in 0..4 {
        let expected = pv(&slot(&var_a, i)).add(&pv(&slot(&var_b, i)));
        assert!(stored(&ideal, &slot(&var, i)).same(&expected), "mle add slot {} mismatch", i);
    }
}

#[test]
fn test_add_op_vpoly_sub_coefficient_wise() {
    let t = ATyp::VPoly(2, 2);
    let (mut ideal, var_a, var_b, _) = three_vars(t.clone(), t.clone(), ATyp::unit(), Qualifier::Witness);
    let var = Var::from_node(2, t.clone(), Qualifier::Witness);
    let (a, b) = refs(&t, &t);
    sub_op(&mut ideal, &var, &a, &b, &t);
    assert_eq!(ATyp::VPoly(2, 2).physical_len(), 6);
    for i in 0..6 {
        let expected = pv(&slot(&var_a, i)).sub(&pv(&slot(&var_b, i)));
        assert!(stored(&ideal, &slot(&var, i)).same(&expected), "vpoly sub slot {} mismatch", i);
    }
}

#[test]
fn test_add_uni_different_degrees() {
    let uni2 = ATyp::Uni(2);
    let uni4 = ATyp::Uni(4);
    let (mut ideal, var_a, var_b, var_r) = three_vars(uni2.clone(), uni4.clone(), uni4.clone(), Qualifier::Witness);
    value_op(&mut ideal, &var_a, &Value::VecScalar((1..=3u64).map(Fe::from_u64).collect()));
    value_op(&mut ideal, &var_b, &Value::VecScalar((1..=5u64).map(Fe::from_u64).collect()));
    let (a, b) = refs(&uni2, &uni4);
    add_op(&mut ideal, &var_r, &a, &b, &uni4);
    assert_eq!(var_r.typ.physical_len(), 5, "Uni(4) has 5 coefficients");
    for i in 0..5 {
        assert!(bound(&ideal, &slot(&var_r, i)), "Uni(2)+Uni(4) ideal slot {} missing from pl", i);
    }
}

#[test]
fn test_add_scalar_poly_broadcast() {
    let (var_s, var_p, var_r, ideal) = scalar_poly_binop_ideal(true, false, true, ATyp::Uni(2));
    assert_eq!(ideal.generating_set.len(), 3, "Scalar + Uni(2) should produce one row per coefficient slot");
    let s = pv(&var_s);
    for i in 0..3 {
        let p = pv(&slot(&var_p, i));
        let expected = if i == 0 { s.add(&p) } else { p };
        assert_ideal_slot(&ideal, &var_r, i, expected);
    }
}

#[test]
fn test_uni_add_scalar_lifts_to_constant_slot_only() {
    let (var_s, var_p, var_r, ideal) = scalar_poly_binop_ideal(true, false, false, ATyp::Uni(2));
    let s = pv(&var_s);
    for i in 0..3 {
        let p = pv(&slot(&var_p, i));
        let expected = if i == 0 { p.add(&s) } else { p };
        assert_ideal_slot(&ideal, &var_r, i, expected);
    }
}

#[test]
fn test_uni_sub_scalar_lifts_to_constant_slot_only() {
    let (var_s, var_p, var_r, ideal) = scalar_poly_binop_ideal(false, true, false, ATyp::Uni(2));
    let s = pv(&var_s);
    for i in 0..3 {
        let p = pv(&slot(&var_p, i));
        let expected = if i == 0 { p.sub(&s) } else { p };
        assert_ideal_slot(&ideal, &var_r, i, expected);
    }
}

#[test]
fn test_scalar_sub_uni_negates_nonconstant_slots() {
    let (var_s, var_p, var_r, ideal) = scalar_poly_binop_ideal(false, true, true, ATyp::Uni(2));
    let s = pv(&var_s);
    for i in 0..3 {
        let p = pv(&slot(&var_p, i));
        let expected = if i == 0 { s.sub(&p) } else { p.neg() };
        assert_ideal_slot(&ideal, &var_r, i, expected);
    }
}

fn zero_slot(n: usize, m: usize) -> usize {
    multi_indices(n, m).iter().position(|idx| idx.iter().all(|d| *d == 0)).unwrap()
}

#[test]
fn test_scalar_add_vpoly_lifts_to_constant_slot_only() {
    let poly_typ = ATyp::VPoly(2, 2);
    let (var_s, var_p, var_r, ideal) = scalar_poly_binop_ideal(true, false, true, poly_typ.clone());
    let s = pv(&var_s);
    let z = zero_slot(2, 2);
    for i in 0..poly_typ.physical_len() {
        let p = pv(&slot(&var_p, i));
        let expected = if i == z { s.add(&p) } else { p };
        assert_ideal_slot(&ideal, &var_r, i, expected);
    }
}

#[test]
fn test_scalar_sub_vpoly_negates_nonconstant_slots() {
    let poly_typ = ATyp::VPoly(2, 2);
    let (var_s, var_p, var_r, ideal) = scalar_poly_binop_ideal(false, true, true, poly_typ.clone());
    let s = pv(&var_s);
    let z = zero_slot(2, 2);
    for i in 0..poly_typ.physical_len() {
        let p = pv(&slot(&var_p, i));
        let expected = if i == z { s.sub(&p) } else { p.neg() };
        assert_ideal_slot(&ideal, &var_r, i, expected);
    }
}

#[test]
fn addsub_test_scalar_add_mle_broadcasts_to_all_evaluation_slots() {
    let poly_typ = ATyp::Mle(2);
    let (var_s, var_p, var_r, ideal) = scalar_poly_binop_ideal(true, false, true, poly_typ.clone());
    let s = pv(&var_s);
    for i in 0..poly_typ.physical_len() {
        let p = pv(&slot(&var_p, i));
        assert_ideal_slot(&ideal, &var_r, i, s.add(&p));
    }
}

fn vec_of(t: &ATyp, n: usize) -> ATyp {
    ATyp::vec(t, n)
}

fn assert_all_elem_slots(ideal: &Ideal, var_r: &Var, what: &str) {
    for i in 0..2 {
        let elem = slot(var_r, i);
        for j in 0..3 {
            assert!(bound(ideal, &slot(&elem, j)), "{what} element {i} slot {j} missing from pl");
        }
    }
}

#[test]
fn test_add_vec_vpoly_by_vpoly() {
    let vec_a = vec_of(&ATyp::VPoly(1, 2), 2);
    let b_t = ATyp::VPoly(1, 1);
    let result_t = vec_of(&ATyp::VPoly(1, 2), 2);
    let (mut ideal, _, _, var_r) = three_vars(vec_a.clone(), b_t.clone(), result_t.clone(), Qualifier::Witness);
    let (a, b) = refs(&vec_a, &b_t);
    add_op(&mut ideal, &var_r, &a, &b, &result_t);
    assert_all_elem_slots(&ideal, &var_r, "Vec(VPoly)+VPoly");
}

#[test]
fn test_sub_vec_vpoly_by_vpoly() {
    let vec_a = vec_of(&ATyp::VPoly(1, 2), 2);
    let b_t = ATyp::VPoly(1, 1);
    let result_t = vec_of(&ATyp::VPoly(1, 2), 2);
    let (mut ideal, _, _, var_r) = three_vars(vec_a.clone(), b_t.clone(), result_t.clone(), Qualifier::Witness);
    let (a, b) = refs(&vec_a, &b_t);
    sub_op(&mut ideal, &var_r, &a, &b, &result_t);
    assert_all_elem_slots(&ideal, &var_r, "Vec(VPoly)-VPoly");
}

#[test]
fn test_add_vpoly_by_vec_vpoly() {
    let a_t = ATyp::VPoly(1, 2);
    let vec_b = vec_of(&ATyp::VPoly(1, 1), 2);
    let result_t = vec_of(&ATyp::VPoly(1, 2), 2);
    let (mut ideal, _, _, var_r) = three_vars(a_t.clone(), vec_b.clone(), result_t.clone(), Qualifier::Witness);
    let (a, b) = refs(&a_t, &vec_b);
    add_op(&mut ideal, &var_r, &a, &b, &result_t);
    assert_all_elem_slots(&ideal, &var_r, "VPoly+Vec(VPoly)");
}

#[test]
fn test_add_op_vpoly_mul_univariate_convolution() {
    let t1 = ATyp::VPoly(1, 1);
    let t2 = ATyp::VPoly(1, 2);
    let (mut ideal, var_a, var_b, _) = three_vars(t1.clone(), t1.clone(), ATyp::unit(), Qualifier::Witness);
    let var = Var::from_node(2, t2.clone(), Qualifier::Witness);
    let (a, b) = refs(&t1, &t1);
    mul_op(&mut ideal, &var, &a, &b, &t2);
    assert_eq!(ATyp::VPoly(1, 2).physical_len(), 3);
    let (a0, a1) = (pv(&slot(&var_a, 0)), pv(&slot(&var_a, 1)));
    let (b0, b1) = (pv(&slot(&var_b, 0)), pv(&slot(&var_b, 1)));
    assert_poly_eq(&stored(&ideal, &slot(&var, 0)), &a0.mul(&b0), "(*.x^0)");
    assert_poly_eq(&stored(&ideal, &slot(&var, 1)), &a0.mul(&b1).add(&a1.mul(&b0)), "(*.x^1)");
    assert_poly_eq(&stored(&ideal, &slot(&var, 2)), &a1.mul(&b1), "(*.x^2)");
}

#[test]
fn mul_test_add_op_vpoly_mul_multivariate_spotcheck() {
    let t1 = ATyp::VPoly(2, 1);
    let t2 = ATyp::VPoly(2, 2);
    let (mut ideal, var_a, var_b, _) = three_vars(t1.clone(), t1.clone(), ATyp::unit(), Qualifier::Witness);
    let var = Var::from_node(2, t2.clone(), Qualifier::Witness);
    let (a, b) = refs(&t1, &t1);
    mul_op(&mut ideal, &var, &a, &b, &t2);
    let r_idx = multi_indices(2, 2);
    let a_idx = multi_indices(2, 1);
    let pos_00 = r_idx.iter().position(|k| k == &vec![0, 0]).unwrap();
    let a_pos_00 = a_idx.iter().position(|k| k == &vec![0, 0]).unwrap();
    let a00 = pv(&slot(&var_a, a_pos_00));
    let b00 = pv(&slot(&var_b, a_pos_00));
    assert_poly_eq(&stored(&ideal, &slot(&var, pos_00)), &a00.mul(&b00), "VPoly(2,2) constant term mismatch");
    for i in 0..6 {
        assert!(bound(&ideal, &slot(&var, i)), "VPoly(2,2) slot {} missing", i);
    }
}

#[test]
fn test_add_op_mle_mul_basis_change() {
    let t1 = ATyp::Mle(1);
    let t2 = ATyp::VPoly(1, 2);
    let (mut ideal, var_u, var_v, _) = three_vars(t1.clone(), t1.clone(), ATyp::unit(), Qualifier::Witness);
    let var = Var::from_node(2, t2.clone(), Qualifier::Witness);
    let (a, b) = refs(&t1, &t1);
    mul_op(&mut ideal, &var, &a, &b, &t2);
    for i in 0..3 {
        assert!(bound(&ideal, &slot(&var, i)), "Mle×Mle slot {} missing", i);
    }
    let (u0, u1) = (pv(&slot(&var_u, 0)), pv(&slot(&var_u, 1)));
    let (v0, v1) = (pv(&slot(&var_v, 0)), pv(&slot(&var_v, 1)));
    assert_poly_eq(&stored(&ideal, &slot(&var, 0)), &u0.mul(&v0), "mle mul deg0");
    let two = Polynomial::lit(&Fe::from_u64(2));
    let expected_deg1 = u0.mul(&v1).add(&u1.mul(&v0)).sub(&two.mul(&u0.mul(&v0)));
    assert_poly_eq(&stored(&ideal, &slot(&var, 1)), &expected_deg1, "mle mul deg1");
    let expected_deg2 = u0.mul(&v0).sub(&u0.mul(&v1)).add(&u1.mul(&v1).sub(&u1.mul(&v0)));
    assert_poly_eq(&stored(&ideal, &slot(&var, 2)), &expected_deg2, "mle mul deg2");
}

#[test]
fn test_add_op_mle_vpoly_mul_univariate() {
    let (mut ideal, var_u, var_b, _) = three_vars(ATyp::Mle(1), ATyp::VPoly(1, 1), ATyp::unit(), Qualifier::Witness);
    let var = Var::from_node(2, ATyp::VPoly(1, 2), Qualifier::Witness);
    let (a, b) = refs(&ATyp::Mle(1), &ATyp::VPoly(1, 1));
    mul_op(&mut ideal, &var, &a, &b, &ATyp::VPoly(1, 2));
    let (u0, u1) = (pv(&slot(&var_u, 0)), pv(&slot(&var_u, 1)));
    let (b0, b1) = (pv(&slot(&var_b, 0)), pv(&slot(&var_b, 1)));
    assert_poly_eq(&stored(&ideal, &slot(&var, 0)), &u0.mul(&b0), "mle×vpoly deg0");
    let expected_deg1 = u1.mul(&b0).sub(&u0.mul(&b0)).add(&u0.mul(&b1));
    assert_poly_eq(&stored(&ideal, &slot(&var, 1)), &expected_deg1, "mle×vpoly deg1");
    let expected_deg2 = u1.mul(&b1).sub(&u0.mul(&b1));
    assert_poly_eq(&stored(&ideal, &slot(&var, 2)), &expected_deg2, "mle×vpoly deg2");
}

#[test]
fn test_add_op_vpoly_mle_mul_bivariate() {
    let (mut ideal, _, _, _) = three_vars(ATyp::VPoly(2, 1), ATyp::Mle(2), ATyp::unit(), Qualifier::Witness);
    let var = Var::from_node(2, ATyp::VPoly(2, 3), Qualifier::Witness);
    let (a, b) = refs(&ATyp::VPoly(2, 1), &ATyp::Mle(2));
    mul_op(&mut ideal, &var, &a, &b, &ATyp::VPoly(2, 3));
    let r_idx = multi_indices(2, 3);
    assert_eq!(r_idx.len(), 10, "VPoly(2,3) should have 10 multi-indices");
    for i in 0..10 {
        assert!(bound(&ideal, &slot(&var, i)), "VPoly×Mle slot {} missing", i);
    }
}

#[test]
fn test_add_op_mle_vpoly_mul_bivariate_coefficients() {
    let (mut ideal, var_u, var_b, _) = three_vars(ATyp::Mle(2), ATyp::VPoly(2, 1), ATyp::unit(), Qualifier::Witness);
    let var = Var::from_node(2, ATyp::VPoly(2, 3), Qualifier::Witness);
    let (a, b) = refs(&ATyp::Mle(2), &ATyp::VPoly(2, 1));
    mul_op(&mut ideal, &var, &a, &b, &ATyp::VPoly(2, 3));
    let r_idx = multi_indices(2, 3);
    let v_idx = multi_indices(2, 1);
    let pos_00 = r_idx.iter().position(|k| k == &vec![0, 0]).unwrap();
    let v_pos_00 = v_idx.iter().position(|k| k == &vec![0, 0]).unwrap();
    let u00 = pv(&slot(&var_u, 0));
    let b00 = pv(&slot(&var_b, v_pos_00));
    assert_poly_eq(&stored(&ideal, &slot(&var, pos_00)), &u00.mul(&b00), "bivariate constant term");
    let pos_10 = r_idx.iter().position(|k| k == &vec![1, 0]).unwrap();
    assert!(bound(&ideal, &slot(&var, pos_10)), "bivariate [1,0] slot missing");
    assert_eq!(r_idx.len(), 10);
    for i in 0..10 {
        assert!(bound(&ideal, &slot(&var, i)), "Mle×VPoly bivariate slot {} missing", i);
    }
}

#[test]
fn test_mul_scalar_poly_broadcast() {
    let (_, _, var_r, ideal) = scalar_poly_binop_ideal(false, false, true, ATyp::Uni(2));
    assert_eq!(ideal.generating_set.len(), 3, "Scalar * Uni(2) should produce 3 basis rows (one per coefficient)");
    for i in 0..3 {
        assert!(bound(&ideal, &slot(&var_r, i)), "Scalar*Uni(2) ideal slot {} missing from pl", i);
    }
}

#[test]
fn test_mul_vec_scalar_broadcast() {
    let s = ATyp::scalar();
    let v3 = vec_of(&s, 3);
    let (mut ideal, var_v, var_s, var_r) = three_vars(v3.clone(), s.clone(), v3.clone(), Qualifier::Instance);
    let (a, b) = refs(&v3, &s);
    mul_op(&mut ideal, &var_r, &a, &b, &v3);
    for i in 0..3 {
        let expected = pv(&slot(&var_v, i)).mul(&pv(&var_s));
        assert_poly_eq(&stored(&ideal, &slot(&var_r, i)), &expected, "vec*scalar slot mismatch");
    }
}

#[test]
fn pair_test_pair_vec() {
    let vec_g1 = vec_of(&ATyp::g1(), 2);
    let vec_g2 = vec_of(&ATyp::g2(), 2);
    let vec_gt = vec_of(&ATyp::gt(), 2);
    let (mut ideal, _, _, var_r) = three_vars(vec_g1.clone(), vec_g2.clone(), vec_gt.clone(), Qualifier::Private);
    let (a, b) = refs(&vec_g1, &vec_g2);
    pair_op(&mut ideal, &var_r, &a, &b);
    for i in 0..2 {
        assert!(bound(&ideal, &slot(&var_r, i)), "Pair Vec(G1,2)×Vec(G2,2) ideal element {} missing from pl", i);
    }
}

#[test]
fn test_pair_scalar_exact_poly() {
    let (mut ideal, var_a, var_b, var_r) = three_vars(ATyp::g1(), ATyp::g2(), ATyp::gt(), Qualifier::Private);
    let (a, b) = refs(&ATyp::g1(), &ATyp::g2());
    pair_op(&mut ideal, &var_r, &a, &b);
    let expected = pv(&var_a).mul(&pv(&var_b));
    assert!(stored(&ideal, &var_r).same(&expected), "pair(G1, G2) should bind pl[r] = var(a) * var(b)");
}

#[test]
fn test_pair_nested_vec_exact_poly() {
    let vv_g1 = vec_of(&vec_of(&ATyp::g1(), 2), 2);
    let vv_g2 = vec_of(&vec_of(&ATyp::g2(), 2), 2);
    let vv_gt = vec_of(&vec_of(&ATyp::gt(), 2), 2);
    let (mut ideal, var_a, var_b, var_r) = three_vars(vv_g1.clone(), vv_g2.clone(), vv_gt.clone(), Qualifier::Private);
    let (a, b) = refs(&vv_g1, &vv_g2);
    pair_op(&mut ideal, &var_r, &a, &b);
    for i in 0..2 {
        for j in 0..2 {
            let a_slot = slot(&slot(&var_a, i), j);
            let b_slot = slot(&slot(&var_b, i), j);
            let r_slot = slot(&slot(&var_r, i), j);
            let expected = pv(&a_slot).mul(&pv(&b_slot));
            assert!(stored(&ideal, &r_slot).same(&expected), "nested pair slot [{i}][{j}] mismatch");
        }
    }
}

#[test]
fn test_pair_vec_exact_poly() {
    let vec_g1 = vec_of(&ATyp::g1(), 2);
    let vec_g2 = vec_of(&ATyp::g2(), 2);
    let vec_gt = vec_of(&ATyp::gt(), 2);
    let (mut ideal, var_a, var_b, var_r) = three_vars(vec_g1.clone(), vec_g2.clone(), vec_gt.clone(), Qualifier::Private);
    let (a, b) = refs(&vec_g1, &vec_g2);
    pair_op(&mut ideal, &var_r, &a, &b);
    for i in 0..2 {
        let expected = pv(&slot(&var_a, i)).mul(&pv(&slot(&var_b, i)));
        assert!(stored(&ideal, &slot(&var_r, i)).same(&expected), "pair vec slot {i} mismatch");
    }
}

#[test]
fn test_pair_vec_scalar_broadcast_exact_poly() {
    let vec_g1 = vec_of(&ATyp::g1(), 2);
    let vec_gt = vec_of(&ATyp::gt(), 2);
    let (mut ideal, var_a, var_b, var_r) = three_vars(vec_g1.clone(), ATyp::g2(), vec_gt.clone(), Qualifier::Private);
    let (a, b) = refs(&vec_g1, &ATyp::g2());
    pair_op(&mut ideal, &var_r, &a, &b);
    for i in 0..2 {
        let expected = pv(&slot(&var_a, i)).mul(&pv(&var_b));
        assert!(stored(&ideal, &slot(&var_r, i)).same(&expected), "pair vec×scalar slot {i} mismatch");
    }
}

#[test]
fn add_of_literal_operands_binds_constant_sums() {
    let mut ideal = Ideal::new();
    let var_r = Var::from_node(5, ATyp::vec(&ATyp::scalar(), 2), Qualifier::Local);
    let t = ATyp::vec(&ATyp::scalar(), 2);
    let a = Operand::Value(Value::VecScalar(vec![Fe::from_u64(3), Fe::from_u64(4)]), t.clone());
    let b = Operand::Value(Value::VecScalar(vec![Fe::from_u64(10), Fe::from_u64(20)]), t.clone());
    add_op(&mut ideal, &var_r, &a, &b, &t);
    assert!(stored(&ideal, &slot(&var_r, 0)).same(&Polynomial::lit(&Fe::from_u64(13))));
    assert!(stored(&ideal, &slot(&var_r, 1)).same(&Polynomial::lit(&Fe::from_u64(24))));
    assert_eq!(ideal.generating_set.len(), 2);
}

#[test]
fn test_pair_scalar_vec_broadcast_exact_poly() {
    let vec_g2 = vec_of(&ATyp::g2(), 2);
    let vec_gt = vec_of(&ATyp::gt(), 2);
    let (mut ideal, var_a, var_b, var_r) = three_vars(ATyp::g1(), vec_g2.clone(), vec_gt.clone(), Qualifier::Private);
    let (a, b) = refs(&ATyp::g1(), &vec_g2);
    pair_op(&mut ideal, &var_r, &a, &b);
    for i in 0..2 {
        let expected = pv(&var_a).mul(&pv(&slot(&var_b, i)));
        assert!(stored(&ideal, &slot(&var_r, i)).same(&expected), "pair scalar×vec slot {i} mismatch");
    }
}
