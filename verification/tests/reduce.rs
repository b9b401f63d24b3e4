use analyses::arith::BinOp;
use analyses::field::Fe;
use analyses::ideal::Ideal;
use analyses::namespace::IdealBuilder;
use analyses::poly::Polynomial;
use analyses::poly_source::Operand;
use analyses::reduce::reduce_op;
use analyses::typ::ATyp;
use analyses::var::{Qualifier, Ref, Var};

fn pv(v: &Var) -> Polynomial {
    Polynomial::var(v)
}

fn at(v: &Var, path: &[usize]) -> Var {
    let mut w = v.clone();
    for &i in path {
        w = w.with_index(i).unwrap();
    }
    w
}

/// Both polynomials take the same value at several points that give every
/// variable occurring in either of them a pseudo-random value.
fn assert_poly_eq(got: &Polynomial, want: &Polynomial, what: &str) {
    let mut vars = got.vars();
    for v in want.vars() {
        if !vars.iter().any(|w| w.same(&v)) {
            vars.push(v);
        }
    }
    let mut seed: u64 = 0xbb67_ae85_84ca_a73b;
    for _ in 0..4 {
        let point: Vec<(Var, Fe)> = vars
            .iter()
            .map(|v| {
                seed = seed.wrapping_mul(6364136223846793005).wrapping_add(1442695040888963407);
                (v.clone(), Fe::from_u64(seed >> 11))
            })
            .collect();
        assert!(got.evaluate(&point).same(&want.evaluate(&point)), "{what}");
    }
}

/// The vector (node 0) registered in a fresh ideal, and the result.
fn vec_and_result(vec_t: &ATyp, res_t: &ATyp, register_result: bool) -> (Ideal, Var, Var) {
    let mut ideal = Ideal::new();
    let var_v = Var::from_node(0, vec_t.clone(), Qualifier::Witness);
    ideal.register(&var_v);
    let var = Var::from_node(1, res_t.clone(), Qualifier::Witness);
    if register_result {
        ideal.register(&var);
    }
    (ideal, var_v, var)
}

fn reduce(builder: &mut IdealBuilder, ideal: &mut Ideal, var: &Var, rop: BinOp, vec_t: &ATyp) {
    reduce_op(builder, ideal, var, rop, &Operand::Ref(Ref(0), vec_t.clone()));
}

#[test]
fn test_reduce_add_over_scalar_vec() {
    let mut builder = IdealBuilder::new();
    let vec_t = ATyp::Vec(Box::new(ATyp::scalar()), 3);
    let (mut ideal, var_v, var) = vec_and_result(&vec_t, &ATyp::scalar(), false);
    reduce(&mut builder, &mut ideal, &var, BinOp::Add, &vec_t);
    let expected = pv(&at(&var_v, &[0])).add(&pv(&at(&var_v, &[1])).add(&pv(&at(&var_v, &[2]))));
    assert_poly_eq(&ideal.pl_get(&var).unwrap(), &expected, "pl[ideal] should map to v0+v1+v2 (fast path)");
}

#[test]
fn test_reduce_add_over_poly_vec() {
    let mut builder = IdealBuilder::new();
    let poly_t = ATyp::Uni(2);
    let vec_t = ATyp::Vec(Box::new(poly_t.clone()), 3);
    let (mut ideal, var_v, var) = vec_and_result(&vec_t, &poly_t, false);
    reduce(&mut builder, &mut ideal, &var, BinOp::Add, &vec_t);
    for j in 0..3 {
        let v0j = at(&var_v, &[0, j]);
        let v1j = at(&var_v, &[1, j]);
        let v2j = at(&var_v, &[2, j]);
        let rj = at(&var, &[j]);
        assert!(
            ideal.generating_set.iter().any(|row| row.contains(&rj) && row.contains(&v2j)),
            "basis should contain final fold step for coefficient {j} (involves v[2][{j}] and ideal[{j}])"
        );
        assert!(
            ideal.generating_set.iter().any(|row| row.contains(&v0j) && row.contains(&v1j)),
            "basis should contain first fold step for coefficient {j} (involves v[0][{j}] and v[1][{j}])"
        );
    }
}

#[test]
fn reduce_mul_poly_accumulator_widens() {
    let mut builder = IdealBuilder::new();
    let vec_t = ATyp::Vec(Box::new(ATyp::Uni(1)), 3);
    let (mut ideal, _, var) = vec_and_result(&vec_t, &ATyp::Uni(3), true);
    reduce(&mut builder, &mut ideal, &var, BinOp::Mul, &vec_t);
    let high_slot = at(&var, &[3]);
    assert!(
        ideal.generating_set.iter().any(|row| row.contains(&high_slot)),
        "reduce(*) should lower the widened Uni(3) accumulator all the way to the final high-degree slot"
    );
}

#[test]
fn test_reduce_add_poly_vec_direct_fold() {
    let mut builder = IdealBuilder::new();
    let poly_t = ATyp::Uni(2);
    let vec_t = ATyp::Vec(Box::new(poly_t.clone()), 2);
    let (mut ideal, var_v, var) = vec_and_result(&vec_t, &poly_t, false);
    reduce(&mut builder, &mut ideal, &var, BinOp::Add, &vec_t);
    for j in 0..3 {
        let expected = pv(&at(&var_v, &[0, j])).add(&pv(&at(&var_v, &[1, j])));
        let stored = ideal.pl_get(&at(&var, &[j])).unwrap();
        assert_poly_eq(&stored, &expected, "reduce add poly slot mismatch");
    }
}

#[test]
fn test_reduce_add_nested_scalar_vec() {
    let mut builder = IdealBuilder::new();
    let inner_t = ATyp::Vec(Box::new(ATyp::scalar()), 2);
    let vec_t = ATyp::Vec(Box::new(inner_t.clone()), 3);
    let (mut ideal, var_v, var) = vec_and_result(&vec_t, &inner_t, false);
    reduce(&mut builder, &mut ideal, &var, BinOp::Add, &vec_t);
    for j in 0..2 {
        let expected = pv(&at(&var_v, &[0, j])).add(&pv(&at(&var_v, &[1, j])).add(&pv(&at(&var_v, &[2, j]))));
        assert_poly_eq(&ideal.pl_get(&at(&var, &[j])).unwrap(), &expected, "pl[ideal[j]] = v0[j]+v1[j]+v2[j] (fast path)");
    }
}

#[test]
fn test_reduce_mul_nested_scalar_vec() {
    let mut builder = IdealBuilder::new();
    let inner_t = ATyp::Vec(Box::new(ATyp::scalar()), 2);
    let vec_t = ATyp::Vec(Box::new(inner_t.clone()), 3);
    let (mut ideal, var_v, var) = vec_and_result(&vec_t, &inner_t, false);
    reduce(&mut builder, &mut ideal, &var, BinOp::Mul, &vec_t);
    for j in 0..2 {
        let expected = pv(&at(&var_v, &[0, j])).mul(&pv(&at(&var_v, &[1, j]))).mul(&pv(&at(&var_v, &[2, j])));
        assert_poly_eq(&ideal.pl_get(&at(&var, &[j])).unwrap(), &expected, "pl[ideal[j]] = v0[j]*v1[j]*v2[j] (fast path)");
    }
}

#[test]
fn test_reduce_mul_nested_poly_vec() {
    let mut builder = IdealBuilder::new();
    let inner_t = ATyp::Vec(Box::new(ATyp::Uni(1)), 2);
    let vec_t = ATyp::Vec(Box::new(inner_t.clone()), 2);
    let result_t = ATyp::Vec(Box::new(ATyp::Uni(2)), 2);
    let (mut ideal, var_v, var) = vec_and_result(&vec_t, &result_t, false);
    reduce(&mut builder, &mut ideal, &var, BinOp::Mul, &vec_t);
    for k in 0..2 {
        let v0_k0 = pv(&at(&var_v, &[0, k, 0]));
        let v0_k1 = pv(&at(&var_v, &[0, k, 1]));
        let v1_k0 = pv(&at(&var_v, &[1, k, 0]));
        let v1_k1 = pv(&at(&var_v, &[1, k, 1]));
        let expected_0 = v0_k0.mul(&v1_k0);
        let expected_1 = v0_k0.mul(&v1_k1).add(&v0_k1.mul(&v1_k0));
        let expected_2 = v0_k1.mul(&v1_k1);
        assert_poly_eq(&ideal.pl_get(&at(&var, &[k, 0])).unwrap(), &expected_0, "reduce mul nested poly coeff 0");
        assert_poly_eq(&ideal.pl_get(&at(&var, &[k, 1])).unwrap(), &expected_1, "reduce mul nested poly coeff 1");
        assert_poly_eq(&ideal.pl_get(&at(&var, &[k, 2])).unwrap(), &expected_2, "reduce mul nested poly coeff 2");
    }
}

/// Subtraction folds left to right: `v0 - v1 - v2`.
#[test]
fn reduce_sub_folds_left() {
    let mut builder = IdealBuilder::new();
    let vec_t = ATyp::Vec(Box::new(ATyp::scalar()), 3);
    let (mut ideal, var_v, var) = vec_and_result(&vec_t, &ATyp::scalar(), false);
    reduce(&mut builder, &mut ideal, &var, BinOp::Sub, &vec_t);
    let expected = pv(&at(&var_v, &[0])).sub(&pv(&at(&var_v, &[1]))).sub(&pv(&at(&var_v, &[2])));
    assert_poly_eq(&ideal.pl_get(&var).unwrap(), &expected, "left fold of differences");
}

/// Concatenation passes every slot through.
#[test]
fn reduce_concat_passes_slots() {
    let mut builder = IdealBuilder::new();
    let vec_t = ATyp::Vec(Box::new(ATyp::Vec(Box::new(ATyp::scalar()), 2)), 2);
    let res_t = ATyp::Vec(Box::new(ATyp::scalar()), 4);
    let (mut ideal, var_v, var) = vec_and_result(&vec_t, &res_t, false);
    reduce(&mut builder, &mut ideal, &var, BinOp::Concat, &vec_t);
    for i in 0..2 {
        for j in 0..2 {
            assert_poly_eq(&ideal.pl_get(&at(&var, &[2 * i + j])).unwrap(), &pv(&at(&var_v, &[i, j])), "concat slot");
        }
    }
}

/// A single element is linked through slot by slot.
#[test]
fn reduce_single_element_links_through() {
    let mut builder = IdealBuilder::new();
    let vec_t = ATyp::Vec(Box::new(ATyp::Uni(1)), 1);
    let (mut ideal, var_v, var) = vec_and_result(&vec_t, &ATyp::Uni(1), false);
    reduce(&mut builder, &mut ideal, &var, BinOp::Mul, &vec_t);
    for j in 0..2 {
        assert_poly_eq(&ideal.pl_get(&at(&var, &[j])).unwrap(), &pv(&at(&var_v, &[0, j])), "single element");
    }
    assert_eq!(ideal.var_order.len(), 0);
}

#[test]
fn test_reduce_div_scalar_uses_slot_wise_div() {
    let mut builder = IdealBuilder::new();
    let vec_t = ATyp::Vec(Box::new(ATyp::scalar()), 3);
    let (mut ideal, var_v, var) = vec_and_result(&vec_t, &ATyp::scalar(), false);
    reduce(&mut builder, &mut ideal, &var, BinOp::Div, &vec_t);
    let v0 = at(&var_v, &[0]);
    let v1 = at(&var_v, &[1]);
    let v2 = at(&var_v, &[2]);
    let step1 = ideal.generating_set.iter().filter(|row| row.contains(&var) && row.contains(&v2)).count();
    assert!(step1 > 0, "basis should contain final div constraint involving v[2] and ideal");
    let step0 = ideal.generating_set.iter().filter(|row| row.contains(&v0) && row.contains(&v1)).count();
    assert!(step0 > 0, "basis should contain first div constraint involving v[0] and v[1]");
}

#[test]
fn reduce_rem_poly_left_fold_semantics() {
    let mut builder = IdealBuilder::new();
    let elem_t = ATyp::Uni(3);
    let vec_t = ATyp::Vec(Box::new(elem_t), 3);
    let (mut ideal, _var_v, var) = vec_and_result(&vec_t, &ATyp::Uni(2), true);
    reduce(&mut builder, &mut ideal, &var, BinOp::Rem, &vec_t);
    assert_eq!(var.typ.physical_len(), 3, "Uni(3) % Uni(3) % Uni(3) is lowered as the left-fold remainder type Uni(2)");
    assert!(!ideal.generating_set.is_empty(), "reduce(%) should emit constraints for every polynomial fold step");
}

#[test]
fn test_reduce_div_uni_uses_handle_div_rem() {
    let mut builder = IdealBuilder::new();
    let vec_t = ATyp::Vec(Box::new(ATyp::Uni(3)), 2);
    let (mut ideal, _var_v, var) = vec_and_result(&vec_t, &ATyp::Uni(3), true);
    reduce(&mut builder, &mut ideal, &var, BinOp::Div, &vec_t);
    assert!(!ideal.generating_set.is_empty(), "Reduce Div on Uni should emit identity rows via handle_div_rem");
}

#[test]
fn reduce_div_accumulator_is_a_fresh_quotient() {
    let mut builder = IdealBuilder::new();
    let vec_t = ATyp::Vec(Box::new(ATyp::scalar()), 3);
    let (mut ideal, var_v, var) = vec_and_result(&vec_t, &ATyp::scalar(), false);
    reduce(&mut builder, &mut ideal, &var, BinOp::Div, &vec_t);
    let acc = ideal
        .var_order
        .iter()
        .find(|v| v.name.starts_with("__zippel::gb::reduce_div_acc"))
        .expect("one accumulator for the middle step")
        .clone();
    let want = pv(&at(&var_v, &[0])).sub(&pv(&at(&var_v, &[1])).mul(&pv(&acc)));
    let mut found = false;
    for row in ideal.generating_set.iter() {
        let mut vars = row.vars();
        for v in want.vars() {
            if !vars.iter().any(|w| w.same(&v)) {
                vars.push(v);
            }
        }
        let point: Vec<(Var, Fe)> = vars.iter().enumerate().map(|(k, v)| (v.clone(), Fe::from_u64(7 + 3 * k as u64))).collect();
        if row.evaluate(&point).same(&want.evaluate(&point)) {
            found = true;
        }
    }
    assert!(found, "the first step divides v[0] by v[1] into the accumulator");
}
