use analyses::arith::{add_sub_op_inner, mul_op_inner, BinOp};
use analyses::div::{div_rem_op, enforce_nonzero, resolved_constant, slot_wise_div};
use analyses::field::Fe;
use analyses::ideal::Ideal;
use analyses::namespace::IdealBuilder;
use analyses::poly::Polynomial;
use analyses::poly_source::{Operand, PolySource};
use analyses::typ::ATyp;
use analyses::var::{Qualifier, Ref, Var};

fn pv(v: &Var) -> Polynomial {
    Polynomial::var(v)
}

fn slot(v: &Var, i: usize) -> Var {
    v.with_index(i).unwrap()
}

fn lit(x: u64) -> Polynomial {
    Polynomial::lit(&Fe::from_u64(x))
}

fn op(node: usize, t: &ATyp) -> Operand {
    Operand::Ref(Ref(node), t.clone())
}

/// Every variable of either polynomial, once.
fn union_vars(a: &Polynomial, b: &Polynomial) -> Vec<Var> {
    let mut vars = a.vars();
    for v in b.vars() {
        if !vars.iter().any(|w| w.same(&v)) {
            vars.push(v);
        }
    }
    vars
}

/// Both polynomials take the same value at several pseudo-random points.
fn poly_eq(got: &Polynomial, want: &Polynomial) -> bool {
    let vars = union_vars(got, want);
    let mut seed: u64 = 0x3c6e_f372_fe94_f82b;
    for _ in 0..4 {
        let point: Vec<(Var, Fe)> = vars
            .iter()
            .map(|v| {
                seed = seed.wrapping_mul(6364136223846793005).wrapping_add(1442695040888963407);
                (v.clone(), Fe::from_u64(seed >> 11))
            })
            .collect();
        if !got.evaluate(&point).same(&want.evaluate(&point)) {
            return false;
        }
    }
    true
}

fn has_row(ideal: &Ideal, want: &Polynomial) -> bool {
    ideal.generating_set.iter().any(|row| poly_eq(row, want))
}

fn assert_poly_eq(got: &Polynomial, want: &Polynomial, what: &str) {
    assert!(poly_eq(got, want), "{what}");
}

/// Every variable occurring in a generator, once.
fn basis_vars(ideal: &Ideal) -> Vec<Var> {
    let mut out: Vec<Var> = Vec::new();
    for row in ideal.generating_set.iter() {
        for v in row.vars() {
            if !out.iter().any(|w| w.same(&v)) {
                out.push(v);
            }
        }
    }
    out
}

/// Operands `a` (node 0) and `b` (node 1) registered in a fresh ideal.
fn operands(ta: &ATyp, tb: &ATyp) -> (Ideal, Var, Var) {
    let mut ideal = Ideal::new();
    let var_a = Var::from_node(0, ta.clone(), Qualifier::Witness);
    let var_b = Var::from_node(1, tb.clone(), Qualifier::Witness);
    ideal.register(&var_a);
    ideal.register(&var_b);
    (ideal, var_a, var_b)
}

fn divide(builder: &mut IdealBuilder, ideal: &mut Ideal, target: &Var, ta: &ATyp, tb: &ATyp, is_rem: bool) {
    div_rem_op(builder, ideal, target, &op(0, ta), &op(1, tb), is_rem);
}

#[test]
fn test_add_op_uni_div_univariate_identity() {
    let mut builder = IdealBuilder::new();
    let (mut ideal, var_a, var_b) = operands(&ATyp::Uni(2), &ATyp::Uni(1));
    let basis_before = ideal.generating_set.len();
    let var = Var::from_node(2, ATyp::Uni(2), Qualifier::Witness);
    divide(&mut builder, &mut ideal, &var, &ATyp::Uni(2), &ATyp::Uni(1), false);

    let q_wit = Var::from_var("__zippel::gb::div_q::0".to_string(), usize::MAX, ATyp::Uni(2), Qualifier::Local);
    let r_wit = Var::from_var("__zippel::gb::div_r::0".to_string(), usize::MAX - 1, ATyp::Uni(0), Qualifier::Local);
    let (a0, a1, a2) = (slot(&var_a, 0), slot(&var_a, 1), slot(&var_a, 2));
    let (b0, b1) = (slot(&var_b, 0), slot(&var_b, 1));
    let (q0, q1, q2) = (slot(&q_wit, 0), slot(&q_wit, 1), slot(&q_wit, 2));
    let r0 = slot(&r_wit, 0);

    assert_eq!(ideal.generating_set.len() - basis_before, 14, "expected 4 identity + 7 degree-chain + 3 linking rows");

    let zero = Polynomial::zero();
    let expected_k0 = pv(&a0).sub(&pv(&b0).mul(&pv(&q0)).add(&pv(&r0)));
    let expected_k1 = pv(&a1).sub(&pv(&b0).mul(&pv(&q1)).add(&pv(&b1).mul(&pv(&q0))));
    let expected_k2 = pv(&a2).sub(&pv(&b0).mul(&pv(&q2)).add(&pv(&b1).mul(&pv(&q1))));
    let expected_k3 = zero.sub(&pv(&b1).mul(&pv(&q2)));
    for (lbl, expected) in [("k0", &expected_k0), ("k1", &expected_k1), ("k2", &expected_k2), ("k3", &expected_k3)] {
        assert!(has_row(&ideal, expected), "basis missing identity row {}", lbl);
    }
    for (j, q_slot) in [(0, &q0), (1, &q1), (2, &q2)] {
        let got = ideal.pl_get(&slot(&var, j)).expect("target slot defined");
        assert!(got.same(&pv(q_slot)), "pl[ideal[{j}]] should alias q_wit[{j}]");
    }
    for (j, q_slot) in [(0, &q0), (1, &q1), (2, &q2)] {
        let link = pv(q_slot).sub(&pv(&slot(&var, j)));
        assert!(has_row(&ideal, &link), "basis missing link row q_wit[{j}] - ideal[{j}]");
    }
}

#[test]
fn polynomial_division_declared_constant_bound_assignment() {
    let mut builder = IdealBuilder::new();
    let (mut ideal, var_a, var_b) = operands(&ATyp::Uni(4), &ATyp::Uni(2));
    let target = Var::from_node(2, ATyp::Uni(4), Qualifier::Witness);
    ideal.register(&target);
    let before = ideal.generating_set.len();
    divide(&mut builder, &mut ideal, &target, &ATyp::Uni(4), &ATyp::Uni(2), false);

    assert_eq!(ideal.generating_set.len() - before, 23, "expected 7 identity + 11 degree-chain + 5 linking rows");

    let vars = basis_vars(&ideal);
    let slot_indices = |prefix: &str| {
        let mut idx: Vec<usize> = Vec::new();
        for v in vars.iter() {
            if v.name.starts_with(prefix) {
                let i = *v.index.last().expect("witness slots are indexed");
                if !idx.contains(&i) {
                    idx.push(i);
                }
            }
        }
        idx.len()
    };
    assert_eq!(slot_indices("__zippel::gb::div_q"), 5, "the quotient witness must expose all five declared slots");
    assert_eq!(slot_indices("__zippel::gb::div_r"), 2, "the remainder witness is Uni(mb - 1) = Uni(1)");

    let (zero, one) = (0u64, 1u64);
    let a_coeffs = [zero, zero, zero, zero, one];
    let b_coeffs = [one, zero, zero];
    let q_coeffs = [zero, zero, zero, zero, one];
    let r_coeffs = [zero, zero];
    let c_by_counter = [zero, zero, one];
    let inv_by_counter = [zero, zero, one];
    let s_by_counter = [zero, one];
    let counter = |name: &str| -> usize {
        name.rsplit("::").next().and_then(|c| c.parse::<usize>().ok()).expect("sentinel names end in a mint counter")
    };
    let slot_of = |v: &Var| *v.index.last().expect("value slots are indexed");
    let mut point: Vec<(Var, Fe)> = Vec::new();
    for v in vars.iter() {
        let value = if v.name.starts_with("__zippel::gb::div_q") {
            q_coeffs[slot_of(v)]
        } else if v.name.starts_with("__zippel::gb::div_r") {
            r_coeffs[slot_of(v)]
        } else if v.name.starts_with("__zippel::gb::div_c") {
            c_by_counter[counter(&v.name)]
        } else if v.name.starts_with("__zippel::gb::div_inv") {
            inv_by_counter[counter(&v.name)]
        } else if v.name.starts_with("__zippel::gb::div_s") {
            s_by_counter[counter(&v.name)]
        } else if v.reference == var_a.reference {
            a_coeffs[slot_of(v)]
        } else if v.reference == var_b.reference {
            b_coeffs[slot_of(v)]
        } else if v.reference == target.reference {
            q_coeffs[slot_of(v)]
        } else {
            panic!("unexpected variable {} in the division basis", v.name);
        };
        point.push((v.clone(), Fe::from_u64(value)));
    }
    for row in ideal.generating_set.iter() {
        assert!(row.evaluate(&point).is_zero(), "honest X^4 / 1 assignment must satisfy every row");
    }
}

#[test]
fn test_add_op_uni_rem_univariate_identity() {
    let mut builder = IdealBuilder::new();
    let (mut ideal, _var_a, _var_b) = operands(&ATyp::Uni(2), &ATyp::Uni(1));
    let basis_before = ideal.generating_set.len();
    let var = Var::from_node(2, ATyp::Uni(0), Qualifier::Witness);
    divide(&mut builder, &mut ideal, &var, &ATyp::Uni(2), &ATyp::Uni(1), true);

    let r_wit = Var::from_var("__zippel::gb::div_r::0".to_string(), usize::MAX - 1, ATyp::Uni(0), Qualifier::Local);
    let r0 = slot(&r_wit, 0);
    assert_eq!(ideal.generating_set.len() - basis_before, 12, "expected 4 identity + 7 degree-chain + 1 linking row");
    let got = ideal.pl_get(&slot(&var, 0)).expect("target slot defined");
    assert!(got.same(&pv(&r0)), "pl[ideal[0]] should alias r_wit[0]");
    let link = pv(&r0).sub(&pv(&slot(&var, 0)));
    assert!(has_row(&ideal, &link), "basis missing link row r_wit[0] - ideal[0]");
}

#[test]
fn test_add_op_uni_div_constant_enforces_nonzero_divisor() {
    let mut builder = IdealBuilder::new();
    let (mut ideal, _var_a, var_b) = operands(&ATyp::Uni(1), &ATyp::Uni(0));
    let before = ideal.generating_set.len();
    let target = Var::from_node(2, ATyp::Uni(1), Qualifier::Witness);
    divide(&mut builder, &mut ideal, &target, &ATyp::Uni(1), &ATyp::Uni(0), false);
    assert_eq!(
        ideal.generating_set.len() - before,
        6,
        "constant polynomial division should emit identity, zero remainder, links, and a nonzero-divisor row"
    );
    let b0 = slot(&var_b, 0);
    assert!(
        ideal.generating_set.iter().any(|row| {
            row.contains(&b0) && row.vars().iter().any(|v| v.name.starts_with("__zippel::gb::div_inv"))
        }),
        "constant polynomial division should enforce `b[0] * inv - 1 = 0`"
    );
}

#[test]
fn test_add_op_div_then_rem_emits_fresh_witnesses() {
    let mut builder = IdealBuilder::new();
    let (mut ideal, _var_a, _var_b) = operands(&ATyp::Uni(2), &ATyp::Uni(1));
    let basis_before_div = ideal.generating_set.len();
    let q_res = Var::from_node(2, ATyp::Uni(2), Qualifier::Witness);
    divide(&mut builder, &mut ideal, &q_res, &ATyp::Uni(2), &ATyp::Uni(1), false);
    let after_div = ideal.generating_set.len();
    let r_res = Var::from_node(3, ATyp::Uni(0), Qualifier::Witness);
    divide(&mut builder, &mut ideal, &r_res, &ATyp::Uni(2), &ATyp::Uni(1), true);
    let after_rem = ideal.generating_set.len();
    assert_eq!(after_div - basis_before_div, 14, "Div emitted 4 identity + 7 degree-chain + 3 linking rows");
    assert_eq!(after_rem - after_div, 12, "Rem should emit fresh identity + degree-chain + 1 linking row");
}

#[test]
fn test_add_op_div_rem_equivalent_named_derived_operands() {
    let mut ideal = Ideal::new();
    let mut builder = IdealBuilder::new();
    for (idx, name, typ) in [(0, "a", ATyp::Uni(1)), (1, "b", ATyp::Uni(1)), (2, "c", ATyp::Uni(2)), (3, "d", ATyp::Uni(1))] {
        let var = Var::from_var(name.to_string(), idx, typ, Qualifier::Instance);
        ideal.register(&var);
    }
    let mut add_derived_operand = |ideal: &mut Ideal, mul_idx: usize, sub_idx: usize| {
        let mul_ref = Var::from_node(mul_idx, ATyp::Uni(2), Qualifier::Witness);
        ideal.register(&mul_ref);
        let x = PolySource::from_ref_vars(ideal, &op(0, &ATyp::Uni(1)));
        let y = PolySource::from_ref_vars(ideal, &op(1, &ATyp::Uni(1)));
        mul_op_inner(ideal, &mul_ref, &x, &y, &ATyp::Uni(2));
        let sub_ref = Var::from_node(sub_idx, ATyp::Uni(2), Qualifier::Witness);
        ideal.register(&sub_ref);
        let m = PolySource::from_ref_vars(ideal, &op(mul_idx, &ATyp::Uni(2)));
        let c = PolySource::from_ref_vars(ideal, &op(2, &ATyp::Uni(2)));
        add_sub_op_inner(ideal, &sub_ref, &m, &c, &ATyp::Uni(2), BinOp::Sub);
    };
    add_derived_operand(&mut ideal, 10, 11);
    add_derived_operand(&mut ideal, 12, 13);

    let q = Var::from_node(20, ATyp::Uni(2), Qualifier::Witness);
    div_rem_op(&mut builder, &mut ideal, &q, &op(11, &ATyp::Uni(2)), &op(3, &ATyp::Uni(1)), false);
    let r = Var::from_node(21, ATyp::Uni(0), Qualifier::Witness);
    div_rem_op(&mut builder, &mut ideal, &r, &op(13, &ATyp::Uni(2)), &op(3, &ATyp::Uni(1)), true);
    assert!(!ideal.generating_set.is_empty(), "Div and Rem over equivalent derived operands should emit rows");
}

#[test]
fn test_add_op_div_scalar_fallback() {
    let mut builder = IdealBuilder::new();
    let (mut ideal, var_a, var_b) = operands(&ATyp::scalar(), &ATyp::scalar());
    let basis_before = ideal.generating_set.len();
    let var = Var::from_node(2, ATyp::scalar(), Qualifier::Witness);
    divide(&mut builder, &mut ideal, &var, &ATyp::scalar(), &ATyp::scalar(), false);
    assert_eq!(ideal.generating_set.len() - basis_before, 2, "scalar fallback emits a nonzero-divisor row and a quotient row");
    let expected = pv(&var_a).sub(&pv(&var_b).mul(&pv(&var)));
    assert!(has_row(&ideal, &expected), "scalar fallback row should be `a - b · var_poly(ideal)`");
    let inv = Var::from_var("__zippel::gb::div_inv::0".to_string(), usize::MAX, ATyp::scalar(), Qualifier::Local);
    let expected_nonzero = pv(&var_b).mul(&pv(&inv)).sub(&lit(1));
    assert!(has_row(&ideal, &expected_nonzero), "scalar fallback should enforce `b * inv - 1 = 0`");
}

#[test]
fn test_add_op_scalar_div_vec_scalar_recurses_without_div_wit() {
    let mut builder = IdealBuilder::new();
    let vec2 = ATyp::Vec(Box::new(ATyp::scalar()), 2);
    let (mut ideal, var_a, var_b) = operands(&ATyp::scalar(), &vec2);
    let var = Var::from_node(2, vec2.clone(), Qualifier::Witness);
    let before = ideal.generating_set.len();
    divide(&mut builder, &mut ideal, &var, &ATyp::scalar(), &vec2, false);
    assert_eq!(ideal.generating_set.len() - before, 4);
    for i in 0..2 {
        let expected = pv(&var_a).sub(&pv(&slot(&var_b, i)).mul(&pv(&slot(&var, i))));
        assert!(has_row(&ideal, &expected), "basis missing scalar/vector div row {i}");
    }
}

#[test]
fn test_add_op_uni_div_scalar_slot_wise_without_div_wit() {
    let mut builder = IdealBuilder::new();
    let (mut ideal, _var_a, _var_b) = operands(&ATyp::Uni(2), &ATyp::scalar());
    let var = Var::from_node(2, ATyp::Uni(2), Qualifier::Witness);
    let before = ideal.generating_set.len();
    divide(&mut builder, &mut ideal, &var, &ATyp::Uni(2), &ATyp::scalar(), false);
    assert_eq!(ideal.generating_set.len() - before, 4);
}

#[test]
fn test_add_op_mle_div_scalar_slot_wise_without_div_wit() {
    let mut builder = IdealBuilder::new();
    let (mut ideal, _var_a, _var_b) = operands(&ATyp::Mle(2), &ATyp::scalar());
    let var = Var::from_node(2, ATyp::Mle(2), Qualifier::Witness);
    let before = ideal.generating_set.len();
    divide(&mut builder, &mut ideal, &var, &ATyp::Mle(2), &ATyp::scalar(), false);
    assert_eq!(ideal.generating_set.len() - before, 5);
}

#[test]
fn test_add_op_vector_uni_div_rem_emits_fresh_witnesses() {
    let mut builder = IdealBuilder::new();
    let vec_typ = ATyp::Vec(Box::new(ATyp::Uni(2)), 2);
    let div_typ = ATyp::Vec(Box::new(ATyp::Uni(2)), 2);
    let rem_typ = ATyp::Vec(Box::new(ATyp::Uni(1)), 2);
    let (mut ideal, _va, _vb) = operands(&vec_typ, &vec_typ);
    divide(&mut builder, &mut ideal, &Var::from_node(2, div_typ, Qualifier::Witness), &vec_typ, &vec_typ, false);
    let after_div = ideal.generating_set.len();
    divide(&mut builder, &mut ideal, &Var::from_node(3, rem_typ, Qualifier::Witness), &vec_typ, &vec_typ, true);
    assert_eq!(
        ideal.generating_set.len() - after_div,
        36,
        "vector Rem should emit fresh identity + degree-chain + linking rows per element (2 elements × 18 = 36)"
    );
}

#[test]
fn test_add_op_div_scalar_slot_wise() {
    let mut builder = IdealBuilder::new();
    let (mut ideal, var_a, var_b) = operands(&ATyp::scalar(), &ATyp::scalar());
    let var_ideal = Var::from_node(2, ATyp::scalar(), Qualifier::Witness);
    ideal.register(&var_ideal);
    divide(&mut builder, &mut ideal, &var_ideal, &ATyp::scalar(), &ATyp::scalar(), false);
    let expected = pv(&var_a).sub(&pv(&var_b).mul(&pv(&var_ideal)));
    assert!(has_row(&ideal, &expected), "basis should contain a - b*var_poly(var)");
}

#[test]
fn poly_rem_smaller_dividend_uses_general_encoding() {
    let mut builder = IdealBuilder::new();
    let (mut ideal, _var_a, var_b) = operands(&ATyp::Uni(1), &ATyp::Uni(3));
    let var = Var::from_node(2, ATyp::Uni(2), Qualifier::Witness);
    ideal.register(&var);
    let before = ideal.generating_set.len();
    divide(&mut builder, &mut ideal, &var, &ATyp::Uni(1), &ATyp::Uni(3), true);
    assert_eq!(ideal.generating_set.len() - before, 23, "smaller declared dividend bound must still use the general encoding");

    let q_wit = Var::from_var("__zippel::gb::div_q::0".to_string(), usize::MAX, ATyp::Uni(1), Qualifier::Local);
    let r_wit = Var::from_var("__zippel::gb::div_r::0".to_string(), usize::MAX - 1, ATyp::Uni(2), Qualifier::Local);
    for i in 0..3 {
        let got = ideal.pl_get(&slot(&var, i)).expect("target slot defined");
        assert!(got.same(&pv(&slot(&r_wit, i))), "remainder slot {i} should alias div_r, not pass the dividend through");
    }
    let vars = basis_vars(&ideal);
    for prefix in ["__zippel::gb::div_q", "__zippel::gb::div_r", "__zippel::gb::div_c", "__zippel::gb::div_inv", "__zippel::gb::div_s"] {
        assert!(vars.iter().any(|v| v.name.starts_with(prefix)), "general encoding should emit {prefix} witnesses");
    }
    let zero = Polynomial::zero();
    let expected_top = zero.sub(&pv(&slot(&var_b, 3)).mul(&pv(&slot(&q_wit, 1))));
    assert!(has_row(&ideal, &expected_top), "basis missing the k = ma + mb identity row");
}

#[test]
fn test_div_vec_uni_by_uni() {
    let mut builder = IdealBuilder::new();
    let vec_a = ATyp::Vec(Box::new(ATyp::Uni(2)), 2);
    let div_t = ATyp::Uni(1);
    let (mut ideal, _va, _vb) = operands(&vec_a, &div_t);
    let result_t = ATyp::Vec(Box::new(ATyp::Uni(2)), 2);
    let var_r = Var::from_node(2, result_t, Qualifier::Witness);
    ideal.register(&var_r);
    divide(&mut builder, &mut ideal, &var_r, &vec_a, &div_t, false);
    for i in 0..2 {
        let elem = slot(&var_r, i);
        for j in 0..3 {
            assert!(ideal.pl_get(&slot(&elem, j)).is_some(), "Vec(Uni)/Uni element {i} slot {j} missing from pl");
        }
    }
}

#[test]
fn test_div_uni_by_vec_uni() {
    let mut builder = IdealBuilder::new();
    let dividend_t = ATyp::Uni(2);
    let vec_b = ATyp::Vec(Box::new(ATyp::Uni(1)), 2);
    let (mut ideal, _va, _vb) = operands(&dividend_t, &vec_b);
    let result_t = ATyp::Vec(Box::new(ATyp::Uni(2)), 2);
    let var_r = Var::from_node(2, result_t, Qualifier::Witness);
    ideal.register(&var_r);
    divide(&mut builder, &mut ideal, &var_r, &dividend_t, &vec_b, false);
    for i in 0..2 {
        let elem = slot(&var_r, i);
        for j in 0..3 {
            assert!(ideal.pl_get(&slot(&elem, j)).is_some(), "Uni/Vec(Uni) element {i} slot {j} missing from pl");
        }
    }
}

#[test]
fn slot_wise_div_emits_one_row_per_slot() {
    let (mut ideal, var_a, var_b) = operands(&ATyp::Uni(1), &ATyp::Uni(1));
    let target = Var::from_node(2, ATyp::Uni(1), Qualifier::Witness);
    let a_polys = vec![pv(&slot(&var_a, 0)), pv(&slot(&var_a, 1))];
    let b_polys = vec![pv(&slot(&var_b, 0)), pv(&slot(&var_b, 1))];
    slot_wise_div(&mut ideal, &target, &a_polys, &b_polys);
    assert_eq!(ideal.generating_set.len(), 2);
    for j in 0..2 {
        let want = pv(&slot(&var_a, j)).sub(&pv(&slot(&var_b, j)).mul(&pv(&slot(&target, j))));
        assert_poly_eq(&ideal.generating_set[j], &want, "row a[j] - b[j] * t[j]");
    }
    assert!(ideal.pl_get(&slot(&target, 0)).is_none(), "slot-wise division defines nothing");
}

#[test]
fn known_zero_denominator_makes_the_ideal_whole() {
    let mut builder = IdealBuilder::new();
    let mut ideal = Ideal::new();
    enforce_nonzero(&mut builder, &mut ideal, &lit(0).mul(&lit(5)));
    assert_eq!(ideal.generating_set.len(), 1);
    assert!(ideal.generating_set[0].same(&lit(1)), "a zero denominator adds the generator 1");
    assert!(ideal.var_order.is_empty(), "no inverse witness for a constant denominator");
}

#[test]
fn known_nonzero_denominator_adds_nothing() {
    let mut builder = IdealBuilder::new();
    let mut ideal = Ideal::new();
    enforce_nonzero(&mut builder, &mut ideal, &lit(3));
    assert!(ideal.generating_set.is_empty());
    assert!(ideal.var_order.is_empty());
}

#[test]
fn defined_denominator_resolves_through_definitions() {
    let mut ideal = Ideal::new();
    let x = Var::from_node(0, ATyp::scalar(), Qualifier::Witness);
    let y = Var::from_node(1, ATyp::scalar(), Qualifier::Witness);
    ideal.pl_insert(&x, &pv(&y).add(&lit(2)));
    ideal.pl_insert(&y, &lit(5));
    let c = resolved_constant(&pv(&x).mul(&lit(3)), &ideal).expect("x resolves through y");
    assert!(c.same(&Fe::from_u64(21)), "(5 + 2) * 3");
    let z = Var::from_node(2, ATyp::scalar(), Qualifier::Witness);
    assert!(resolved_constant(&pv(&z), &ideal).is_none(), "an undefined variable stays dynamic");
    let mut builder = IdealBuilder::new();
    enforce_nonzero(&mut builder, &mut ideal, &pv(&x));
    assert!(ideal.generating_set.is_empty(), "a denominator defined as a nonzero constant needs no row");
}

#[test]
fn dynamic_denominator_gets_fresh_inverse() {
    let mut builder = IdealBuilder::new();
    let mut ideal = Ideal::new();
    let d = Var::from_node(0, ATyp::scalar(), Qualifier::Witness);
    enforce_nonzero(&mut builder, &mut ideal, &pv(&d));
    assert_eq!(ideal.var_order.len(), 1);
    let inv = &ideal.var_order[0];
    assert_eq!(inv.name, "__zippel::gb::div_inv::0");
    let want = pv(&d).mul(&pv(inv)).sub(&lit(1));
    assert_poly_eq(&ideal.generating_set[0], &want, "d * inv - 1");
}

#[test]
fn known_nonzero_lead_skips_the_degree_chain() {
    let mut builder = IdealBuilder::new();
    let (mut ideal, _var_a, var_b) = operands(&ATyp::Uni(2), &ATyp::Uni(1));
    ideal.pl_insert(&slot(&var_b, 1), &lit(4));
    let var = Var::from_node(2, ATyp::Uni(2), Qualifier::Witness);
    let before = ideal.generating_set.len();
    divide(&mut builder, &mut ideal, &var, &ATyp::Uni(2), &ATyp::Uni(1), false);
    assert_eq!(ideal.generating_set.len() - before, 4 + 3, "identity rows and links only");
    assert!(!basis_vars(&ideal).iter().any(|v| v.name.starts_with("__zippel::gb::div_c")));
}
