use analyses::eval::{evaluate_op, selected_eval_to_poly};
use analyses::field::Fe;
use analyses::ideal::Ideal;
use analyses::ops::{ref_op, value_op};
use analyses::poly::Polynomial;
use analyses::poly_source::Operand;
use analyses::typ::ATyp;
use analyses::value::Value;
use analyses::var::{Qualifier, Ref, Var};

fn fe(v: u64) -> Fe {
    Fe::from_u64(v)
}

fn has_var(p: &Polynomial, v: &Var) -> bool {
    p.vars().iter().any(|w| w.same(v))
}

/// Physical slot 0 of `v`: a base-type value is its own single slot.
fn slot0(v: &Var) -> Var {
    match v.typ {
        ATyp::Base(_) => v.clone(),
        _ => v.with_index(0).unwrap(),
    }
}

fn stored(ideal: &Ideal, v: &Var) -> Polynomial {
    ideal.pl_get(v).expect("slot bound")
}

fn eval_op(ideal: &mut Ideal, var: &Var, p: (usize, ATyp), xs: (usize, ATyp)) {
    let pts = Operand::Ref(Ref(xs.0), xs.1);
    evaluate_op(ideal, var, &Operand::Ref(Ref(p.0), p.1), None, Some(&pts)).unwrap();
}

#[test]
fn test_add_op_eval_univariate_batched() {
    let mut ideal = Ideal::new();
    let var_a = Var::from_node(0, ATyp::VPoly(1, 1), Qualifier::Private);
    ideal.register(&var_a);
    let var_xs = Var::from_node(1, ATyp::Uni(1), Qualifier::Private);
    ideal.register(&var_xs);
    let var = Var::from_node(2, ATyp::Uni(1), Qualifier::Private);
    eval_op(&mut ideal, &var, (0, ATyp::VPoly(1, 1)), (1, ATyp::Uni(1)));
    for i in 0..2 {
        assert!(ideal.pl_get(&var.with_index(i).unwrap()).is_some(), "uni batched ideal slot {} missing", i);
    }
    let a0 = var_a.with_index(0).unwrap();
    let a1 = var_a.with_index(1).unwrap();
    let x0 = var_xs.with_index(0).unwrap();
    let x1 = var_xs.with_index(1).unwrap();
    let slot0 = stored(&ideal, &var.with_index(0).unwrap());
    assert!(has_var(&slot0, &a0), "slot 0 missing a_0");
    assert!(has_var(&slot0, &a1), "slot 0 missing a_1");
    assert!(has_var(&slot0, &x0), "slot 0 missing xs[0]");
    assert!(!has_var(&slot0, &x1), "slot 0 should not contain xs[1]");
    let slot1 = stored(&ideal, &var.with_index(1).unwrap());
    assert!(has_var(&slot1, &a0), "slot 1 missing a_0");
    assert!(has_var(&slot1, &a1), "slot 1 missing a_1");
    assert!(has_var(&slot1, &x1), "slot 1 missing xs[1]");
    assert!(!has_var(&slot1, &x0), "slot 1 should not contain xs[0]");
}

#[test]
fn test_add_op_eval_univariate_batched_with_constants() {
    let mut ideal = Ideal::new();
    let var_vp = Var::from_node(0, ATyp::VPoly(1, 1), Qualifier::Private);
    ideal.register(&var_vp);
    value_op(&mut ideal, &var_vp, &Value::VecScalar(vec![fe(3), fe(5)]));
    let var_p = Var::from_node(1, ATyp::VPoly(1, 1), Qualifier::Private);
    ideal.register(&var_p);
    ref_op(&mut ideal, &var_p, Ref(0), &ATyp::VPoly(1, 1));
    let var_vxs = Var::from_node(2, ATyp::Uni(1), Qualifier::Private);
    ideal.register(&var_vxs);
    value_op(&mut ideal, &var_vxs, &Value::VecScalar(vec![fe(7), fe(11)]));
    let var_xs = Var::from_node(3, ATyp::Uni(1), Qualifier::Private);
    ideal.register(&var_xs);
    ref_op(&mut ideal, &var_xs, Ref(2), &ATyp::Uni(1));
    let var = Var::from_node(4, ATyp::Uni(1), Qualifier::Private);
    eval_op(&mut ideal, &var, (1, ATyp::VPoly(1, 1)), (3, ATyp::Uni(1)));
    let slot0 = stored(&ideal, &var.with_index(0).unwrap());
    let slot1 = stored(&ideal, &var.with_index(1).unwrap());
    assert!(!slot0.is_zero());
    assert!(!slot1.is_zero());
    assert_eq!(ideal.generating_set.len(), 10);
    // With the slot definitions substituted, the values are 3 + 5*7 and 3 + 5*11.
    let point = vec![
        (var_p.with_index(0).unwrap(), fe(3)),
        (var_p.with_index(1).unwrap(), fe(5)),
        (var_xs.with_index(0).unwrap(), fe(7)),
        (var_xs.with_index(1).unwrap(), fe(11)),
    ];
    assert!(slot0.evaluate(&point).same(&fe(38)));
    assert!(slot1.evaluate(&point).same(&fe(58)));
}

#[test]
fn test_add_op_eval_vpoly_full_multivariate() {
    let mut ideal = Ideal::new();
    ideal.register(&Var::from_node(0, ATyp::VPoly(2, 2), Qualifier::Private));
    ideal.register(&Var::from_node(1, ATyp::Uni(1), Qualifier::Private));
    let var = Var::from_node(2, ATyp::scalar(), Qualifier::Private);
    eval_op(&mut ideal, &var, (0, ATyp::VPoly(2, 2)), (1, ATyp::Uni(1)));
    assert!(ideal.pl_get(&slot0(&var)).is_some());
    let slot = stored(&ideal, &slot0(&var));
    let vars = slot.vars();
    assert!(vars.len() >= 6, "expected coef + eval vars; got {} vars", vars.len());
}

#[test]
fn test_add_op_eval_vpoly_partial_multivariate() {
    let mut ideal = Ideal::new();
    ideal.register(&Var::from_node(0, ATyp::VPoly(3, 1), Qualifier::Private));
    ideal.register(&Var::from_node(1, ATyp::Uni(0), Qualifier::Private));
    let var = Var::from_node(2, ATyp::VPoly(2, 1), Qualifier::Private);
    eval_op(&mut ideal, &var, (0, ATyp::VPoly(3, 1)), (1, ATyp::Uni(0)));
    assert_eq!(ATyp::VPoly(2, 1).physical_len(), 3);
    for i in 0..3 {
        assert!(ideal.pl_get(&var.with_index(i).unwrap()).is_some(), "partial vpoly eval slot {} missing", i);
    }
}

#[test]
fn test_add_op_eval_mle_full_multivariate() {
    let mut ideal = Ideal::new();
    ideal.register(&Var::from_node(0, ATyp::Mle(2), Qualifier::Private));
    ideal.register(&Var::from_node(1, ATyp::Uni(1), Qualifier::Private));
    let var = Var::from_node(2, ATyp::scalar(), Qualifier::Private);
    eval_op(&mut ideal, &var, (0, ATyp::Mle(2)), (1, ATyp::Uni(1)));
    assert!(ideal.pl_get(&slot0(&var)).is_some());
    let slot = stored(&ideal, &slot0(&var));
    let vars = slot.vars();
    assert!(vars.len() >= 4, "mle full eval got {} vars", vars.len());
}

#[test]
fn test_add_op_eval_mle_partial_multivariate() {
    let mut ideal = Ideal::new();
    ideal.register(&Var::from_node(0, ATyp::Mle(3), Qualifier::Private));
    ideal.register(&Var::from_node(1, ATyp::Uni(0), Qualifier::Private));
    let var = Var::from_node(2, ATyp::Mle(2), Qualifier::Private);
    eval_op(&mut ideal, &var, (0, ATyp::Mle(3)), (1, ATyp::Uni(0)));
    for i in 0..4 {
        assert!(ideal.pl_get(&var.with_index(i).unwrap()).is_some(), "partial mle eval slot {} missing", i);
    }
}

#[test]
fn mle_evaluation_at_a_boolean_point_reads_that_entry() {
    // An Mle(2) at (x0, x1) = (1, 0) is its entry at hypercube position 1.
    let mut ideal = Ideal::new();
    let p = Var::from_node(0, ATyp::Mle(2), Qualifier::Private);
    ideal.register(&p);
    let x = Var::from_node(1, ATyp::Uni(1), Qualifier::Private);
    ideal.register(&x);
    let var = Var::from_node(2, ATyp::scalar(), Qualifier::Private);
    eval_op(&mut ideal, &var, (0, ATyp::Mle(2)), (1, ATyp::Uni(1)));
    let slot = stored(&ideal, &var);
    let mut point: Vec<(Var, Fe)> = (0..4).map(|i| (p.with_index(i).unwrap(), fe(10 + i as u64))).collect();
    point.push((x.with_index(0).unwrap(), fe(1)));
    point.push((x.with_index(1).unwrap(), fe(0)));
    assert!(slot.evaluate(&point).same(&fe(11)));
}

#[test]
fn vpoly_selected_evaluation_keeps_one_variable_free() {
    // p(y, z) = 1 + 2y + 3z + 4y^2 + 5yz + 6z^2 with z fixed to 2 and y free:
    // coefficients in y are 1 + 6 + 24 = 31, 2 + 10 = 12, and 4.
    let mut ideal = Ideal::new();
    let p = Var::from_node(0, ATyp::VPoly(2, 2), Qualifier::Private);
    ideal.register(&p);
    let fixed = Var::from_node(1, ATyp::vec(&ATyp::scalar(), 1), Qualifier::Private);
    ideal.register(&fixed);
    let idx = analyses::combinatorics::multi_indices(2, 2);
    let coeff = |k: &Vec<usize>| -> u64 {
        match (k[0], k[1]) {
            (0, 0) => 1,
            (1, 0) => 2,
            (0, 1) => 3,
            (2, 0) => 4,
            (1, 1) => 5,
            _ => 6,
        }
    };
    let r = selected_eval_to_poly(&ideal, &Operand::Ref(Ref(0), ATyp::VPoly(2, 2)), 0, &Operand::Ref(Ref(1), ATyp::vec(&ATyp::scalar(), 1)))
        .unwrap();
    assert_eq!(r.len(), 3);
    let mut point: Vec<(Var, Fe)> = idx.iter().enumerate().map(|(i, k)| (p.with_index(i).unwrap(), fe(coeff(k)))).collect();
    point.push((fixed.with_index(0).unwrap(), fe(2)));
    assert!(r[0].evaluate(&point).same(&fe(31)));
    assert!(r[1].evaluate(&point).same(&fe(12)));
    assert!(r[2].evaluate(&point).same(&fe(4)));
}

#[test]
fn selected_evaluation_of_a_scalar_is_refused() {
    let mut ideal = Ideal::new();
    let var = Var::from_node(3, ATyp::Uni(1), Qualifier::Private);
    ideal.register(&Var::from_node(0, ATyp::scalar(), Qualifier::Private));
    ideal.register(&Var::from_node(1, ATyp::scalar(), Qualifier::Private));
    let fixed = Operand::Ref(Ref(1), ATyp::scalar());
    let r = evaluate_op(&mut ideal, &var, &Operand::Ref(Ref(0), ATyp::scalar()), Some(0), Some(&fixed));
    assert!(r.is_err());
    assert!(ideal.generating_set.is_empty());
    let r = evaluate_op(&mut ideal, &var, &Operand::Ref(Ref(0), ATyp::scalar()), Some(0), None);
    assert!(r.unwrap_err().contains("selected-evaluate-missing-points"));
}

/// A multilinear extension evaluated at a hypercube point gives back the
/// table entry at that point's position (bit 0 first).
#[test]
fn mle_at_cube_points_gives_table_entries() {
    let table: Vec<Polynomial> = [3u64, 5, 7, 11].iter().map(|v| Polynomial::lit(&fe(*v))).collect();
    for i in 0..4usize {
        let xs = vec![Polynomial::lit(&fe((i & 1) as u64)), Polynomial::lit(&fe((i >> 1) as u64))];
        let r = analyses::eval::eval_polys(&ATyp::Mle(2), &table, &xs);
        assert_eq!(r.len(), 1);
        let want = [3u64, 5, 7, 11][i];
        assert!(r[0].constant_value().expect("constant").same(&fe(want)), "entry {i}");
    }
}
