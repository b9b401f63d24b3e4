use analyses::field::Fe;
use analyses::ideal::Ideal;
use analyses::interp::{interpolate_op, lagrange_basis};
use analyses::namespace::IdealBuilder;
use analyses::ops::value_op;
use analyses::poly::Polynomial;
use analyses::poly_source::Operand;
use analyses::typ::ATyp;
use analyses::value::Value;
use analyses::var::{Qualifier, Ref, Var};

fn fe(v: u64) -> Fe {
    Fe::from_u64(v)
}

fn pv(v: &Var) -> Polynomial {
    Polynomial::var(v)
}

fn stored(ideal: &Ideal, v: &Var) -> Polynomial {
    ideal.pl_get(v).expect("slot bound")
}

fn elem0(v: &Var, i: usize) -> Var {
    slot0(&v.with_index(i).unwrap())
}

/// Physical slot 0 of `v`: a base-type value is its own single slot.
fn slot0(v: &Var) -> Var {
    match v.typ {
        ATyp::Base(_) => v.clone(),
        _ => v.with_index(0).unwrap(),
    }
}


/// Both polynomials take the same value at several pseudo-random points.
fn assert_poly_eq(got: &Polynomial, want: &Polynomial, what: &str) {
    let mut vars = got.vars();
    for v in want.vars() {
        if !vars.iter().any(|w| w.same(&v)) {
            vars.push(v);
        }
    }
    let mut seed: u64 = 0x2545_f491_4f6c_dd1d;
    for _ in 0..4 {
        let point: Vec<(Var, Fe)> = vars
            .iter()
            .map(|v| {
                seed = seed.wrapping_mul(6364136223846793005).wrapping_add(1442695040888963407);
                (v.clone(), fe(seed >> 11))
            })
            .collect();
        assert!(got.evaluate(&point).same(&want.evaluate(&point)), "{what}");
    }
}

#[test]
fn test_lagrange_basis_2_points() {
    let xs: Vec<Fe> = [0u64, 1].iter().map(|&x| fe(x)).collect();
    let lag = lagrange_basis(&xs).unwrap();
    assert_eq!(lag.len(), 2);
    assert!(lag[0][0].same(&Fe::one()));
    assert!(lag[0][1].same(&Fe::one().neg()));
    assert!(lag[1][0].same(&Fe::zero()));
    assert!(lag[1][1].same(&Fe::one()));
}

#[test]
fn test_lagrange_basis_3_points() {
    let xs: Vec<Fe> = [1u64, 2, 3].iter().map(|&x| fe(x)).collect();
    let lag = lagrange_basis(&xs).unwrap();
    assert_eq!(lag.len(), 3, "3 points → 3 basis polynomials");
    for l in &lag {
        assert_eq!(l.len(), 3, "each L_i has degree ≤ 2 → 3 coefficients");
    }
    let two_inv = fe(2).inverse().unwrap();
    assert!(lag[0][0].same(&fe(3)));
    assert!(lag[0][1].same(&fe(5).mul(&two_inv.neg())));
    assert!(lag[0][2].same(&two_inv));
    for (i, basis_poly) in lag.iter().enumerate() {
        for (j, x) in xs.iter().enumerate() {
            let mut val = Fe::zero();
            let mut xpow = Fe::one();
            for coeff in basis_poly {
                val = val.add(&coeff.mul(&xpow));
                xpow = xpow.mul(x);
            }
            if i == j {
                assert!(val.same(&Fe::one()), "L_{}({}) should be 1", i, j + 1);
            } else {
                assert!(val.same(&Fe::zero()), "L_{}({}) should be 0", i, j + 1);
            }
        }
    }
}

#[test]
fn lagrange_basis_refuses_repeated_points() {
    let xs: Vec<Fe> = [4u64, 7, 4].iter().map(|&x| fe(x)).collect();
    assert!(lagrange_basis(&xs).is_none());
    assert!(lagrange_basis(&[]).unwrap().is_empty());
}

#[test]
fn test_add_op_interpolate_constant_points() {
    let mut builder = IdealBuilder::new();
    let mut ideal = Ideal::new();
    let evals_typ = ATyp::vec(&ATyp::scalar(), 2);
    let var_evals = Var::from_node(0, evals_typ.clone(), Qualifier::Private);
    ideal.register(&var_evals);
    let points = Operand::Value(Value::VecScalar(vec![fe(0), fe(1)]), evals_typ.clone());
    let evals = Operand::Ref(Ref(0), evals_typ.clone());
    let var_ideal = Var::from_node(1, ATyp::Uni(2), Qualifier::Private);
    ideal.register(&var_ideal);
    interpolate_op(&mut builder, &mut ideal, &var_ideal, &points, &evals).unwrap();

    let r0 = var_ideal.with_index(0).unwrap();
    let r1 = var_ideal.with_index(1).unwrap();
    let r2 = var_ideal.with_index(2).unwrap();
    let y0 = elem0(&var_evals, 0);
    let y1 = elem0(&var_evals, 1);
    let expected_c0 = pv(&y0);
    let expected_c1 = pv(&y0).neg().add(&pv(&y1));
    let c0 = stored(&ideal, &r0);
    let c1 = stored(&ideal, &r1);
    assert_poly_eq(&c0, &expected_c0, "pl[c0] = var_poly(y0)");
    assert_poly_eq(&c1, &expected_c1, "pl[c1] = -var_poly(y0) + var_poly(y1)");
    assert!(stored(&ideal, &r2).is_zero(), "pl[c2] = 0");
    assert!(ideal.generating_set.iter().any(|g| g.same(&c0.sub(&pv(&r0)))));
    assert!(ideal.generating_set.iter().any(|g| g.same(&c1.sub(&pv(&r1)))));
}

#[test]
fn test_add_op_interpolate_3_constant_points() {
    let mut builder = IdealBuilder::new();
    let mut ideal = Ideal::new();
    let evals_typ = ATyp::vec(&ATyp::scalar(), 3);
    let var_evals = Var::from_node(0, evals_typ.clone(), Qualifier::Private);
    ideal.register(&var_evals);
    let points = Operand::Value(Value::VecScalar([1u64, 2, 3].iter().map(|&x| fe(x)).collect()), evals_typ.clone());
    let evals = Operand::Ref(Ref(0), evals_typ.clone());
    let var_ideal = Var::from_node(1, ATyp::Uni(3), Qualifier::Private);
    ideal.register(&var_ideal);
    interpolate_op(&mut builder, &mut ideal, &var_ideal, &points, &evals).unwrap();

    let ys: Vec<Polynomial> = (0..3).map(|i| pv(&elem0(&var_evals, i))).collect();
    let lag = lagrange_basis(&[fe(1), fe(2), fe(3)]).unwrap();
    for k in 0..3 {
        let expected = ys[0]
            .mul(&Polynomial::lit(&lag[0][k]))
            .add(&ys[1].mul(&Polynomial::lit(&lag[1][k])).add(&ys[2].mul(&Polynomial::lit(&lag[2][k]))));
        assert_poly_eq(&stored(&ideal, &var_ideal.with_index(k).unwrap()), &expected, "pl[c_k]");
    }
    assert!(stored(&ideal, &var_ideal.with_index(3).unwrap()).is_zero(), "pl[c3] = 0");
}

#[test]
fn test_add_op_interpolate_ref_with_constant_points_in_pl() {
    let mut builder = IdealBuilder::new();
    let mut ideal = Ideal::new();
    let vec_t = ATyp::vec(&ATyp::scalar(), 2);
    let var_points = Var::from_node(0, vec_t.clone(), Qualifier::Private);
    ideal.register(&var_points);
    value_op(&mut ideal, &var_points, &Value::VecIndex(vec![0, 1]));
    let var_evals = Var::from_node(1, vec_t.clone(), Qualifier::Private);
    ideal.register(&var_evals);
    let var_ideal = Var::from_node(2, ATyp::Uni(2), Qualifier::Private);
    ideal.register(&var_ideal);
    let points = Operand::Ref(Ref(0), vec_t.clone());
    let evals = Operand::Ref(Ref(1), vec_t.clone());
    interpolate_op(&mut builder, &mut ideal, &var_ideal, &points, &evals).unwrap();

    let y0 = elem0(&var_evals, 0);
    let y1 = elem0(&var_evals, 1);
    assert_poly_eq(&stored(&ideal, &var_ideal.with_index(0).unwrap()), &pv(&y0), "pl[c0]");
    assert_poly_eq(&stored(&ideal, &var_ideal.with_index(1).unwrap()), &pv(&y0).neg().add(&pv(&y1)), "pl[c1]");
    assert!(stored(&ideal, &var_ideal.with_index(2).unwrap()).is_zero(), "pl[c2] = 0");
}

#[test]
fn test_add_op_interpolate_symbolic_points() {
    let mut builder = IdealBuilder::new();
    let mut ideal = Ideal::new();
    let scalar_t = ATyp::scalar();
    let vec_t = ATyp::vec(&ATyp::scalar(), 2);
    let var_x0 = Var::from_node(0, scalar_t.clone(), Qualifier::Private);
    let var_x1 = Var::from_node(1, scalar_t.clone(), Qualifier::Private);
    ideal.register(&var_x0);
    ideal.register(&var_x1);
    let var_points = Var::from_node(2, vec_t.clone(), Qualifier::Private);
    ideal.register(&var_points);
    let x0_slot = elem0(&var_points, 0);
    let x1_slot = elem0(&var_points, 1);
    ideal.pl_insert(&x0_slot, &pv(&var_x0));
    ideal.pl_insert(&x1_slot, &pv(&var_x1));
    let var_y0 = Var::from_node(3, scalar_t.clone(), Qualifier::Private);
    let var_y1 = Var::from_node(4, scalar_t.clone(), Qualifier::Private);
    ideal.register(&var_y0);
    ideal.register(&var_y1);
    let var_evals = Var::from_node(5, vec_t.clone(), Qualifier::Private);
    ideal.register(&var_evals);
    let y0_slot = elem0(&var_evals, 0);
    let y1_slot = elem0(&var_evals, 1);
    ideal.pl_insert(&y0_slot, &pv(&var_y0));
    ideal.pl_insert(&y1_slot, &pv(&var_y1));
    let var_ideal = Var::from_node(6, ATyp::Uni(2), Qualifier::Private);
    ideal.register(&var_ideal);
    let points = Operand::Ref(Ref(2), vec_t.clone());
    let evals = Operand::Ref(Ref(5), vec_t.clone());
    interpolate_op(&mut builder, &mut ideal, &var_ideal, &points, &evals).unwrap();

    let r0 = var_ideal.with_index(0).unwrap();
    let r1 = var_ideal.with_index(1).unwrap();
    let r2 = var_ideal.with_index(2).unwrap();
    let d_vars: Vec<&Var> = ideal.var_order.iter().filter(|v| v.name.contains("interp_inv")).collect();
    assert_eq!(d_vars.len(), 2, "should have 2 d-variables");
    let d01 = d_vars[0].clone();
    let d10 = d_vars[1].clone();
    let r0_poly = stored(&ideal, &r0);
    let r1_poly = stored(&ideal, &r1);
    let r2_poly = stored(&ideal, &r2);
    let neg_one = Polynomial::lit(&Fe::one().neg());
    let expected_r0 = pv(&y0_slot)
        .mul(&pv(&d01).mul(&neg_one).mul(&pv(&var_x1)))
        .add(&pv(&y1_slot).mul(&pv(&d10).mul(&neg_one).mul(&pv(&var_x0))));
    let expected_r1 = pv(&y0_slot).mul(&pv(&d01)).add(&pv(&y1_slot).mul(&pv(&d10)));
    assert_poly_eq(&r0_poly, &expected_r0, "p[0] should equal expected constant term");
    assert_poly_eq(&r1_poly, &expected_r1, "p[1] should equal expected linear coefficient");
    assert!(r2_poly.is_zero(), "p[2] should be zero");
    for (r, p) in [(&r0, &r0_poly), (&r1, &r1_poly), (&r2, &r2_poly)] {
        let eq = p.sub(&pv(r));
        assert!(ideal.generating_set.iter().any(|g| g.same(&eq)), "basis should contain p[k] - r_k equation");
    }
}

#[test]
#[should_panic(expected = "ideal: operation has no polynomial-ideal treatment at duplicate-interpolate-points")]
fn test_add_op_interpolate_duplicate_points_panics_explicitly() {
    let mut builder = IdealBuilder::new();
    let mut ideal = Ideal::new();
    let evals_typ = ATyp::vec(&ATyp::scalar(), 3);
    let var_evals = Var::from_node(1, evals_typ.clone(), Qualifier::Private);
    ideal.register(&var_evals);
    let var_ideal = Var::from_node(2, ATyp::Uni(3), Qualifier::Private);
    ideal.register(&var_ideal);
    let points = Operand::Value(Value::VecIndex(vec![0, 0, 1]), evals_typ.clone());
    let evals = Operand::Ref(Ref(1), evals_typ);
    interpolate_op(&mut builder, &mut ideal, &var_ideal, &points, &evals).unwrap();
}

#[test]
fn interpolation_through_symbolic_points_reproduces_the_values() {
    // With the inverse variables set to the inverses of the point
    // differences, the bound coefficients evaluate back to the values.
    let mut builder = IdealBuilder::new();
    let mut ideal = Ideal::new();
    let vec_t = ATyp::vec(&ATyp::scalar(), 2);
    let var_points = Var::from_node(0, vec_t.clone(), Qualifier::Private);
    ideal.register(&var_points);
    let x = Var::from_node(9, ATyp::scalar(), Qualifier::Private);
    ideal.pl_insert(&elem0(&var_points, 0), &pv(&x));
    ideal.pl_insert(&elem0(&var_points, 1), &Polynomial::lit(&fe(5)));
    let var_evals = Var::from_node(1, vec_t.clone(), Qualifier::Private);
    ideal.register(&var_evals);
    let var_ideal = Var::from_node(2, ATyp::Uni(1), Qualifier::Private);
    ideal.register(&var_ideal);
    interpolate_op(&mut builder, &mut ideal, &var_ideal, &Operand::Ref(Ref(0), vec_t.clone()), &Operand::Ref(Ref(1), vec_t)).unwrap();
    let d_vars: Vec<Var> = ideal.var_order.iter().filter(|v| v.name.contains("interp_inv")).cloned().collect();
    assert_eq!(d_vars.len(), 2);
    // x = 2, points (2, 5), values (11, 17): the line 2x + 7.
    let y0 = elem0(&var_evals, 0);
    let y1 = elem0(&var_evals, 1);
    let inv_m3 = fe(3).neg().inverse().unwrap();
    let inv_3 = fe(3).inverse().unwrap();
    let point = vec![(x.clone(), fe(2)), (y0, fe(11)), (y1, fe(17)), (d_vars[0].clone(), inv_m3), (d_vars[1].clone(), inv_3)];
    let c0 = stored(&ideal, &var_ideal.with_index(0).unwrap()).evaluate(&point);
    let c1 = stored(&ideal, &var_ideal.with_index(1).unwrap()).evaluate(&point);
    assert!(c0.same(&fe(7)));
    assert!(c1.same(&fe(2)));
}

/// Each basis row evaluates to one at its own point and to zero at the
/// other points.
#[test]
fn lagrange_rows_are_point_indicators() {
    let xs = [fe(3), fe(7), fe(11), fe(20)];
    let lag = lagrange_basis(&xs).unwrap();
    for (i, row) in lag.iter().enumerate() {
        for (t, x) in xs.iter().enumerate() {
            let mut acc = Fe::zero();
            let mut power = Fe::one();
            for c in row {
                acc = acc.add(&c.mul(&power));
                power = power.mul(x);
            }
            let want = if i == t { Fe::one() } else { Fe::zero() };
            assert!(acc.same(&want), "row {i} at point {t}");
        }
    }
}

/// Symbolic points whose difference cancels in canonical form coincide and
/// are refused.
#[test]
fn interpolation_refuses_points_equal_in_canonical_form() {
    let mut builder = IdealBuilder::new();
    let mut ideal = Ideal::new();
    let scalar_t = ATyp::scalar();
    let vec_t = ATyp::vec(&ATyp::scalar(), 2);
    let var_x0 = Var::from_node(0, scalar_t.clone(), Qualifier::Private);
    ideal.register(&var_x0);
    let var_points = Var::from_node(2, vec_t.clone(), Qualifier::Private);
    ideal.register(&var_points);
    ideal.pl_insert(&elem0(&var_points, 0), &pv(&var_x0));
    ideal.pl_insert(&elem0(&var_points, 1), &pv(&var_x0).add(&Polynomial::lit(&fe(1))).sub(&Polynomial::lit(&fe(1))));
    let var_evals = Var::from_node(5, vec_t.clone(), Qualifier::Private);
    ideal.register(&var_evals);
    ideal.pl_insert(&elem0(&var_evals, 0), &Polynomial::lit(&fe(3)));
    ideal.pl_insert(&elem0(&var_evals, 1), &Polynomial::lit(&fe(4)));
    let var_ideal = Var::from_node(6, ATyp::Uni(2), Qualifier::Private);
    ideal.register(&var_ideal);
    let before = ideal.generating_set.len();
    let r = interpolate_op(&mut builder, &mut ideal, &var_ideal, &Operand::Ref(Ref(2), vec_t.clone()), &Operand::Ref(Ref(5), vec_t));
    assert!(r.is_err());
    assert_eq!(ideal.generating_set.len(), before);
}
