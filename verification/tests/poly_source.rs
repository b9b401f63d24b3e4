use analyses::combinatorics::{hypercube, multi_indices};
use analyses::field::Fe;
use analyses::ideal::Ideal;
use analyses::poly::Polynomial;
use analyses::poly_source::{Operand, PolySource};
use analyses::typ::ATyp;
use analyses::value::Value;
use analyses::var::{Qualifier, Ref, Var};

fn fe(v: u64) -> Fe {
    Fe::from_u64(v)
}

fn fe_i64(v: i64) -> Fe {
    if v >= 0 {
        Fe::from_u64(v as u64)
    } else {
        Fe::from_u64((-v) as u64).neg()
    }
}

#[test]
fn test_ideal_builder_to_poly_value_scalar() {
    let val = Value::Scalar(fe(42));
    let poly = PolySource::to_poly_value(&val);
    assert_eq!(poly.len(), 1);
}

#[test]
fn test_ideal_builder_to_poly_value_index() {
    let val = Value::Index(5);
    let poly = PolySource::to_poly_value(&val);
    assert_eq!(poly.len(), 1);
}

#[test]
fn test_ideal_builder_to_poly_value_vec_scalar() {
    let val = Value::VecScalar(vec![fe(1), fe(2), fe(3)]);
    let poly = PolySource::to_poly_value(&val);
    assert_eq!(poly.len(), 3);
}

#[test]
fn test_ideal_builder_to_poly_value_vec_index() {
    let val = Value::VecIndex(vec![0, 1, 2]);
    let poly = PolySource::to_poly_value(&val);
    assert_eq!(poly.len(), 3);
}

#[test]
fn to_poly_value_flattens_nested_vectors_in_order() {
    let val = Value::Vec(vec![Value::Index(7), Value::VecScalar(vec![fe(8), fe(9)]), Value::Unit]);
    let polys = PolySource::to_poly_value(&val);
    assert_eq!(polys.len(), 3);
    let got: Vec<u64> = polys.iter().map(|p| p.as_literal().unwrap().limbs()[0]).collect();
    assert_eq!(got, vec![7, 8, 9]);
}

#[test]
fn test_ref_vars_vpoly_expands_coefficients() {
    let mut ideal = Ideal::new();
    let var_p = Var::from_node(0, ATyp::VPoly(2, 2), Qualifier::Private);
    ideal.register(&var_p);

    let op = Operand::Ref(Ref(0), ATyp::VPoly(2, 2));
    let polys = PolySource::ref_vars(&op, &ideal);
    assert_eq!(polys.len(), 6);
    for i in 0..polys.len() {
        let expected = var_p.with_index(i).unwrap();
        assert!(polys[i].contains(&expected), "coefficient poly {} does not contain expected Var", i);
    }
}

#[test]
fn test_ref_vars_mle_expands_evaluations() {
    let mut ideal = Ideal::new();
    let var_p = Var::from_node(0, ATyp::Mle(3), Qualifier::Private);
    ideal.register(&var_p);

    let op = Operand::Ref(Ref(0), ATyp::Mle(3));
    let polys = PolySource::ref_vars(&op, &ideal);
    assert_eq!(polys.len(), 8);
}

#[test]
fn mle1_to_uni1_lift_converts_evals_to_coeffs() {
    let src = Var::from_node(10, ATyp::Mle(1), Qualifier::Private);
    let g0 = Polynomial::var(&src.with_index(0).unwrap());
    let g1 = Polynomial::var(&src.with_index(1).unwrap());
    let lifted = PolySource { polys: vec![g0.clone(), g1.clone()], typ: ATyp::Mle(1) }.lift_to(&ATyp::Uni(1));

    assert!(lifted.typ.same(&ATyp::Uni(1)));
    assert_eq!(lifted.polys.len(), 2);
    assert!(lifted.polys[0].same(&g0));
    assert!(lifted.polys[1].same(&g1.sub(&g0)));
}

#[test]
fn test_lift_uni_to_wider_uni() {
    let mut ideal = Ideal::new();
    let var = Var::from_node(0, ATyp::Uni(2), Qualifier::Private);
    ideal.register(&var);
    let src = PolySource::from_ref_vars(&ideal, &Operand::Ref(Ref(0), ATyp::Uni(2)));
    assert_eq!(src.polys.len(), 3);

    let lifted = src.lift_to(&ATyp::Uni(4));
    assert_eq!(lifted.polys.len(), 5);
    assert!(lifted.typ().same(&ATyp::Uni(4)));
    for i in 0..3 {
        assert!(lifted.polys[i].same(&Polynomial::var(&var.with_index(i).unwrap())));
    }
    for i in 3..5 {
        assert!(lifted.polys[i].is_zero(), "padded slot {} should be zero", i);
    }
}

#[test]
fn test_lift_mle_to_wider_mle() {
    let mut ideal = Ideal::new();
    let var = Var::from_node(0, ATyp::Mle(2), Qualifier::Private);
    ideal.register(&var);
    let src = PolySource::from_ref_vars(&ideal, &Operand::Ref(Ref(0), ATyp::Mle(2)));
    assert_eq!(src.polys.len(), 4);

    let lifted = src.lift_to(&ATyp::Mle(3));
    assert_eq!(lifted.polys.len(), 8);
    assert!(lifted.typ().same(&ATyp::Mle(3)));
    for i in 0..4 {
        assert!(lifted.polys[i].same(&Polynomial::var(&var.with_index(i).unwrap())));
    }
    for i in 4..8 {
        assert!(lifted.polys[i].is_zero(), "padded slot {} should be zero", i);
    }
}

#[test]
fn test_lift_vpoly_same_arity_prefix() {
    let mut ideal = Ideal::new();
    let var = Var::from_node(0, ATyp::VPoly(2, 2), Qualifier::Private);
    ideal.register(&var);
    let src = PolySource::from_ref_vars(&ideal, &Operand::Ref(Ref(0), ATyp::VPoly(2, 2)));

    let lifted = src.lift_to(&ATyp::VPoly(2, 3));
    assert_eq!(lifted.polys.len(), 10);
    assert!(lifted.typ().same(&ATyp::VPoly(2, 3)));
    for i in 0..6 {
        assert!(lifted.polys[i].same(&Polynomial::var(&var.with_index(i).unwrap())));
    }
    for i in 6..10 {
        assert!(lifted.polys[i].is_zero(), "padded slot {} should be zero", i);
    }
}

#[test]
fn test_lift_vpoly_cross_arity_embedding() {
    let mut ideal = Ideal::new();
    let var = Var::from_node(0, ATyp::VPoly(2, 2), Qualifier::Private);
    ideal.register(&var);
    let src = PolySource::from_ref_vars(&ideal, &Operand::Ref(Ref(0), ATyp::VPoly(2, 2)));

    let lifted = src.lift_to(&ATyp::VPoly(3, 2));
    assert!(lifted.typ().same(&ATyp::VPoly(3, 2)));
    assert_eq!(lifted.polys.len(), ATyp::VPoly(3, 2).physical_len());

    let dst = multi_indices(3, 2);
    let src_idx = multi_indices(2, 2);
    for (j, sk) in src_idx.iter().enumerate() {
        let mut padded = sk.clone();
        padded.resize(3, 0);
        let pos = dst.iter().position(|dk| dk == &padded).unwrap();
        assert!(lifted.polys[pos].same(&Polynomial::var(&var.with_index(j).unwrap())));
    }
}

#[test]
fn test_lift_mle_to_vpoly_lagrange() {
    let src = PolySource::new(
        vec![Polynomial::lit(&fe(1)), Polynomial::lit(&fe(2)), Polynomial::lit(&fe(3)), Polynomial::lit(&fe(4))],
        ATyp::Mle(2),
    );

    let lifted = src.lift_to(&ATyp::VPoly(2, 2));
    assert!(lifted.typ().same(&ATyp::VPoly(2, 2)));
    assert_eq!(lifted.polys.len(), 6);

    let dst = multi_indices(2, 2);
    let c: [[i64; 2]; 2] = [[1, -1], [0, 1]];
    let hcube = hypercube(2);
    let vals: Vec<i64> = vec![1, 2, 3, 4];
    for (ir, k) in dst.iter().enumerate() {
        let mut expected: i64 = 0;
        for (j, b) in hcube.iter().enumerate() {
            let mut scalar: i64 = 1;
            for i in 0..2 {
                let ki = if i < k.len() { k[i] } else { 0 };
                if ki >= 2 {
                    scalar = 0;
                    break;
                }
                scalar *= c[b[i]][ki];
            }
            expected += vals[j] * scalar;
        }
        let actual = &lifted.polys[ir];
        if expected == 0 {
            assert!(actual.is_zero(), "coefficient at {:?} (position {}) should be zero", k, ir);
        } else {
            let value = actual.constant_value().expect("constant coefficient");
            assert!(value.same(&fe_i64(expected)), "coefficient at {:?} (position {}) mismatch", k, ir);
        }
    }
}

#[test]
fn test_lift_uni_to_vpoly_same_arity() {
    let mut ideal = Ideal::new();
    let var = Var::from_node(0, ATyp::Uni(2), Qualifier::Private);
    ideal.register(&var);
    let src = PolySource::from_ref_vars(&ideal, &Operand::Ref(Ref(0), ATyp::Uni(2)));
    assert_eq!(src.polys.len(), 3);

    let lifted = src.lift_to(&ATyp::VPoly(1, 2));
    assert!(lifted.typ().same(&ATyp::VPoly(1, 2)));
    assert_eq!(lifted.polys.len(), 3);
    for i in 0..3 {
        assert!(lifted.polys[i].same(&Polynomial::var(&var.with_index(i).unwrap())));
    }
}

#[test]
fn test_broadcast_scalar_to_vpoly() {
    let scalar_poly = Polynomial::var(&Var::from_node(0, ATyp::scalar(), Qualifier::Private));
    let src = PolySource::new(vec![scalar_poly.clone()], ATyp::scalar());
    let broadcast = src.broadcast_scalar_to(&ATyp::VPoly(2, 2));
    assert_eq!(broadcast.polys.len(), 6);
    for (i, p) in broadcast.polys.iter().enumerate() {
        assert!(p.same(&scalar_poly), "broadcast slot {} should be the scalar", i);
    }
}

#[test]
fn inject_constant_fills_the_constant_slot_only() {
    let c = Polynomial::var(&Var::from_node(0, ATyp::scalar(), Qualifier::Instance));
    let src = PolySource::new(vec![c.clone()], ATyp::scalar());
    let uni = src.inject_constant_to(&ATyp::Uni(3));
    assert_eq!(uni.polys.len(), 4);
    assert!(uni.polys[0].same(&c));
    for i in 1..4 {
        assert!(uni.polys[i].is_zero());
    }
    let vp = src.inject_constant_to(&ATyp::VPoly(2, 1));
    assert_eq!(vp.polys.len(), 3);
    assert!(vp.polys[0].same(&c));
    assert!(vp.polys[1].is_zero() && vp.polys[2].is_zero());
    let mle = src.inject_constant_to(&ATyp::Mle(2));
    assert_eq!(mle.polys.len(), 4);
    for p in mle.polys.iter() {
        assert!(p.same(&c));
    }
    let base = src.inject_constant_to(&ATyp::scalar());
    assert_eq!(base.polys.len(), 1);
}

#[test]
fn at_index_slices_vector_elements() {
    let var = Var::from_node(3, ATyp::vec(&ATyp::Uni(1), 3), Qualifier::Witness);
    let src = PolySource::from_vars(&var, var.typ.clone());
    assert_eq!(src.polys.len(), 6);
    let e1 = src.at_index(1).unwrap();
    assert!(e1.typ.same(&ATyp::Uni(1)));
    assert_eq!(e1.polys.len(), 2);
    assert!(e1.polys[0].same(&src.polys[2]));
    assert!(e1.polys[1].same(&src.polys[3]));
    assert!(src.at_index(3).is_none());
    assert!(PolySource::new(vec![], ATyp::scalar()).at_index(0).is_none());
}

#[test]
fn shape_predicates() {
    assert!(PolySource::is_scalar_like(&ATyp::scalar()));
    assert!(PolySource::is_scalar_like(&ATyp::fin(4)));
    assert!(!PolySource::is_scalar_like(&ATyp::g1()));
    assert_eq!(PolySource::poly_shape_static(&ATyp::Uni(3)), Some((1, 3)));
    assert_eq!(PolySource::poly_shape_static(&ATyp::VPoly(2, 5)), Some((2, 5)));
    assert_eq!(PolySource::poly_shape_static(&ATyp::Mle(2)), None);
    assert!(PolySource::new(vec![], ATyp::Mle(0)).is_poly());
    assert!(!PolySource::new(vec![], ATyp::scalar()).is_poly());
}

#[test]
fn embed_places_padded_indices() {
    let a = Polynomial::lit(&fe(5));
    let b = Polynomial::lit(&fe(6));
    let src = vec![vec![0], vec![1]];
    let dst = multi_indices(2, 1);
    let out = PolySource::embed_multi_indexed_polys(&[a, b], &src, &dst, 2);
    assert_eq!(out.len(), 3);
    assert_eq!(out[0].as_literal().unwrap().limbs()[0], 5);
    assert!(out[1].is_zero());
    assert_eq!(out[2].as_literal().unwrap().limbs()[0], 6);
}

/// The coefficient form an `Mle` table is lifted to gives back each table
/// entry at the corresponding hypercube point, also with a spare variable
/// held at zero.
#[test]
fn mle_lift_interpolates_table() {
    let vals = [3u64, 5, 7, 11];
    let table: Vec<Polynomial> = vals.iter().map(|v| Polynomial::lit(&fe(*v))).collect();
    let src = PolySource::new(table, ATyp::Mle(2));
    for target in [ATyp::VPoly(2, 2), ATyp::VPoly(3, 2)] {
        let nvars = match target {
            ATyp::VPoly(n, _) => n,
            _ => unreachable!(),
        };
        let lifted = src.lift_to(&target);
        for i in 0..4usize {
            let mut xs = vec![Polynomial::lit(&fe((i & 1) as u64)), Polynomial::lit(&fe((i >> 1) as u64))];
            while xs.len() < nvars {
                xs.push(Polynomial::lit(&fe(0)));
            }
            let r = analyses::eval::eval_polys(&target, &lifted.polys, &xs);
            assert_eq!(r.len(), 1);
            assert!(r[0].constant_value().expect("constant").same(&fe(vals[i])), "entry {i} of {target:?}");
        }
    }
}

/// Lifting a univariate polynomial to two variables and then to three
/// variables of higher degree gives what lifting it directly gives.
#[test]
fn lift_in_two_steps_raising_arity_matches_direct_lift() {
    let src = PolySource {
        polys: vec![Polynomial::lit(&fe(3)), Polynomial::lit(&fe(5)), Polynomial::lit(&fe(7))],
        typ: ATyp::Uni(2),
    };
    let direct = src.lift_to(&ATyp::VPoly(3, 3));
    let stepped = src.lift_to(&ATyp::VPoly(2, 2)).lift_to(&ATyp::VPoly(3, 3));
    assert_eq!(direct.polys.len(), stepped.polys.len());
    for i in 0..direct.polys.len() {
        assert!(direct.polys[i].same(&stepped.polys[i]), "slot {i}");
    }
    let nonzero = direct.polys.iter().filter(|p| !p.is_zero()).count();
    assert_eq!(nonzero, 3);
}
