use analyses::concat::concat_op;
use analyses::fft::{encode_dft, encode_fft, encode_ifft};
use analyses::field::Fe;
use analyses::ideal::Ideal;
use analyses::ops::{check_op, ram_op, value_op};
use analyses::poly::Polynomial;
use analyses::poly_source::{Operand, PolySource};
use analyses::record::{proj_op, record_field_offset, record_op};
use analyses::typ::{ATyp, Field};
use analyses::value::Value;
use analyses::var::{Qualifier, Ref, Var};


/// Physical slot 0 of `v`: a base-type value is its own single slot.
fn slot0(v: &Var) -> Var {
    match v.typ {
        ATyp::Base(_) => v.clone(),
        _ => v.with_index(0).unwrap(),
    }
}

fn fe(v: u64) -> Fe {
    Fe::from_u64(v)
}

fn bound(ideal: &Ideal, v: &Var) -> bool {
    ideal.pl_get(v).is_some()
}

fn stored(ideal: &Ideal, v: &Var) -> Polynomial {
    ideal.pl_get(v).expect("slot bound")
}

fn src(ideal: &Ideal, node: usize, t: &ATyp) -> PolySource {
    PolySource::from_ref_vars(ideal, &Operand::Ref(Ref(node), t.clone()))
}

fn record(fields: &[(&str, &ATyp)]) -> ATyp {
    ATyp::Record(fields.iter().map(|(n, t)| Field { name: n.to_string(), typ: (*t).clone() }).collect())
}

#[test]
fn test_concat_vec_uni_different_degrees() {
    let mut ideal = Ideal::new();
    let vec_uni2 = ATyp::vec(&ATyp::Uni(2), 2);
    let vec_uni4 = ATyp::vec(&ATyp::Uni(4), 2);
    let vec_ideal = ATyp::vec(&ATyp::Uni(4), 4);
    let var_a = Var::from_node(0, vec_uni2.clone(), Qualifier::Private);
    ideal.register(&var_a);
    let var_b = Var::from_node(1, vec_uni4.clone(), Qualifier::Private);
    ideal.register(&var_b);
    let var_r = Var::from_node(2, vec_ideal.clone(), Qualifier::Private);
    ideal.register(&var_r);
    let a = src(&ideal, 0, &vec_uni2);
    let b = src(&ideal, 1, &vec_uni4);
    concat_op(&mut ideal, &var_r, &a, &b);
    assert_eq!(var_r.typ.physical_len(), 20, "Vec(Uni(4), 4) has 4*5=20 slots");
    for i in 0..4 {
        let elem = var_r.with_index(i).unwrap();
        for j in 0..5 {
            let slot = elem.with_index(j).unwrap();
            assert!(bound(&ideal, &slot), "Concat ideal element {} slot {} missing from pl", i, j);
        }
    }
    // The narrower elements are zero-padded to the wider degree.
    let padded = stored(&ideal, &var_r.with_index(0).unwrap().with_index(4).unwrap());
    assert!(padded.is_zero());
}

#[test]
fn test_concat_vec_scalar_element() {
    let mut ideal = Ideal::new();
    let s = ATyp::scalar();
    let vec_s = ATyp::vec(&s, 2);
    let vec_ideal = ATyp::vec(&s, 3);
    let var_a = Var::from_node(0, vec_s.clone(), Qualifier::Private);
    ideal.register(&var_a);
    let var_b = Var::from_node(1, s.clone(), Qualifier::Private);
    ideal.register(&var_b);
    let var_r = Var::from_node(2, vec_ideal.clone(), Qualifier::Private);
    ideal.register(&var_r);
    let a = src(&ideal, 0, &vec_s);
    let b = src(&ideal, 1, &s);
    concat_op(&mut ideal, &var_r, &a, &b);
    assert_eq!(var_r.typ.physical_len(), 3, "Vec(Scalar, 3) has 3 slots");
    for i in 0..3 {
        let elem = var_r.with_index(i).unwrap();
        assert!(bound(&ideal, &elem), "Concat Vec++Scalar ideal element {} missing from pl", i);
    }
    assert!(stored(&ideal, &var_r.with_index(2).unwrap()).same(&Polynomial::var(&var_b)));
}

#[test]
fn test_concat_vec_vec_elements() {
    let mut ideal = Ideal::new();
    let s = ATyp::scalar();
    let vec2 = ATyp::vec(&s, 2);
    let vec3 = ATyp::vec(&s, 3);
    let vec5 = ATyp::vec(&s, 5);
    let var_a = Var::from_node(0, vec2.clone(), Qualifier::Private);
    ideal.register(&var_a);
    let var_b = Var::from_node(1, vec3.clone(), Qualifier::Private);
    ideal.register(&var_b);
    let var_r = Var::from_node(2, vec5.clone(), Qualifier::Private);
    let a = src(&ideal, 0, &vec2);
    let b = src(&ideal, 1, &vec3);
    concat_op(&mut ideal, &var_r, &a, &b);
    for i in 0..5 {
        let pr_i = var_r.with_index(i).unwrap();
        let pr_slot = slot0(&pr_i);
        assert!(bound(&ideal, &pr_slot), "concat ideal element {} slot 0 should be in pl", i);
    }
    let third = stored(&ideal, &var_r.with_index(3).unwrap());
    assert!(third.same(&Polynomial::var(&var_b.with_index(1).unwrap())));
}

#[test]
fn concat_scalar_then_vector_puts_the_scalar_first() {
    let mut ideal = Ideal::new();
    let s = ATyp::scalar();
    let vec2 = ATyp::vec(&s, 2);
    let var_a = Var::from_node(0, s.clone(), Qualifier::Private);
    ideal.register(&var_a);
    let var_b = Var::from_node(1, vec2.clone(), Qualifier::Private);
    ideal.register(&var_b);
    let var_r = Var::from_node(2, ATyp::vec(&s, 3), Qualifier::Private);
    let a = src(&ideal, 0, &s);
    let b = src(&ideal, 1, &vec2);
    concat_op(&mut ideal, &var_r, &a, &b);
    assert!(stored(&ideal, &var_r.with_index(0).unwrap()).same(&Polynomial::var(&var_a)));
    assert!(stored(&ideal, &var_r.with_index(1).unwrap()).same(&Polynomial::var(&var_b.with_index(0).unwrap())));
    assert!(stored(&ideal, &var_r.with_index(2).unwrap()).same(&Polynomial::var(&var_b.with_index(1).unwrap())));
}

fn ref_field(name: &str, node: usize, t: &ATyp) -> (String, Operand) {
    (name.to_string(), Operand::Ref(Ref(node), t.clone()))
}

#[test]
fn test_record_scalar_fields_bind_slots() {
    let mut ideal = Ideal::new();
    let s = ATyp::scalar();
    let rec_typ = record(&[("x", &s), ("y", &s)]);
    let var_a = Var::from_node(0, s.clone(), Qualifier::Public);
    ideal.register(&var_a);
    let var_b = Var::from_node(1, s.clone(), Qualifier::Public);
    ideal.register(&var_b);
    let var_r = Var::from_node(2, rec_typ, Qualifier::Public);
    ideal.register(&var_r);
    record_op(&mut ideal, &var_r, &[ref_field("x", 0, &s), ref_field("y", 1, &s)]);
    let slot_x = var_r.with_index(0).unwrap();
    let slot_y = var_r.with_index(1).unwrap();
    assert!(bound(&ideal, &slot_x), "record slot 0 (x) missing from pl");
    assert!(bound(&ideal, &slot_y), "record slot 1 (y) missing from pl");
    assert!(stored(&ideal, &slot_x).contains(&var_a), "slot 0 poly should reference field x");
    assert!(stored(&ideal, &slot_y).contains(&var_b), "slot 1 poly should reference field y");
}

#[test]
fn test_record_mixed_type_fields_bind_slots() {
    let mut ideal = Ideal::new();
    let s = ATyp::scalar();
    let uni_typ = ATyp::Uni(2);
    let rec_typ = record(&[("a", &s), ("p", &uni_typ)]);
    let var_scalar = Var::from_node(0, s.clone(), Qualifier::Public);
    ideal.register(&var_scalar);
    let var_poly = Var::from_node(1, uni_typ.clone(), Qualifier::Public);
    ideal.register(&var_poly);
    let var_r = Var::from_node(2, rec_typ, Qualifier::Public);
    ideal.register(&var_r);
    record_op(&mut ideal, &var_r, &[ref_field("a", 0, &s), ref_field("p", 1, &uni_typ)]);
    assert_eq!(var_r.typ.physical_len(), 4, "1 scalar + 3 Uni(2) coeffs = 4");
    let slot_a = var_r.with_index(0).unwrap();
    assert!(slot_a.typ.same(&s), "field 0 (a) should be scalar");
    assert!(bound(&ideal, &slot_a), "record field 0 (a) missing from pl");
    let slot_p = var_r.with_index(1).unwrap();
    assert!(slot_p.typ.same(&uni_typ), "field 1 (p) should be Uni(2)");
    let p_slots = slot_p.slots();
    assert_eq!(p_slots.len(), 3, "Uni(2) has 3 scalar slots");
    for (i, slot_pi) in p_slots.iter().enumerate() {
        assert!(slot_pi.typ.same(&s), "p slot {} should be scalar", i);
        assert!(bound(&ideal, slot_pi), "record field 1 (p) sub-slot {} missing from pl", i);
    }
}

#[test]
fn test_record_basis_count_matches_physical_len() {
    let mut ideal = Ideal::new();
    let s = ATyp::scalar();
    let v2 = ATyp::vec(&s, 3);
    let rec_typ = record(&[("x", &s), ("v", &v2)]);
    let phys_len = rec_typ.physical_len();
    assert_eq!(phys_len, 4, "1 scalar + 3 Vec scalars = 4");
    let var_x = Var::from_node(0, s.clone(), Qualifier::Public);
    ideal.register(&var_x);
    let var_v = Var::from_node(1, v2.clone(), Qualifier::Public);
    ideal.register(&var_v);
    let var_r = Var::from_node(2, rec_typ, Qualifier::Public);
    ideal.register(&var_r);
    record_op(&mut ideal, &var_r, &[ref_field("x", 0, &s), ref_field("v", 1, &v2)]);
    assert_eq!(ideal.generating_set.len(), phys_len, "basis should have one row per physical slot");
}

#[test]
fn test_proj_scalar_field_from_record() {
    let mut ideal = Ideal::new();
    let s = ATyp::scalar();
    let rec_typ = record(&[("x", &s), ("y", &s)]);
    let var_rec = Var::from_node(0, rec_typ.clone(), Qualifier::Public);
    ideal.register(&var_rec);
    let var_proj = Var::from_node(1, s.clone(), Qualifier::Public);
    ideal.register(&var_proj);
    proj_op(&mut ideal, &var_proj, &Operand::Ref(Ref(0), rec_typ), "x");
    assert!(bound(&ideal, &var_proj), "proj ideal missing from pl");
    let slot_0 = var_rec.with_index(0).unwrap();
    assert!(stored(&ideal, &var_proj).contains(&slot_0), "proj poly should reference record slot 0 (field x)");
}

#[test]
fn test_proj_second_field_offset_correct() {
    let mut ideal = Ideal::new();
    let s = ATyp::scalar();
    let v3 = ATyp::vec(&s, 3);
    let rec_typ = record(&[("a", &s), ("b", &v3)]);
    let var_rec = Var::from_node(0, rec_typ.clone(), Qualifier::Public);
    ideal.register(&var_rec);
    let var_proj = Var::from_node(1, v3.clone(), Qualifier::Public);
    ideal.register(&var_proj);
    proj_op(&mut ideal, &var_proj, &Operand::Ref(Ref(0), rec_typ), "b");
    assert_eq!(var_proj.typ.physical_len(), 3, "Vec<F, 3> has 3 slots");
    let proj_slots = var_proj.slots();
    let rec_slots = var_rec.slots();
    for i in 0..3 {
        assert!(bound(&ideal, &proj_slots[i]), "proj slot {} missing from pl", i);
        assert!(
            stored(&ideal, &proj_slots[i]).contains(&rec_slots[1 + i]),
            "proj slot {} poly should reference record slot {} (field b at offset 1)",
            i,
            1 + i
        );
    }
}

#[test]
fn test_proj_first_field_of_multi_field_record() {
    let mut ideal = Ideal::new();
    let s = ATyp::scalar();
    let uni2 = ATyp::Uni(2);
    let rec_typ = record(&[("a", &uni2), ("b", &s)]);
    let var_rec = Var::from_node(0, rec_typ.clone(), Qualifier::Public);
    ideal.register(&var_rec);
    let var_proj = Var::from_node(1, uni2.clone(), Qualifier::Public);
    ideal.register(&var_proj);
    proj_op(&mut ideal, &var_proj, &Operand::Ref(Ref(0), rec_typ), "a");
    assert_eq!(var_proj.typ.physical_len(), 3, "Uni(2) has 3 coefficients");
    let proj_slots = var_proj.slots();
    let rec_slots = var_rec.slots();
    for i in 0..3 {
        assert!(bound(&ideal, &proj_slots[i]), "proj slot {} missing from pl", i);
        assert!(
            stored(&ideal, &proj_slots[i]).contains(&rec_slots[i]),
            "proj slot {} poly should reference record slot {} (field a at offset 0)",
            i,
            i
        );
    }
}

#[test]
fn record_projection_resolves_without_np_lookup() {
    let mut ideal = Ideal::new();
    let s = ATyp::scalar();
    let rec_typ = record(&[("a", &s), ("b", &s)]);
    let var_rec = Var::from_node(0, rec_typ.clone(), Qualifier::Public);
    ideal.register(&var_rec);
    let var_a = Var::from_node(1, s.clone(), Qualifier::Public);
    let var_b = Var::from_node(2, s.clone(), Qualifier::Public);
    ideal.register(&var_a);
    ideal.register(&var_b);
    record_op(&mut ideal, &var_rec, &[ref_field("a", 1, &s), ref_field("b", 2, &s)]);
    let var_proj = Var::from_node(3, s.clone(), Qualifier::Public);
    ideal.register(&var_proj);
    proj_op(&mut ideal, &var_proj, &Operand::Ref(Ref(0), rec_typ.clone()), "a");
    assert!(bound(&ideal, &var_proj), "proj ideal should be in pl");
    let rec_slot_0 = var_rec.with_index(0).unwrap();
    assert!(stored(&ideal, &var_proj).contains(&rec_slot_0), "proj ideal should alias record slot 0 (field 'a')");
}

#[test]
fn record_field_offset_counts_the_slots_of_earlier_fields() {
    let s = ATyp::scalar();
    let fields = vec![
        Field { name: "a".to_string(), typ: ATyp::Uni(2) },
        Field { name: "b".to_string(), typ: ATyp::vec(&s, 4) },
        Field { name: "c".to_string(), typ: s.clone() },
        Field { name: "b".to_string(), typ: s.clone() },
    ];
    assert_eq!(record_field_offset(&fields, "a"), 0);
    assert_eq!(record_field_offset(&fields, "b"), 3);
    assert_eq!(record_field_offset(&fields, "c"), 7);
}

#[test]
fn check_op_asserts_each_boolean_slot_equal_to_one() {
    let mut ideal = Ideal::new();
    let var_b = Var::from_node(0, ATyp::boolean(), Qualifier::Instance);
    ideal.register(&var_b);
    let var_c = Var::from_node(1, ATyp::boolean(), Qualifier::Instance);
    ideal.register(&var_c);
    check_op(&mut ideal, &Operand::Ref(Ref(0), ATyp::boolean()));
    check_op(&mut ideal, &Operand::Ref(Ref(1), ATyp::boolean()));
    assert_eq!(ideal.generating_set.len(), 2);
    let one = Polynomial::lit(&Fe::one());
    assert!(ideal.generating_set[0].same(&Polynomial::var(&var_b).sub(&one)));
    assert!(ideal.generating_set[1].same(&Polynomial::var(&var_c).sub(&one)));
    assert!(ideal.pl.is_empty());
}

#[test]
fn ram_read_at_literal_indices_aliases_the_elements() {
    let mut ideal = Ideal::new();
    let arr_t = ATyp::vec(&ATyp::Uni(1), 3);
    let var_arr = Var::from_node(0, arr_t.clone(), Qualifier::Witness);
    ideal.register(&var_arr);
    let one = Var::from_node(1, ATyp::Uni(1), Qualifier::Witness);
    ram_op(&mut ideal, &one, &Operand::Ref(Ref(0), arr_t.clone()), &Operand::Value(Value::Index(2), ATyp::fin(3)));
    for j in 0..2 {
        let want = Polynomial::var(&var_arr.with_index(2).unwrap().with_index(j).unwrap());
        assert!(stored(&ideal, &one.with_index(j).unwrap()).same(&want));
    }
    let two = Var::from_node(2, ATyp::vec(&ATyp::Uni(1), 2), Qualifier::Witness);
    ram_op(&mut ideal, &two, &Operand::Ref(Ref(0), arr_t), &Operand::Value(Value::VecIndex(vec![1, 0]), ATyp::fin(3)));
    let got = stored(&ideal, &two.with_index(0).unwrap().with_index(1).unwrap());
    assert!(got.same(&Polynomial::var(&var_arr.with_index(1).unwrap().with_index(1).unwrap())));
    let got = stored(&ideal, &two.with_index(1).unwrap().with_index(0).unwrap());
    assert!(got.same(&Polynomial::var(&var_arr.with_index(0).unwrap().with_index(0).unwrap())));
}

fn eval_at(p: &Polynomial, vars: &[Var], vals: &[u64]) -> Fe {
    let point: Vec<(Var, Fe)> = vars.iter().cloned().zip(vals.iter().map(|&v| fe(v))).collect();
    p.evaluate(&point)
}

#[test]
fn fft_then_ifft_round_trips_the_coefficients() {
    let mut ideal = Ideal::new();
    let t = ATyp::vec(&ATyp::scalar(), 4);
    let coeffs = Var::from_node(0, t.clone(), Qualifier::Witness);
    ideal.register(&coeffs);
    let evals = Var::from_node(1, t.clone(), Qualifier::Witness);
    ideal.register(&evals);
    let back = Var::from_node(2, t.clone(), Qualifier::Witness);
    assert!(encode_fft(&mut ideal, &evals, &Operand::Ref(Ref(0), t.clone())));
    assert!(encode_ifft(&mut ideal, &back, &Operand::Ref(Ref(1), t.clone())));
    let cs: Vec<Var> = coeffs.slots();
    let vals = [3u64, 1, 4, 1];
    // Evaluate the evaluation slots at the coefficients, then feed those in.
    let ev: Vec<Fe> = (0..4).map(|i| eval_at(&stored(&ideal, &evals.with_index(i).unwrap()), &cs, &vals)).collect();
    let es: Vec<Var> = evals.slots();
    for j in 0..4 {
        let p = stored(&ideal, &back.with_index(j).unwrap());
        let point: Vec<(Var, Fe)> = es.iter().cloned().zip(ev.iter().cloned()).collect();
        assert!(p.evaluate(&point).same(&fe(vals[j])), "coefficient {j} comes back");
    }
    // Evaluation 0 is the sum of the coefficients.
    assert!(ev[0].same(&fe(9)));
}

#[test]
fn dft_of_a_single_coefficient_is_that_coefficient() {
    let mut ideal = Ideal::new();
    let t = ATyp::vec(&ATyp::scalar(), 1);
    let p = Var::from_node(0, t.clone(), Qualifier::Witness);
    ideal.register(&p);
    let v = Var::from_node(1, t.clone(), Qualifier::Witness);
    assert!(encode_dft(&mut ideal, &v, &Operand::Ref(Ref(0), t.clone())));
    let got = eval_at(&stored(&ideal, &v.with_index(0).unwrap()), &p.slots(), &[42]);
    assert!(got.same(&fe(42)));
}

#[test]
fn fft_without_a_root_of_unity_binds_nothing() {
    let mut ideal = Ideal::new();
    let t = ATyp::vec(&ATyp::scalar(), 5);
    let p = Var::from_node(0, t.clone(), Qualifier::Witness);
    ideal.register(&p);
    let v = Var::from_node(1, t.clone(), Qualifier::Witness);
    assert!(!encode_fft(&mut ideal, &v, &Operand::Ref(Ref(0), t)));
    assert!(ideal.generating_set.is_empty());
    value_op(&mut ideal, &v, &Value::VecIndex(vec![0, 1, 2, 3, 4]));
    assert_eq!(ideal.generating_set.len(), 5);
}
