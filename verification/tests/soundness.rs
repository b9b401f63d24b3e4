use analyses::field::Fe;
use analyses::soundness::{check_l_vec, format_d_name, format_suffix, soundness_ideals, SoundnessError};
use analyses::typ::ATyp;
use analyses::var::{Qualifier, Var};

fn challenge(node: usize, name: &str) -> Var {
    Var::from_var(name.to_string(), node, ATyp::scalar(), Qualifier::Instance)
}

fn named<'a>(vars: &'a [Var], name: &str) -> &'a Var {
    vars.iter().find(|v| v.name() == name).expect("variable present")
}

#[test]
fn suffix_and_d_names() {
    assert_eq!(format_suffix(&[], 3), "3");
    assert_eq!(format_suffix(&[1, 0], 2), "1::0::2");
    assert_eq!(format_d_name(&[], 0, 1, 2), "__zippel::soundness::d::0::1::2");
    assert_eq!(format_d_name(&[4], 0, 1, 0), "__zippel::soundness::d::4::0::1::0");
}

#[test]
fn l_vec_checks() {
    assert_eq!(check_l_vec(&vec![]), Err(SoundnessError::InvalidParameter));
    assert_eq!(check_l_vec(&vec![2, 1]), Err(SoundnessError::InvalidParameter));
    assert_eq!(check_l_vec(&vec![2, 3]), Ok(()));
}

#[test]
fn soundness_ideals_rejects_bad_counts() {
    assert!(matches!(
        soundness_ideals(&vec![], &vec![], &vec![]),
        Err(SoundnessError::InvalidParameter)
    ));
    let c = challenge(7, "c");
    assert!(matches!(
        soundness_ideals(&vec![vec![c]], &vec![vec![true]], &vec![1]),
        Err(SoundnessError::InvalidParameter)
    ));
}

/// One round of two copies: a single d-equation `d * (c::0 - c::1) - 1`,
/// vanishing where `d` inverts the challenge difference.
#[test]
fn soundness_ideals_one_round() {
    let c = challenge(7, "c");
    let s = soundness_ideals(&vec![vec![c]], &vec![vec![true]], &vec![2]).ok().expect("valid counts");
    assert_eq!(s.equations.len(), 1);
    assert_eq!(s.d_vars.len(), 1);
    assert_eq!(s.d_vars[0].name(), "__zippel::soundness::d::0::1::0");
    assert_eq!(s.search.generating_set.len(), 1);
    assert_eq!(s.validity.generating_set.len(), 1);
    assert_eq!(s.search.var_order.len(), 1);
    assert_eq!(s.validity.var_order.len(), 1);
    let eq = &s.equations[0];
    let vars = eq.vars();
    let c0 = named(&vars, "c::0").clone();
    let c1 = named(&vars, "c::1").clone();
    let d = s.d_vars[0].clone();
    // c::0 = 5, c::1 = 3, d = 1/2: the equation vanishes.
    let half = Fe::from_u64(2).inverse().expect("2 is invertible");
    let at = vec![(c0.clone(), Fe::from_u64(5)), (c1.clone(), Fe::from_u64(3)), (d.clone(), half)];
    assert!(eq.evaluate(&at).same(&Fe::zero()));
    // Equal challenges: the equation is -1 whatever d is.
    let at = vec![(c0, Fe::from_u64(4)), (c1, Fe::from_u64(4)), (d, Fe::from_u64(9))];
    assert!(eq.evaluate(&at).same(&Fe::zero().sub(&Fe::one())));
}

/// Two rounds of two and three copies: one pair in the first round and
/// three pairs under each of the two first-round copies.
#[test]
fn soundness_ideals_two_rounds() {
    let c = challenge(7, "c");
    let e = challenge(9, "e");
    let s = soundness_ideals(&vec![vec![c], vec![e]], &vec![vec![true], vec![true]], &vec![2, 3])
        .ok()
        .expect("valid counts");
    assert_eq!(s.equations.len(), 7);
    assert_eq!(s.d_vars.len(), 7);
    let names: Vec<&str> = s.d_vars.iter().map(|v| v.name()).collect();
    assert_eq!(
        names,
        vec![
            "__zippel::soundness::d::0::1::0",
            "__zippel::soundness::d::0::0::1::0",
            "__zippel::soundness::d::0::0::2::0",
            "__zippel::soundness::d::0::1::2::0",
            "__zippel::soundness::d::1::0::1::0",
            "__zippel::soundness::d::1::0::2::0",
            "__zippel::soundness::d::1::1::2::0",
        ]
    );
    // The last equation pairs copies 1 and 2 under first-round copy 1.
    let vars = s.equations[6].vars();
    assert!(vars.iter().any(|v| v.name() == "e::1::1"));
    assert!(vars.iter().any(|v| v.name() == "e::1::2"));
    // Sentinel variables count down from the top of the index range.
    assert!(s.d_vars[0].node() > s.d_vars[1].node());
}

/// A challenge slot not flagged for the round keeps its name in every copy,
/// so its difference vanishes and the equation is constantly -1.
#[test]
fn soundness_ideals_shared_challenge() {
    let c = challenge(7, "c");
    let s = soundness_ideals(&vec![vec![c]], &vec![vec![false]], &vec![2]).ok().expect("valid counts");
    let eq = &s.equations[0];
    let d = s.d_vars[0].clone();
    let c = eq.vars().into_iter().find(|v| v.name() == "c");
    let mut at = vec![(d, Fe::from_u64(11))];
    if let Some(c) = c {
        at.push((c, Fe::from_u64(6)));
    }
    assert!(eq.evaluate(&at).same(&Fe::zero().sub(&Fe::one())));
}

/// Suffixes that share their digits but split them differently differ.
#[test]
fn format_suffix_keeps_segments_apart() {
    assert_eq!(format_suffix(&[1], 23), "1::23");
    assert_eq!(format_suffix(&[12], 3), "12::3");
    assert_ne!(format_suffix(&[1], 23), format_suffix(&[12], 3));
    assert_ne!(format_suffix(&[1, 2], 3), format_suffix(&[12], 3));
}
