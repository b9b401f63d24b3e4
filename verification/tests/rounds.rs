use analyses::rounds::{challenge_rounds, MoveKind, RoundsError};

use MoveKind::{Challenge as C, Other as O, ProverMessage as P};

/// Consecutive challenges form one round; other nodes do not break it.
#[test]
fn rounds_group_consecutive_challenges() {
    let kinds = vec![P, C, O, C, P, O, C, P];
    let r = challenge_rounds(&kinds, 2).unwrap();
    assert_eq!(r, vec![vec![1, 3], vec![6]]);
}

#[test]
fn rounds_of_empty_transcript() {
    assert_eq!(challenge_rounds(&Vec::new(), 1), Err(RoundsError::NoChallenge));
}

/// A challenge before any prover message reports zero rounds.
#[test]
fn rounds_challenge_first() {
    let kinds = vec![C, P, C, P];
    assert_eq!(
        challenge_rounds(&kinds, 2),
        Err(RoundsError::NotTwoNPlusOne { expected: 2, found: 0 })
    );
}

/// A transcript that ends on challenges counts the open round.
#[test]
fn rounds_challenge_last() {
    let kinds = vec![P, C, P, C, C];
    assert_eq!(
        challenge_rounds(&kinds, 2),
        Err(RoundsError::NotTwoNPlusOne { expected: 2, found: 2 })
    );
}

#[test]
fn rounds_wrong_count() {
    let kinds = vec![P, C, P, C, P];
    assert_eq!(
        challenge_rounds(&kinds, 3),
        Err(RoundsError::NotTwoNPlusOne { expected: 3, found: 2 })
    );
}

/// Only prover messages: no round at all, which is right when none is
/// expected.
#[test]
fn rounds_without_challenges() {
    assert_eq!(challenge_rounds(&vec![P, O, P], 0), Ok(Vec::new()));
    assert_eq!(
        challenge_rounds(&vec![P, O, P], 1),
        Err(RoundsError::NotTwoNPlusOne { expected: 1, found: 0 })
    );
}
