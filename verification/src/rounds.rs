//! The round structure of a transcript: prover messages alternating with
//! rounds of (vector) challenges, as a (2n+1)-move protocol has them.
use vstd::prelude::*;

verus! {

/// What a transcript node is, as far as the round structure goes.
#[derive(Clone, Copy, Debug, PartialEq, Eq, Structural)]
pub enum MoveKind {
    /// A verifier challenge.
    Challenge,
    /// A prover message.
    ProverMessage,
    /// Anything else the transcript records.
    Other,
}

/// Why a transcript is not a (2n+1)-move protocol of the expected length.
#[derive(Clone, Copy, Debug, PartialEq, Eq, Structural)]
pub enum RoundsError {
    /// The transcript is empty.
    NoChallenge,
    /// The transcript does not alternate as it should, or has another number
    /// of challenge rounds than expected; `found` counts the rounds seen
    /// (zero where a challenge precedes every prover message).
    NotTwoNPlusOne { expected: usize, found: usize },
}

/// Position `i` holds a challenge.
pub open spec fn is_challenge(k: Seq<MoveKind>, i: int) -> bool {
    k[i] is Challenge
}

/// Position `i` holds a prover message.
pub open spec fn is_message(k: Seq<MoveKind>, i: int) -> bool {
    k[i] is ProverMessage
}

/// A prover message stands strictly between positions `a` and `b`.
pub open spec fn message_between(k: Seq<MoveKind>, a: int, b: int) -> bool {
    exists|p: int| a < p < b && #[trigger] is_message(k, p)
}

/// The challenge at `i` opens a round: a prover message separates it from
/// every earlier challenge.
pub open spec fn opens_round(k: Seq<MoveKind>, i: int) -> bool {
    &&& is_challenge(k, i)
    &&& forall|j: int| 0 <= j < i && #[trigger] is_challenge(k, j) ==> message_between(k, j, i)
}

/// The number of rounds opened among the first `n` positions.
pub open spec fn rounds_upto(k: Seq<MoveKind>, n: int) -> nat
    decreases n,
{
    if n <= 0 {
        0
    } else {
        rounds_upto(k, n - 1) + if opens_round(k, n - 1) { 1nat } else { 0nat }
    }
}

/// The round, counted from zero, that the challenge at `i` belongs to.
pub open spec fn round_of(k: Seq<MoveKind>, i: int) -> int {
    rounds_upto(k, i + 1) - 1
}

/// Some challenge comes before every prover message.
pub open spec fn challenge_first(k: Seq<MoveKind>) -> bool {
    exists|i: int| 0 <= i < k.len() && is_challenge(k, i) && forall|p: int| 0 <= p < i ==> !#[trigger] is_message(k, p)
}

/// Some challenge comes after every prover message.
pub open spec fn challenge_last(k: Seq<MoveKind>) -> bool {
    exists|i: int| 0 <= i < k.len() && is_challenge(k, i) && !message_between(k, i, k.len() as int)
}

/// `g` lists, in increasing order, exactly the positions of round `r`
/// among the first `n`.
pub open spec fn lists_round(k: Seq<MoveKind>, g: Seq<usize>, r: int, n: int) -> bool {
    &&& forall|a: int, b: int| 0 <= a < b < g.len() ==> g[a] < g[b]
    &&& forall|a: int| 0 <= a < g.len() ==> g[a] < n && is_challenge(k, g[a] as int) && round_of(k, g[a] as int) == r
    &&& forall|j: int| 0 <= j < n && is_challenge(k, j) && round_of(k, j) == r ==> g.contains(j as usize)
}

proof fn lemma_rounds_mono(k: Seq<MoveKind>, a: int, b: int)
    requires
        0 <= a <= b,
    ensures
        rounds_upto(k, a) <= rounds_upto(k, b),
    decreases b - a,
{
    if a < b {
        lemma_rounds_mono(k, a, b - 1);
    }
}

proof fn lemma_rounds_le(k: Seq<MoveKind>, n: int)
    requires
        0 <= n,
    ensures
        rounds_upto(k, n) <= n,
    decreases n,
{
    if n > 0 {
        lemma_rounds_le(k, n - 1);
    }
}

/// Group the challenges of a transcript into rounds: the positions of each
/// maximal run of challenges not interrupted by a prover message, in order.
/// The transcript must open and close with prover messages and hold
/// `expected` rounds.
pub fn challenge_rounds(kinds: &Vec<MoveKind>, expected: usize) -> (r: Result<Vec<Vec<usize>>, RoundsError>)
    ensures
        kinds@.len() == 0 <==> r == Err::<Vec<Vec<usize>>, RoundsError>(RoundsError::NoChallenge),
        kinds@.len() > 0 && challenge_first(kinds@) ==> r == Err::<Vec<Vec<usize>>, RoundsError>(
            RoundsError::NotTwoNPlusOne { expected, found: 0 },
        ),
        kinds@.len() > 0 && !challenge_first(kinds@) && (challenge_last(kinds@) || rounds_upto(kinds@, kinds@.len() as int) != expected)
            ==> r == Err::<Vec<Vec<usize>>, RoundsError>(
            RoundsError::NotTwoNPlusOne { expected, found: rounds_upto(kinds@, kinds@.len() as int) as usize },
        ),
        r is Ok <==> kinds@.len() > 0 && !challenge_first(kinds@) && !challenge_last(kinds@) && rounds_upto(kinds@, kinds@.len() as int) == expected,
        r matches Ok(rs) ==> rs@.len() == expected && forall|g: int| 0 <= g < rs@.len() ==> #[trigger] rs@[g]@.len() > 0
            && lists_round(kinds@, rs@[g]@, g, kinds@.len() as int),
{
    let ghost k = kinds@;
    let n = kinds.len();
    if n == 0 {
        return Err(RoundsError::NoChallenge);
    }
    let mut rounds: Vec<Vec<usize>> = Vec::new();
    let mut current: Vec<usize> = Vec::new();
    let mut seen = false;
    let mut i: usize = 0;
    while i < n
        invariant
            n == k.len(),
            k == kinds@,
            i <= n,
            seen <==> exists|p: int| 0 <= p < i && #[trigger] is_message(k, p),
            forall|j: int| 0 <= j < i && #[trigger] is_challenge(k, j) ==> exists|p: int| 0 <= p < j && #[trigger] is_message(k, p),
            rounds@.len() + if current@.len() > 0 { 1int } else { 0int } == rounds_upto(k, i as int),
            current@.len() > 0 <==> exists|j: int| 0 <= j < i && #[trigger] is_challenge(k, j) && !message_between(k, j, i as int),
            lists_round(k, current@, rounds@.len() as int, i as int),
            forall|g: int| 0 <= g < rounds@.len() ==> #[trigger] rounds@[g]@.len() > 0 && lists_round(k, rounds@[g]@, g, i as int),
            forall|j: int| 0 <= j < i && #[trigger] is_challenge(k, j) ==> 0 <= round_of(k, j) <= rounds@.len(),
        decreases n - i,
    {
        proof {
            assert(rounds_upto(k, i + 1) == rounds_upto(k, i as int) + if opens_round(k, i as int) { 1nat } else { 0nat });
        }
        match kinds[i] {
            MoveKind::Challenge => {
                if !seen {
                    proof {
                        assert forall|p: int| 0 <= p < i implies !#[trigger] is_message(k, p) by {}
                        assert(is_challenge(k, i as int));
                    }
                    return Err(RoundsError::NotTwoNPlusOne { expected, found: 0 });
                }
                proof {
                    assert(is_challenge(k, i as int));
                    assert(opens_round(k, i as int) <==> current@.len() == 0) by {
                        if current@.len() > 0 {
                            let j = choose|j: int| 0 <= j < i && #[trigger] is_challenge(k, j) && !message_between(k, j, i as int);
                        }
                    }
                    assert(round_of(k, i as int) == rounds@.len());
                    assert forall|j: int| 0 <= j < i && #[trigger] is_challenge(k, j) implies round_of(k, j) < rounds@.len() || current@.len() > 0 by {
                        lemma_rounds_mono(k, j + 1, i as int);
                    }
                }
                let ghost before = current@;
                current.push(i);
                proof {
                    assert(current@ == before.push(i));
                    assert(current@.contains(i)) by {
                        assert(current@[current@.len() - 1] == i);
                    }
                    assert forall|j: int| 0 <= j < i + 1 && is_challenge(k, j) && round_of(k, j) == rounds@.len() implies current@.contains(j as usize) by {
                        if j < i {
                            assert(before.contains(j as usize));
                            let t = choose|t: int| 0 <= t < before.len() && before[t] == j as usize;
                            assert(current@[t] == j as usize);
                        }
                    }
                    assert(!message_between(k, i as int, i + 1));
                    assert forall|j: int| 0 <= j < i + 1 && #[trigger] is_challenge(k, j) && !message_between(k, j, i + 1) implies current@.len() > 0 by {}
                    assert forall|g: int| 0 <= g < rounds@.len() implies #[trigger] rounds@[g]@.len() > 0 && lists_round(k, rounds@[g]@, g, i + 1) by {
                        assert(lists_round(k, rounds@[g]@, g, i as int));
                    }
                    assert forall|j: int| 0 <= j < i + 1 && #[trigger] is_challenge(k, j) && !message_between(k, j, i as int) implies !message_between(k, j, i + 1) by {
                        if message_between(k, j, i + 1) {
                            let p = choose|p: int| j < p < i + 1 && #[trigger] is_message(k, p);
                        }
                    }
                }
            },
            MoveKind::ProverMessage => {
                proof {
                    assert(is_message(k, i as int));
                    assert(!opens_round(k, i as int));
                    assert forall|j: int| 0 <= j < i && #[trigger] is_challenge(k, j) implies message_between(k, j, i + 1) by {
                        assert(is_message(k, i as int));
                    }
                }
                if current.len() > 0 {
                    let ghost before = rounds@;
                    let done = current;
                    current = Vec::new();
                    rounds.push(done);
                    proof {
                        assert(rounds@ == before.push(done));
                        assert forall|g: int| 0 <= g < rounds@.len() implies #[trigger] rounds@[g]@.len() > 0 && lists_round(k, rounds@[g]@, g, i + 1) by {
                            if g < before.len() {
                                assert(rounds@[g] == before[g]);
                                assert(lists_round(k, before[g]@, g, i as int));
                            } else {
                                assert(rounds@[g] == done);
                            }
                        }
                    }
                } else {
                    proof {
                        assert forall|g: int| 0 <= g < rounds@.len() implies #[trigger] rounds@[g]@.len() > 0 && lists_round(k, rounds@[g]@, g, i + 1) by {
                            assert(lists_round(k, rounds@[g]@, g, i as int));
                        }
                    }
                }
                seen = true;
            },
            MoveKind::Other => {
                proof {
                    assert(!is_message(k, i as int));
                    assert(!is_challenge(k, i as int));
                    assert(!opens_round(k, i as int));
                    assert forall|j: int| 0 <= j < i + 1 && #[trigger] is_challenge(k, j) implies (message_between(k, j, i + 1) <==> message_between(k, j, i as int)) by {
                        if message_between(k, j, i + 1) {
                            let p = choose|p: int| j < p < i + 1 && #[trigger] is_message(k, p);
                            assert(p != i);
                        }
                    }
                    assert forall|g: int| 0 <= g < rounds@.len() implies #[trigger] rounds@[g]@.len() > 0 && lists_round(k, rounds@[g]@, g, i + 1) by {
                        assert(lists_round(k, rounds@[g]@, g, i as int));
                    }
                }
            },
        }
        i = i + 1;
    }
    proof {
        assert(!challenge_first(k)) by {
            if challenge_first(k) {
                let j = choose|j: int| 0 <= j < k.len() && is_challenge(k, j) && forall|p: int| 0 <= p < j ==> !#[trigger] is_message(k, p);
                let p = choose|p: int| 0 <= p < j && #[trigger] is_message(k, p);
            }
        }
        assert(challenge_last(k) <==> current@.len() > 0);
        lemma_rounds_le(k, n as int);
    }
    if current.len() > 0 {
        return Err(RoundsError::NotTwoNPlusOne { expected, found: rounds.len() + 1 });
    }
    if rounds.len() != expected {
        return Err(RoundsError::NotTwoNPlusOne { expected, found: rounds.len() });
    }
    Ok(rounds)
}

} // verus!
