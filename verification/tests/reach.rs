use analyses::reach::reach;

/// 0 -> 1 -> 2 -> 3, 1 -> 4; node 2 is a barrier; 5 is isolated.
fn graph() -> (Vec<Vec<usize>>, Vec<bool>) {
    let succ = vec![vec![1], vec![2, 4], vec![3], vec![], vec![], vec![0]];
    let stop = vec![false, false, true, false, false, false];
    (succ, stop)
}

#[test]
fn reach_stops_at_barriers() {
    let (succ, stop) = graph();
    let r = reach(&succ, &vec![0], &stop);
    assert_eq!(r, vec![true, true, true, false, true, false]);
}

#[test]
fn reach_from_several_starts() {
    let (succ, stop) = graph();
    let r = reach(&succ, &vec![3, 5, 5], &stop);
    assert_eq!(r, vec![true, true, true, true, true, true]);
}

#[test]
fn reach_from_nothing() {
    let (succ, stop) = graph();
    let r = reach(&succ, &vec![], &stop);
    assert_eq!(r, vec![false; 6]);
}

/// A barrier start node is reached; its successors are not followed.
#[test]
fn reach_barrier_start() {
    let (succ, stop) = graph();
    let r = reach(&succ, &vec![2], &stop);
    assert_eq!(r, vec![false, false, true, false, false, false]);
}

/// Cycles terminate.
#[test]
fn reach_cycle() {
    let succ = vec![vec![1], vec![2], vec![0]];
    let r = reach(&succ, &vec![1], &vec![false, false, false]);
    assert_eq!(r, vec![true, true, true]);
}
