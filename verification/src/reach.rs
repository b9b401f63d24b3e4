//! Reachability over a graph given by successor lists, where barrier nodes
//! are reached but not passed through.
use vstd::prelude::*;

verus! {

/// The successor lists by view.
pub open spec fn adj(succ: Seq<Vec<usize>>) -> Seq<Seq<usize>> {
    succ.map_values(|v: Vec<usize>| v@)
}

/// Every successor names a node of the graph.
pub open spec fn well_indexed(g: Seq<Seq<usize>>) -> bool {
    forall|u: int, i: int| 0 <= u < g.len() && 0 <= i < g[u].len() ==> #[trigger] g[u][i] < g.len()
}

/// One step from `a` to `b`: `a` is no barrier and lists `b` as successor.
pub open spec fn edge(g: Seq<Seq<usize>>, stop: Seq<bool>, a: usize, b: usize) -> bool {
    &&& a < g.len()
    &&& !stop[a as int]
    &&& g[a as int].contains(b)
}

/// `p` starts at a start node and takes one step at a time.
pub open spec fn is_walk(g: Seq<Seq<usize>>, start: Seq<usize>, stop: Seq<bool>, p: Seq<usize>) -> bool {
    &&& p.len() > 0
    &&& start.contains(p[0])
    &&& forall|t: int, t2: int| 0 <= t && t2 == t + 1 && t2 < p.len() ==> edge(g, stop, #[trigger] p[t], #[trigger] p[t2])
}

/// Some walk from a start node ends at `v`.
pub open spec fn reachable(g: Seq<Seq<usize>>, start: Seq<usize>, stop: Seq<bool>, v: usize) -> bool {
    exists|p: Seq<usize>| #[trigger] is_walk(g, start, stop, p) && p.last() == v
}

/// A walk to `u` extends by a step to `w`.
proof fn lemma_reach_step(g: Seq<Seq<usize>>, start: Seq<usize>, stop: Seq<bool>, u: usize, w: usize)
    requires
        reachable(g, start, stop, u),
        edge(g, stop, u, w),
    ensures
        reachable(g, start, stop, w),
{
    let p = choose|p: Seq<usize>| #[trigger] is_walk(g, start, stop, p) && p.last() == u;
    let q = p.push(w);
    assert forall|t: int, t2: int| 0 <= t && t2 == t + 1 && t2 < q.len() implies edge(g, stop, #[trigger] q[t], #[trigger] q[t2]) by {
        if t2 < p.len() {
            assert(q[t] == p[t] && q[t2] == p[t2]);
            assert(edge(g, stop, p[t], p[t2]));
        } else {
            assert(q[t] == u && q[t2] == w);
        }
    }
    assert(q[0] == p[0]);
    assert(is_walk(g, start, stop, q) && q.last() == w);
}

/// In a set that holds the start nodes and every successor of its non-barrier
/// members, every node of a walk lies.
proof fn lemma_walk_marked(g: Seq<Seq<usize>>, start: Seq<usize>, stop: Seq<bool>, marked: Seq<bool>, p: Seq<usize>, t: int)
    requires
        is_walk(g, start, stop, p),
        0 <= t < p.len(),
        marked.len() == g.len(),
        forall|i: int| 0 <= i < start.len() ==> #[trigger] start[i] < g.len(),
        forall|i: int| 0 <= i < start.len() ==> #[trigger] marked[start[i] as int],
        forall|u: int, i: int| 0 <= u < g.len() && marked[u] && !stop[u] && 0 <= i < g[u].len() ==> #[trigger] marked[g[u][i] as int],
        well_indexed(g),
    ensures
        p[t] < g.len(),
        marked[p[t] as int],
    decreases t,
{
    if t == 0 {
        let i = choose|i: int| 0 <= i < start.len() && start[i] == p[0];
        assert(marked[start[i] as int]);
    } else {
        lemma_walk_marked(g, start, stop, marked, p, t - 1);
        assert(edge(g, stop, p[t - 1], p[t]));
        let u = p[t - 1] as int;
        let i = choose|i: int| 0 <= i < g[u].len() && g[u][i] == p[t];
        assert(marked[g[u][i] as int]);
    }
}

/// Marks every node reachable from `start`, walking along successor lists
/// and passing through no node flagged in `stop` (such a node is marked when
/// reached, its successors are not followed).
pub fn reach(succ: &Vec<Vec<usize>>, start: &Vec<usize>, stop: &Vec<bool>) -> (r: Vec<bool>)
    requires
        stop@.len() == succ@.len(),
        well_indexed(adj(succ@)),
        forall|i: int| 0 <= i < start@.len() ==> #[trigger] start@[i] < succ@.len(),
    ensures
        r@.len() == succ@.len(),
        forall|v: int| 0 <= v < r@.len() ==> (#[trigger] r@[v] <==> reachable(adj(succ@), start@, stop@, v as usize)),
{
    let ghost g = adj(succ@);
    let n = succ.len();
    let mut marked: Vec<bool> = Vec::new();
    while marked.len() < n
        invariant
            marked@.len() <= n,
            forall|v: int| 0 <= v < marked@.len() ==> !#[trigger] marked@[v],
        decreases n - marked@.len(),
    {
        marked.push(false);
    }
    let ghost mut ms: Set<int> = Set::empty();
    let mut work: Vec<usize> = Vec::new();
    let mut s: usize = 0;
    while s < start.len()
        invariant
            n == succ@.len(),
            g == adj(succ@),
            stop@.len() == n,
            s <= start@.len(),
            forall|i: int| 0 <= i < start@.len() ==> #[trigger] start@[i] < n,
            marked@.len() == n,
            forall|i: int| 0 <= i < s ==> #[trigger] marked@[start@[i] as int],
            forall|v: int| 0 <= v < n ==> (#[trigger] marked@[v] ==> reachable(g, start@, stop@, v as usize)),
            forall|i: int| 0 <= i < work@.len() ==> #[trigger] work@[i] < n && marked@[work@[i] as int],
            forall|u: int| 0 <= u < n && #[trigger] marked@[u] ==> work@.contains(u as usize),
            ms.finite(),
            forall|v: int| #[trigger] ms.contains(v) <==> 0 <= v < n && marked@[v],
        decreases start@.len() - s,
    {
        let v = start[s];
        let ghost wb0 = work@;
        if !marked[v] {
            marked.set(v, true);
            work.push(v);
            proof {
                ms = ms.insert(v as int);
                let p = seq![v];
                assert(start@.contains(p[0]));
                assert(is_walk(g, start@, stop@, p) && p.last() == v);
                assert(work@[work@.len() - 1] == v);
            }
        }
        proof {
            assert forall|u: int| 0 <= u < n && #[trigger] marked@[u] implies work@.contains(u as usize) by {
                if u != v as int {
                    assert(wb0.contains(u as usize));
                    let j = choose|j: int| 0 <= j < wb0.len() && wb0[j] == u as usize;
                    assert(work@[j] == u as usize);
                }
            }
        }
        s = s + 1;
    }
    proof {
        assert(ms.subset_of(vstd::set_lib::set_int_range(0, n as int)));
        vstd::set_lib::lemma_int_range(0, n as int);
        vstd::set_lib::lemma_len_subset(ms, vstd::set_lib::set_int_range(0, n as int));
        assert forall|u: int, i: int|
            0 <= u < n && marked@[u] && !stop@[u] && !work@.contains(u as usize) && 0 <= i < g[u].len()
                implies #[trigger] marked@[g[u][i] as int] by {
            assert(work@.contains(u as usize));
        }
    }
    while work.len() > 0
        invariant
            n == succ@.len(),
            g == adj(succ@),
            stop@.len() == n,
            well_indexed(g),
            forall|i: int| 0 <= i < start@.len() ==> #[trigger] start@[i] < n,
            marked@.len() == n,
            forall|i: int| 0 <= i < start@.len() ==> #[trigger] marked@[start@[i] as int],
            forall|v: int| 0 <= v < n ==> (#[trigger] marked@[v] ==> reachable(g, start@, stop@, v as usize)),
            forall|i: int| 0 <= i < work@.len() ==> #[trigger] work@[i] < n && marked@[work@[i] as int],
            forall|u: int, i: int|
                0 <= u < n && marked@[u] && !stop@[u] && !work@.contains(u as usize) && 0 <= i < g[u].len()
                    ==> #[trigger] marked@[g[u][i] as int],
            ms.finite(),
            forall|v: int| #[trigger] ms.contains(v) <==> 0 <= v < n && marked@[v],
            ms.len() <= n,
        decreases 2 * (n - ms.len()) + work@.len(),
    {
        let ghost w0 = work@;
        let ghost m0 = ms.len();
        let u = work.pop().unwrap();
        proof {
            assert(w0 == work@.push(u));
            assert(w0[w0.len() - 1] == u);
            assert(marked@[u as int]);
            assert forall|v: int, k: int|
                0 <= v < n && v != u && marked@[v] && !stop@[v] && !work@.contains(v as usize) && 0 <= k < g[v].len()
                    implies #[trigger] marked@[g[v][k] as int] by {
                if w0.contains(v as usize) {
                    let j = choose|j: int| 0 <= j < w0.len() && w0[j] == v as usize;
                    if j < work@.len() {
                        assert(work@[j] == v as usize);
                    }
                }
            }
        }
        if !stop[u] {
            let list = &succ[u];
            proof {
                assert(g[u as int] == list@);
            }
            let mut i: usize = 0;
            while i < list.len()
                invariant
                    n == succ@.len(),
                    g == adj(succ@),
                    stop@.len() == n,
                    well_indexed(g),
                    u < n,
                    !stop@[u as int],
                    g[u as int] == list@,
                    i <= list@.len(),
                    forall|k: int| 0 <= k < start@.len() ==> #[trigger] start@[k] < n,
                    forall|k: int| 0 <= k < start@.len() ==> #[trigger] marked@[start@[k] as int],
                    marked@.len() == n,
                    marked@[u as int],
                    forall|v: int| 0 <= v < n ==> (#[trigger] marked@[v] ==> reachable(g, start@, stop@, v as usize)),
                    forall|k: int| 0 <= k < work@.len() ==> #[trigger] work@[k] < n && marked@[work@[k] as int],
                    forall|v: int, k: int|
                        0 <= v < n && v != u && marked@[v] && !stop@[v] && !work@.contains(v as usize) && 0 <= k < g[v].len()
                            ==> #[trigger] marked@[g[v][k] as int],
                    forall|k: int| 0 <= k < i ==> #[trigger] marked@[list@[k] as int],
                    ms.finite(),
                    forall|v: int| #[trigger] ms.contains(v) <==> 0 <= v < n && marked@[v],
                    ms.len() <= n,
                    2 * (n - ms.len()) + work@.len() + 1 <= 2 * (n - m0) + w0.len(),
                decreases list@.len() - i,
            {
                let w = list[i];
                proof {
                    assert(g[u as int][i as int] == w);
                    assert(w < n);
                }
                if !marked[w] {
                    proof {
                        assert(reachable(g, start@, stop@, u));
                        assert(list@.contains(w));
                        lemma_reach_step(g, start@, stop@, u, w);
                    }
                    let ghost wb = work@;
                    let ghost mb = marked@;
                    marked.set(w, true);
                    work.push(w);
                    proof {
                        assert(!ms.contains(w as int));
                        ms = ms.insert(w as int);
                        assert(ms.subset_of(vstd::set_lib::set_int_range(0, n as int)));
                        vstd::set_lib::lemma_int_range(0, n as int);
                        vstd::set_lib::lemma_len_subset(ms, vstd::set_lib::set_int_range(0, n as int));
                        assert(work@[work@.len() - 1] == w);
                        assert forall|k: int| 0 <= k < start@.len() implies #[trigger] marked@[start@[k] as int] by {
                            assert(mb[start@[k] as int]);
                        }
                        assert forall|k: int| 0 <= k < i implies #[trigger] marked@[list@[k] as int] by {
                            assert(mb[list@[k] as int]);
                        }
                        assert forall|k: int| 0 <= k < work@.len() implies #[trigger] work@[k] < n && marked@[work@[k] as int] by {
                            if k < wb.len() {
                                assert(work@[k] == wb[k]);
                                assert(mb[wb[k] as int]);
                            }
                        }
                        assert forall|x: int| 0 <= x < n implies (#[trigger] marked@[x] ==> reachable(g, start@, stop@, x as usize)) by {
                            if x != w as int {
                                assert(mb[x] == marked@[x]);
                            }
                        }
                        assert forall|v: int, k: int|
                            0 <= v < n && v != u && marked@[v] && !stop@[v] && !work@.contains(v as usize) && 0 <= k < g[v].len()
                                implies #[trigger] marked@[g[v][k] as int] by {
                            if wb.contains(v as usize) {
                                let j = choose|j: int| 0 <= j < wb.len() && wb[j] == v as usize;
                                assert(work@[j] == v as usize);
                            }
                            assert(v != w);
                            assert(mb[v]);
                            assert(mb[g[v][k] as int]);
                        }
                    }
                }
                i = i + 1;
            }
            proof {
                assert forall|v: int, k: int|
                    0 <= v < n && marked@[v] && !stop@[v] && !work@.contains(v as usize) && 0 <= k < g[v].len()
                        implies #[trigger] marked@[g[v][k] as int] by {
                    if v == u {
                        assert(marked@[list@[k] as int]);
                    }
                }
            }
        }
    }
    proof {
        assert forall|v: int| 0 <= v < n implies (#[trigger] marked@[v] <==> reachable(g, start@, stop@, v as usize)) by {
            if reachable(g, start@, stop@, v as usize) {
                let p = choose|p: Seq<usize>| #[trigger] is_walk(g, start@, stop@, p) && p.last() == v as usize;
                lemma_walk_marked(g, start@, stop@, marked@, p, p.len() - 1);
            }
        }
    }
    marked
}

} // verus!
