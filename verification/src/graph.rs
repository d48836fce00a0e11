//! The global lock-order graph and its cycle detection.
//!
//! Nodes are lock ranks; a directed edge older→newer records that a
//! lock of the newer rank was acquired somewhere while a lock of the
//! older rank was held. Each edge carries one concrete example
//! location pair as evidence: the first observed pair is kept, later
//! observations of the same rank pair change nothing. A cycle among
//! ranks is the reported violation: no consistent global lock
//! hierarchy can order the ranks on it.

use vstd::prelude::*;
use vstd::set_lib::lemma_len_subset;

use crate::{SourceCoord, SourceCoordV};

verus! {

/// One directed edge of the rank graph, with its evidence: the source
/// coordinates at which the older lock was held and the newer lock
/// acquired, resolved from the log file that contributed the edge.
pub struct RankEdge {
    pub older_rank: u32,
    pub newer_rank: u32,
    pub older_coord: SourceCoord,
    pub newer_coord: SourceCoord,
}

/// Mathematical model of a [`RankEdge`].
pub struct RankEdgeV {
    pub older_rank: u32,
    pub newer_rank: u32,
    pub older_coord: SourceCoordV,
    pub newer_coord: SourceCoordV,
}

impl View for RankEdge {
    type V = RankEdgeV;

    open spec fn view(&self) -> RankEdgeV {
        RankEdgeV {
            older_rank: self.older_rank,
            newer_rank: self.newer_rank,
            older_coord: self.older_coord@,
            newer_coord: self.newer_coord@,
        }
    }
}

/// The views of a sequence of edges.
pub open spec fn edge_views(s: Seq<RankEdge>) -> Seq<RankEdgeV> {
    s.map_values(|e: RankEdge| e@)
}

/// True when the graph holds a directed edge from rank `a` to rank `b`.
pub open spec fn edge_in(g: Seq<RankEdgeV>, a: u32, b: u32) -> bool {
    exists|i: int| 0 <= i < g.len() && g[i].older_rank == a && g[i].newer_rank == b
}

/// The rank that follows position `i` on a cycle, wrapping at the end.
pub open spec fn cycle_step(c: Seq<u32>, i: int) -> u32 {
    if i + 1 == c.len() {
        c[0]
    } else {
        c[i + 1]
    }
}

/// True when `c` lists ranks that form a directed cycle in `g`: each
/// rank has an edge to the next, and the last back to the first.
pub open spec fn is_cycle(g: Seq<RankEdgeV>, c: Seq<u32>) -> bool {
    &&& c.len() >= 1
    &&& forall|i: int| 0 <= i < c.len() ==> edge_in(g, c[i], cycle_step(c, i))
}

/// True when some directed cycle exists in `g`.
pub open spec fn has_cycle(g: Seq<RankEdgeV>) -> bool {
    exists|c: Seq<u32>| is_cycle(g, c)
}

/// True when every rank on `c` is in `rem`.
pub open spec fn cyc_nodes_in(c: Seq<u32>, rem: Seq<u32>) -> bool {
    forall|i: int| 0 <= i < c.len() ==> rem.contains(c[i])
}

/// True when `x` has a predecessor within `rem`: some edge into `x`
/// whose source rank is still in `rem`.
pub open spec fn has_pred_cond(g: Seq<RankEdgeV>, rem: Seq<u32>, x: u32) -> bool {
    exists|k: int| 0 <= k < g.len() && g[k].newer_rank == x && rem.contains(g[k].older_rank)
}

/// True when `v` holds `x`.
fn contains_u32(v: &Vec<u32>, x: u32) -> (r: bool)
    ensures
        r <==> v@.contains(x),
{
    let mut i: usize = 0;
    while i < v.len()
        invariant
            i <= v@.len(),
            forall|j: int| 0 <= j < i ==> v@[j] != x,
        decreases v@.len() - i,
    {
        if v[i] == x {
            return true;
        }
        i = i + 1;
    }
    false
}

/// Whether some edge into `node` starts at a rank still in `remaining`.
fn has_pred_in(edges: &Vec<RankEdge>, remaining: &Vec<u32>, node: u32) -> (r: bool)
    ensures
        r <==> has_pred_cond(edge_views(edges@), remaining@, node),
{
    let ghost g = edge_views(edges@);
    let mut k: usize = 0;
    while k < edges.len()
        invariant
            k <= edges@.len(),
            g == edge_views(edges@),
            forall|j: int|
                0 <= j < k ==> !(g[j].newer_rank == node && remaining@.contains(g[j].older_rank)),
        decreases edges@.len() - k,
    {
        if edges[k].newer_rank == node {
            if contains_u32(remaining, edges[k].older_rank) {
                proof {
                    assert(g[k as int].newer_rank == node && remaining@.contains(
                        g[k as int].older_rank,
                    ));
                }
                return true;
            }
        }
        k = k + 1;
    }
    false
}

/// One predecessor of `node` within `remaining`; callable only when
/// one exists.
fn find_pred(edges: &Vec<RankEdge>, remaining: &Vec<u32>, node: u32) -> (p: u32)
    requires
        has_pred_cond(edge_views(edges@), remaining@, node),
    ensures
        remaining@.contains(p),
        edge_in(edge_views(edges@), p, node),
{
    let ghost g = edge_views(edges@);
    let mut k: usize = 0;
    while k < edges.len()
        invariant
            k <= edges@.len(),
            g == edge_views(edges@),
            has_pred_cond(g, remaining@, node),
            forall|j: int|
                0 <= j < k ==> !(g[j].newer_rank == node && remaining@.contains(g[j].older_rank)),
        decreases edges@.len() - k,
    {
        if edges[k].newer_rank == node {
            if contains_u32(remaining, edges[k].older_rank) {
                proof {
                    assert(g[k as int].older_rank == edges@[k as int]@.older_rank);
                }
                return edges[k].older_rank;
            }
        }
        k = k + 1;
    }
    proof {
        assert(false);
    }
    0
}

proof fn lemma_remove_membership(s: Seq<u32>, idx: int)
    requires
        0 <= idx < s.len(),
        s.no_duplicates(),
    ensures
        s.remove(idx).no_duplicates(),
        forall|x: u32| s.remove(idx).contains(x) <==> (s.contains(x) && x != s[idx]),
{
    let t = s.remove(idx);
    assert(forall|j: int|
        0 <= j < t.len() ==> t[j] == (if j < idx {
            s[j]
        } else {
            s[j + 1]
        }));
    assert forall|x: u32| t.contains(x) implies (s.contains(x) && x != s[idx]) by {
        let j = choose|j: int| 0 <= j < t.len() && t[j] == x;
        if j < idx {
            assert(s[j] == x);
        } else {
            assert(s[j + 1] == x);
        }
    }
    assert forall|x: u32| s.contains(x) && x != s[idx] implies t.contains(x) by {
        let j = choose|j: int| 0 <= j < s.len() && s[j] == x;
        if j < idx {
            assert(t[j] == x);
        } else {
            assert(j != idx);
            assert(t[j - 1] == x);
        }
    }
    assert(t.no_duplicates()) by {
        assert forall|j: int, k: int| 0 <= j < k < t.len() implies t[j] != t[k] by {
            if j < idx {
                if k < idx {
                    assert(s[j] != s[k]);
                } else {
                    assert(s[j] != s[k + 1]);
                }
            } else {
                assert(s[j + 1] != s[k + 1]);
            }
        }
    }
}

/// The index of a remaining rank that no remaining rank points into,
/// if there is one.
fn find_removable(edges: &Vec<RankEdge>, remaining: &Vec<u32>) -> (r: Option<usize>)
    ensures
        match r {
            Some(idx) => idx < remaining@.len() && !has_pred_cond(
                edge_views(edges@),
                remaining@,
                remaining@[idx as int],
            ),
            None => forall|j: int|
                0 <= j < remaining@.len() ==> has_pred_cond(
                    edge_views(edges@),
                    remaining@,
                    remaining@[j],
                ),
        },
{
    let mut idx: usize = 0;
    while idx < remaining.len()
        invariant
            idx <= remaining@.len(),
            forall|j: int|
                0 <= j < idx ==> has_pred_cond(edge_views(edges@), remaining@, remaining@[j]),
        decreases remaining@.len() - idx,
    {
        if !has_pred_in(edges, remaining, remaining[idx]) {
            return Some(idx);
        }
        idx = idx + 1;
    }
    None
}

/// Removes, one at a time, ranks that no remaining rank points into,
/// until every remaining rank has a predecessor among the remaining
/// ranks. Ranks on a cycle are never removed: each has its cycle
/// predecessor still present.
fn prune(edges: &Vec<RankEdge>, remaining: &mut Vec<u32>)
    requires
        old(remaining)@.no_duplicates(),
    ensures
        final(remaining)@.no_duplicates(),
        final(remaining)@.len() <= old(remaining)@.len(),
        forall|x: u32| final(remaining)@.contains(x) ==> old(remaining)@.contains(x),
        forall|x: u32|
            final(remaining)@.contains(x) ==> has_pred_cond(
                edge_views(edges@),
                final(remaining)@,
                x,
            ),
        forall|c: Seq<u32>|
            is_cycle(edge_views(edges@), c) && cyc_nodes_in(c, old(remaining)@) ==> cyc_nodes_in(
                c,
                final(remaining)@,
            ),
{
    let ghost g = edge_views(edges@);
    loop
        invariant
            g == edge_views(edges@),
            remaining@.no_duplicates(),
            remaining@.len() <= old(remaining)@.len(),
            forall|x: u32| remaining@.contains(x) ==> old(remaining)@.contains(x),
            forall|c: Seq<u32>|
                is_cycle(g, c) && cyc_nodes_in(c, old(remaining)@) ==> cyc_nodes_in(c, remaining@),
        decreases remaining@.len(),
    {
        match find_removable(edges, remaining) {
            Some(idx) => {
                let ghost before = remaining@;
                let ghost n = remaining@[idx as int];
                proof {
                    lemma_remove_membership(remaining@, idx as int);
                }
                remaining.remove(idx);
                proof {
                    assert forall|c: Seq<u32>|
                        is_cycle(g, c) && cyc_nodes_in(c, old(remaining)@) implies cyc_nodes_in(
                        c,
                        remaining@,
                    ) by {
                        assert(cyc_nodes_in(c, before));
                        assert forall|i: int| 0 <= i < c.len() implies remaining@.contains(
                            c[i],
                        ) by {
                            if c[i] == n {
                                let ip: int = if i == 0 {
                                    c.len() - 1
                                } else {
                                    i - 1
                                };
                                assert(edge_in(g, c[ip], cycle_step(c, ip)));
                                assert(cycle_step(c, ip) == c[i]);
                                let k = choose|k: int|
                                    0 <= k < g.len() && g[k].older_rank == c[ip]
                                        && g[k].newer_rank == n;
                                assert(before.contains(c[ip]));
                                assert(has_pred_cond(g, before, n));
                                assert(false);
                            } else {
                                assert(before.contains(c[i]));
                            }
                        }
                    }
                }
            },
            None => {
                proof {
                    assert forall|x: u32| remaining@.contains(x) implies has_pred_cond(
                        g,
                        remaining@,
                        x,
                    ) by {
                        let j = choose|j: int| 0 <= j < remaining@.len() && remaining@[j] == x;
                        assert(has_pred_cond(g, remaining@, remaining@[j]));
                    }
                }
                return ;
            },
        }
    }
}


proof fn lemma_distinct_in_len(a: Seq<u32>, b: Seq<u32>)
    requires
        a.no_duplicates(),
        forall|t: int| 0 <= t < a.len() ==> b.contains(a[t]),
    ensures
        a.len() <= b.len(),
{
    broadcast use vstd::set::group_set_axioms;
    broadcast use vstd::seq_lib::seq_to_set_is_finite;

    a.unique_seq_to_set();
    b.lemma_cardinality_of_set();
    assert(a.to_set().subset_of(b.to_set())) by {
        assert forall|x: u32| a.to_set().contains(x) implies b.to_set().contains(x) by {
            assert(a.contains(x));
            let t = choose|t: int| 0 <= t < a.len() && a[t] == x;
            assert(b.contains(a[t]));
        }
    }
    lemma_len_subset(a.to_set(), b.to_set());
}

proof fn lemma_distinct_in_len_excl(a: Seq<u32>, b: Seq<u32>, y: u32)
    requires
        a.no_duplicates(),
        forall|t: int| 0 <= t < a.len() ==> b.contains(a[t]) && a[t] != y,
        b.contains(y),
    ensures
        a.len() < b.len(),
{
    broadcast use vstd::set::group_set_axioms;
    broadcast use vstd::seq_lib::seq_to_set_is_finite;

    a.unique_seq_to_set();
    b.lemma_cardinality_of_set();
    assert(a.to_set().subset_of(b.to_set().remove(y))) by {
        assert forall|x: u32| a.to_set().contains(x) implies b.to_set().remove(y).contains(x) by {
            assert(a.contains(x));
            let t = choose|t: int| 0 <= t < a.len() && a[t] == x;
            assert(b.contains(a[t]) && a[t] != y);
        }
    }
    assert(b.to_set().remove(y).len() == b.to_set().len() - 1) by {
        assert(b.to_set().contains(y));
    }
    lemma_len_subset(a.to_set(), b.to_set().remove(y));
}

/// The index of `x` in `v`, if present.
fn index_of_u32(v: &Vec<u32>, x: u32) -> (r: Option<usize>)
    ensures
        match r {
            Some(k) => k < v@.len() && v@[k as int] == x,
            None => !v@.contains(x),
        },
{
    let mut i: usize = 0;
    while i < v.len()
        invariant
            i <= v@.len(),
            forall|j: int| 0 <= j < i ==> v@[j] != x,
        decreases v@.len() - i,
    {
        if v[i] == x {
            return Some(i);
        }
        i = i + 1;
    }
    None
}

proof fn lemma_path_extend(g: Seq<RankEdgeV>, path: Seq<u32>, p: u32, remaining: Seq<u32>)
    requires
        path.len() >= 1,
        path.no_duplicates(),
        !path.contains(p),
        remaining.contains(p),
        remaining.no_duplicates(),
        forall|t: int| 0 <= t < path.len() ==> remaining.contains(#[trigger] path[t]),
        forall|t: int| 0 <= t < path.len() - 1 ==> edge_in(g, path[t + 1], #[trigger] path[t]),
        edge_in(g, p, path[path.len() - 1]),
    ensures
        path.push(p).no_duplicates(),
        forall|t: int|
            0 <= t < path.push(p).len() ==> remaining.contains(#[trigger] path.push(p)[t]),
        forall|t: int|
            0 <= t < path.push(p).len() - 1 ==> edge_in(
                g,
                path.push(p)[t + 1],
                #[trigger] path.push(p)[t],
            ),
        path.push(p).len() <= remaining.len(),
{
    let q = path.push(p);
    assert(q.no_duplicates()) by {
        assert forall|j1: int, j2: int| 0 <= j1 < j2 < q.len() implies q[j1] != q[j2] by {
            if j2 == path.len() {
                assert(q[j1] == path[j1]);
            }
        }
    }
    assert forall|t: int| 0 <= t < q.len() implies remaining.contains(#[trigger] q[t]) by {
        if t < path.len() {
            assert(q[t] == path[t]);
        }
    }
    assert forall|t: int| 0 <= t < q.len() - 1 implies edge_in(g, q[t + 1], #[trigger] q[t]) by {
        if t < path.len() - 1 {
            assert(q[t] == path[t] && q[t + 1] == path[t + 1]);
        } else {
            assert(q[t] == path[path.len() - 1] && q[t + 1] == p);
        }
    }
    lemma_distinct_in_len(q, remaining);
}

/// Reverses the tail of `path` from position `k` into the cycle it
/// closes: `path` lists each rank followed by one of its
/// predecessors, and the rank at `k` is a predecessor of the last.
#[verifier::rlimit(60)]
fn build_cycle(path: &Vec<u32>, k: usize, Ghost(g): Ghost<Seq<RankEdgeV>>) -> (cyc: Vec<u32>)
    requires
        k < path@.len(),
        path@.no_duplicates(),
        forall|t: int| 0 <= t < path@.len() - 1 ==> edge_in(g, path@[t + 1], #[trigger] path@[t]),
        edge_in(g, path@[k as int], path@[path@.len() - 1]),
    ensures
        is_cycle(g, cyc@),
        cyc@.no_duplicates(),
        cyc@.len() >= 1,
        forall|i: int| 0 <= i < cyc@.len() ==> path@.contains(#[trigger] cyc@[i]),
{
    let ghost m = path@.len() - 1;
    let mut cyc: Vec<u32> = Vec::new();
    let mut t: usize = path.len();
    while t > k
        invariant
            k < path@.len(),
            k <= t <= path@.len(),
            cyc@.len() == path@.len() - t,
            forall|j: int| 0 <= j < cyc@.len() ==> #[trigger] cyc@[j] == path@[path@.len() - 1 - j],
        decreases t,
    {
        t = t - 1;
        cyc.push(path[t]);
    }
    proof {
        assert(cyc@.len() == path@.len() - k);
        assert(cyc@.no_duplicates()) by {
            assert forall|j1: int, j2: int|
                0 <= j1 < j2 < cyc@.len() implies cyc@[j1] != cyc@[j2] by {
                assert(cyc@[j1] == path@[m - j1]);
                assert(cyc@[j2] == path@[m - j2]);
            }
        }
        assert forall|i: int| 0 <= i < cyc@.len() implies path@.contains(#[trigger] cyc@[i]) by {
            assert(cyc@[i] == path@[m - i]);
        }
        assert(is_cycle(g, cyc@)) by {
            assert forall|i: int| 0 <= i < cyc@.len() implies edge_in(
                g,
                cyc@[i],
                cycle_step(cyc@, i),
            ) by {
                if i + 1 == cyc@.len() {
                    assert(cyc@[i] == path@[k as int]);
                    assert(cycle_step(cyc@, i) == cyc@[0]);
                    assert(cyc@[0] == path@[m]);
                } else {
                    assert(cyc@[i] == path@[m - i]);
                    assert(cycle_step(cyc@, i) == cyc@[i + 1]);
                    assert(cyc@[i + 1] == path@[m - i - 1]);
                    assert(edge_in(g, path@[(m - i - 1) + 1], path@[m - i - 1]));
                }
            }
        }
    }
    cyc
}

/// Walks predecessor edges within `remaining` until a rank repeats,
/// and returns the ranks between the two visits: a directed cycle.
/// Callable once pruning has reached its fixpoint, where every
/// remaining rank has a predecessor among the remaining ranks.
#[verifier::rlimit(60)]
#[verifier::spinoff_prover]
fn extract_cycle(edges: &Vec<RankEdge>, remaining: &Vec<u32>) -> (cyc: Vec<u32>)
    requires
        remaining@.len() >= 1,
        remaining@.no_duplicates(),
        forall|x: u32|
            remaining@.contains(x) ==> has_pred_cond(edge_views(edges@), remaining@, x),
    ensures
        is_cycle(edge_views(edges@), cyc@),
        cyc@.no_duplicates(),
        cyc@.len() >= 1,
        forall|i: int| 0 <= i < cyc@.len() ==> remaining@.contains(#[trigger] cyc@[i]),
{
    let ghost g = edge_views(edges@);
    let mut path: Vec<u32> = Vec::new();
    path.push(remaining[0]);
    proof {
        assert(remaining@.contains(remaining@[0]));
    }
    loop
        invariant
            g == edge_views(edges@),
            remaining@.len() >= 1,
            remaining@.no_duplicates(),
            forall|x: u32| remaining@.contains(x) ==> has_pred_cond(g, remaining@, x),
            1 <= path@.len() <= remaining@.len(),
            path@.no_duplicates(),
            forall|t: int| 0 <= t < path@.len() ==> remaining@.contains(#[trigger] path@[t]),
            forall|t: int|
                0 <= t < path@.len() - 1 ==> edge_in(g, path@[t + 1], #[trigger] path@[t]),
        decreases remaining@.len() - path@.len(),
    {
        let cur = path[path.len() - 1];
        proof {
            assert(remaining@.contains(path@[path@.len() - 1]));
        }
        let p = find_pred(edges, remaining, cur);
        match index_of_u32(&path, p) {
            Some(k) => {
                let cyc = build_cycle(&path, k, Ghost(g));
                proof {
                    assert forall|i: int|
                        0 <= i < cyc@.len() implies remaining@.contains(#[trigger] cyc@[i]) by {
                        let t = choose|t: int| 0 <= t < path@.len() && path@[t] == cyc@[i];
                        assert(remaining@.contains(path@[t]));
                    }
                }
                return cyc;
            },
            None => {
                proof {
                    lemma_path_extend(g, path@, p, remaining@);
                }
                path.push(p);
            },
        }
    }
}

/// Removes every rank of `cyc` from `remaining`.
#[verifier::rlimit(60)]
fn remove_all(remaining: &mut Vec<u32>, cyc: &Vec<u32>)
    requires
        old(remaining)@.no_duplicates(),
        cyc@.len() >= 1,
        forall|i: int| 0 <= i < cyc@.len() ==> old(remaining)@.contains(cyc@[i]),
    ensures
        final(remaining)@.no_duplicates(),
        forall|x: u32|
            #[trigger] final(remaining)@.contains(x) ==> old(remaining)@.contains(x)
                && !cyc@.contains(x),
        forall|x: u32|
            #[trigger] old(remaining)@.contains(x) && !cyc@.contains(x) ==> final(remaining)@.contains(x),
        final(remaining)@.len() < old(remaining)@.len(),
{
    let ghost orig = old(remaining)@;
    let mut out: Vec<u32> = Vec::new();
    let mut i: usize = 0;
    while i < remaining.len()
        invariant
            remaining@ == orig,
            i <= orig.len(),
            orig.no_duplicates(),
            out@.no_duplicates(),
            forall|x: u32|
                out@.contains(x) ==> (exists|j: int| 0 <= j < i && orig[j] == x) && !cyc@.contains(
                    x,
                ),
            forall|j: int| 0 <= j < i ==> (cyc@.contains(orig[j]) || out@.contains(orig[j])),
        decreases orig.len() - i,
    {
        let x = remaining[i];
        let ghost prev = out@;
        if !contains_u32(cyc, x) {
            proof {
                assert(!prev.contains(x)) by {
                    if prev.contains(x) {
                        let j = choose|j: int| 0 <= j < i && orig[j] == x;
                        assert(orig[j] == orig[i as int]);
                        assert(false);
                    }
                }
                assert(prev.push(x).no_duplicates()) by {
                    assert forall|j1: int, j2: int|
                        0 <= j1 < j2 < prev.push(x).len() implies prev.push(x)[j1] != prev.push(
                        x,
                    )[j2] by {
                        if j2 == prev.len() {
                            assert(prev.push(x)[j1] == prev[j1]);
                        }
                    }
                }
            }
            out.push(x);
        }
        proof {
            assert forall|y: u32|
                out@.contains(y) implies (exists|j: int| 0 <= j < i + 1 && orig[j] == y)
                && !cyc@.contains(y) by {
                let jj = choose|jj: int| 0 <= jj < out@.len() && out@[jj] == y;
                if jj < prev.len() {
                    assert(prev[jj] == y);
                    assert(prev.contains(y));
                    let j0 = choose|j0: int| 0 <= j0 < i && orig[j0] == y;
                    assert(0 <= j0 < i + 1 && orig[j0] == y);
                } else {
                    assert(y == orig[i as int]);
                    assert(0 <= i < i + 1 && orig[i as int] == y);
                }
            }
            assert forall|j: int|
                0 <= j < i + 1 implies (cyc@.contains(orig[j]) || out@.contains(orig[j])) by {
                if j < i {
                    if prev.contains(orig[j]) {
                        let jj = choose|jj: int| 0 <= jj < prev.len() && prev[jj] == orig[j];
                        assert(out@[jj] == orig[j]);
                        assert(out@.contains(orig[j]));
                    }
                } else {
                    if !cyc@.contains(orig[j]) {
                        assert(out@[out@.len() - 1] == orig[j]);
                        assert(out@.contains(orig[j]));
                    }
                }
            }
        }
        i = i + 1;
    }
    proof {
        assert forall|x: u32| orig.contains(x) && !cyc@.contains(x) implies out@.contains(x) by {
            let j = choose|j: int| 0 <= j < orig.len() && orig[j] == x;
        }
        assert forall|t: int| 0 <= t < out@.len() implies orig.contains(out@[t]) && out@[t]
            != cyc@[0] by {
            assert(out@.contains(out@[t]));
            let j = choose|j: int| 0 <= j < orig.len() && orig[j] == out@[t];
            assert(cyc@.contains(cyc@[0]));
        }
        assert(orig.contains(cyc@[0]));
        lemma_distinct_in_len_excl(out@, orig, cyc@[0]);
    }
    *remaining = out;
}

/// Appends `x` unless it is already present.
fn push_unique(nodes: &mut Vec<u32>, x: u32)
    requires
        old(nodes)@.no_duplicates(),
    ensures
        final(nodes)@.no_duplicates(),
        final(nodes)@.contains(x),
        forall|y: u32| old(nodes)@.contains(y) ==> final(nodes)@.contains(y),
        forall|y: u32| final(nodes)@.contains(y) ==> old(nodes)@.contains(y) || y == x,
{
    if !contains_u32(nodes, x) {
        let ghost prev = nodes@;
        nodes.push(x);
        proof {
            assert(nodes@[nodes@.len() - 1] == x);
            assert(nodes@.no_duplicates()) by {
                assert forall|j1: int, j2: int|
                    0 <= j1 < j2 < nodes@.len() implies nodes@[j1] != nodes@[j2] by {
                    if j2 == prev.len() {
                        assert(nodes@[j1] == prev[j1]);
                        assert(prev.contains(prev[j1]));
                    }
                }
            }
            assert forall|y: u32| prev.contains(y) implies nodes@.contains(y) by {
                let j = choose|j: int| 0 <= j < prev.len() && prev[j] == y;
                assert(nodes@[j] == y);
            }
            assert forall|y: u32| nodes@.contains(y) implies prev.contains(y) || y == x by {
                let j = choose|j: int| 0 <= j < nodes@.len() && nodes@[j] == y;
                if j < prev.len() {
                    assert(prev[j] == y);
                }
            }
        }
    }
}

/// Every rank that occurs in some edge, once each.
fn collect_nodes(edges: &Vec<RankEdge>) -> (nodes: Vec<u32>)
    ensures
        nodes@.no_duplicates(),
        forall|k: int|
            0 <= k < edge_views(edges@).len() ==> nodes@.contains(
                #[trigger] edge_views(edges@)[k].older_rank,
            ) && nodes@.contains(edge_views(edges@)[k].newer_rank),
{
    let ghost g = edge_views(edges@);
    let mut nodes: Vec<u32> = Vec::new();
    let mut k: usize = 0;
    while k < edges.len()
        invariant
            g == edge_views(edges@),
            k <= edges@.len(),
            nodes@.no_duplicates(),
            forall|j: int|
                0 <= j < k ==> nodes@.contains(#[trigger] g[j].older_rank) && nodes@.contains(
                    g[j].newer_rank,
                ),
        decreases edges@.len() - k,
    {
        let older = edges[k].older_rank;
        let newer = edges[k].newer_rank;
        let ghost n0 = nodes@;
        push_unique(&mut nodes, older);
        let ghost n1 = nodes@;
        push_unique(&mut nodes, newer);
        proof {
            assert forall|j: int|
                0 <= j < k + 1 implies nodes@.contains(#[trigger] g[j].older_rank)
                && nodes@.contains(g[j].newer_rank) by {
                if j < k {
                    assert(n0.contains(g[j].older_rank));
                    assert(n1.contains(g[j].older_rank));
                    assert(n0.contains(g[j].newer_rank));
                    assert(n1.contains(g[j].newer_rank));
                } else {
                    assert(g[j].older_rank == older && g[j].newer_rank == newer);
                    assert(n1.contains(older));
                }
            }
        }
        k = k + 1;
    }
    nodes
}

/// The global rank graph: the union of the acquisition edges of every
/// log, one edge per observed (older rank, newer rank) pair, each
/// carrying the first observed example location pair as evidence.
pub struct RankGraph {
    edges: Vec<RankEdge>,
}

impl View for RankGraph {
    type V = Seq<RankEdgeV>;

    closed spec fn view(&self) -> Seq<RankEdgeV> {
        edge_views(self.edges@)
    }
}

impl RankGraph {
    /// An empty graph.
    pub fn new() -> (r: Self)
        ensures
            r@ == Seq::<RankEdgeV>::empty(),
    {
        let r = RankGraph { edges: Vec::new() };
        proof {
            assert(r@ =~= Seq::<RankEdgeV>::empty());
        }
        r
    }

    /// How many distinct rank pairs have been observed.
    pub fn edge_count(&self) -> (n: usize)
        ensures
            n == self@.len(),
    {
        self.edges.len()
    }

    /// The edge at position `i`, in insertion order.
    pub fn get_edge(&self, i: usize) -> (e: &RankEdge)
        requires
            i < self@.len(),
        ensures
            e@ == self@[i as int],
    {
        &self.edges[i]
    }

    /// Records one observed transition. The first observation of a
    /// rank pair is kept with its evidence; a later observation of
    /// the same pair changes nothing, whatever its locations.
    pub fn insert_edge(&mut self, e: RankEdge)
        ensures
            final(self)@ == if edge_in(old(self)@, e@.older_rank, e@.newer_rank) {
                old(self)@
            } else {
                old(self)@.push(e@)
            },
    {
        let mut k: usize = 0;
        while k < self.edges.len()
            invariant
                self@ == old(self)@,
                self.edges@ == old(self).edges@,
                k <= self.edges@.len(),
                forall|j: int|
                    0 <= j < k ==> !(#[trigger] self@[j].older_rank == e@.older_rank
                        && self@[j].newer_rank == e@.newer_rank),
            decreases self.edges@.len() - k,
        {
            if self.edges[k].older_rank == e.older_rank && self.edges[k].newer_rank
                == e.newer_rank {
                proof {
                    assert(self@[k as int].older_rank == e@.older_rank && self@[k as int].newer_rank
                        == e@.newer_rank);
                }
                return ;
            }
            k = k + 1;
        }
        proof {
            assert(!edge_in(self@, e@.older_rank, e@.newer_rank));
            assert(edge_views(self.edges@.push(e)) =~= edge_views(self.edges@).push(e@));
        }
        self.edges.push(e);
    }

    /// The evidence edge for the rank pair `(a, b)`, if that pair was
    /// ever observed.
    pub fn find_edge(&self, a: u32, b: u32) -> (r: Option<&RankEdge>)
        ensures
            match r {
                Some(e) => exists|j: int|
                    0 <= j < self@.len() && #[trigger] self@[j] == e@ && e@.older_rank == a
                        && e@.newer_rank == b,
                None => !edge_in(self@, a, b),
            },
    {
        let mut k: usize = 0;
        while k < self.edges.len()
            invariant
                self@ == edge_views(self.edges@),
                k <= self.edges@.len(),
                forall|j: int|
                    0 <= j < k ==> !(#[trigger] self@[j].older_rank == a && self@[j].newer_rank
                        == b),
            decreases self.edges@.len() - k,
        {
            if self.edges[k].older_rank == a && self.edges[k].newer_rank == b {
                let e = &self.edges[k];
                proof {
                    assert(self@[k as int] == e@);
                }
                return Some(e);
            }
            k = k + 1;
        }
        None
    }

    /// Finds every cycle of ranks in the graph.
    ///
    /// Exactly the graphs with some directed cycle yield a non-empty
    /// report: every returned rank list is a genuine cycle of the
    /// graph, so an acyclic graph - a consistently observed lock
    /// hierarchy, however often each edge recurs - yields none, and
    /// whenever a cycle exists at least one is found. Reported cycles
    /// share no rank: a rank involved in one reported cycle never
    /// appears in another.
    #[verifier::rlimit(100)]
    #[verifier::spinoff_prover]
    pub fn detect_cycles(&self) -> (cycles: Vec<Vec<u32>>)
        ensures
            forall|k: int|
                0 <= k < cycles@.len() ==> is_cycle(self@, #[trigger] cycles@[k]@) && cycles@[k]@
                    .no_duplicates(),
            cycles@.len() == 0 <==> !has_cycle(self@),
            forall|k1: int, k2: int, i1: int, i2: int|
                0 <= k1 < k2 < cycles@.len() && 0 <= i1 < cycles@[k1]@.len() && 0 <= i2
                    < cycles@[k2]@.len() ==> cycles@[k1]@[i1] != cycles@[k2]@[i2],
    {
        let ghost g = self@;
        let mut cycles: Vec<Vec<u32>> = Vec::new();
        let mut remaining = collect_nodes(&self.edges);
        proof {
            assert forall|c: Seq<u32>| is_cycle(g, c) implies cyc_nodes_in(c, remaining@) by {
                assert forall|i: int| 0 <= i < c.len() implies remaining@.contains(c[i]) by {
                    assert(edge_in(g, c[i], cycle_step(c, i)));
                    let k = choose|k: int|
                        0 <= k < g.len() && g[k].older_rank == c[i] && g[k].newer_rank
                            == cycle_step(c, i);
                    assert(remaining@.contains(g[k].older_rank));
                }
            }
        }
        loop
            invariant
                g == self@,
                g == edge_views(self.edges@),
                remaining@.no_duplicates(),
                forall|k: int|
                    0 <= k < cycles@.len() ==> is_cycle(g, #[trigger] cycles@[k]@) && cycles@[k]@
                        .no_duplicates() && cycles@[k]@.len() >= 1,
                cycles@.len() == 0 ==> (forall|c: Seq<u32>|
                    is_cycle(g, c) ==> cyc_nodes_in(c, remaining@)),
                forall|k: int, i: int|
                    0 <= k < cycles@.len() && 0 <= i < cycles@[k]@.len() ==> !remaining@.contains(
                        #[trigger] cycles@[k]@[i],
                    ),
                forall|k1: int, k2: int, i1: int, i2: int|
                    0 <= k1 < k2 < cycles@.len() && 0 <= i1 < cycles@[k1]@.len() && 0 <= i2
                        < cycles@[k2]@.len() ==> cycles@[k1]@[i1] != cycles@[k2]@[i2],
            decreases remaining@.len(),
        {
            let ghost at_top = remaining@;
            prune(&self.edges, &mut remaining);
            if remaining.len() == 0 {
                proof {
                    if cycles@.len() == 0 {
                        assert forall|c: Seq<u32>| !is_cycle(g, c) by {
                            if is_cycle(g, c) {
                                assert(cyc_nodes_in(c, remaining@));
                                assert(remaining@.contains(c[0]));
                                assert(false);
                            }
                        }
                    } else {
                        assert(is_cycle(g, cycles@[0]@));
                    }
                }
                return cycles;
            }
            let cyc = extract_cycle(&self.edges, &remaining);
            let ghost mid = remaining@;
            remove_all(&mut remaining, &cyc);
            proof {
                assert forall|k: int, i: int|
                    0 <= k < cycles@.len() + 1 && 0 <= i < cycles@.push(cyc)[k]@.len()
                    implies !remaining@.contains(#[trigger] cycles@.push(cyc)[k]@[i]) by {
                    if k < cycles@.len() {
                        assert(cycles@.push(cyc)[k] == cycles@[k]);
                        let y = cycles@[k]@[i];
                        assert(!at_top.contains(y));
                        if remaining@.contains(y) {
                            assert(mid.contains(y));
                            assert(at_top.contains(y));
                            assert(false);
                        }
                    } else {
                        assert(cycles@.push(cyc)[k] == cyc);
                        assert(cyc@.contains(cyc@[i]));
                    }
                }
                assert forall|k1: int, k2: int, i1: int, i2: int|
                    0 <= k1 < k2 < cycles@.len() + 1 && 0 <= i1 < cycles@.push(cyc)[k1]@.len()
                    && 0 <= i2 < cycles@.push(cyc)[k2]@.len()
                    implies cycles@.push(cyc)[k1]@[i1] != cycles@.push(cyc)[k2]@[i2] by {
                    if k2 == cycles@.len() {
                        assert(cycles@.push(cyc)[k1] == cycles@[k1]);
                        assert(cycles@.push(cyc)[k2] == cyc);
                        let y = cycles@[k1]@[i1];
                        assert(!at_top.contains(y));
                        assert(mid.contains(cyc@[i2]));
                        assert(at_top.contains(cyc@[i2]));
                    } else {
                        assert(cycles@.push(cyc)[k1] == cycles@[k1]);
                        assert(cycles@.push(cyc)[k2] == cycles@[k2]);
                    }
                }
            }
            cycles.push(cyc);
        }
    }
}
} // verus!
