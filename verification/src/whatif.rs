//! The what-if cascade simulator: "if these nodes were closed, what would
//! become actionable?"
//!
//! Closing a node directly unblocks the successors that were blocked only
//! by it; the cascade then follows successors breadth-first, logically
//! completing each unblocked node, and records every node whose blockers
//! are all resolved, each at most once and in discovery order.

use vstd::prelude::*;
use crate::counting::count_true;
use crate::counting::lemma_count_true_le;
use crate::counting::lemma_count_true_set;
use crate::graph::DiGraph;
use crate::reachability::actionable_nodes;
use crate::reachability::closed_at;
use crate::reachability::is_actionable;
use crate::reachability::spec_actionable;

verus! {

/// Result of a what-if simulation for closing one node or a batch.
#[derive(Debug, Clone)]
pub struct WhatIfResult {
    /// Number of nodes directly unblocked.
    pub direct_unblocks: usize,
    /// Number of nodes transitively unblocked (the full cascade).
    pub transitive_unblocks: usize,
    /// Indices of the directly unblocked nodes.
    pub unblocked_ids: Vec<usize>,
    /// Indices of all transitively unblocked nodes, in discovery order.
    pub cascade_ids: Vec<usize>,
    /// Parallelization gain: direct unblocks beyond the first, never
    /// negative.
    pub parallel_gain: i32,
}

impl WhatIfResult {
    /// All counts zero and both index lists empty.
    pub open spec fn is_no_impact(self) -> bool {
        &&& self.direct_unblocks == 0
        &&& self.transitive_unblocks == 0
        &&& self.unblocked_ids@ == Seq::<usize>::empty()
        &&& self.cascade_ids@ == Seq::<usize>::empty()
        &&& self.parallel_gain == 0
    }

    /// Create an empty result (no impact).
    pub fn empty() -> (r: Self)
        ensures
            r.is_no_impact(),
    {
        let r = WhatIfResult {
            direct_unblocks: 0,
            transitive_unblocks: 0,
            unblocked_ids: Vec::new(),
            cascade_ids: Vec::new(),
            parallel_gain: 0,
        };
        proof {
            assert(r.unblocked_ids@ =~= Seq::<usize>::empty());
            assert(r.cascade_ids@ =~= Seq::<usize>::empty());
        }
        r
    }
}

/// The closed-set `closed`, read out to exactly `n` entries, with `node`
/// closed as well.
pub open spec fn close_one(closed: Seq<bool>, n: int, node: int) -> Seq<bool>
    recommends
        0 <= n,
{
    Seq::new(n as nat, |i: int| closed_at(closed, i) || i == node)
}

/// `w` transitions from blocked to actionable when the closed-set changes
/// from `oldc` to `newc` (and is not itself closed afterwards).
pub open spec fn newly_actionable(g: DiGraph, oldc: Seq<bool>, newc: Seq<bool>, w: int) -> bool {
    &&& !closed_at(newc, w)
    &&& !spec_actionable(g, oldc, w)
    &&& spec_actionable(g, newc, w)
}

/// The duplicate-free subsequence of `succs`, in first-occurrence order,
/// whose elements transition from blocked to actionable between `oldc`
/// and `newc`: the direct-unblock set, as an ordered sequence. A node is
/// counted once even when parallel duplicate edges reach it.
pub open spec fn direct_seq(g: DiGraph, oldc: Seq<bool>, newc: Seq<bool>, succs: Seq<usize>) -> Seq<
    usize,
>
    decreases succs.len(),
{
    if succs.len() == 0 {
        Seq::empty()
    } else {
        let rest = direct_seq(g, oldc, newc, succs.drop_last());
        if newly_actionable(g, oldc, newc, succs.last() as int) && !rest.contains(succs.last()) {
            rest.push(succs.last())
        } else {
            rest
        }
    }
}

/// `v` lies at the end of a walk of exactly `k` edges that starts at some
/// element of `seeds`.
pub open spec fn reach_n(g: DiGraph, seeds: Seq<usize>, v: usize, k: nat) -> bool
    decreases k,
{
    if k == 0 {
        seeds.contains(v)
    } else {
        exists|u: usize|
            (u as int) < g.n() && reach_n(g, seeds, u, (k - 1) as nat) && g.succ(
                u as int,
            ).contains(v)
    }
}

/// `v` is reachable from the seed set by following zero or more edges.
pub open spec fn reaches(g: DiGraph, seeds: Seq<usize>, v: usize) -> bool {
    exists|k: nat| reach_n(g, seeds, v, k)
}

/// `v` is reachable from `u` by following at least one edge.
pub open spec fn reaches_from(g: DiGraph, u: usize, v: usize) -> bool {
    exists|k: nat| k >= 1 && reach_n(g, seq![u], v, k)
}

/// Every predecessor of `s[j]` is either closed in `initial` or appears
/// before position `j` in `s`: position `j` of the cascade is justified.
pub open spec fn preds_resolved_at(g: DiGraph, initial: Seq<bool>, s: Seq<usize>, j: int) -> bool
    recommends
        0 <= j < s.len(),
{
    forall|k: int|
        0 <= k < g.pred(s[j] as int).len() ==> closed_at(
            initial,
            #[trigger] g.pred(s[j] as int)[k] as int,
        ) || s.take(j).contains(g.pred(s[j] as int)[k])
}

/// The in-range, not-initially-closed elements of `roots`, first
/// occurrences only, in order: exactly the nodes the cascade seeding
/// keeps.
pub open spec fn seed_seq(initial: Seq<bool>, n: int, roots: Seq<usize>) -> Seq<usize>
    decreases roots.len(),
{
    if roots.len() == 0 {
        Seq::empty()
    } else {
        let rest = seed_seq(initial, n, roots.drop_last());
        if (roots.last() as int) < n && !closed_at(initial, roots.last() as int) && !rest.contains(
            roots.last(),
        ) {
            rest.push(roots.last())
        } else {
            rest
        }
    }
}

/// `w` may join the cascade `cas`: it is not yet in it, not initially
/// closed, and each of its predecessors is initially closed or already in
/// the cascade.
pub open spec fn cascade_admits(g: DiGraph, initial: Seq<bool>, cas: Seq<usize>, w: usize) -> bool {
    &&& !cas.contains(w)
    &&& !closed_at(initial, w as int)
    &&& forall|k: int|
        0 <= k < g.pred(w as int).len() ==> closed_at(
            initial,
            (#[trigger] g.pred(w as int)[k]) as int,
        ) || cas.contains(g.pred(w as int)[k])
}

/// One dequeue step of the cascade's breadth-first run: scan the
/// successors of `cas[t]` from position `k`, appending each one that is
/// admissible at the moment it is examined.
pub open spec fn bfs_expand(g: DiGraph, initial: Seq<bool>, cas: Seq<usize>, t: int, k: int) -> Seq<
    usize,
>
    decreases g.succ(cas[t] as int).len() - k,
{
    if t < 0 || t >= cas.len() || k < 0 || k >= g.succ(cas[t] as int).len() {
        cas
    } else {
        let w = g.succ(cas[t] as int)[k];
        let cas2 = if cascade_admits(g, initial, cas, w) {
            cas.push(w)
        } else {
            cas
        };
        bfs_expand(g, initial, cas2, t, k + 1)
    }
}

/// The cascade's breadth-first run from dequeue position `t`: expand each
/// queued node in turn until the queue is exhausted (`fuel` only bounds
/// the recursion; one unit per dequeue suffices).
pub open spec fn bfs_run(g: DiGraph, initial: Seq<bool>, cas: Seq<usize>, t: int, fuel: nat) -> Seq<
    usize,
>
    decreases fuel,
{
    if fuel == 0 || t < 0 || t >= cas.len() {
        cas
    } else {
        bfs_run(g, initial, bfs_expand(g, initial, cas, t, 0), t + 1, (fuel - 1) as nat)
    }
}

/// No predecessor of `w` appears in `s`: the cascade never touches `w`.
pub open spec fn no_pred_in(g: DiGraph, s: Seq<usize>, w: usize) -> bool {
    forall|k: int|
        0 <= k < g.pred(w as int).len() ==> !s.contains(#[trigger] g.pred(w as int)[k])
}

/// Some predecessor of `w` is neither closed in `initial` nor among the
/// completed nodes `done`: `w` still has an open blocker.
pub open spec fn has_open_pred(g: DiGraph, initial: Seq<bool>, done: Seq<usize>, w: usize) -> bool {
    exists|k: int|
        0 <= k < g.pred(w as int).len() && !closed_at(
            initial,
            (#[trigger] g.pred(w as int)[k]) as int,
        ) && !done.contains(g.pred(w as int)[k])
}

/// The closed-set `closed`, read out to exactly `n` entries, with every
/// in-range element of `nodes` closed as well.
pub open spec fn close_many(closed: Seq<bool>, n: int, nodes: Seq<usize>) -> Seq<bool>
    recommends
        0 <= n,
{
    Seq::new(n as nat, |i: int| closed_at(closed, i) || nodes.contains(i as usize))
}

/// All successors of the in-range elements of `nodes`, concatenated in
/// batch order: the stream the batch scan walks.
pub open spec fn succ_stream(g: DiGraph, nodes: Seq<usize>) -> Seq<usize>
    decreases nodes.len(),
{
    if nodes.len() == 0 {
        Seq::empty()
    } else {
        succ_stream(g, nodes.drop_last()) + (if (nodes.last() as int) < g.n() {
            g.succ(nodes.last() as int)
        } else {
            Seq::empty()
        })
    }
}

/// `w` is a successor of some in-range element of `nodes`.
pub open spec fn seeded_by(g: DiGraph, nodes: Seq<usize>, w: usize) -> bool {
    exists|j: int|
        0 <= j < nodes.len() && (#[trigger] nodes[j] as int) < g.n() && g.succ(
            nodes[j] as int,
        ).contains(w)
}

/// `w` is directly unblocked by closing the batch `nodes` at once: it is a
/// successor of a closed node and transitions from blocked to actionable
/// under the whole batch.
pub open spec fn batch_unblocked(g: DiGraph, oldc: Seq<bool>, nodes: Seq<usize>, w: usize) -> bool {
    &&& (w as int) < g.n()
    &&& newly_actionable(g, oldc, close_many(oldc, g.n(), nodes), w as int)
    &&& seeded_by(g, nodes, w)
}

/// Parallel gain of a direct-unblock count: the unblocks beyond the first,
/// floored at zero and saturated to the output type's range.
pub open spec fn spec_parallel_gain(direct: nat) -> int {
    if direct == 0 {
        0
    } else if direct - 1 <= i32::MAX {
        direct - 1
    } else {
        i32::MAX as int
    }
}

/// Every element of the direct-unblock sequence transitions from blocked
/// to actionable and comes from the successor sequence, and no element
/// repeats.
proof fn lemma_direct_seq_props(g: DiGraph, oldc: Seq<bool>, newc: Seq<bool>, succs: Seq<usize>)
    ensures
        forall|j: int|
            0 <= j < direct_seq(g, oldc, newc, succs).len() ==> newly_actionable(
                g,
                oldc,
                newc,
                #[trigger] direct_seq(g, oldc, newc, succs)[j] as int,
            ) && succs.contains(direct_seq(g, oldc, newc, succs)[j]),
        direct_seq(g, oldc, newc, succs).no_duplicates(),
    decreases succs.len(),
{
    if succs.len() > 0 {
        lemma_direct_seq_props(g, oldc, newc, succs.drop_last());
        let rest = succs.drop_last();
        let d = direct_seq(g, oldc, newc, succs);
        let dr = direct_seq(g, oldc, newc, rest);
        assert forall|j: int|
            0 <= j < d.len() implies newly_actionable(g, oldc, newc, #[trigger] d[j] as int)
            && succs.contains(d[j]) by {
            if j < dr.len() {
                assert(rest.contains(dr[j]));
                let i = choose|i: int| 0 <= i < rest.len() && rest[i] == dr[j];
                assert(succs[i] == dr[j]);
            } else {
                assert(d[j] == succs.last());
                assert(succs[succs.len() - 1] == succs.last());
            }
        }
        assert forall|a: int, b: int|
            0 <= a < d.len() && 0 <= b < d.len() && a != b implies d[a] != d[b] by {
            if a < dr.len() && b < dr.len() {
                assert(dr[a] != dr[b]);
            } else if b == dr.len() && a < dr.len() {
                assert(dr.contains(dr[a]));
            } else if a == dr.len() && b < dr.len() {
                assert(dr.contains(dr[b]));
            }
        }
    }
}

/// A walk from seeds that all lie one edge past `node` extends to a walk
/// from `node` alone, one edge longer.
proof fn lemma_reach_via_successors(g: DiGraph, node: usize, roots: Seq<usize>, v: usize, k: nat)
    requires
        (node as int) < g.n(),
        forall|j: int| 0 <= j < roots.len() ==> g.succ(node as int).contains(#[trigger] roots[j]),
        reach_n(g, roots, v, k),
    ensures
        reach_n(g, seq![node], v, (k + 1) as nat),
    decreases k,
{
    if k == 0 {
        let j = choose|j: int| 0 <= j < roots.len() && roots[j] == v;
        assert(g.succ(node as int).contains(v));
        assert(seq![node][0] == node);
        assert(seq![node].contains(node));
        assert(reach_n(g, seq![node], node, 0));
        assert((node as int) < g.n() && reach_n(g, seq![node], node, 0) && g.succ(
            node as int,
        ).contains(v));
        assert(reach_n(g, seq![node], v, 1));
    } else {
        let u = choose|u: usize|
            (u as int) < g.n() && reach_n(g, roots, u, (k - 1) as nat) && g.succ(
                u as int,
            ).contains(v);
        lemma_reach_via_successors(g, node, roots, u, (k - 1) as nat);
        assert((u as int) < g.n() && reach_n(g, seq![node], u, k) && g.succ(u as int).contains(v));
        assert(reach_n(g, seq![node], v, (k + 1) as nat));
    }
}

/// Whatever is reachable from the direct unblocks of `node` is reachable
/// from `node` itself by at least one edge.
proof fn lemma_reaches_from_node(g: DiGraph, node: usize, roots: Seq<usize>, v: usize)
    requires
        (node as int) < g.n(),
        forall|j: int| 0 <= j < roots.len() ==> g.succ(node as int).contains(#[trigger] roots[j]),
        reaches(g, roots, v),
    ensures
        reaches_from(g, node, v),
{
    let k = choose|k: nat| reach_n(g, roots, v, k);
    lemma_reach_via_successors(g, node, roots, v, k);
    assert(k + 1 >= 1 && reach_n(g, seq![node], v, (k + 1) as nat));
}

/// Reachability extends along one edge.
pub proof fn lemma_reach_step(g: DiGraph, seeds: Seq<usize>, u: usize, v: usize)
    requires
        (u as int) < g.n(),
        reaches(g, seeds, u),
        g.succ(u as int).contains(v),
    ensures
        reaches(g, seeds, v),
{
    let k = choose|k: nat| reach_n(g, seeds, u, k);
    assert((u as int) < g.n() && reach_n(g, seeds, u, k) && g.succ(u as int).contains(v));
    assert(reach_n(g, seeds, v, k + 1));
}

/// Marking a fresh node in the bitmap and appending it to the list keeps
/// the two in step and keeps the list duplicate-free.
pub proof fn lemma_mark_push(
    bm0: Seq<bool>,
    bm1: Seq<bool>,
    s0: Seq<usize>,
    s1: Seq<usize>,
    x: usize,
    n: int,
)
    requires
        bm0.len() == n,
        (x as int) < n,
        !bm0[x as int],
        bm1 == bm0.update(x as int, true),
        s1 == s0.push(x),
        forall|v: usize| (v as int) < n ==> (bm0[v as int] <==> s0.contains(v)),
        forall|j: int| 0 <= j < s0.len() ==> (#[trigger] s0[j] as int) < n,
        s0.no_duplicates(),
    ensures
        forall|v: usize| (v as int) < n ==> (bm1[v as int] <==> s1.contains(v)),
        s1.no_duplicates(),
        count_true(bm1) == count_true(bm0) + 1,
{
    assert forall|v: usize| (v as int) < n implies (bm1[v as int] <==> s1.contains(v)) by {
        if v == x {
            assert(s1.last() == x);
            assert(s1.contains(x));
        } else {
            if s0.contains(v) {
                let j = choose|j: int| 0 <= j < s0.len() && s0[j] == v;
                assert(s1[j] == v);
            }
            if s1.contains(v) {
                let j = choose|j: int| 0 <= j < s1.len() && s1[j] == v;
                assert(s0[j] == v);
            }
        }
    }
    assert forall|i: int, j: int|
        0 <= i < s1.len() && 0 <= j < s1.len() && i != j implies s1[i] != s1[j] by {
        if i < s0.len() && j < s0.len() {
            assert(s0[i] != s0[j]);
        } else if j == s0.len() && i < s0.len() {
            assert(s0.contains(s0[i]));
            assert(bm0[s0[i] as int]);
        } else if i == s0.len() && j < s0.len() {
            assert(s0.contains(s0[j]));
            assert(bm0[s0[j] as int]);
        }
    }
    lemma_count_true_set(bm0, x as int);
}

/// A duplicate-free root list whose every element is in range and not
/// initially closed seeds the cascade unchanged.
proof fn lemma_seed_seq_all(initial: Seq<bool>, n: int, roots: Seq<usize>)
    requires
        roots.no_duplicates(),
        forall|j: int|
            0 <= j < roots.len() ==> ((#[trigger] roots[j]) as int) < n && !closed_at(
                initial,
                roots[j] as int,
            ),
    ensures
        seed_seq(initial, n, roots) == roots,
    decreases roots.len(),
{
    if roots.len() == 0 {
        assert(seed_seq(initial, n, roots) =~= roots);
    } else {
        let rest = roots.drop_last();
        assert forall|j: int|
            0 <= j < rest.len() implies ((#[trigger] rest[j]) as int) < n && !closed_at(
            initial,
            rest[j] as int,
        ) by {
            assert(rest[j] == roots[j]);
        }
        lemma_seed_seq_all(initial, n, rest);
        assert(!rest.contains(roots.last())) by {
            if rest.contains(roots.last()) {
                let j = choose|j: int| 0 <= j < rest.len() && rest[j] == roots.last();
                assert(roots[j] == roots[roots.len() - 1]);
            }
        }
        assert(seed_seq(initial, n, roots) =~= roots);
    }
}

/// Read the closed-set out to exactly `n` entries.
fn build_closed(initial: &[bool], n: usize) -> (r: Vec<bool>)
    ensures
        r@.len() == n,
        forall|i: int| 0 <= i < n ==> (r@[i] <==> closed_at(initial@, i)),
{
    let mut r: Vec<bool> = Vec::with_capacity(n);
    let mut i: usize = 0;
    while i < n
        invariant
            i <= n,
            r@.len() == i,
            forall|j: int| 0 <= j < i ==> (r@[j] <==> closed_at(initial@, j)),
        decreases n - i,
    {
        r.push(i < initial.len() && initial[i]);
        i = i + 1;
    }
    r
}

/// The cascade of nodes that become actionable starting from `roots`,
/// in breadth-first discovery order: each dequeued node is logically
/// completed, and a successor joins the cascade the first time all of its
/// predecessors are initially closed, completed, or already discovered.
#[verifier::loop_isolation(false)]
#[verifier::rlimit(60)]
pub fn count_cascade(graph: &DiGraph, roots: &[usize], initial_closed: &[bool]) -> (r: Vec<usize>)
    requires
        graph.wf(),
    ensures
        graph.n() == 0 || roots@.len() == 0 ==> r@ == roots@,
        graph.n() > 0 && roots@.len() > 0 ==> r@.no_duplicates(),
        graph.n() > 0 && roots@.len() > 0 ==> forall|j: int|
            0 <= j < r@.len() ==> (#[trigger] r@[j] as int) < graph.n() && !closed_at(
                initial_closed@,
                r@[j] as int,
            ),
        graph.n() > 0 && roots@.len() > 0 ==> forall|j: int|
            0 <= j < r@.len() ==> reaches(*graph, roots@, #[trigger] r@[j]),
        graph.n() > 0 && roots@.len() > 0 ==> forall|j: int|
            0 <= j < roots@.len() && (#[trigger] roots@[j] as int) < graph.n() && !closed_at(
                initial_closed@,
                roots@[j] as int,
            ) ==> r@.contains(roots@[j]),
        graph.n() > 0 && roots@.len() > 0 && roots@.no_duplicates() && (forall|j: int|
            0 <= j < roots@.len() ==> (#[trigger] roots@[j] as int) < graph.n() && !closed_at(
                initial_closed@,
                roots@[j] as int,
            )) ==> roots@.is_prefix_of(r@),
        graph.n() > 0 && roots@.len() > 0 ==> forall|j: int|
            0 <= j < r@.len() && !roots@.contains(#[trigger] r@[j]) ==> preds_resolved_at(
                *graph,
                initial_closed@,
                r@,
                j,
            ),
        graph.n() > 0 && roots@.len() > 0 ==> forall|w: usize|
            (w as int) < graph.n() && !r@.contains(w) && !closed_at(initial_closed@, w as int)
                ==> no_pred_in(*graph, r@, w) || has_open_pred(*graph, initial_closed@, r@, w),
        graph.n() > 0 && roots@.len() > 0 ==> seed_seq(
            initial_closed@,
            graph.n(),
            roots@,
        ).is_prefix_of(r@),
        graph.n() > 0 && roots@.len() > 0 ==> r@ == bfs_run(
            *graph,
            initial_closed@,
            seed_seq(initial_closed@, graph.n(), roots@),
            0,
            (graph.n() + 1) as nat,
        ),
{
    let n = graph.len();
    if n == 0 || roots.len() == 0 {
        let mut out: Vec<usize> = Vec::with_capacity(roots.len());
        let mut i: usize = 0;
        while i < roots.len()
            invariant
                i <= roots@.len(),
                out@ == roots@.take(i as int),
            decreases roots@.len() - i,
        {
            out.push(roots[i]);
            proof {
                assert(out@ =~= roots@.take(i + 1));
            }
            i = i + 1;
        }
        proof {
            assert(out@ =~= roots@);
        }
        return out;
    }
    let mut closed = build_closed(initial_closed, n);
    let mut visited: Vec<bool> = build_closed(&[], n);
    let mut cascade: Vec<usize> = Vec::new();
    proof {
        crate::counting::lemma_count_true_zero(visited@);
    }
    let ghost good = roots@.no_duplicates() && (forall|j: int|
        0 <= j < roots@.len() ==> (#[trigger] roots@[j] as int) < graph.n() && !closed_at(
            initial_closed@,
            roots@[j] as int,
        ));
    let mut ri: usize = 0;
    while ri < roots.len()
        invariant
            ri <= roots@.len(),
            closed@.len() == n,
            visited@.len() == n,
            forall|i: int| 0 <= i < n ==> (closed@[i] <==> closed_at(initial_closed@, i)),
            forall|v: usize| (v as int) < n ==> (visited@[v as int] <==> cascade@.contains(v)),
            cascade@.no_duplicates(),
            count_true(visited@) == cascade@.len(),
            forall|j: int|
                0 <= j < cascade@.len() ==> (#[trigger] cascade@[j] as int) < n && !closed_at(
                    initial_closed@,
                    cascade@[j] as int,
                ),
            forall|j: int| 0 <= j < cascade@.len() ==> roots@.contains(#[trigger] cascade@[j]),
            forall|j: int|
                0 <= j < ri && (#[trigger] roots@[j] as int) < n && !closed_at(
                    initial_closed@,
                    roots@[j] as int,
                ) ==> cascade@.contains(roots@[j]),
            cascade@ == seed_seq(initial_closed@, n as int, roots@.take(ri as int)),
        decreases roots@.len() - ri,
    {
        let root = roots[ri];
        let ghost bm0 = visited@;
        let ghost s0 = cascade@;
        if root < n && !visited[root] && !closed[root] {
            visited[root] = true;
            cascade.push(root);
            proof {
                lemma_mark_push(bm0, visited@, s0, cascade@, root, n as int);
            }
        }
        proof {
            assert(roots@.take(ri + 1).drop_last() =~= roots@.take(ri as int));
            assert(roots@.take(ri + 1).last() == roots@[ri as int]);
            assert(cascade@ == seed_seq(initial_closed@, n as int, roots@.take(ri + 1)));
            assert forall|j: int|
                0 <= j < ri + 1 && (#[trigger] roots@[j] as int) < n && !closed_at(
                    initial_closed@,
                    roots@[j] as int,
                ) implies cascade@.contains(roots@[j]) by {
                if j < ri {
                    assert(s0.contains(roots@[j]));
                    let jj = choose|jj: int| 0 <= jj < s0.len() && s0[jj] == roots@[j];
                    assert(cascade@[jj] == roots@[j]);
                } else {
                    assert(visited@[roots@[j] as int]);
                }
            }
            assert forall|j: int| 0 <= j < cascade@.len() implies reach_n(
                *graph,
                roots@,
                #[trigger] cascade@[j],
                0,
            ) by {
                assert(roots@.contains(cascade@[j]));
            }
        }
        ri = ri + 1;
    }
    let ghost seeded = cascade@;
    proof {
        assert(roots@.take(roots@.len() as int) =~= roots@);
        assert(seeded == seed_seq(initial_closed@, n as int, roots@));
        lemma_count_true_le(visited@);
        assert forall|j: int| 0 <= j < cascade@.len() implies reaches(
            *graph,
            roots@,
            #[trigger] cascade@[j],
        ) by {
            assert(roots@.contains(cascade@[j]));
            assert(reach_n(*graph, roots@, cascade@[j], 0));
        }
        assert forall|w: usize|
            (w as int) < n && !cascade@.contains(w) && !closed_at(initial_closed@, w as int)
            implies no_pred_in(*graph, cascade@, w) || has_open_pred(
            *graph,
            initial_closed@,
            cascade@.take(0),
            w,
        ) by {
            if !no_pred_in(*graph, cascade@, w) {
                let k = choose|k: int|
                    0 <= k < graph.pred(w as int).len() && cascade@.contains(
                        #[trigger] graph.pred(w as int)[k],
                    );
                let p = graph.pred(w as int)[k];
                let j = choose|j: int| 0 <= j < cascade@.len() && cascade@[j] == p;
                assert(!closed_at(initial_closed@, cascade@[j] as int));
                assert(cascade@.take(0).len() == 0);
                assert(0 <= k < graph.pred(w as int).len() && !closed_at(
                    initial_closed@,
                    (graph.pred(w as int)[k]) as int,
                ) && !cascade@.take(0).contains(graph.pred(w as int)[k]));
            }
        }
    }
    let mut head: usize = 0;
    while head < cascade.len()
        invariant
            closed@.len() == n,
            visited@.len() == n,
            head <= cascade@.len(),
            cascade@.len() <= n,
            forall|v: usize| (v as int) < n ==> (visited@[v as int] <==> cascade@.contains(v)),
            forall|i: int|
                0 <= i < n ==> (closed@[i] <==> closed_at(initial_closed@, i) || cascade@.take(
                    head as int,
                ).contains(i as usize)),
            cascade@.no_duplicates(),
            count_true(visited@) == cascade@.len(),
            forall|j: int|
                0 <= j < cascade@.len() ==> (#[trigger] cascade@[j] as int) < n && !closed_at(
                    initial_closed@,
                    cascade@[j] as int,
                ),
            forall|j: int| 0 <= j < cascade@.len() ==> reaches(*graph, roots@, #[trigger] cascade@[j]),
            seeded.is_prefix_of(cascade@),
            forall|j: int|
                0 <= j < cascade@.len() && !roots@.contains(#[trigger] cascade@[j])
                    ==> preds_resolved_at(*graph, initial_closed@, cascade@, j),
            forall|w: usize|
                (w as int) < n && !cascade@.contains(w) && !closed_at(initial_closed@, w as int)
                    ==> no_pred_in(*graph, cascade@, w) || has_open_pred(
                    *graph,
                    initial_closed@,
                    cascade@.take(head as int),
                    w,
                ),
            bfs_run(*graph, initial_closed@, seeded, 0, (n + 1) as nat) == bfs_run(
                *graph,
                initial_closed@,
                cascade@,
                head as int,
                (n + 1 - head) as nat,
            ),
        decreases n - head,
    {
        proof {
            lemma_count_true_le(visited@);
        }
        let v = cascade[head];
        let ghost cas_dq = cascade@;
        let ghost c0 = closed@;
        closed[v] = true;
        head = head + 1;
        proof {
            assert forall|i: int|
                0 <= i < n implies (closed@[i] <==> closed_at(initial_closed@, i)
                || cascade@.take(head as int).contains(i as usize)) by {
                let t1 = cascade@.take(head as int);
                let t0 = cascade@.take(head - 1);
                assert(t1 =~= t0.push(v));
                if i == v {
                    assert(t1[head - 1] == v);
                    assert(t1.contains(v));
                } else {
                    assert(closed@[i] == c0[i]);
                    if t1.contains(i as usize) {
                        let j = choose|j: int| 0 <= j < t1.len() && t1[j] == i as usize;
                        assert(t0[j] == i as usize);
                    }
                    if t0.contains(i as usize) {
                        let j = choose|j: int| 0 <= j < t0.len() && t0[j] == i as usize;
                        assert(t1[j] == i as usize);
                    }
                }
            }
            graph.lemma_succ_in_range(v as int);
            assert forall|w: usize|
                (w as int) < n && !cascade@.contains(w) && !closed_at(initial_closed@, w as int)
                implies no_pred_in(*graph, cascade@, w) || has_open_pred(
                *graph,
                initial_closed@,
                cascade@.take(head as int),
                w,
            ) || (exists|k2: int|
                0 <= k2 < graph.succ(v as int).len() && graph.succ(v as int)[k2] == w) by {
                if !no_pred_in(*graph, cascade@, w) {
                    assert(has_open_pred(*graph, initial_closed@, cascade@.take(head - 1), w));
                    let k = choose|k: int|
                        0 <= k < graph.pred(w as int).len() && !closed_at(
                            initial_closed@,
                            (#[trigger] graph.pred(w as int)[k]) as int,
                        ) && !cascade@.take(head - 1).contains(graph.pred(w as int)[k]);
                    let p = graph.pred(w as int)[k];
                    if p == v {
                        crate::graph::lemma_edge_duality(*graph, v, w);
                        assert(graph.pred(w as int).contains(v));
                        assert(graph.succ(v as int).contains(w));
                        let k2 = choose|k2: int|
                            0 <= k2 < graph.succ(v as int).len() && graph.succ(v as int)[k2] == w;
                        assert(graph.succ(v as int)[k2] == w);
                    } else {
                        let t1 = cascade@.take(head as int);
                        let t0 = cascade@.take(head - 1);
                        assert(t1 =~= t0.push(v));
                        assert(!t1.contains(p)) by {
                            if t1.contains(p) {
                                let j = choose|j: int| 0 <= j < t1.len() && t1[j] == p;
                                assert(t0[j] == p || t1[j] == v);
                            }
                        }
                        assert(0 <= k < graph.pred(w as int).len() && !closed_at(
                            initial_closed@,
                            (graph.pred(w as int)[k]) as int,
                        ) && !t1.contains(graph.pred(w as int)[k]));
                    }
                }
            }
        }
        let succs = graph.successors_slice(v);
        let m = succs.len();
        let mut si: usize = 0;
        while si < m
            invariant
                (v as int) < n,
                succs@ == graph.succ(v as int),
                m == succs@.len(),
                si <= m,
                head >= 1,
                cascade@[head - 1] == v,
                bfs_expand(*graph, initial_closed@, cas_dq, head - 1, 0) == bfs_expand(
                    *graph,
                    initial_closed@,
                    cascade@,
                    head - 1,
                    si as int,
                ),
                closed@.len() == n,
                visited@.len() == n,
                head <= cascade@.len(),
                cascade@.len() <= n,
                forall|vv: usize| (vv as int) < n ==> (visited@[vv as int] <==> cascade@.contains(vv)),
                forall|i: int|
                    0 <= i < n ==> (closed@[i] <==> closed_at(initial_closed@, i) || cascade@.take(
                        head as int,
                    ).contains(i as usize)),
                cascade@.no_duplicates(),
                count_true(visited@) == cascade@.len(),
                forall|j: int|
                    0 <= j < cascade@.len() ==> (#[trigger] cascade@[j] as int) < n && !closed_at(
                        initial_closed@,
                        cascade@[j] as int,
                    ),
                forall|j: int|
                    0 <= j < cascade@.len() ==> reaches(*graph, roots@, #[trigger] cascade@[j]),
                seeded.is_prefix_of(cascade@),
                forall|j: int|
                    0 <= j < cascade@.len() && !roots@.contains(#[trigger] cascade@[j])
                        ==> preds_resolved_at(*graph, initial_closed@, cascade@, j),
                forall|w2: usize|
                    (w2 as int) < n && !cascade@.contains(w2) && !closed_at(
                        initial_closed@,
                        w2 as int,
                    ) ==> no_pred_in(*graph, cascade@, w2) || has_open_pred(
                        *graph,
                        initial_closed@,
                        cascade@.take(head as int),
                        w2,
                    ) || (exists|k2: int| si <= k2 < succs@.len() && succs@[k2] == w2),
            decreases m - si,
        {
            let ghost cas_before = cascade@;
            let w = succs[si];
            proof {
                graph.lemma_succ_in_range(v as int);
                assert((graph.succ(v as int)[si as int] as int) < n);
            }
            if !visited[w] && !closed[w] {
                let preds = graph.predecessors_slice(w);
                proof {
                    graph.lemma_pred_in_range(w as int);
                }
                let pm = preds.len();
                let mut pi: usize = 0;
                let mut all_resolved = true;
                while pi < pm
                    invariant
                        preds@ == graph.pred(w as int),
                        pm == preds@.len(),
                        pi <= pm,
                        all_resolved ==> forall|k: int|
                            #![trigger preds@[k]]
                            0 <= k < pi ==> closed@[preds@[k] as int] || visited@[preds@[k] as int],
                        !all_resolved ==> exists|k: int|
                            0 <= k < pi && !closed@[(#[trigger] preds@[k]) as int] && !visited@[preds@[k] as int],
                    decreases pm - pi,
                {
                    let p = preds[pi];
                    proof {
                        assert((graph.pred(w as int)[pi as int] as int) < n);
                    }
                    if !(closed[p] || visited[p]) {
                        all_resolved = false;
                        proof {
                            assert(!closed@[(preds@[pi as int]) as int] && !visited@[preds@[pi as int] as int]);
                        }
                    }
                    pi = pi + 1;
                }
                proof {
                    graph.lemma_pred_in_range(w as int);
                    if !all_resolved {
                        let k = choose|k: int|
                            0 <= k < pm && !closed@[(#[trigger] preds@[k]) as int]
                                && !visited@[preds@[k] as int];
                        assert(!closed_at(initial_closed@, (graph.pred(w as int)[k]) as int)
                            && !cascade@.take(head as int).contains(graph.pred(w as int)[k]));
                        assert(has_open_pred(
                            *graph,
                            initial_closed@,
                            cascade@.take(head as int),
                            w,
                        ));
                        assert(!cascade_admits(*graph, initial_closed@, cascade@, w)) by {
                            assert(!cascade@.contains(preds@[k]));
                        }
                    }
                    if all_resolved {
                        assert forall|k: int|
                            #![trigger graph.pred(w as int)[k]]
                            0 <= k < graph.pred(w as int).len() implies closed@[graph.pred(
                            w as int,
                        )[k] as int] || visited@[graph.pred(w as int)[k] as int] by {
                            assert(closed@[preds@[k] as int] || visited@[preds@[k] as int]);
                        }
                    }
                }
                if all_resolved {
                    let ghost bm0 = visited@;
                    let ghost s0 = cascade@;
                    visited[w] = true;
                    cascade.push(w);
                    proof {
                        assert(cascade_admits(*graph, initial_closed@, s0, w)) by {
                            assert(!s0.contains(w));
                            assert(!closed_at(initial_closed@, w as int));
                            assert forall|k: int|
                                0 <= k < graph.pred(w as int).len() implies closed_at(
                                initial_closed@,
                                (#[trigger] graph.pred(w as int)[k]) as int,
                            ) || s0.contains(graph.pred(w as int)[k]) by {
                                let p = graph.pred(w as int)[k];
                                assert(closed@[p as int] || bm0[p as int]);
                                if closed@[p as int] && !closed_at(initial_closed@, p as int) {
                                    assert(s0.take(head as int).contains(p));
                                    let jj = choose|jj: int|
                                        0 <= jj < head && s0.take(head as int)[jj] == p;
                                    assert(s0[jj] == p);
                                }
                            }
                        }
                        lemma_mark_push(bm0, visited@, s0, cascade@, w, n as int);
                        lemma_count_true_le(visited@);
                        assert(seeded.is_prefix_of(cascade@)) by {
                            assert(cascade@.take(seeded.len() as int) =~= s0.take(
                                seeded.len() as int,
                            ));
                        }
                        assert forall|i: int|
                            0 <= i < n implies (closed@[i] <==> closed_at(initial_closed@, i)
                            || cascade@.take(head as int).contains(i as usize)) by {
                            assert(cascade@.take(head as int) =~= s0.take(head as int));
                        }
                        let L = s0.len() as int;
                        assert(reaches(*graph, roots@, w)) by {
                            assert((head - 1) < L);
                            assert(reaches(*graph, roots@, s0[head - 1]));
                            lemma_reach_step(*graph, roots@, v, w);
                        }
                        assert forall|j: int|
                            0 <= j < cascade@.len() && !roots@.contains(#[trigger] cascade@[j])
                            implies preds_resolved_at(*graph, initial_closed@, cascade@, j) by {
                            if j < L {
                                assert(preds_resolved_at(*graph, initial_closed@, s0, j));
                                assert(cascade@.take(j) =~= s0.take(j));
                                assert(cascade@[j] == s0[j]);
                            } else {
                                assert(cascade@[j] == w);
                                assert(cascade@.take(j) =~= s0);
                                assert forall|k: int|
                                    0 <= k < graph.pred(w as int).len() implies closed_at(
                                    initial_closed@,
                                    #[trigger] graph.pred(w as int)[k] as int,
                                ) || cascade@.take(j).contains(graph.pred(w as int)[k]) by {
                                    let p = graph.pred(w as int)[k];
                                    assert(closed@[p as int] || bm0[p as int]);
                                    if closed@[p as int] {
                                        if !closed_at(initial_closed@, p as int) {
                                            assert(s0.take(head as int).contains(p));
                                            let t = s0.take(head as int);
                                            let jj = choose|jj: int|
                                                0 <= jj < t.len() && t[jj] == p;
                                            assert(s0[jj] == p);
                                            assert(s0.contains(p));
                                        }
                                    } else {
                                        assert(s0.contains(p));
                                    }
                                    assert(closed_at(initial_closed@, p as int) || s0.contains(p));
                                }
                            }
                        }
                        assert forall|j: int| 0 <= j < cascade@.len() implies (
                        #[trigger] cascade@[j] as int) < n && !closed_at(
                            initial_closed@,
                            cascade@[j] as int,
                        ) by {
                            if j < L {
                            } else {
                                assert(cascade@[j] == w);
                                assert(!closed@[w as int]);
                            }
                        }
                    }
                }
            }
            proof {
                assert forall|w2: usize|
                    (w2 as int) < n && !cascade@.contains(w2) && !closed_at(
                        initial_closed@,
                        w2 as int,
                    ) implies no_pred_in(*graph, cascade@, w2) || has_open_pred(
                    *graph,
                    initial_closed@,
                    cascade@.take(head as int),
                    w2,
                ) || (exists|k2: int| si + 1 <= k2 < succs@.len() && succs@[k2] == w2) by {
                    assert(!cas_before.contains(w2)) by {
                        if cas_before.contains(w2) {
                            let j = choose|j: int| 0 <= j < cas_before.len() && cas_before[j] == w2;
                            assert(cascade@[j] == w2);
                        }
                    }
                    if exists|k2: int| si + 1 <= k2 < succs@.len() && succs@[k2] == w2 {
                    } else if exists|k2: int| si <= k2 < succs@.len() && succs@[k2] == w2 {
                        let k2 = choose|k2: int| si <= k2 < succs@.len() && succs@[k2] == w2;
                        assert(k2 == si);
                        assert(w2 == w);
                        assert(!cascade@.contains(w));
                        assert(!cascade@.take(head as int).contains(w)) by {
                            if cascade@.take(head as int).contains(w) {
                                let j = choose|j: int|
                                    0 <= j < head && cascade@.take(head as int)[j] == w;
                                assert(cascade@[j] == w);
                            }
                        }
                    } else {
                        if has_open_pred(
                            *graph,
                            initial_closed@,
                            cas_before.take(head as int),
                            w2,
                        ) {
                            assert(cas_before.take(head as int) =~= cascade@.take(head as int));
                        } else {
                            assert(no_pred_in(*graph, cas_before, w2));
                            if !no_pred_in(*graph, cascade@, w2) {
                                let k = choose|k: int|
                                    0 <= k < graph.pred(w2 as int).len() && cascade@.contains(
                                        #[trigger] graph.pred(w2 as int)[k],
                                    );
                                let p = graph.pred(w2 as int)[k];
                                assert(!cas_before.contains(p));
                                let j = choose|j: int|
                                    0 <= j < cascade@.len() && cascade@[j] == p;
                                assert(j == cascade@.len() - 1 && p == w) by {
                                    if j < cas_before.len() {
                                        assert(cas_before[j] == p);
                                    }
                                }
                                assert(!closed_at(initial_closed@, p as int));
                                assert(!cascade@.take(head as int).contains(p)) by {
                                    if cascade@.take(head as int).contains(p) {
                                        let jj = choose|jj: int|
                                            0 <= jj < head && cascade@.take(head as int)[jj] == p;
                                        assert(cas_before[jj] == p);
                                    }
                                }
                                assert(0 <= k < graph.pred(w2 as int).len() && !closed_at(
                                    initial_closed@,
                                    (graph.pred(w2 as int)[k]) as int,
                                ) && !cascade@.take(head as int).contains(
                                    graph.pred(w2 as int)[k],
                                ));
                            }
                        }
                    }
                }
            }
            proof {
                let t = head - 1;
                assert(cas_before[t] == v);
                assert(t < cas_before.len());
                assert(graph.succ(cas_before[t] as int)[si as int] == w);
                if cascade@.len() == cas_before.len() {
                    assert(cascade@ == cas_before);
                    assert(!cascade_admits(*graph, initial_closed@, cas_before, w)) by {
                        if cascade_admits(*graph, initial_closed@, cas_before, w) {
                            assert(!cas_before.contains(w) && !closed_at(
                                initial_closed@,
                                w as int,
                            ));
                            assert(!visited@[w as int]);
                            assert(!closed@[w as int]) by {
                                if cascade@.take(head as int).contains(w) {
                                    let jj = choose|jj: int|
                                        0 <= jj < head && cascade@.take(head as int)[jj] == w;
                                    assert(cascade@[jj] == w);
                                }
                            }
                        }
                    }
                    assert(bfs_expand(*graph, initial_closed@, cas_before, t, si as int)
                        == bfs_expand(*graph, initial_closed@, cascade@, t, si + 1));
                } else {
                    assert(cascade@ == cas_before.push(w));
                    assert(cascade_admits(*graph, initial_closed@, cas_before, w));
                    assert(bfs_expand(*graph, initial_closed@, cas_before, t, si as int)
                        == bfs_expand(*graph, initial_closed@, cascade@, t, si + 1));
                    assert(cascade@[t] == cas_before[t]);
                }
            }
            si = si + 1;
        }
        proof {
            assert(bfs_expand(*graph, initial_closed@, cas_dq, head - 1, 0) == cascade@) by {
                assert(bfs_expand(*graph, initial_closed@, cascade@, head - 1, m as int)
                    == cascade@);
            }
            assert(bfs_run(*graph, initial_closed@, seeded, 0, (n + 1) as nat) == bfs_run(
                *graph,
                initial_closed@,
                cascade@,
                head as int,
                (n + 1 - head) as nat,
            )) by {
                assert(bfs_run(*graph, initial_closed@, cas_dq, head - 1, (n + 2 - head) as nat)
                    == bfs_run(
                    *graph,
                    initial_closed@,
                    bfs_expand(*graph, initial_closed@, cas_dq, head - 1, 0),
                    head as int,
                    (n + 1 - head) as nat,
                ));
            }
        }
    }
    proof {
        assert(cascade@.take(cascade@.len() as int) =~= cascade@);
        assert(bfs_run(*graph, initial_closed@, cascade@, head as int, (n + 1 - head) as nat)
            == cascade@);
        assert forall|j: int|
            0 <= j < roots@.len() && (#[trigger] roots@[j] as int) < n && !closed_at(
                initial_closed@,
                roots@[j] as int,
            ) implies cascade@.contains(roots@[j]) by {
            assert(seeded.contains(roots@[j]));
            let jj = choose|jj: int| 0 <= jj < seeded.len() && seeded[jj] == roots@[j];
            assert(cascade@.take(seeded.len() as int)[jj] == seeded[jj]);
            assert(cascade@[jj] == roots@[j]);
        }
        if good {
            lemma_seed_seq_all(initial_closed@, n as int, roots@);
        }
    }
    cascade
}

/// `r` is the result of simulating the closing of `node` under `closed`:
/// everything `what_if_close` promises of its return value, gathered as
/// one predicate so that ranking output can be tied to it entry by entry.
pub open spec fn simulation_of(g: DiGraph, closed: Seq<bool>, node: usize, r: WhatIfResult) -> bool {
    let newc = close_one(closed, g.n(), node as int);
    &&& ((node as int) >= g.n() || closed_at(closed, node as int)) ==> r.is_no_impact()
    &&& ((node as int) < g.n() && !closed_at(closed, node as int)) ==> r.unblocked_ids@
        == direct_seq(g, closed, newc, g.succ(node as int))
    &&& r.direct_unblocks == r.unblocked_ids@.len()
    &&& r.transitive_unblocks == r.cascade_ids@.len()
    &&& r.parallel_gain as int == spec_parallel_gain(r.unblocked_ids@.len())
    &&& r.unblocked_ids@.no_duplicates()
    &&& r.cascade_ids@.no_duplicates()
    &&& r.unblocked_ids@.is_prefix_of(r.cascade_ids@)
    &&& r.unblocked_ids@.len() == 0 ==> r.cascade_ids@.len() == 0
    &&& forall|j: int|
        0 <= j < r.cascade_ids@.len() ==> (#[trigger] r.cascade_ids@[j] as int) < g.n()
            && !closed_at(newc, r.cascade_ids@[j] as int)
    &&& forall|j: int|
        0 <= j < r.cascade_ids@.len() ==> reaches_from(g, node, #[trigger] r.cascade_ids@[j])
    &&& forall|w: usize| r.unblocked_ids@.contains(w) ==> r.cascade_ids@.contains(w)
    &&& forall|j: int|
        0 <= j < r.cascade_ids@.len() && !r.unblocked_ids@.contains(#[trigger] r.cascade_ids@[j])
            ==> preds_resolved_at(g, newc, r.cascade_ids@, j)
    &&& ((node as int) < g.n() && !closed_at(closed, node as int)) ==> forall|w: usize|
        (w as int) < g.n() && !r.cascade_ids@.contains(w) && !closed_at(newc, w as int)
            ==> no_pred_in(g, r.cascade_ids@, w) || has_open_pred(g, newc, r.cascade_ids@, w)
    &&& ((node as int) < g.n() && !closed_at(closed, node as int)) ==> r.cascade_ids@ == bfs_run(
        g,
        newc,
        r.unblocked_ids@,
        0,
        (g.n() + 1) as nat,
    )
}

/// Compute what happens if `node` is closed under `closed_set`: the
/// successors that flip from blocked to actionable, the transitive
/// cascade seeded by them, and the parallel gain. An out-of-range or
/// already-closed node yields the empty result.
#[verifier::loop_isolation(false)]
pub fn what_if_close(graph: &DiGraph, node: usize, closed_set: &[bool]) -> (r: WhatIfResult)
    requires
        graph.wf(),
    ensures
        (node as int) >= graph.n() || closed_at(closed_set@, node as int) ==> r.is_no_impact(),
        (node as int) < graph.n() && !closed_at(closed_set@, node as int) ==> r.unblocked_ids@
            == direct_seq(
            *graph,
            closed_set@,
            close_one(closed_set@, graph.n(), node as int),
            graph.succ(node as int),
        ),
        r.direct_unblocks == r.unblocked_ids@.len(),
        r.transitive_unblocks == r.cascade_ids@.len(),
        r.parallel_gain as int == spec_parallel_gain(r.unblocked_ids@.len()),
        r.cascade_ids@.no_duplicates(),
        (node as int) < graph.n() && !closed_at(closed_set@, node as int) ==> forall|j: int|
            0 <= j < r.cascade_ids@.len() ==> (#[trigger] r.cascade_ids@[j] as int) < graph.n()
                && !closed_at(
                close_one(closed_set@, graph.n(), node as int),
                r.cascade_ids@[j] as int,
            ),
        forall|j: int|
            0 <= j < r.cascade_ids@.len() ==> reaches_from(*graph, node, #[trigger] r.cascade_ids@[j]),
        forall|w: usize| r.unblocked_ids@.contains(w) ==> r.cascade_ids@.contains(w),
        r.unblocked_ids@.no_duplicates(),
        r.unblocked_ids@.is_prefix_of(r.cascade_ids@),
        (node as int) < graph.n() && !closed_at(closed_set@, node as int) ==> forall|j: int|
            0 <= j < r.cascade_ids@.len() && !r.unblocked_ids@.contains(#[trigger] r.cascade_ids@[j])
                ==> preds_resolved_at(
                *graph,
                close_one(closed_set@, graph.n(), node as int),
                r.cascade_ids@,
                j,
            ),
        (node as int) < graph.n() && !closed_at(closed_set@, node as int) ==> forall|w: usize|
            (w as int) < graph.n() && !r.cascade_ids@.contains(w) && !closed_at(
                close_one(closed_set@, graph.n(), node as int),
                w as int,
            ) ==> no_pred_in(*graph, r.cascade_ids@, w) || has_open_pred(
                *graph,
                close_one(closed_set@, graph.n(), node as int),
                r.cascade_ids@,
                w,
            ),
        (node as int) < graph.n() && !closed_at(closed_set@, node as int) ==> r.cascade_ids@
            == bfs_run(
            *graph,
            close_one(closed_set@, graph.n(), node as int),
            r.unblocked_ids@,
            0,
            (graph.n() + 1) as nat,
        ),
        simulation_of(*graph, closed_set@, node, r),
{
    let n = graph.len();
    if node >= n {
        let r = WhatIfResult::empty();
        proof {
            assert(r.unblocked_ids@.is_prefix_of(r.cascade_ids@));
        }
        return r;
    }
    if node < closed_set.len() && closed_set[node] {
        let r = WhatIfResult::empty();
        proof {
            assert(r.unblocked_ids@.is_prefix_of(r.cascade_ids@));
        }
        return r;
    }
    let mut new_closed = build_closed(closed_set, n);
    new_closed[node] = true;
    let ghost newc = close_one(closed_set@, graph.n(), node as int);
    proof {
        assert(new_closed@ =~= newc);
        graph.lemma_succ_in_range(node as int);
    }
    let succs = graph.successors_slice(node);
    let m = succs.len();
    let mut direct: Vec<usize> = Vec::new();
    let mut seen = build_closed(&[], n);
    let mut si: usize = 0;
    while si < m
        invariant
            si <= m,
            new_closed@ == newc,
            seen@.len() == n,
            direct@ == direct_seq(*graph, closed_set@, newc, succs@.take(si as int)),
            forall|x: usize| direct@.contains(x) ==> (x as int) < n && seen@[x as int],
            forall|x: usize|
                (x as int) < n && seen@[x as int] && newly_actionable(
                    *graph,
                    closed_set@,
                    newc,
                    x as int,
                ) ==> direct@.contains(x),
        decreases m - si,
    {
        let ghost d0 = direct@;
        let w = succs[si];
        proof {
            assert((graph.succ(node as int)[si as int] as int) < n);
        }
        if !seen[w] {
            seen[w] = true;
            if !new_closed[w] {
                let was_blocked = !is_actionable(graph, w, closed_set);
                let now_unblocked = is_actionable(graph, w, new_closed.as_slice());
                if was_blocked && now_unblocked {
                    direct.push(w);
                }
            }
        }
        proof {
            assert(succs@.take(si + 1).drop_last() =~= succs@.take(si as int));
            assert(succs@.take(si + 1).last() == succs@[si as int]);
            assert(closed_at(newc, w as int) == newc[w as int]);
            assert(direct@ == direct_seq(*graph, closed_set@, newc, succs@.take(si + 1)));
            assert forall|x: usize| direct@.contains(x) implies (x as int) < n
                && seen@[x as int] by {
                if d0.contains(x) {
                } else {
                    let j = choose|j: int| 0 <= j < direct@.len() && direct@[j] == x;
                    assert(j == d0.len() && direct@[j] == w);
                }
            }
            assert forall|x: usize|
                (x as int) < n && seen@[x as int] && newly_actionable(
                    *graph,
                    closed_set@,
                    newc,
                    x as int,
                ) implies direct@.contains(x) by {
                if x == w {
                    if !d0.contains(w) {
                        assert(direct@.last() == w);
                    } else {
                        let j = choose|j: int| 0 <= j < d0.len() && d0[j] == w;
                        assert(direct@[j] == w);
                    }
                } else {
                    assert(d0.contains(x));
                    let j = choose|j: int| 0 <= j < d0.len() && d0[j] == x;
                    assert(direct@[j] == x);
                }
            }
        }
        si = si + 1;
    }
    proof {
        assert(succs@.take(m as int) =~= succs@);
    }
    let cascade_ids = count_cascade(graph, direct.as_slice(), new_closed.as_slice());
    let direct_count = direct.len();
    let transitive_count = cascade_ids.len();
    let parallel_gain: i32 = if direct_count == 0 {
        0
    } else if direct_count - 1 <= (i32::MAX as usize) {
        (direct_count - 1) as i32
    } else {
        i32::MAX
    };
    proof {
        lemma_direct_seq_props(*graph, closed_set@, newc, graph.succ(node as int));
        assert forall|j: int|
            0 <= j < direct@.len() implies (#[trigger] direct@[j] as int) < n && !closed_at(
            newc,
            direct@[j] as int,
        ) by {
            assert(newly_actionable(*graph, closed_set@, newc, direct@[j] as int));
            assert(graph.succ(node as int).contains(direct@[j]));
            let i = choose|i: int|
                0 <= i < graph.succ(node as int).len() && graph.succ(node as int)[i] == direct@[j];
            assert((graph.succ(node as int)[i] as int) < n);
        }
        if direct@.len() > 0 {
            lemma_seed_seq_all(newc, n as int, direct@);
            assert(cascade_ids@ == bfs_run(*graph, newc, direct@, 0, (graph.n() + 1) as nat));
            assert forall|j: int| 0 <= j < cascade_ids@.len() implies reaches_from(
                *graph,
                node,
                #[trigger] cascade_ids@[j],
            ) by {
                assert(reaches(*graph, direct@, cascade_ids@[j]));
                lemma_reaches_from_node(*graph, node, direct@, cascade_ids@[j]);
            }
            assert forall|w: usize| direct@.contains(w) implies cascade_ids@.contains(w) by {
                let j = choose|j: int| 0 <= j < direct@.len() && direct@[j] == w;
                assert((direct@[j] as int) < n && !closed_at(newc, direct@[j] as int));
            }
        } else {
            assert(cascade_ids@ == direct@);
            assert forall|w: usize|
                (w as int) < graph.n() && !cascade_ids@.contains(w) && !closed_at(
                    newc,
                    w as int,
                ) implies no_pred_in(*graph, cascade_ids@, w) by {
                assert(cascade_ids@.len() == 0);
            }
            assert(direct@.is_prefix_of(cascade_ids@));
            assert(bfs_run(*graph, newc, cascade_ids@, 0, (graph.n() + 1) as nat)
                == cascade_ids@);
        }
    }
    WhatIfResult {
        direct_unblocks: direct_count,
        transitive_unblocks: transitive_count,
        unblocked_ids: direct,
        cascade_ids,
        parallel_gain,
    }
}

/// Compute the impact of closing all of `nodes` at once: a successor is a
/// direct unblock iff it transitions from blocked to actionable given the
/// full batch closed together, counted once even when several batch
/// members point at it. An empty graph or batch yields the empty result.
#[verifier::loop_isolation(false)]
#[verifier::rlimit(60)]
pub fn what_if_close_batch(graph: &DiGraph, nodes: &[usize], closed_set: &[bool]) -> (r:
    WhatIfResult)
    requires
        graph.wf(),
    ensures
        graph.n() == 0 || nodes@.len() == 0 ==> r.is_no_impact(),
        graph.n() > 0 && nodes@.len() > 0 ==> forall|w: usize|
            r.unblocked_ids@.contains(w) <==> batch_unblocked(*graph, closed_set@, nodes@, w),
        graph.n() > 0 && nodes@.len() > 0 ==> r.unblocked_ids@ == direct_seq(
            *graph,
            closed_set@,
            close_many(closed_set@, graph.n(), nodes@),
            succ_stream(*graph, nodes@),
        ),
        r.unblocked_ids@.no_duplicates(),
        r.direct_unblocks == r.unblocked_ids@.len(),
        r.transitive_unblocks == r.cascade_ids@.len(),
        r.parallel_gain as int == spec_parallel_gain(r.unblocked_ids@.len()),
        r.cascade_ids@.no_duplicates(),
        graph.n() > 0 && nodes@.len() > 0 ==> forall|j: int|
            0 <= j < r.cascade_ids@.len() ==> (#[trigger] r.cascade_ids@[j] as int) < graph.n()
                && !closed_at(
                close_many(closed_set@, graph.n(), nodes@),
                r.cascade_ids@[j] as int,
            ),
        forall|j: int|
            0 <= j < r.cascade_ids@.len() ==> reaches(
                *graph,
                r.unblocked_ids@,
                #[trigger] r.cascade_ids@[j],
            ),
        forall|w: usize| r.unblocked_ids@.contains(w) ==> r.cascade_ids@.contains(w),
        r.unblocked_ids@.is_prefix_of(r.cascade_ids@),
        graph.n() > 0 && nodes@.len() > 0 ==> forall|j: int|
            0 <= j < r.cascade_ids@.len() && !r.unblocked_ids@.contains(#[trigger] r.cascade_ids@[j])
                ==> preds_resolved_at(
                *graph,
                close_many(closed_set@, graph.n(), nodes@),
                r.cascade_ids@,
                j,
            ),
        graph.n() > 0 && nodes@.len() > 0 ==> forall|w: usize|
            (w as int) < graph.n() && !r.cascade_ids@.contains(w) && !closed_at(
                close_many(closed_set@, graph.n(), nodes@),
                w as int,
            ) ==> no_pred_in(*graph, r.cascade_ids@, w) || has_open_pred(
                *graph,
                close_many(closed_set@, graph.n(), nodes@),
                r.cascade_ids@,
                w,
            ),
        graph.n() > 0 && nodes@.len() > 0 ==> r.cascade_ids@ == bfs_run(
            *graph,
            close_many(closed_set@, graph.n(), nodes@),
            r.unblocked_ids@,
            0,
            (graph.n() + 1) as nat,
        ),
{
    let n = graph.len();
    if n == 0 || nodes.len() == 0 {
        return WhatIfResult::empty();
    }
    let ghost newc = close_many(closed_set@, graph.n(), nodes@);
    let mut new_closed = build_closed(closed_set, n);
    let mut bi: usize = 0;
    while bi < nodes.len()
        invariant
            bi <= nodes@.len(),
            new_closed@.len() == n,
            forall|i: int|
                0 <= i < n ==> (new_closed@[i] <==> closed_at(closed_set@, i) || nodes@.take(
                    bi as int,
                ).contains(i as usize)),
        decreases nodes@.len() - bi,
    {
        let v = nodes[bi];
        let ghost c0 = new_closed@;
        if v < n {
            new_closed[v] = true;
        }
        proof {
            let t0 = nodes@.take(bi as int);
            let t1 = nodes@.take(bi + 1);
            assert(t1 =~= t0.push(nodes@[bi as int]));
            assert forall|i: int|
                0 <= i < n implies (new_closed@[i] <==> closed_at(closed_set@, i) || t1.contains(
                i as usize,
            )) by {
                if t1.contains(i as usize) {
                    let j = choose|j: int| 0 <= j < t1.len() && t1[j] == i as usize;
                    if j < t0.len() {
                        assert(t0[j] == i as usize);
                    } else {
                        assert(i == v);
                    }
                }
                if t0.contains(i as usize) {
                    let j = choose|j: int| 0 <= j < t0.len() && t0[j] == i as usize;
                    assert(t1[j] == i as usize);
                }
                if i == v && (v as int) < n {
                    assert(t1[bi as int] == v);
                    assert(t1.contains(v));
                }
            }
        }
        bi = bi + 1;
    }
    proof {
        assert(nodes@.take(nodes@.len() as int) =~= nodes@);
        assert(new_closed@ =~= newc);
    }
    let mut seen = build_closed(&[], n);
    let mut direct: Vec<usize> = Vec::new();
    let mut oi: usize = 0;
    while oi < nodes.len()
        invariant
            oi <= nodes@.len(),
            new_closed@ == newc,
            seen@.len() == n,
            forall|w: usize|
                (w as int) < n ==> ((#[trigger] seen@[w as int]) <==> !closed_at(newc, w as int) && seeded_by(
                    *graph,
                    nodes@.take(oi as int),
                    w,
                )),
            forall|w: usize|
                (#[trigger] direct@.contains(w)) <==> ((w as int) < n && newly_actionable(
                    *graph,
                    closed_set@,
                    newc,
                    w as int,
                ) && seeded_by(*graph, nodes@.take(oi as int), w)),
            forall|j: int|
                0 <= j < direct@.len() ==> (#[trigger] direct@[j] as int) < n && newly_actionable(
                    *graph,
                    closed_set@,
                    newc,
                    direct@[j] as int,
                ) && seen@[direct@[j] as int],
            direct@.no_duplicates(),
            direct@ == direct_seq(
                *graph,
                closed_set@,
                newc,
                succ_stream(*graph, nodes@.take(oi as int)),
            ),
        decreases nodes@.len() - oi,
    {
        let v = nodes[oi];
        let ghost t0 = nodes@.take(oi as int);
        let ghost t1 = nodes@.take(oi + 1);
        proof {
            assert(t1 =~= t0.push(nodes@[oi as int]));
        }
        if v < n {
            proof {
                graph.lemma_succ_in_range(v as int);
            }
            let succs = graph.successors_slice(v);
            let m = succs.len();
            proof {
                assert(succs@.take(0).len() == 0);
                assert(succ_stream(*graph, t0) + succs@.take(0) =~= succ_stream(*graph, t0));
                assert(forall|w: usize|
                    (w as int) < n ==> ((#[trigger] seen@[w as int]) <==> !closed_at(
                        newc,
                        w as int,
                    ) && seeded_by(*graph, nodes@.take(oi as int), w)));
            }
            let mut si: usize = 0;
            while si < m
                invariant
                    (v as int) < n,
                    v == nodes@[oi as int],
                    succs@ == graph.succ(v as int),
                    m == succs@.len(),
                    si <= m,
                    new_closed@ == newc,
                    seen@.len() == n,
                    forall|w: usize|
                        (w as int) < n ==> ((#[trigger] seen@[w as int]) <==> !closed_at(newc, w as int) && (
                        seeded_by(*graph, t0, w) || succs@.take(si as int).contains(w))),
                    forall|w: usize|
                        (#[trigger] direct@.contains(w)) <==> ((w as int) < n && newly_actionable(
                            *graph,
                            closed_set@,
                            newc,
                            w as int,
                        ) && (seeded_by(*graph, t0, w) || succs@.take(si as int).contains(w))),
                    forall|j: int|
                        0 <= j < direct@.len() ==> (#[trigger] direct@[j] as int) < n
                            && newly_actionable(*graph, closed_set@, newc, direct@[j] as int)
                            && seen@[direct@[j] as int],
                    direct@.no_duplicates(),
                    direct@ == direct_seq(
                        *graph,
                        closed_set@,
                        newc,
                        succ_stream(*graph, t0) + succs@.take(si as int),
                    ),
                decreases m - si,
            {
                let w = succs[si];
                proof {
                    assert((graph.succ(v as int)[si as int] as int) < n);
                    assert(succs@.take(si + 1) =~= succs@.take(si as int).push(w));
                }
                let ghost seen0 = seen@;
                let ghost d0 = direct@;
                if !(seen[w] || new_closed[w]) {
                    seen[w] = true;
                    let was_blocked = !is_actionable(graph, w, closed_set);
                    let now_unblocked = is_actionable(graph, w, new_closed.as_slice());
                    if was_blocked && now_unblocked {
                        direct.push(w);
                    }
                }
                proof {
                    let tsi = succs@.take(si as int);
                    let tsi1 = succs@.take(si + 1);
                    let stream0 = succ_stream(*graph, t0) + succs@.take(si as int);
                    let stream1 = succ_stream(*graph, t0) + succs@.take(si + 1);
                    assert(stream1.drop_last() =~= stream0);
                    assert(stream1.last() == succs@[si as int]);
                    assert(direct@ == direct_seq(*graph, closed_set@, newc, stream1)) by {
                        if seen0[w as int] {
                            assert(seen0[w as int] <==> !closed_at(newc, w as int) && (seeded_by(
                                *graph,
                                t0,
                                w,
                            ) || succs@.take(si as int).contains(w)));
                            if newly_actionable(*graph, closed_set@, newc, w as int) {
                                assert(d0.contains(w));
                            }
                        } else if closed_at(newc, w as int) {
                        } else {
                            if d0.contains(w) {
                                assert(seen0[w as int]);
                            }
                        }
                    }
                    assert forall|x: usize| #![trigger seen@[x as int]]
                        (x as int) < n implies (seen@[x as int] <==> !closed_at(newc, x as int) && (
                        seeded_by(*graph, t0, x) || tsi1.contains(x))) by {
                        if x == w {
                            assert(tsi1[si as int] == w);
                            assert(tsi1.contains(w));
                        } else {
                            assert(seen@[x as int] == seen0[x as int]);
                            if tsi1.contains(x) {
                                let j = choose|j: int| 0 <= j < tsi1.len() && tsi1[j] == x;
                                assert(tsi[j] == x);
                            }
                            if tsi.contains(x) {
                                let j = choose|j: int| 0 <= j < tsi.len() && tsi[j] == x;
                                assert(tsi1[j] == x);
                            }
                        }
                    }
                    assert forall|x: usize| #![trigger direct@.contains(x)]
                        direct@.contains(x) <==> ((x as int) < n && newly_actionable(
                            *graph,
                            closed_set@,
                            newc,
                            x as int,
                        ) && (seeded_by(*graph, t0, x) || tsi1.contains(x))) by {
                        assert(d0.contains(x) <==> ((x as int) < n && newly_actionable(
                            *graph,
                            closed_set@,
                            newc,
                            x as int,
                        ) && (seeded_by(*graph, t0, x) || tsi.contains(x))));
                        if x == w {
                            assert(seen0[w as int] <==> !closed_at(newc, w as int) && (seeded_by(
                                *graph,
                                t0,
                                w,
                            ) || tsi.contains(w)));
                            assert(tsi1[si as int] == w);
                            assert(tsi1.contains(w));
                            if !seen0[w as int] && !closed_at(newc, w as int) {
                                if newly_actionable(*graph, closed_set@, newc, w as int) {
                                    assert(direct@.last() == w);
                                    assert(direct@.contains(w));
                                } else {
                                    assert(direct@ == d0);
                                    assert(!d0.contains(w));
                                }
                            } else if closed_at(newc, w as int) {
                                assert(!newly_actionable(*graph, closed_set@, newc, w as int));
                                assert(!d0.contains(w));
                                assert(direct@ == d0);
                            } else {
                                assert(seeded_by(*graph, t0, w) || tsi.contains(w));
                                assert(direct@ == d0);
                            }
                        } else {
                            if direct@.contains(x) {
                                if !d0.contains(x) {
                                    let j = choose|j: int|
                                        0 <= j < direct@.len() && direct@[j] == x;
                                    assert(j < d0.len() || direct@[j] == w);
                                    assert(d0[j] == x);
                                }
                            }
                            if d0.contains(x) {
                                let j = choose|j: int| 0 <= j < d0.len() && d0[j] == x;
                                assert(direct@[j] == x);
                            }
                            if tsi1.contains(x) {
                                let j = choose|j: int| 0 <= j < tsi1.len() && tsi1[j] == x;
                                assert(tsi[j] == x);
                            }
                            if tsi.contains(x) {
                                let j = choose|j: int| 0 <= j < tsi.len() && tsi[j] == x;
                                assert(tsi1[j] == x);
                            }
                        }
                    }
                    assert forall|j: int|
                        0 <= j < direct@.len() implies (#[trigger] direct@[j] as int) < n
                        && newly_actionable(*graph, closed_set@, newc, direct@[j] as int)
                        && seen@[direct@[j] as int] by {
                        if j < d0.len() {
                            assert(direct@[j] == d0[j]);
                            assert(seen0[d0[j] as int]);
                        } else {
                            assert(direct@[j] == w);
                        }
                    }
                    assert(direct@.no_duplicates()) by {
                        if direct@.len() > d0.len() {
                            assert forall|a: int, b: int|
                                0 <= a < direct@.len() && 0 <= b < direct@.len() && a != b
                                implies direct@[a] != direct@[b] by {
                                if a < d0.len() && b < d0.len() {
                                    assert(d0[a] != d0[b]);
                                } else if b == d0.len() && a < d0.len() {
                                    assert(seen0[d0[a] as int]);
                                } else if a == d0.len() && b < d0.len() {
                                    assert(seen0[d0[b] as int]);
                                }
                            }
                        }
                    }
                }
                si = si + 1;
            }
            proof {
                assert(succs@.take(m as int) =~= succs@);
                assert(t1[oi as int] == v);
                assert(succ_stream(*graph, t1) =~= succ_stream(*graph, t0) + succs@) by {
                    assert(t1.drop_last() =~= t0);
                    assert(t1.last() == v);
                }
                assert(direct@ == direct_seq(
                    *graph,
                    closed_set@,
                    newc,
                    succ_stream(*graph, t1),
                ));
                assert forall|x: usize|
                    (x as int) < n implies (seen@[x as int] <==> !closed_at(newc, x as int)
                    && seeded_by(*graph, t1, x)) by {
                    assert(seen@[x as int] <==> !closed_at(newc, x as int) && (seeded_by(
                        *graph,
                        t0,
                        x,
                    ) || succs@.take(m as int).contains(x)));
                    if seeded_by(*graph, t0, x) || succs@.contains(x) {
                        if seeded_by(*graph, t0, x) {
                            let j = choose|j: int|
                                0 <= j < t0.len() && (#[trigger] t0[j] as int) < graph.n()
                                    && graph.succ(t0[j] as int).contains(x);
                            assert(t1[j] == t0[j]);
                            assert(seeded_by(*graph, t1, x));
                        } else {
                            assert(t1[oi as int] == v);
                            assert(seeded_by(*graph, t1, x));
                        }
                    }
                    if seeded_by(*graph, t1, x) {
                        let j = choose|j: int|
                            0 <= j < t1.len() && (#[trigger] t1[j] as int) < graph.n()
                                && graph.succ(t1[j] as int).contains(x);
                        if j < t0.len() {
                            assert(t0[j] == t1[j]);
                            assert(seeded_by(*graph, t0, x));
                        } else {
                            assert(t1[j] == v);
                        }
                    }
                }
                assert forall|x: usize|
                    direct@.contains(x) <==> ((x as int) < n && newly_actionable(
                        *graph,
                        closed_set@,
                        newc,
                        x as int,
                    ) && seeded_by(*graph, t1, x)) by {
                    if seeded_by(*graph, t0, x) || succs@.contains(x) {
                        if seeded_by(*graph, t0, x) {
                            let j = choose|j: int|
                                0 <= j < t0.len() && (#[trigger] t0[j] as int) < graph.n()
                                    && graph.succ(t0[j] as int).contains(x);
                            assert(t1[j] == t0[j]);
                            assert(seeded_by(*graph, t1, x));
                        } else {
                            assert(t1[oi as int] == v);
                            assert(seeded_by(*graph, t1, x));
                        }
                    }
                    if seeded_by(*graph, t1, x) {
                        let j = choose|j: int|
                            0 <= j < t1.len() && (#[trigger] t1[j] as int) < graph.n()
                                && graph.succ(t1[j] as int).contains(x);
                        if j < t0.len() {
                            assert(t0[j] == t1[j]);
                            assert(seeded_by(*graph, t0, x));
                        } else {
                            assert(t1[j] == v);
                            assert(succs@.contains(x));
                        }
                    }
                }
            }
        } else {
            proof {
                assert(succ_stream(*graph, t1) =~= succ_stream(*graph, t0)) by {
                    assert(t1.drop_last() =~= t0);
                    assert(t1.last() == v);
                }
                assert(direct@ == direct_seq(
                    *graph,
                    closed_set@,
                    newc,
                    succ_stream(*graph, t1),
                ));
                assert forall|x: usize|
                    (x as int) < n implies (seen@[x as int] <==> !closed_at(newc, x as int)
                    && seeded_by(*graph, t1, x)) by {
                    if seeded_by(*graph, t0, x) {
                        let j = choose|j: int|
                            0 <= j < t0.len() && (#[trigger] t0[j] as int) < graph.n()
                                && graph.succ(t0[j] as int).contains(x);
                        assert(t1[j] == t0[j]);
                        assert(seeded_by(*graph, t1, x));
                    }
                    if seeded_by(*graph, t1, x) {
                        let j = choose|j: int|
                            0 <= j < t1.len() && (#[trigger] t1[j] as int) < graph.n()
                                && graph.succ(t1[j] as int).contains(x);
                        assert(j < t0.len());
                        assert(t0[j] == t1[j]);
                        assert(seeded_by(*graph, t0, x));
                    }
                }
                assert forall|x: usize|
                    direct@.contains(x) <==> ((x as int) < n && newly_actionable(
                        *graph,
                        closed_set@,
                        newc,
                        x as int,
                    ) && seeded_by(*graph, t1, x)) by {
                    if seeded_by(*graph, t0, x) {
                        let j = choose|j: int|
                            0 <= j < t0.len() && (#[trigger] t0[j] as int) < graph.n()
                                && graph.succ(t0[j] as int).contains(x);
                        assert(t1[j] == t0[j]);
                        assert(seeded_by(*graph, t1, x));
                    }
                    if seeded_by(*graph, t1, x) {
                        let j = choose|j: int|
                            0 <= j < t1.len() && (#[trigger] t1[j] as int) < graph.n()
                                && graph.succ(t1[j] as int).contains(x);
                        assert(j < t0.len());
                        assert(t0[j] == t1[j]);
                        assert(seeded_by(*graph, t0, x));
                    }
                }
            }
        }
        oi = oi + 1;
    }
    proof {
        assert(nodes@.take(nodes@.len() as int) =~= nodes@);
    }
    let cascade_ids = count_cascade(graph, direct.as_slice(), new_closed.as_slice());
    let direct_count = direct.len();
    let transitive_count = cascade_ids.len();
    let parallel_gain: i32 = if direct_count == 0 {
        0
    } else if direct_count - 1 <= (i32::MAX as usize) {
        (direct_count - 1) as i32
    } else {
        i32::MAX
    };
    proof {
        assert forall|j: int|
            0 <= j < direct@.len() implies (#[trigger] direct@[j] as int) < n && !closed_at(
            newc,
            direct@[j] as int,
        ) by {
            assert(newly_actionable(*graph, closed_set@, newc, direct@[j] as int));
        }
        if direct@.len() == 0 {
            assert(cascade_ids@ == direct@);
            assert forall|w: usize|
                (w as int) < graph.n() && !cascade_ids@.contains(w) && !closed_at(
                    newc,
                    w as int,
                ) implies no_pred_in(*graph, cascade_ids@, w) by {
                assert(cascade_ids@.len() == 0);
            }
            assert(bfs_run(*graph, newc, cascade_ids@, 0, (graph.n() + 1) as nat)
                == cascade_ids@);
        } else {
            lemma_seed_seq_all(newc, n as int, direct@);
            assert(cascade_ids@ == bfs_run(*graph, newc, direct@, 0, (graph.n() + 1) as nat));
            assert forall|w: usize| direct@.contains(w) implies cascade_ids@.contains(w) by {
                let j = choose|j: int| 0 <= j < direct@.len() && direct@[j] == w;
                assert((direct@[j] as int) < n && !closed_at(newc, direct@[j] as int));
            }
        }
    }
    WhatIfResult {
        direct_unblocks: direct_count,
        transitive_unblocks: transitive_count,
        unblocked_ids: direct,
        cascade_ids,
        parallel_gain,
    }
}

/// One candidate node paired with its simulation result, for ranking
/// output.
#[derive(Debug, Clone)]
pub struct TopWhatIfEntry {
    /// Candidate node index.
    pub node: usize,
    /// What-if result for closing that node.
    pub result: WhatIfResult,
}

/// Ranking key of an entry: its transitive-unblock count.
pub open spec fn entry_key(e: TopWhatIfEntry) -> int {
    e.result.transitive_unblocks as int
}

/// Order `entries` by descending transitive-unblock count — stably, so
/// ties keep their original (ascending node) order — and keep the first
/// `limit`. Every input entry either survives into the output or, once
/// the output is full, is dominated by everything kept.
#[verifier::loop_isolation(false)]
fn rank_entries(entries: &mut Vec<TopWhatIfEntry>, limit: usize) -> (r: Vec<TopWhatIfEntry>)
    requires
        forall|i: int, j: int|
            0 <= i < j < old(entries)@.len() ==> (#[trigger] old(entries)@[i]).node < (
            #[trigger] old(entries)@[j]).node,
    ensures
        r@.len() <= limit,
        r@.len() <= old(entries)@.len(),
        forall|a: int, b: int| 0 <= a <= b < r@.len() ==> entry_key(r@[a]) >= entry_key(r@[b]),
        forall|a: int, b: int|
            0 <= a < b < r@.len() && entry_key(r@[a]) == entry_key(r@[b]) ==> (
            #[trigger] r@[a]).node < (#[trigger] r@[b]).node,
        forall|j: int| 0 <= j < r@.len() ==> old(entries)@.contains(#[trigger] r@[j]),
        forall|i: int|
            0 <= i < old(entries)@.len() ==> r@.contains(#[trigger] old(entries)@[i]) || (r@.len()
                == limit && forall|a: int|
                0 <= a < r@.len() ==> entry_key(#[trigger] r@[a]) >= entry_key(old(entries)@[i])),
{
    let ghost e0 = old(entries)@;
    let mut out: Vec<TopWhatIfEntry> = Vec::new();
    proof {
        assert forall|j: int| 0 <= j < entries@.len() implies e0.contains(
            #[trigger] entries@[j],
        ) by {
            assert(entries@[j] == e0[j]);
        }
        assert forall|i: int| 0 <= i < e0.len() implies entries@.contains(#[trigger] e0[i]) by {
            assert(entries@[i] == e0[i]);
        }
    }
    while entries.len() > 0 && out.len() < limit
        invariant
            out@.len() <= limit,
            out@.len() + entries@.len() <= e0.len(),
            forall|a: int, b: int| 0 <= a <= b < out@.len() ==> entry_key(out@[a]) >= entry_key(
                out@[b],
            ),
            forall|a: int, b: int|
                0 <= a < b < out@.len() && entry_key(out@[a]) == entry_key(out@[b]) ==> (
                #[trigger] out@[a]).node < (#[trigger] out@[b]).node,
            forall|a: int, i: int|
                0 <= a < out@.len() && 0 <= i < entries@.len() ==> entry_key(out@[a]) >= entry_key(
                    entries@[i],
                ),
            forall|a: int, i: int|
                0 <= a < out@.len() && 0 <= i < entries@.len() && entry_key(out@[a]) == entry_key(
                    entries@[i],
                ) ==> (#[trigger] out@[a]).node < (#[trigger] entries@[i]).node,
            forall|i: int, j: int|
                0 <= i < j < entries@.len() ==> (#[trigger] entries@[i]).node < (
                #[trigger] entries@[j]).node,
            forall|j: int| 0 <= j < out@.len() ==> e0.contains(#[trigger] out@[j]),
            forall|j: int| 0 <= j < entries@.len() ==> e0.contains(#[trigger] entries@[j]),
            forall|i: int|
                0 <= i < e0.len() ==> out@.contains(#[trigger] e0[i]) || entries@.contains(e0[i]),
        decreases entries@.len(),
    {
        let mut best: usize = 0;
        let mut bi: usize = 1;
        while bi < entries.len()
            invariant
                entries@.len() > 0,
                (best as int) < bi || (best == 0 && bi <= 1),
                (best as int) < entries@.len(),
                bi <= entries@.len(),
                forall|i: int|
                    0 <= i < bi ==> entry_key(entries@[best as int]) >= entry_key(
                        #[trigger] entries@[i],
                    ),
                forall|i: int|
                    0 <= i < best ==> entry_key(#[trigger] entries@[i]) < entry_key(
                        entries@[best as int],
                    ),
            decreases entries@.len() - bi,
        {
            if entries[bi].result.transitive_unblocks > entries[best].result.transitive_unblocks {
                best = bi;
            }
            bi = bi + 1;
        }
        let ghost before = entries@;
        let ghost out0 = out@;
        let e = entries.remove(best);
        out.push(e);
        proof {
            assert forall|j: int|
                0 <= j < entries@.len() implies e0.contains(#[trigger] entries@[j]) by {
                if j < best {
                    assert(entries@[j] == before[j]);
                    assert(e0.contains(before[j]));
                } else {
                    assert(entries@[j] == before[j + 1]);
                    assert(e0.contains(before[j + 1]));
                }
            }
            assert forall|i: int, j: int|
                0 <= i < j < entries@.len() implies (#[trigger] entries@[i]).node < (
            #[trigger] entries@[j]).node by {
                let bi2 = if i < best {
                    i
                } else {
                    i + 1
                };
                let bj2 = if j < best {
                    j
                } else {
                    j + 1
                };
                assert(entries@[i] == before[bi2] && entries@[j] == before[bj2]);
                assert(before[bi2].node < before[bj2].node);
            }
            assert forall|a: int, i: int|
                0 <= a < out@.len() && 0 <= i < entries@.len() implies entry_key(out@[a])
                >= entry_key(entries@[i]) by {
                if a < out0.len() {
                    assert(out@[a] == out0[a]);
                }
                if i < best {
                    assert(entries@[i] == before[i]);
                } else {
                    assert(entries@[i] == before[i + 1]);
                }
            }
            assert forall|a: int, i: int|
                0 <= a < out@.len() && 0 <= i < entries@.len() && entry_key(out@[a]) == entry_key(
                    entries@[i],
                ) implies (#[trigger] out@[a]).node < (#[trigger] entries@[i]).node by {
                let bi2 = if i < best {
                    i
                } else {
                    i + 1
                };
                assert(entries@[i] == before[bi2]);
                if a < out0.len() {
                    assert(out@[a] == out0[a]);
                } else {
                    assert(out@[a] == before[best as int]);
                    if bi2 < best {
                        assert(entry_key(before[bi2]) < entry_key(before[best as int]));
                    } else {
                        assert(before[best as int].node < before[bi2].node);
                    }
                }
            }
            assert forall|a: int, b: int|
                0 <= a <= b < out@.len() implies entry_key(out@[a]) >= entry_key(out@[b]) by {
                if b < out0.len() {
                    assert(out@[a] == out0[a] && out@[b] == out0[b]);
                } else if a < out0.len() {
                    assert(out@[b] == before[best as int]);
                    assert(out@[a] == out0[a]);
                }
            }
            assert forall|a: int, b: int|
                0 <= a < b < out@.len() && entry_key(out@[a]) == entry_key(out@[b]) implies (
            #[trigger] out@[a]).node < (#[trigger] out@[b]).node by {
                if b < out0.len() {
                    assert(out@[a] == out0[a] && out@[b] == out0[b]);
                } else {
                    assert(out@[b] == before[best as int]);
                    assert(out@[a] == out0[a]);
                }
            }
            assert forall|j: int|
                0 <= j < out@.len() implies e0.contains(#[trigger] out@[j]) by {
                if j < out0.len() {
                    assert(out@[j] == out0[j]);
                    assert(e0.contains(out0[j]));
                } else {
                    assert(out@[j] == before[best as int]);
                    assert(e0.contains(before[best as int]));
                }
            }
            assert forall|i: int|
                0 <= i < e0.len() implies out@.contains(#[trigger] e0[i]) || entries@.contains(
                e0[i],
            ) by {
                if out0.contains(e0[i]) {
                    let j = choose|j: int| 0 <= j < out0.len() && out0[j] == e0[i];
                    assert(out@[j] == e0[i]);
                } else {
                    assert(before.contains(e0[i]));
                    let j = choose|j: int| 0 <= j < before.len() && before[j] == e0[i];
                    if j == best {
                        assert(out@[out@.len() - 1] == e0[i]);
                    } else if j < best {
                        assert(entries@[j] == e0[i]);
                    } else {
                        assert(entries@[j - 1] == e0[i]);
                    }
                }
            }
        }
    }
    proof {
        assert forall|i: int|
            0 <= i < e0.len() implies out@.contains(#[trigger] e0[i]) || (out@.len() == limit
            && forall|a: int|
            0 <= a < out@.len() ==> entry_key(#[trigger] out@[a]) >= entry_key(e0[i])) by {
            if !out@.contains(e0[i]) {
                assert(entries@.contains(e0[i]));
                let j = choose|j: int| 0 <= j < entries@.len() && entries@[j] == e0[i];
                assert(entries@.len() > 0);
                assert(out@.len() == limit);
                assert forall|a: int|
                    0 <= a < out@.len() implies entry_key(#[trigger] out@[a]) >= entry_key(
                    e0[i],
                ) by {
                    assert(entry_key(out@[a]) >= entry_key(entries@[j]));
                }
            }
        }
    }
    out
}

/// A strictly ascending sequence of indices below `n` has at most `n`
/// elements.
proof fn lemma_ascending_ge(s: Seq<usize>, i: int)
    requires
        forall|a: int, b: int| 0 <= a < b < s.len() ==> s[a] < s[b],
        0 <= i < s.len(),
    ensures
        (s[i] as int) >= i,
    decreases i,
{
    if i > 0 {
        lemma_ascending_ge(s, i - 1);
        assert(s[i - 1] < s[i]);
    }
}

/// Rank the currently actionable nodes by the transitive impact of
/// closing each, descending, dropping zero-impact candidates and keeping
/// the first `limit`; ties keep candidate (ascending index) order. Each
/// returned entry carries the simulation of its node, and every impactful
/// candidate either appears or — once the result is full — is dominated
/// by everything kept.
#[verifier::loop_isolation(false)]
pub fn top_what_if(graph: &DiGraph, closed_set: &[bool], limit: usize) -> (r: Vec<TopWhatIfEntry>)
    requires
        graph.wf(),
    ensures
        r@.len() <= limit,
        r@.len() as int <= graph.n(),
        forall|a: int, b: int| 0 <= a <= b < r@.len() ==> entry_key(r@[a]) >= entry_key(r@[b]),
        forall|a: int, b: int|
            0 <= a < b < r@.len() && entry_key(r@[a]) == entry_key(r@[b]) ==> (
            #[trigger] r@[a]).node < (#[trigger] r@[b]).node,
        forall|j: int| 0 <= j < r@.len() ==> (#[trigger] r@[j]).result.transitive_unblocks > 0,
        forall|j: int|
            0 <= j < r@.len() ==> ((#[trigger] r@[j]).node as int) < graph.n() && spec_actionable(
                *graph,
                closed_set@,
                r@[j].node as int,
            ),
        forall|j: int|
            0 <= j < r@.len() ==> simulation_of(
                *graph,
                closed_set@,
                (#[trigger] r@[j]).node,
                r@[j].result,
            ),
        forall|v: usize|
            #![trigger graph.succ(v as int)]
            (v as int) < graph.n() && spec_actionable(*graph, closed_set@, v as int) && direct_seq(
                *graph,
                closed_set@,
                close_one(closed_set@, graph.n(), v as int),
                graph.succ(v as int),
            ).len() > 0 ==> (exists|j: int|
                0 <= j < r@.len() && (#[trigger] r@[j]).node == v) || (r@.len() == limit && exists|
                e: TopWhatIfEntry,
            |
                e.node == v && simulation_of(*graph, closed_set@, v, e.result) && forall|a: int|
                    0 <= a < r@.len() ==> entry_key(#[trigger] r@[a]) >= entry_key(e)),
{
    let n = graph.len();
    if n == 0 {
        return Vec::new();
    }
    let candidates = actionable_nodes(graph, closed_set);
    proof {
        if candidates@.len() > 0 {
            lemma_ascending_ge(candidates@, candidates@.len() - 1);
        }
    }
    let mut entries: Vec<TopWhatIfEntry> = Vec::new();
    let mut ci: usize = 0;
    while ci < candidates.len()
        invariant
            ci <= candidates@.len(),
            entries@.len() <= ci,
            forall|j: int| 0 <= j < entries@.len() ==> (#[trigger] entries@[j]).result.transitive_unblocks > 0,
            forall|j: int|
                0 <= j < entries@.len() ==> ((#[trigger] entries@[j]).node as int) < graph.n()
                    && spec_actionable(*graph, closed_set@, entries@[j].node as int),
            forall|j: int|
                0 <= j < entries@.len() ==> simulation_of(
                    *graph,
                    closed_set@,
                    (#[trigger] entries@[j]).node,
                    entries@[j].result,
                ),
            forall|i: int, j: int|
                0 <= i < j < entries@.len() ==> (#[trigger] entries@[i]).node < (
                #[trigger] entries@[j]).node,
            ci > 0 ==> forall|j: int|
                0 <= j < entries@.len() ==> (#[trigger] entries@[j]).node <= candidates@[ci - 1],
            forall|k: int|
                #![trigger candidates@[k]]
                0 <= k < ci && direct_seq(
                    *graph,
                    closed_set@,
                    close_one(closed_set@, graph.n(), candidates@[k] as int),
                    graph.succ(candidates@[k] as int),
                ).len() > 0 ==> exists|j: int|
                    0 <= j < entries@.len() && (#[trigger] entries@[j]).node == candidates@[k],
        decreases candidates@.len() - ci,
    {
        let ghost en0 = entries@;
        let node = candidates[ci];
        let result = what_if_close(graph, node, closed_set);
        let ghost res = result;
        if result.transitive_unblocks > 0 {
            entries.push(TopWhatIfEntry { node, result });
        }
        proof {
            assert forall|k: int|
                #![trigger candidates@[k]]
                0 <= k < ci + 1 && direct_seq(
                    *graph,
                    closed_set@,
                    close_one(closed_set@, graph.n(), candidates@[k] as int),
                    graph.succ(candidates@[k] as int),
                ).len() > 0 implies exists|j: int|
                0 <= j < entries@.len() && (#[trigger] entries@[j]).node == candidates@[k] by {
                if k < ci {
                    let j = choose|j: int| 0 <= j < en0.len() && (#[trigger] en0[j]).node
                        == candidates@[k];
                    assert(entries@[j].node == candidates@[k]);
                } else {
                    let d = direct_seq(
                        *graph,
                        closed_set@,
                        close_one(closed_set@, graph.n(), node as int),
                        graph.succ(node as int),
                    );
                    assert(res.unblocked_ids@ == d);
                    assert(res.unblocked_ids@.contains(d[0]));
                    assert(res.cascade_ids@.contains(d[0]));
                    assert(res.transitive_unblocks > 0);
                    assert(entries@[entries@.len() - 1].node == node);
                }
            }
        }
        ci = ci + 1;
    }
    let ghost es = entries@;
    let ranked = rank_entries(&mut entries, limit);
    proof {
        assert forall|j: int|
            0 <= j < ranked@.len() implies (#[trigger] ranked@[j]).result.transitive_unblocks > 0
            && ((ranked@[j]).node as int) < graph.n() && spec_actionable(
            *graph,
            closed_set@,
            ranked@[j].node as int,
        ) && simulation_of(*graph, closed_set@, ranked@[j].node, ranked@[j].result) by {
            assert(es.contains(ranked@[j]));
            let i = choose|i: int| 0 <= i < es.len() && es[i] == ranked@[j];
        }
        assert forall|v: usize|
            #![trigger graph.succ(v as int)]
            (v as int) < graph.n() && spec_actionable(*graph, closed_set@, v as int) && direct_seq(
                *graph,
                closed_set@,
                close_one(closed_set@, graph.n(), v as int),
                graph.succ(v as int),
            ).len() > 0 implies (exists|j: int|
            0 <= j < ranked@.len() && (#[trigger] ranked@[j]).node == v) || (ranked@.len() == limit
            && exists|e: TopWhatIfEntry|
            e.node == v && simulation_of(*graph, closed_set@, v, e.result) && forall|a: int|
                0 <= a < ranked@.len() ==> entry_key(#[trigger] ranked@[a]) >= entry_key(e)) by {
            assert(candidates@.contains(v));
            let k = choose|k: int| 0 <= k < candidates@.len() && candidates@[k] == v;
            let j = choose|j: int| 0 <= j < es.len() && (#[trigger] es[j]).node == candidates@[k];
            let ent = es[j];
            if ranked@.contains(ent) {
                let j2 = choose|j2: int| 0 <= j2 < ranked@.len() && ranked@[j2] == ent;
                assert(ranked@[j2].node == v);
            } else {
                assert(ranked@.len() == limit && forall|a: int|
                    0 <= a < ranked@.len() ==> entry_key(#[trigger] ranked@[a]) >= entry_key(ent));
                assert(ent.node == v && simulation_of(*graph, closed_set@, v, ent.result));
            }
        }
    }
    ranked
}

/// Rank every non-closed node — including presently blocked ones — by the
/// transitive impact of closing it, descending, dropping zero-impact
/// entries and keeping the first `limit`; ties keep ascending index
/// order. Same guarantees as the actionable-candidates ranking, over the
/// wider candidate set.
#[verifier::loop_isolation(false)]
pub fn all_what_if(graph: &DiGraph, closed_set: &[bool], limit: usize) -> (r: Vec<TopWhatIfEntry>)
    requires
        graph.wf(),
    ensures
        r@.len() <= limit,
        r@.len() as int <= graph.n(),
        forall|a: int, b: int| 0 <= a <= b < r@.len() ==> entry_key(r@[a]) >= entry_key(r@[b]),
        forall|a: int, b: int|
            0 <= a < b < r@.len() && entry_key(r@[a]) == entry_key(r@[b]) ==> (
            #[trigger] r@[a]).node < (#[trigger] r@[b]).node,
        forall|j: int| 0 <= j < r@.len() ==> (#[trigger] r@[j]).result.transitive_unblocks > 0,
        forall|j: int|
            0 <= j < r@.len() ==> ((#[trigger] r@[j]).node as int) < graph.n() && !closed_at(
                closed_set@,
                r@[j].node as int,
            ),
        forall|j: int|
            0 <= j < r@.len() ==> simulation_of(
                *graph,
                closed_set@,
                (#[trigger] r@[j]).node,
                r@[j].result,
            ),
        forall|v: usize|
            #![trigger graph.succ(v as int)]
            (v as int) < graph.n() && !closed_at(closed_set@, v as int) && direct_seq(
                *graph,
                closed_set@,
                close_one(closed_set@, graph.n(), v as int),
                graph.succ(v as int),
            ).len() > 0 ==> (exists|j: int|
                0 <= j < r@.len() && (#[trigger] r@[j]).node == v) || (r@.len() == limit && exists|
                e: TopWhatIfEntry,
            |
                e.node == v && simulation_of(*graph, closed_set@, v, e.result) && forall|a: int|
                    0 <= a < r@.len() ==> entry_key(#[trigger] r@[a]) >= entry_key(e)),
{
    let n = graph.len();
    if n == 0 {
        return Vec::new();
    }
    let closed = build_closed(closed_set, n);
    let mut entries: Vec<TopWhatIfEntry> = Vec::new();
    let mut node: usize = 0;
    while node < n
        invariant
            node <= n,
            closed@.len() == n,
            entries@.len() <= node,
            forall|i: int| 0 <= i < n ==> (closed@[i] <==> closed_at(closed_set@, i)),
            forall|j: int| 0 <= j < entries@.len() ==> (#[trigger] entries@[j]).result.transitive_unblocks > 0,
            forall|j: int|
                0 <= j < entries@.len() ==> ((#[trigger] entries@[j]).node as int) < graph.n()
                    && !closed_at(closed_set@, entries@[j].node as int),
            forall|j: int|
                0 <= j < entries@.len() ==> simulation_of(
                    *graph,
                    closed_set@,
                    (#[trigger] entries@[j]).node,
                    entries@[j].result,
                ),
            forall|i: int, j: int|
                0 <= i < j < entries@.len() ==> (#[trigger] entries@[i]).node < (
                #[trigger] entries@[j]).node,
            forall|j: int| 0 <= j < entries@.len() ==> ((#[trigger] entries@[j]).node as int) < node,
            forall|v2: usize|
                #![trigger graph.succ(v2 as int)]
                (v2 as int) < node && !closed_at(closed_set@, v2 as int) && direct_seq(
                    *graph,
                    closed_set@,
                    close_one(closed_set@, graph.n(), v2 as int),
                    graph.succ(v2 as int),
                ).len() > 0 ==> exists|j: int|
                    0 <= j < entries@.len() && (#[trigger] entries@[j]).node == v2,
        decreases n - node,
    {
        let ghost en0 = entries@;
        if !closed[node] {
            let result = what_if_close(graph, node, closed_set);
            let ghost res = result;
            if result.transitive_unblocks > 0 {
                entries.push(TopWhatIfEntry { node, result });
            }
            proof {
                if direct_seq(
                    *graph,
                    closed_set@,
                    close_one(closed_set@, graph.n(), node as int),
                    graph.succ(node as int),
                ).len() > 0 {
                    let d = direct_seq(
                        *graph,
                        closed_set@,
                        close_one(closed_set@, graph.n(), node as int),
                        graph.succ(node as int),
                    );
                    assert(res.unblocked_ids@ == d);
                    assert(res.unblocked_ids@.contains(d[0]));
                    assert(res.cascade_ids@.contains(d[0]));
                    assert(res.transitive_unblocks > 0);
                    assert(entries@[entries@.len() - 1].node == node);
                }
            }
        }
        proof {
            assert forall|v2: usize|
                #![trigger graph.succ(v2 as int)]
                (v2 as int) < node + 1 && !closed_at(closed_set@, v2 as int) && direct_seq(
                    *graph,
                    closed_set@,
                    close_one(closed_set@, graph.n(), v2 as int),
                    graph.succ(v2 as int),
                ).len() > 0 implies exists|j: int|
                0 <= j < entries@.len() && (#[trigger] entries@[j]).node == v2 by {
                if (v2 as int) < node {
                    let j = choose|j: int| 0 <= j < en0.len() && (#[trigger] en0[j]).node == v2;
                    assert(entries@[j].node == v2);
                } else {
                    assert(entries@[entries@.len() - 1].node == node);
                }
            }
        }
        node = node + 1;
    }
    let ghost es = entries@;
    let ranked = rank_entries(&mut entries, limit);
    proof {
        assert forall|j: int|
            0 <= j < ranked@.len() implies (#[trigger] ranked@[j]).result.transitive_unblocks > 0
            && ((ranked@[j]).node as int) < graph.n() && !closed_at(
            closed_set@,
            ranked@[j].node as int,
        ) && simulation_of(*graph, closed_set@, ranked@[j].node, ranked@[j].result) by {
            assert(es.contains(ranked@[j]));
            let i = choose|i: int| 0 <= i < es.len() && es[i] == ranked@[j];
        }
        assert forall|v: usize|
            #![trigger graph.succ(v as int)]
            (v as int) < graph.n() && !closed_at(closed_set@, v as int) && direct_seq(
                *graph,
                closed_set@,
                close_one(closed_set@, graph.n(), v as int),
                graph.succ(v as int),
            ).len() > 0 implies (exists|j: int|
            0 <= j < ranked@.len() && (#[trigger] ranked@[j]).node == v) || (ranked@.len() == limit
            && exists|e: TopWhatIfEntry|
            e.node == v && simulation_of(*graph, closed_set@, v, e.result) && forall|a: int|
                0 <= a < ranked@.len() ==> entry_key(#[trigger] ranked@[a]) >= entry_key(e)) by {
            let j = choose|j: int| 0 <= j < es.len() && (#[trigger] es[j]).node == v;
            let ent = es[j];
            if ranked@.contains(ent) {
                let j2 = choose|j2: int| 0 <= j2 < ranked@.len() && ranked@[j2] == ent;
                assert(ranked@[j2].node == v);
            } else {
                assert(ranked@.len() == limit && forall|a: int|
                    0 <= a < ranked@.len() ==> entry_key(#[trigger] ranked@[a]) >= entry_key(ent));
                assert(ent.node == v && simulation_of(*graph, closed_set@, v, ent.result));
            }
        }
    }
    ranked
}

} // verus!
