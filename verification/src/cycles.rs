//! Cycle detection and strongly connected components.
//!
//! Two nodes share a component iff each is reachable from the other.
//! Components are emitted in ascending order of their smallest member, so
//! the output is stable for a fixed graph. The graph has a cycle iff some
//! component has more than one node or a node carries a self-loop.

use vstd::prelude::*;
use crate::counting::count_true;
use crate::counting::lemma_count_true_le;
use crate::counting::lemma_count_true_set;
use crate::counting::lemma_count_true_zero;
use crate::graph::DiGraph;
use crate::graph::lemma_edge_duality;
use crate::whatif::reach_n;
use crate::whatif::reaches;

verus! {

/// `v` lies on a directed cycle: it reaches itself in one or more steps.
pub open spec fn on_cycle(g: DiGraph, v: usize) -> bool {
    exists|k: nat| k >= 1 && reach_n(g, seq![v], v, k)
}

/// A walk extends by one edge at the front.
pub proof fn lemma_reach_prepend(g: DiGraph, p: usize, u: usize, v: usize, k: nat)
    requires
        (p as int) < g.n(),
        (u as int) < g.n(),
        g.succ(p as int).contains(u),
        reach_n(g, seq![u], v, k),
    ensures
        reach_n(g, seq![p], v, (k + 1) as nat),
    decreases k,
{
    if k == 0 {
        assert(seq![u].contains(v));
        assert(seq![u][0] == u);
        assert(v == u);
        assert(seq![p][0] == p);
        assert(seq![p].contains(p));
        assert(reach_n(g, seq![p], p, 0));
        assert((p as int) < g.n() && reach_n(g, seq![p], p, 0) && g.succ(p as int).contains(v));
        assert(reach_n(g, seq![p], v, 1));
    } else {
        let m = choose|m: usize|
            (m as int) < g.n() && reach_n(g, seq![u], m, (k - 1) as nat) && g.succ(
                m as int,
            ).contains(v);
        lemma_reach_prepend(g, p, u, m, (k - 1) as nat);
        assert((m as int) < g.n() && reach_n(g, seq![p], m, k) && g.succ(m as int).contains(v));
        assert(reach_n(g, seq![p], v, (k + 1) as nat));
    }
}

/// Walks compose: a walk to `x` followed by a walk from `x` is a walk.
pub proof fn lemma_reach_trans(g: DiGraph, seeds: Seq<usize>, x: usize, y: usize, i: nat, j: nat)
    requires
        reach_n(g, seeds, x, i),
        reach_n(g, seq![x], y, j),
    ensures
        reach_n(g, seeds, y, (i + j) as nat),
    decreases j,
{
    if j == 0 {
        assert(seq![x].contains(y));
        assert(seq![x][0] == x);
        assert(y == x);
    } else {
        let m = choose|m: usize|
            (m as int) < g.n() && reach_n(g, seq![x], m, (j - 1) as nat) && g.succ(
                m as int,
            ).contains(y);
        lemma_reach_trans(g, seeds, x, m, i, (j - 1) as nat);
        assert((m as int) < g.n() && reach_n(g, seeds, m, (i + j - 1) as nat) && g.succ(
            m as int,
        ).contains(y));
        assert(reach_n(g, seeds, y, (i + j) as nat));
    }
}

/// A bitmap that contains the seeds and is closed under successors covers
/// everything reachable from the seeds.
proof fn lemma_closure_covers(g: DiGraph, start: usize, bm: Seq<bool>, v: usize, k: nat)
    requires
        g.wf(),
        bm.len() == g.n(),
        (start as int) < g.n(),
        bm[start as int],
        forall|u: usize, i: int|
            (u as int) < g.n() && bm[u as int] && 0 <= i < g.succ(u as int).len() ==> bm[(
            #[trigger] g.succ(u as int)[i]) as int],
        reach_n(g, seq![start], v, k),
        (v as int) < g.n(),
    ensures
        bm[v as int],
    decreases k,
{
    if k == 0 {
        assert(seq![start].contains(v));
        assert(seq![start][0] == start);
    } else {
        let m = choose|m: usize|
            (m as int) < g.n() && reach_n(g, seq![start], m, (k - 1) as nat) && g.succ(
                m as int,
            ).contains(v);
        lemma_closure_covers(g, start, bm, m, (k - 1) as nat);
        let i = choose|i: int| 0 <= i < g.succ(m as int).len() && g.succ(m as int)[i] == v;
        assert(bm[(g.succ(m as int)[i]) as int]);
    }
}

/// A bitmap that contains `start` and is closed under predecessors covers
/// every node that reaches `start`.
proof fn lemma_co_closure_covers(g: DiGraph, start: usize, bm: Seq<bool>, u: usize, v: usize, k: nat)
    requires
        g.wf(),
        bm.len() == g.n(),
        (start as int) < g.n(),
        bm[start as int],
        forall|x: usize, i: int|
            (x as int) < g.n() && bm[x as int] && 0 <= i < g.pred(x as int).len() ==> bm[(
            #[trigger] g.pred(x as int)[i]) as int],
        reach_n(g, seq![u], v, k),
        (u as int) < g.n(),
        (v as int) < g.n(),
        bm[v as int],
    ensures
        bm[u as int],
    decreases k,
{
    if k == 0 {
        assert(seq![u].contains(v));
        assert(seq![u][0] == u);
    } else {
        let m = choose|m: usize|
            (m as int) < g.n() && reach_n(g, seq![u], m, (k - 1) as nat) && g.succ(
                m as int,
            ).contains(v);
        lemma_edge_duality(g, m, v);
        let i = choose|i: int| 0 <= i < g.pred(v as int).len() && g.pred(v as int)[i] == m;
        assert(bm[(g.pred(v as int)[i]) as int]);
        lemma_co_closure_covers(g, start, bm, u, m, (k - 1) as nat);
    }
}

/// The set of nodes reachable from `start` (including `start`), as a
/// bitmap, computed breadth-first over successors.
#[verifier::loop_isolation(false)]
fn forward_closure(graph: &DiGraph, start: usize) -> (r: Vec<bool>)
    requires
        graph.wf(),
        (start as int) < graph.n(),
    ensures
        r@.len() == graph.n(),
        forall|v: usize|
            (v as int) < graph.n() ==> (r@[v as int] <==> reaches(*graph, seq![start], v)),
{
    let n = graph.len();
    let mut marked: Vec<bool> = Vec::new();
    let mut i: usize = 0;
    while i < n
        invariant
            i <= n,
            marked@.len() == i,
            forall|j: int| 0 <= j < i ==> !marked@[j],
        decreases n - i,
    {
        marked.push(false);
        i = i + 1;
    }
    proof {
        lemma_count_true_zero(marked@);
    }
    let mut work: Vec<usize> = Vec::new();
    let ghost bm0 = marked@;
    marked[start] = true;
    work.push(start);
    proof {
        lemma_count_true_set(bm0, start as int);
        assert(reach_n(*graph, seq![start], start, 0)) by {
            assert(seq![start][0] == start);
        }
    }
    let mut head: usize = 0;
    while head < work.len()
        invariant
            marked@.len() == n,
            marked@[start as int],
            head <= work@.len(),
            work@.len() <= n,
            count_true(marked@) == work@.len(),
            work@.no_duplicates(),
            forall|j: int| 0 <= j < work@.len() ==> ((#[trigger] work@[j]) as int) < n,
            forall|v: usize| (v as int) < n ==> (marked@[v as int] <==> work@.contains(v)),
            forall|j: int| 0 <= j < work@.len() ==> reaches(*graph, seq![start], #[trigger] work@[j]),
            forall|j: int, i2: int|
                0 <= j < head && 0 <= i2 < graph.succ(work@[j] as int).len() ==> marked@[(
                #[trigger] graph.succ(work@[j] as int)[i2]) as int],
        decreases n - head,
    {
        proof {
            lemma_count_true_le(marked@);
        }
        let v = work[head];
        head = head + 1;
        proof {
            graph.lemma_succ_in_range(v as int);
        }
        let succs = graph.successors_slice(v);
        let m = succs.len();
        let mut si: usize = 0;
        while si < m
            invariant
                (v as int) < n,
                v == work@[head - 1],
                succs@ == graph.succ(v as int),
                m == succs@.len(),
                si <= m,
                marked@.len() == n,
                marked@[start as int],
                head <= work@.len(),
                work@.len() <= n,
                count_true(marked@) == work@.len(),
                work@.no_duplicates(),
                forall|j: int| 0 <= j < work@.len() ==> ((#[trigger] work@[j]) as int) < n,
                forall|w: usize| (w as int) < n ==> (marked@[w as int] <==> work@.contains(w)),
                forall|j: int|
                    0 <= j < work@.len() ==> reaches(*graph, seq![start], #[trigger] work@[j]),
                forall|j: int, i2: int|
                    0 <= j < head - 1 && 0 <= i2 < graph.succ(work@[j] as int).len() ==> marked@[(
                    #[trigger] graph.succ(work@[j] as int)[i2]) as int],
                forall|i2: int| 0 <= i2 < si ==> marked@[(#[trigger] succs@[i2]) as int],
            decreases m - si,
        {
            let w = succs[si];
            proof {
                assert((graph.succ(v as int)[si as int] as int) < n);
            }
            if !marked[w] {
                let ghost bm0 = marked@;
                let ghost s0 = work@;
                marked[w] = true;
                work.push(w);
                proof {
                    crate::whatif::lemma_mark_push(bm0, marked@, s0, work@, w, n as int);
                    lemma_count_true_le(marked@);
                    assert(reaches(*graph, seq![start], w)) by {
                        assert(reaches(*graph, seq![start], v));
                        crate::whatif::lemma_reach_step(*graph, seq![start], v, w);
                    }
                    assert forall|j: int, i2: int|
                        0 <= j < head - 1 && 0 <= i2 < graph.succ(work@[j] as int).len()
                        implies marked@[(#[trigger] graph.succ(work@[j] as int)[i2]) as int] by {
                        assert(work@[j] == s0[j]);
                        graph.lemma_succ_in_range(s0[j] as int);
                        assert((graph.succ(s0[j] as int)[i2] as int) < n);
                        assert(bm0[(graph.succ(s0[j] as int)[i2]) as int]);
                    }
                }
            }
            si = si + 1;
        }
        proof {
            assert forall|j: int, i2: int|
                0 <= j < head && 0 <= i2 < graph.succ(work@[j] as int).len() implies marked@[(
                #[trigger] graph.succ(work@[j] as int)[i2]) as int] by {
                if j == head - 1 {
                    assert(marked@[(succs@[i2]) as int]);
                }
            }
        }
    }
    proof {
        assert forall|v: usize|
            (v as int) < n implies (marked@[v as int] <==> reaches(*graph, seq![start], v)) by {
            if marked@[v as int] {
                assert(work@.contains(v));
                let j = choose|j: int| 0 <= j < work@.len() && work@[j] == v;
                assert(reaches(*graph, seq![start], work@[j]));
            }
            if reaches(*graph, seq![start], v) {
                let k = choose|k: nat| reach_n(*graph, seq![start], v, k);
                assert forall|u: usize, i2: int|
                    (u as int) < graph.n() && marked@[u as int] && 0 <= i2 < graph.succ(
                        u as int,
                    ).len() implies marked@[(#[trigger] graph.succ(u as int)[i2]) as int] by {
                    assert(work@.contains(u));
                    let j = choose|j: int| 0 <= j < work@.len() && work@[j] == u;
                    assert(j < head);
                }
                lemma_closure_covers(*graph, start, marked@, v, k);
            }
        }
    }
    marked
}

/// The set of nodes that reach `start` (including `start`), as a bitmap,
/// computed breadth-first over predecessors.
#[verifier::loop_isolation(false)]
fn backward_closure(graph: &DiGraph, start: usize) -> (r: Vec<bool>)
    requires
        graph.wf(),
        (start as int) < graph.n(),
    ensures
        r@.len() == graph.n(),
        forall|v: usize|
            (v as int) < graph.n() ==> (r@[v as int] <==> reaches(*graph, seq![v], start)),
{
    let n = graph.len();
    let mut marked: Vec<bool> = Vec::new();
    let mut i: usize = 0;
    while i < n
        invariant
            i <= n,
            marked@.len() == i,
            forall|j: int| 0 <= j < i ==> !marked@[j],
        decreases n - i,
    {
        marked.push(false);
        i = i + 1;
    }
    proof {
        lemma_count_true_zero(marked@);
    }
    let mut work: Vec<usize> = Vec::new();
    let ghost bm0 = marked@;
    marked[start] = true;
    work.push(start);
    proof {
        lemma_count_true_set(bm0, start as int);
        assert(reach_n(*graph, seq![start], start, 0)) by {
            assert(seq![start][0] == start);
        }
    }
    let mut head: usize = 0;
    while head < work.len()
        invariant
            marked@.len() == n,
            marked@[start as int],
            head <= work@.len(),
            work@.len() <= n,
            count_true(marked@) == work@.len(),
            work@.no_duplicates(),
            forall|j: int| 0 <= j < work@.len() ==> ((#[trigger] work@[j]) as int) < n,
            forall|v: usize| (v as int) < n ==> (marked@[v as int] <==> work@.contains(v)),
            forall|j: int|
                0 <= j < work@.len() ==> reaches(*graph, seq![work@[j]], start),
            forall|j: int, i2: int|
                0 <= j < head && 0 <= i2 < graph.pred(work@[j] as int).len() ==> marked@[(
                #[trigger] graph.pred(work@[j] as int)[i2]) as int],
        decreases n - head,
    {
        proof {
            lemma_count_true_le(marked@);
        }
        let v = work[head];
        head = head + 1;
        proof {
            graph.lemma_pred_in_range(v as int);
        }
        let preds = graph.predecessors_slice(v);
        let m = preds.len();
        let mut si: usize = 0;
        while si < m
            invariant
                (v as int) < n,
                v == work@[head - 1],
                preds@ == graph.pred(v as int),
                m == preds@.len(),
                si <= m,
                marked@.len() == n,
                marked@[start as int],
                head <= work@.len(),
                work@.len() <= n,
                count_true(marked@) == work@.len(),
                work@.no_duplicates(),
                forall|j: int| 0 <= j < work@.len() ==> ((#[trigger] work@[j]) as int) < n,
                forall|w: usize| (w as int) < n ==> (marked@[w as int] <==> work@.contains(w)),
                forall|j: int|
                    0 <= j < work@.len() ==> reaches(*graph, seq![work@[j]], start),
                forall|j: int, i2: int|
                    0 <= j < head - 1 && 0 <= i2 < graph.pred(work@[j] as int).len() ==> marked@[(
                    #[trigger] graph.pred(work@[j] as int)[i2]) as int],
                forall|i2: int| 0 <= i2 < si ==> marked@[(#[trigger] preds@[i2]) as int],
            decreases m - si,
        {
            let p = preds[si];
            proof {
                assert((graph.pred(v as int)[si as int] as int) < n);
            }
            if !marked[p] {
                let ghost bm0 = marked@;
                let ghost s0 = work@;
                marked[p] = true;
                work.push(p);
                proof {
                    crate::whatif::lemma_mark_push(bm0, marked@, s0, work@, p, n as int);
                    lemma_count_true_le(marked@);
                    assert(reaches(*graph, seq![p], start)) by {
                        assert(reaches(*graph, seq![v], start));
                        let k = choose|k: nat| reach_n(*graph, seq![v], start, k);
                        lemma_edge_duality(*graph, p, v);
                        lemma_reach_prepend(*graph, p, v, start, k);
                    }
                    assert forall|j: int, i2: int|
                        0 <= j < head - 1 && 0 <= i2 < graph.pred(work@[j] as int).len()
                        implies marked@[(#[trigger] graph.pred(work@[j] as int)[i2]) as int] by {
                        assert(work@[j] == s0[j]);
                        graph.lemma_pred_in_range(s0[j] as int);
                        assert((graph.pred(s0[j] as int)[i2] as int) < n);
                        assert(bm0[(graph.pred(s0[j] as int)[i2]) as int]);
                    }
                }
            }
            si = si + 1;
        }
        proof {
            assert forall|j: int, i2: int|
                0 <= j < head && 0 <= i2 < graph.pred(work@[j] as int).len() implies marked@[(
                #[trigger] graph.pred(work@[j] as int)[i2]) as int] by {
                if j == head - 1 {
                    assert(marked@[(preds@[i2]) as int]);
                }
            }
        }
    }
    proof {
        assert forall|v: usize|
            (v as int) < n implies (marked@[v as int] <==> reaches(*graph, seq![v], start)) by {
            if marked@[v as int] {
                assert(work@.contains(v));
                let j = choose|j: int| 0 <= j < work@.len() && work@[j] == v;
                assert(reaches(*graph, seq![work@[j]], start));
            }
            if reaches(*graph, seq![v], start) {
                let k = choose|k: nat| reach_n(*graph, seq![v], start, k);
                assert forall|x: usize, i2: int|
                    (x as int) < graph.n() && marked@[x as int] && 0 <= i2 < graph.pred(
                        x as int,
                    ).len() implies marked@[(#[trigger] graph.pred(x as int)[i2]) as int] by {
                    assert(work@.contains(x));
                    let j = choose|j: int| 0 <= j < work@.len() && work@[j] == x;
                    assert(j < head);
                }
                lemma_co_closure_covers(*graph, start, marked@, v, start, k);
            }
        }
    }
    marked
}

/// Along a backward trail — each entry a predecessor of the one before —
/// every later entry reaches every earlier one.
proof fn lemma_chain_reach(g: DiGraph, trail: Seq<usize>, i: int, j: int)
    requires
        g.wf(),
        0 <= j <= i < trail.len(),
        forall|jj: int| 0 <= jj < trail.len() ==> ((#[trigger] trail[jj]) as int) < g.n(),
        forall|jj: int|
            0 <= jj < trail.len() - 1 ==> g.succ(trail[jj + 1] as int).contains(#[trigger] trail[jj]),
    ensures
        reach_n(g, seq![trail[i]], trail[j], (i - j) as nat),
    decreases i - j,
{
    if i == j {
        assert(seq![trail[i]][0] == trail[i]);
        assert(seq![trail[i]].contains(trail[j]));
    } else {
        lemma_chain_reach(g, trail, i - 1, j);
        assert(g.succ(trail[i] as int).contains(trail[i - 1]));
        lemma_reach_prepend(g, trail[i], trail[i - 1], trail[j], (i - 1 - j) as nat);
    }
}

/// Extending a duplicate-free backward trail inside a pred-blocked set
/// either revisits the trail — closing a cycle — or grows it, and a trail
/// cannot grow past the set's size.
proof fn lemma_trail_cycle(g: DiGraph, rem: Seq<bool>, trail: Seq<usize>)
    requires
        g.wf(),
        rem.len() == g.n(),
        forall|v: int|
            0 <= v < rem.len() && #[trigger] rem[v] ==> exists|k: int|
                0 <= k < g.pred(v).len() && rem[(#[trigger] g.pred(v)[k]) as int],
        trail.len() >= 1,
        trail.no_duplicates(),
        forall|jj: int|
            0 <= jj < trail.len() ==> ((#[trigger] trail[jj]) as int) < g.n() && rem[trail[jj] as int],
        forall|jj: int|
            0 <= jj < trail.len() - 1 ==> g.succ(trail[jj + 1] as int).contains(#[trigger] trail[jj]),
    ensures
        exists|v: usize| (v as int) < g.n() && on_cycle(g, v),
    decreases g.n() - trail.len(),
{
    crate::counting::lemma_distinct_marked_bound(trail, rem);
    crate::counting::lemma_count_true_le(rem);
    let last = trail.last();
    assert(trail[trail.len() - 1] == last);
    assert(rem[last as int]);
    let k = choose|k: int|
        0 <= k < g.pred(last as int).len() && rem[(g.pred(last as int)[k]) as int];
    g.lemma_pred_in_range(last as int);
    let p = g.pred(last as int)[k];
    assert(g.pred(last as int).contains(p));
    lemma_edge_duality(g, p, last);
    assert(g.succ(p as int).contains(last));
    if trail.contains(p) {
        let j = choose|j: int| 0 <= j < trail.len() && trail[j] == p;
        lemma_chain_reach(g, trail, trail.len() - 1, j);
        assert(reach_n(g, seq![p], p, 0)) by {
            assert(seq![p][0] == p);
        }
        assert((p as int) < g.n() && reach_n(g, seq![p], p, 0) && g.succ(p as int).contains(last));
        assert(reach_n(g, seq![p], last, 1));
        lemma_reach_trans(g, seq![p], last, trail[j], 1, (trail.len() - 1 - j) as nat);
        assert(1 + (trail.len() - 1 - j) >= 1 && reach_n(
            g,
            seq![p],
            p,
            (1 + (trail.len() - 1 - j)) as nat,
        ));
        assert(on_cycle(g, p));
    } else {
        let trail2 = trail.push(p);
        assert forall|a: int, b: int|
            0 <= a < trail2.len() && 0 <= b < trail2.len() && a != b implies trail2[a]
            != trail2[b] by {
            if a < trail.len() && b < trail.len() {
                assert(trail[a] != trail[b]);
            } else if b == trail.len() && a < trail.len() {
                assert(trail2[a] == trail[a]);
                assert(trail.contains(trail[a]));
            } else if a == trail.len() && b < trail.len() {
                assert(trail2[b] == trail[b]);
                assert(trail.contains(trail[b]));
            }
        }
        assert forall|jj: int|
            0 <= jj < trail2.len() - 1 implies g.succ(trail2[jj + 1] as int).contains(
            #[trigger] trail2[jj],
        ) by {
            if jj < trail.len() - 1 {
                assert(trail2[jj] == trail[jj] && trail2[jj + 1] == trail[jj + 1]);
            } else {
                assert(trail2[jj] == last && trail2[jj + 1] == p);
            }
        }
        crate::counting::lemma_distinct_marked_bound(trail2, rem);
        lemma_trail_cycle(g, rem, trail2);
    }
}

/// Along a forward trail — each entry a successor of the one before —
/// every earlier entry reaches every later one.
proof fn lemma_chain_reach_fwd(g: DiGraph, trail: Seq<usize>, i: int, j: int)
    requires
        g.wf(),
        0 <= j <= i < trail.len(),
        forall|jj: int| 0 <= jj < trail.len() ==> ((#[trigger] trail[jj]) as int) < g.n(),
        forall|jj: int|
            #![trigger trail[jj]]
            0 <= jj < trail.len() - 1 ==> g.succ(trail[jj] as int).contains(trail[jj + 1]),
    ensures
        reach_n(g, seq![trail[j]], trail[i], (i - j) as nat),
    decreases i - j,
{
    if i == j {
        assert(seq![trail[j]][0] == trail[j]);
        assert(seq![trail[j]].contains(trail[i]));
    } else {
        lemma_chain_reach_fwd(g, trail, i - 1, j);
        assert(g.succ(trail[i - 1] as int).contains(trail[i]));
        assert((trail[i - 1] as int) < g.n() && reach_n(g, seq![trail[j]], trail[i - 1], (i - 1
            - j) as nat) && g.succ(trail[i - 1] as int).contains(trail[i]));
        assert(reach_n(g, seq![trail[j]], trail[i], (i - j) as nat));
    }
}

/// Extending a duplicate-free forward trail inside a succ-blocked set
/// either revisits the trail — closing a cycle — or grows it, and a trail
/// cannot grow past the set's size.
proof fn lemma_fwd_trail_cycle(g: DiGraph, rem: Seq<bool>, trail: Seq<usize>)
    requires
        g.wf(),
        rem.len() == g.n(),
        forall|v: int|
            0 <= v < rem.len() && #[trigger] rem[v] ==> exists|k: int|
                0 <= k < g.succ(v).len() && rem[(#[trigger] g.succ(v)[k]) as int],
        trail.len() >= 1,
        trail.no_duplicates(),
        forall|jj: int|
            0 <= jj < trail.len() ==> ((#[trigger] trail[jj]) as int) < g.n() && rem[trail[jj] as int],
        forall|jj: int|
            #![trigger trail[jj]]
            0 <= jj < trail.len() - 1 ==> g.succ(trail[jj] as int).contains(trail[jj + 1]),
    ensures
        exists|v: usize| (v as int) < g.n() && on_cycle(g, v),
    decreases g.n() - trail.len(),
{
    crate::counting::lemma_distinct_marked_bound(trail, rem);
    crate::counting::lemma_count_true_le(rem);
    let last = trail.last();
    assert(trail[trail.len() - 1] == last);
    assert(rem[last as int]);
    let k = choose|k: int|
        0 <= k < g.succ(last as int).len() && rem[(g.succ(last as int)[k]) as int];
    g.lemma_succ_in_range(last as int);
    let w = g.succ(last as int)[k];
    assert(g.succ(last as int).contains(w));
    if trail.contains(w) {
        let j = choose|j: int| 0 <= j < trail.len() && trail[j] == w;
        lemma_chain_reach_fwd(g, trail, trail.len() - 1, j);
        assert((last as int) < g.n() && reach_n(g, seq![trail[j]], last, (trail.len() - 1
            - j) as nat) && g.succ(last as int).contains(w));
        assert(reach_n(g, seq![trail[j]], w, (trail.len() - j) as nat));
        assert(trail.len() - j >= 1 && reach_n(g, seq![w], w, (trail.len() - j) as nat));
        assert(on_cycle(g, w));
    } else {
        let trail2 = trail.push(w);
        assert forall|a: int, b: int|
            0 <= a < trail2.len() && 0 <= b < trail2.len() && a != b implies trail2[a]
            != trail2[b] by {
            if a < trail.len() && b < trail.len() {
                assert(trail[a] != trail[b]);
            } else if b == trail.len() && a < trail.len() {
                assert(trail2[a] == trail[a]);
                assert(trail.contains(trail[a]));
            } else if a == trail.len() && b < trail.len() {
                assert(trail2[b] == trail[b]);
                assert(trail.contains(trail[b]));
            }
        }
        assert forall|jj: int|
            #![trigger trail2[jj]]
            0 <= jj < trail2.len() - 1 implies g.succ(trail2[jj] as int).contains(
            trail2[jj + 1],
        ) by {
            if jj < trail.len() - 1 {
                assert(trail2[jj] == trail[jj] && trail2[jj + 1] == trail[jj + 1]);
            } else {
                assert(trail2[jj] == last && trail2[jj + 1] == w);
            }
        }
        crate::counting::lemma_distinct_marked_bound(trail2, rem);
        lemma_fwd_trail_cycle(g, rem, trail2);
    }
}

/// A nonempty set of nodes, each with a successor inside the set, always
/// carries a directed cycle.
pub proof fn lemma_succ_blocked_cycle(g: DiGraph, rem: Seq<bool>)
    requires
        g.wf(),
        crate::critpath::succ_blocked(g, rem),
    ensures
        exists|v: usize| (v as int) < g.n() && on_cycle(g, v),
{
    let v0 = choose|v: usize| (v as int) < rem.len() && rem[v as int];
    let trail = seq![v0];
    assert(trail[0] == v0);
    assert((trail[0] as int) < g.n() && rem[trail[0] as int]);
    lemma_fwd_trail_cycle(g, rem, trail);
}

/// A nonempty set of nodes, each with a predecessor inside the set,
/// always carries a directed cycle: no such set can ever be ordered
/// topologically.
pub proof fn lemma_pred_blocked_cycle(g: DiGraph, rem: Seq<bool>)
    requires
        g.wf(),
        crate::critpath::pred_blocked(g, rem),
    ensures
        exists|v: usize| (v as int) < g.n() && on_cycle(g, v),
{
    let v0 = choose|v: usize| (v as int) < rem.len() && rem[v as int];
    let trail = seq![v0];
    assert(trail[0] == v0);
    assert((trail[0] as int) < g.n() && rem[trail[0] as int]);
    lemma_trail_cycle(g, rem, trail);
}

/// `v` appears in one of the components.
pub open spec fn appears(comps: Seq<Vec<usize>>, v: usize) -> bool {
    exists|c: int| 0 <= c < comps.len() && (#[trigger] comps[c])@.contains(v)
}

/// Partition the nodes into strongly connected components: two nodes
/// share a component iff each reaches the other. Components are emitted
/// in ascending order of smallest member, members in ascending index
/// order, so the output is stable for a fixed graph.
#[verifier::loop_isolation(false)]
pub fn scc(graph: &DiGraph) -> (comps: Vec<Vec<usize>>)
    requires
        graph.wf(),
    ensures
        forall|c: int| 0 <= c < comps@.len() ==> (#[trigger] comps@[c])@.len() > 0,
        forall|c: int, j: int|
            0 <= c < comps@.len() && 0 <= j < comps@[c]@.len() ==> ((
            #[trigger] comps@[c]@[j]) as int) < graph.n(),
        forall|v: usize| (v as int) < graph.n() ==> appears(comps@, v),
        forall|c1: int, j1: int, c2: int, j2: int|
            #![trigger comps@[c1]@[j1], comps@[c2]@[j2]]
            0 <= c1 < comps@.len() && 0 <= j1 < comps@[c1]@.len() && 0 <= c2 < comps@.len() && 0
                <= j2 < comps@[c2]@.len() && (c1 != c2 || j1 != j2) ==> comps@[c1]@[j1]
                != comps@[c2]@[j2],
        forall|c: int, j1: int, j2: int|
            #![trigger comps@[c]@[j1], comps@[c]@[j2]]
            0 <= c < comps@.len() && 0 <= j1 < comps@[c]@.len() && 0 <= j2 < comps@[c]@.len()
                ==> reaches(*graph, seq![comps@[c]@[j1]], comps@[c]@[j2]),
        forall|c: int, j: int, w: usize|
            #![trigger comps@[c]@[j], reaches(*graph, seq![w], comps@[c]@[j])]
            0 <= c < comps@.len() && 0 <= j < comps@[c]@.len() && (w as int) < graph.n()
                && reaches(*graph, seq![comps@[c]@[j]], w) && reaches(
                *graph,
                seq![w],
                comps@[c]@[j],
            ) ==> comps@[c]@.contains(w),
{
    let n = graph.len();
    let mut assigned: Vec<bool> = Vec::new();
    let mut i: usize = 0;
    while i < n
        invariant
            i <= n,
            assigned@.len() == i,
            forall|j: int| 0 <= j < i ==> !assigned@[j],
        decreases n - i,
    {
        assigned.push(false);
        i = i + 1;
    }
    let mut comps: Vec<Vec<usize>> = Vec::new();
    let mut v: usize = 0;
    while v < n
        invariant
            v <= n,
            assigned@.len() == n,
            forall|x: usize| (x as int) < n ==> ((#[trigger] assigned@[x as int]) <==> appears(
                comps@,
                x,
            )),
            forall|x: usize| (x as int) < v ==> assigned@[x as int],
            forall|c: int| 0 <= c < comps@.len() ==> (#[trigger] comps@[c])@.len() > 0,
            forall|c: int, j: int|
                0 <= c < comps@.len() && 0 <= j < comps@[c]@.len() ==> ((
                #[trigger] comps@[c]@[j]) as int) < n,
            forall|c1: int, j1: int, c2: int, j2: int|
                #![trigger comps@[c1]@[j1], comps@[c2]@[j2]]
                0 <= c1 < comps@.len() && 0 <= j1 < comps@[c1]@.len() && 0 <= c2 < comps@.len()
                    && 0 <= j2 < comps@[c2]@.len() && (c1 != c2 || j1 != j2) ==> comps@[c1]@[j1]
                    != comps@[c2]@[j2],
            forall|c: int, j1: int, j2: int|
                #![trigger comps@[c]@[j1], comps@[c]@[j2]]
                0 <= c < comps@.len() && 0 <= j1 < comps@[c]@.len() && 0 <= j2 < comps@[c]@.len()
                    ==> reaches(*graph, seq![comps@[c]@[j1]], comps@[c]@[j2]),
            forall|c: int, j: int, w: usize|
                #![trigger comps@[c]@[j], reaches(*graph, seq![w], comps@[c]@[j])]
                0 <= c < comps@.len() && 0 <= j < comps@[c]@.len() && (w as int) < n && reaches(
                    *graph,
                    seq![comps@[c]@[j]],
                    w,
                ) && reaches(*graph, seq![w], comps@[c]@[j]) ==> comps@[c]@.contains(w),
        decreases n - v,
    {
        if !assigned[v] {
            let fwd = forward_closure(graph, v);
            let bwd = backward_closure(graph, v);
            let ghost a0 = assigned@;
            let mut comp: Vec<usize> = Vec::new();
            let mut u: usize = 0;
            while u < n
                invariant
                    u <= n,
                    fwd@.len() == n,
                    bwd@.len() == n,
                    assigned@.len() == n,
                    forall|j: int|
                        0 <= j < comp@.len() ==> ((#[trigger] comp@[j]) as int) < u && fwd@[comp@[j] as int]
                            && bwd@[comp@[j] as int],
                    forall|j1: int, j2: int| 0 <= j1 < j2 < comp@.len() ==> comp@[j1] < comp@[j2],
                    forall|x: usize|
                        (x as int) < u ==> ((#[trigger] comp@.contains(x)) <==> (fwd@[x as int]
                            && bwd@[x as int])),
                    forall|x: usize|
                        (x as int) < n ==> ((#[trigger] assigned@[x as int]) <==> (a0[x as int]
                            || comp@.contains(x))),
                decreases n - u,
            {
                let ghost comp0 = comp@;
                if fwd[u] && bwd[u] {
                    comp.push(u);
                    assigned[u] = true;
                }
                proof {
                    assert forall|x: usize|
                        (x as int) < u + 1 implies ((#[trigger] comp@.contains(x)) <==> (
                    fwd@[x as int] && bwd@[x as int])) by {
                        if x as int == u as int {
                            if fwd@[x as int] && bwd@[x as int] {
                                assert(comp@.last() == u);
                            }
                            if comp@.contains(x) && !(fwd@[x as int] && bwd@[x as int]) {
                                let j = choose|j: int| 0 <= j < comp@.len() && comp@[j] == x;
                                assert(comp0[j] == x);
                            }
                        } else {
                            if comp0.contains(x) {
                                let j = choose|j: int| 0 <= j < comp0.len() && comp0[j] == x;
                                assert(comp@[j] == x);
                            }
                            if comp@.contains(x) {
                                let j = choose|j: int| 0 <= j < comp@.len() && comp@[j] == x;
                                assert(j < comp0.len() || comp@[j] == u);
                                assert(comp0.contains(x) || x == u);
                            }
                        }
                    }
                    assert forall|x: usize|
                        (x as int) < n implies ((#[trigger] assigned@[x as int]) <==> (a0[x as int]
                            || comp@.contains(x))) by {
                        if comp0.contains(x) {
                            let j = choose|j: int| 0 <= j < comp0.len() && comp0[j] == x;
                            assert(comp@[j] == x);
                        }
                        if comp@.contains(x) && !comp0.contains(x) {
                            let j = choose|j: int| 0 <= j < comp@.len() && comp@[j] == x;
                            assert(j == comp0.len() && comp@[j] == u);
                        }
                    }
                }
                u = u + 1;
            }
            proof {
                assert(reach_n(*graph, seq![v], v, 0)) by {
                    assert(seq![v][0] == v);
                }
                assert(fwd@[v as int] && bwd@[v as int]);
                assert(comp@.contains(v));
            }
            let ghost comps0 = comps@;
            comps.push(comp);
            proof {
                assert forall|x: usize|
                    (x as int) < n implies ((#[trigger] assigned@[x as int]) <==> appears(
                    comps@,
                    x,
                )) by {
                    if a0[x as int] {
                        assert(appears(comps0, x));
                        let c = choose|c: int| 0 <= c < comps0.len() && comps0[c]@.contains(x);
                        assert(comps@[c]@.contains(x));
                        assert(appears(comps@, x));
                    }
                    if comps@[comps0.len() as int]@.contains(x) {
                        assert(assigned@[x as int]);
                    }
                    if appears(comps@, x) && !a0[x as int] {
                        let c = choose|c: int| 0 <= c < comps@.len() && comps@[c]@.contains(x);
                        if c < comps0.len() {
                            assert(comps0[c]@.contains(x));
                            assert(appears(comps0, x));
                        }
                    }
                    if assigned@[x as int] && !a0[x as int] {
                        assert(comps@[comps0.len() as int]@.contains(x));
                        assert(appears(comps@, x));
                    }
                }
                let cn = comps0.len() as int;
                assert forall|j: int|
                    0 <= j < comps@[cn]@.len() implies !a0[(#[trigger] comps@[cn]@[j]) as int] by {
                    let x = comps@[cn]@[j];
                    if a0[x as int] {
                        assert(appears(comps0, x));
                        let c = choose|c: int| 0 <= c < comps0.len() && comps0[c]@.contains(x);
                        let jj = choose|jj: int| 0 <= jj < comps0[c]@.len() && comps0[c]@[jj] == x;
                        assert(reaches(*graph, seq![comps@[c]@[jj]], v) && reaches(
                            *graph,
                            seq![v],
                            comps@[c]@[jj],
                        )) by {
                            assert(fwd@[x as int] && bwd@[x as int]);
                            assert(comps@[c]@[jj] == x);
                        }
                        assert(comps@[c]@.contains(v));
                        assert(appears(comps0, v));
                        assert(a0[v as int]);
                        assert(false);
                    }
                }
                assert forall|c1: int, j1: int, c2: int, j2: int|
                    #![trigger comps@[c1]@[j1], comps@[c2]@[j2]]
                    0 <= c1 < comps@.len() && 0 <= j1 < comps@[c1]@.len() && 0 <= c2 < comps@.len()
                        && 0 <= j2 < comps@[c2]@.len() && (c1 != c2 || j1 != j2)
                    implies comps@[c1]@[j1] != comps@[c2]@[j2] by {
                    if c1 < cn && c2 < cn {
                    } else if c1 == cn && c2 == cn {
                        if j1 < j2 {
                            assert(comp@[j1] < comp@[j2]);
                        } else if j2 < j1 {
                            assert(comp@[j2] < comp@[j1]);
                        }
                    } else if c1 == cn && c2 < cn {
                        let x = comps@[c1]@[j1];
                        if comps@[c2]@[j2] == x {
                            assert(comps0[c2]@.contains(x));
                            assert(appears(comps0, x));
                            assert(a0[x as int]);
                        }
                    } else {
                        let x = comps@[c2]@[j2];
                        if comps@[c1]@[j1] == x {
                            assert(comps0[c1]@.contains(x));
                            assert(appears(comps0, x));
                            assert(a0[x as int]);
                        }
                    }
                }
                assert forall|c: int, j1: int, j2: int|
                    #![trigger comps@[c]@[j1], comps@[c]@[j2]]
                    0 <= c < comps@.len() && 0 <= j1 < comps@[c]@.len() && 0 <= j2
                        < comps@[c]@.len() implies reaches(
                    *graph,
                    seq![comps@[c]@[j1]],
                    comps@[c]@[j2],
                ) by {
                    if c == cn {
                        let x = comps@[c]@[j1];
                        let y = comps@[c]@[j2];
                        assert(bwd@[x as int] && fwd@[y as int]);
                        let k1 = choose|k1: nat| reach_n(*graph, seq![x], v, k1);
                        let k2 = choose|k2: nat| reach_n(*graph, seq![v], y, k2);
                        lemma_reach_trans(*graph, seq![x], v, y, k1, k2);
                    }
                }
                assert forall|c: int, j: int, w: usize|
                    #![trigger comps@[c]@[j], reaches(*graph, seq![w], comps@[c]@[j])]
                    0 <= c < comps@.len() && 0 <= j < comps@[c]@.len() && (w as int) < n && reaches(
                        *graph,
                        seq![comps@[c]@[j]],
                        w,
                    ) && reaches(*graph, seq![w], comps@[c]@[j]) implies comps@[c]@.contains(w) by {
                    if c == cn {
                        let m = comps@[c]@[j];
                        assert(fwd@[m as int] && bwd@[m as int]);
                        assert(reaches(*graph, seq![v], w)) by {
                            let k1 = choose|k1: nat| reach_n(*graph, seq![v], m, k1);
                            let k2 = choose|k2: nat| reach_n(*graph, seq![m], w, k2);
                            lemma_reach_trans(*graph, seq![v], m, w, k1, k2);
                        }
                        assert(reaches(*graph, seq![w], v)) by {
                            let k1 = choose|k1: nat| reach_n(*graph, seq![w], m, k1);
                            let k2 = choose|k2: nat| reach_n(*graph, seq![m], v, k2);
                            lemma_reach_trans(*graph, seq![w], m, v, k1, k2);
                        }
                        assert(fwd@[w as int] && bwd@[w as int]);
                        assert(comp@.contains(w));
                    }
                }
            }
        }
        v = v + 1;
    }
    proof {
        assert forall|x: usize| (x as int) < n implies appears(comps@, x) by {
            assert(assigned@[x as int]);
        }
    }
    comps
}

impl DiGraph {
    /// True when the graph has no directed cycle.
    pub fn is_dag(&self) -> (r: bool)
        requires
            self.wf(),
        ensures
            r == !(exists|v: usize| (v as int) < self.n() && on_cycle(*self, v)),
    {
        !has_cycles(self)
    }
}

/// True iff the graph contains a directed cycle — equivalently, iff some
/// strongly connected component has more than one node or a node carries
/// a self-loop.
#[verifier::loop_isolation(false)]
pub fn has_cycles(graph: &DiGraph) -> (r: bool)
    requires
        graph.wf(),
    ensures
        r == (exists|v: usize| (v as int) < graph.n() && on_cycle(*graph, v)),
{
    let comps = scc(graph);
    let mut c: usize = 0;
    while c < comps.len()
        invariant
            c <= comps@.len(),
            forall|c2: int|
                0 <= c2 < c ==> (#[trigger] comps@[c2])@.len() == 1 && !graph.succ(
                    comps@[c2]@[0] as int,
                ).contains(comps@[c2]@[0]),
        decreases comps@.len() - c,
    {
        let comp_len = comps[c].len();
        if comp_len > 1 {
            proof {
                let a = comps@[c as int]@[0];
                let b = comps@[c as int]@[1];
                assert(a != b);
                assert(reaches(*graph, seq![a], b) && reaches(*graph, seq![b], a));
                let k1 = choose|k1: nat| reach_n(*graph, seq![a], b, k1);
                let k2 = choose|k2: nat| reach_n(*graph, seq![b], a, k2);
                lemma_reach_trans(*graph, seq![a], b, a, k1, k2);
                assert(k1 >= 1) by {
                    if k1 == 0 {
                        assert(seq![a].contains(b));
                        assert(seq![a][0] == a);
                    }
                }
                assert(on_cycle(*graph, a));
            }
            return true;
        }
        let rep = comps[c][0];
        proof {
            graph.lemma_succ_in_range(rep as int);
        }
        let succs = graph.successors_slice(rep);
        let m = succs.len();
        let mut si: usize = 0;
        while si < m
            invariant
                (rep as int) < graph.n(),
                succs@ == graph.succ(rep as int),
                m == succs@.len(),
                si <= m,
                forall|k: int| 0 <= k < si ==> succs@[k] != rep,
            decreases m - si,
        {
            if succs[si] == rep {
                proof {
                    assert(graph.succ(rep as int).contains(rep));
                    assert(reach_n(*graph, seq![rep], rep, 0)) by {
                        assert(seq![rep][0] == rep);
                    }
                    assert((rep as int) < graph.n() && reach_n(*graph, seq![rep], rep, 0)
                        && graph.succ(rep as int).contains(rep));
                    assert(reach_n(*graph, seq![rep], rep, 1));
                    assert(on_cycle(*graph, rep));
                }
                return true;
            }
            si = si + 1;
        }
        c = c + 1;
    }
    proof {
        assert forall|v: usize| (v as int) < graph.n() implies !on_cycle(*graph, v) by {
            if on_cycle(*graph, v) {
                let k = choose|k: nat| k >= 1 && reach_n(*graph, seq![v], v, k);
                let u = choose|u: usize|
                    (u as int) < graph.n() && reach_n(*graph, seq![v], u, (k - 1) as nat)
                        && graph.succ(u as int).contains(v);
                assert(appears(comps@, v));
                let c2 = choose|c2: int| 0 <= c2 < comps@.len() && comps@[c2]@.contains(v);
                let j = choose|j: int| 0 <= j < comps@[c2]@.len() && comps@[c2]@[j] == v;
                assert(comps@[c2]@.len() == 1);
                assert(j == 0);
                if u == v {
                    assert(!graph.succ(comps@[c2]@[0] as int).contains(comps@[c2]@[0]));
                } else {
                    assert(reaches(*graph, seq![v], u));
                    assert(reach_n(*graph, seq![u], v, 1)) by {
                        assert(reach_n(*graph, seq![u], u, 0)) by {
                            assert(seq![u][0] == u);
                        }
                        assert((u as int) < graph.n() && reach_n(*graph, seq![u], u, 0)
                            && graph.succ(u as int).contains(v));
                    }
                    assert(reaches(*graph, seq![u], v));
                    assert(reaches(*graph, seq![u], comps@[c2]@[j]));
                    assert(comps@[c2]@.contains(u));
                    assert(u == comps@[c2]@[0]);
                    assert(u == v);
                }
            }
        }
    }
    false
}

} // verus!
