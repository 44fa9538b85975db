//! Critical path analysis: per-node heights (longest path, in edge count,
//! ending at the node), one critical-path node sequence, and the overall
//! critical-path length.
//!
//! Heights are well defined only on acyclic graphs. The pass processes
//! nodes whose predecessors are all settled; on a graph with a cycle the
//! nodes of the cycle, and everything behind them, are never reached and
//! keep height zero — the contract states that either the heights satisfy
//! the longest-path fixpoint equations, or the graph has a directed
//! cycle.

use vstd::prelude::*;
use crate::counting::count_true;
use crate::counting::lemma_count_true_full;
use crate::counting::lemma_count_true_full_conv;
use crate::counting::lemma_count_true_le;
use crate::counting::lemma_count_true_set;
use crate::counting::lemma_count_true_zero;
use crate::cycles::on_cycle;
use crate::graph::DiGraph;

verus! {

/// `h` satisfies the longest-path fixpoint equations of `g`: a node with
/// no predecessors has height zero, and otherwise its height is one more
/// than the largest height among its predecessors.
pub open spec fn dp_fixpoint(g: DiGraph, h: Seq<usize>) -> bool {
    &&& h.len() == g.n()
    &&& forall|v: int, k: int|
        0 <= v < g.n() && 0 <= k < g.pred(v).len() ==> h[v] >= h[(#[trigger] g.pred(v)[k]) as int]
            + 1
    &&& forall|v: int| 0 <= v < g.n() && (#[trigger] g.pred(v)).len() == 0 ==> h[v] == 0
    &&& forall|v: int|
        0 <= v < g.n() && (#[trigger] g.pred(v)).len() > 0 ==> exists|k: int|
            0 <= k < g.pred(v).len() && h[v] == h[(#[trigger] g.pred(v)[k]) as int] + 1
}

/// A nonempty set of nodes, as a bitmap, each of which has a predecessor
/// in the set: such nodes can never all be ordered topologically, and a
/// directed cycle runs among them.
pub open spec fn pred_blocked(g: DiGraph, rem: Seq<bool>) -> bool {
    &&& rem.len() == g.n()
    &&& exists|v: usize| (v as int) < rem.len() && rem[v as int]
    &&& forall|v: int|
        0 <= v < rem.len() && #[trigger] rem[v] ==> exists|k: int|
            0 <= k < g.pred(v).len() && rem[(#[trigger] g.pred(v)[k]) as int]
}

/// A nonempty set of nodes, as a bitmap, each of which has a successor
/// in the set: the forward mirror of a pred-blocked set; a directed cycle
/// runs among such nodes too.
pub open spec fn succ_blocked(g: DiGraph, rem: Seq<bool>) -> bool {
    &&& rem.len() == g.n()
    &&& exists|v: usize| (v as int) < rem.len() && rem[v as int]
    &&& forall|v: int|
        0 <= v < rem.len() && #[trigger] rem[v] ==> exists|k: int|
            0 <= k < g.succ(v).len() && rem[(#[trigger] g.succ(v)[k]) as int]
}

/// Per-node heights: the longest path (in edge count) ending at each
/// node, computed over a topological pass. Nodes the pass never settles —
/// only possible when the graph has a cycle — keep height zero.
#[verifier::loop_isolation(false)]
pub fn critical_path_heights(graph: &DiGraph) -> (r: Vec<usize>)
    requires
        graph.wf(),
    ensures
        r@.len() == graph.n(),
        forall|v: int| 0 <= v < graph.n() ==> (#[trigger] r@[v] as int) < graph.n(),
        (exists|v: usize| (v as int) < graph.n() && on_cycle(*graph, v)) || dp_fixpoint(
            *graph,
            r@,
        ),
{
    let n = graph.len();
    let mut h: Vec<usize> = Vec::new();
    let mut done: Vec<bool> = Vec::new();
    let mut i: usize = 0;
    while i < n
        invariant
            i <= n,
            h@.len() == i,
            done@.len() == i,
            forall|j: int| 0 <= j < i ==> h@[j] == 0,
            forall|j: int| 0 <= j < i ==> !done@[j],
        decreases n - i,
    {
        h.push(0);
        done.push(false);
        i = i + 1;
    }
    proof {
        lemma_count_true_zero(done@);
    }
    let mut processed: usize = 0;
    let mut progress = true;
    while progress
        invariant
            h@.len() == n,
            done@.len() == n,
            processed as nat == count_true(done@),
            processed <= n,
            forall|v: int, k: int|
                0 <= v < n && done@[v] && 0 <= k < graph.pred(v).len() ==> done@[(
                #[trigger] graph.pred(v)[k]) as int] && h@[v] >= h@[graph.pred(v)[k] as int] + 1,
            forall|v: int|
                0 <= v < n && #[trigger] done@[v] && graph.pred(v).len() == 0 ==> h@[v] == 0,
            forall|v: int|
                0 <= v < n && #[trigger] done@[v] && graph.pred(v).len() > 0 ==> exists|k: int|
                    0 <= k < graph.pred(v).len() && h@[v] == h@[(#[trigger] graph.pred(
                        v,
                    )[k]) as int] + 1,
            forall|v: int| 0 <= v < n && !(#[trigger] done@[v]) ==> h@[v] == 0,
            forall|v: int| 0 <= v < n && #[trigger] done@[v] ==> (h@[v] as int) < processed,
            !progress ==> forall|x: int|
                0 <= x < n && !(#[trigger] done@[x]) ==> exists|k: int|
                    0 <= k < graph.pred(x).len() && !done@[(#[trigger] graph.pred(x)[k]) as int],
        decreases n - processed, (if progress {
            1int
        } else {
            0int
        }),
    {
        progress = false;
        let ghost processed0 = processed;
        let mut vi: usize = 0;
        while vi < n
            invariant
                vi <= n,
                h@.len() == n,
                done@.len() == n,
                processed as nat == count_true(done@),
                processed <= n,
                processed0 <= processed,
                !progress ==> processed == processed0,
                progress ==> processed0 < processed,
                forall|v: int, k: int|
                    0 <= v < n && done@[v] && 0 <= k < graph.pred(v).len() ==> done@[(
                    #[trigger] graph.pred(v)[k]) as int] && h@[v] >= h@[graph.pred(v)[k] as int]
                        + 1,
                forall|v: int|
                    0 <= v < n && #[trigger] done@[v] && graph.pred(v).len() == 0 ==> h@[v] == 0,
                forall|v: int|
                    0 <= v < n && #[trigger] done@[v] && graph.pred(v).len() > 0 ==> exists|k: int|
                        0 <= k < graph.pred(v).len() && h@[v] == h@[(#[trigger] graph.pred(
                            v,
                        )[k]) as int] + 1,
                forall|v: int| 0 <= v < n && !(#[trigger] done@[v]) ==> h@[v] == 0,
                forall|v: int| 0 <= v < n && #[trigger] done@[v] ==> (h@[v] as int) < processed,
                !progress ==> forall|x: int|
                    0 <= x < vi && !(#[trigger] done@[x]) ==> exists|k: int|
                        0 <= k < graph.pred(x).len() && !done@[(#[trigger] graph.pred(
                            x,
                        )[k]) as int],
            decreases n - vi,
        {
            if !done[vi] {
                proof {
                    graph.lemma_pred_in_range(vi as int);
                }
                let preds = graph.predecessors_slice(vi);
                let pm = preds.len();
                let mut pi: usize = 0;
                let mut all = true;
                let mut best: usize = 0;
                while pi < pm
                    invariant
                        (vi as int) < n,
                        preds@ == graph.pred(vi as int),
                        pm == preds@.len(),
                        pi <= pm,
                        h@.len() == n,
                        done@.len() == n,
                        processed <= n,
                        forall|v: int|
                            0 <= v < n && #[trigger] done@[v] ==> (h@[v] as int) < processed,
                        all ==> forall|k: int|
                            0 <= k < pi ==> done@[(#[trigger] preds@[k]) as int],
                        all ==> forall|k: int|
                            0 <= k < pi ==> best >= h@[(#[trigger] preds@[k]) as int] + 1,
                        all && pi > 0 ==> exists|k: int|
                            0 <= k < pi && best == h@[(#[trigger] preds@[k]) as int] + 1,
                        pi == 0 ==> best == 0,
                        best <= processed,
                        !all ==> exists|k: int|
                            0 <= k < pi && !done@[(#[trigger] preds@[k]) as int],
                    decreases pm - pi,
                {
                    let p = preds[pi];
                    proof {
                        assert((graph.pred(vi as int)[pi as int] as int) < n);
                    }
                    if !done[p] {
                        if all {
                            proof {
                                assert(!done@[(preds@[pi as int]) as int]);
                            }
                        }
                        all = false;
                    } else {
                        if all {
                            let ghost best0 = best;
                            let cand = h[p] + 1;
                            if cand > best {
                                best = cand;
                            }
                            proof {
                                assert forall|k: int| 0 <= k < pi + 1 implies best >= h@[(
                                #[trigger] preds@[k]) as int] + 1 by {
                                    if k < pi {
                                        assert(best0 >= h@[(preds@[k]) as int] + 1);
                                    }
                                }
                                if best == cand {
                                    assert(best == h@[(preds@[pi as int]) as int] + 1);
                                } else {
                                    assert(pi > 0);
                                }
                            }
                        }
                    }
                    pi = pi + 1;
                }
                if all {
                    let ghost h0 = h@;
                    let ghost done0 = done@;
                    h[vi] = best;
                    done[vi] = true;
                    proof {
                        lemma_count_true_set(done0, vi as int);
                        lemma_count_true_le(done0.update(vi as int, true));
                    }
                    processed = processed + 1;
                    progress = true;
                    proof {
                        assert forall|v: int, k: int|
                            0 <= v < n && done@[v] && 0 <= k < graph.pred(v).len() implies done@[(
                        #[trigger] graph.pred(v)[k]) as int] && h@[v] >= h@[graph.pred(
                            v,
                        )[k] as int] + 1 by {
                            graph.lemma_pred_in_range(v);
                            let p = graph.pred(v)[k] as int;
                            assert(0 <= p < n);
                            if v == vi {
                                assert(done0[p]);
                                assert(p != vi);
                                assert(h@[p] == h0[p]);
                                assert(best >= h0[p] + 1);
                            } else {
                                assert(done0[v]);
                                assert(done0[p]);
                                assert(p != vi && v != vi);
                                assert(h@[v] == h0[v] && h@[p] == h0[p]);
                            }
                        }
                        assert forall|v: int|
                            0 <= v < n && #[trigger] done@[v] && graph.pred(v).len() == 0
                            implies h@[v] == 0 by {
                            if v == vi {
                                assert(pm == 0);
                            }
                        }
                        assert forall|v: int|
                            0 <= v < n && #[trigger] done@[v] && graph.pred(v).len() > 0
                            implies exists|k: int|
                            0 <= k < graph.pred(v).len() && h@[v] == h@[(#[trigger] graph.pred(
                                v,
                            )[k]) as int] + 1 by {
                            graph.lemma_pred_in_range(v);
                            if v == vi {
                                let k = choose|k: int|
                                    0 <= k < pm && best == h0[(preds@[k]) as int] + 1;
                                assert(preds@[k] != vi) by {
                                    assert(done0[(preds@[k]) as int]);
                                }
                                assert(h@[(graph.pred(v)[k]) as int] == h0[(preds@[k]) as int]);
                                assert(h@[v] == h@[(graph.pred(v)[k]) as int] + 1);
                            } else {
                                assert(done0[v]);
                                let k = choose|k: int|
                                    0 <= k < graph.pred(v).len() && h0[v] == h0[(graph.pred(
                                        v,
                                    )[k]) as int] + 1;
                                assert(done0[(graph.pred(v)[k]) as int]);
                                assert(graph.pred(v)[k] != vi);
                                assert(h@[v] == h0[v]);
                                assert(h@[(graph.pred(v)[k]) as int] == h0[(graph.pred(
                                    v,
                                )[k]) as int]);
                            }
                        }
                    }
                }
            }
            vi = vi + 1;
        }
    }
    proof {
        if processed < n {
            assert(count_true(done@) < n);
            assert(!(forall|i2: int| 0 <= i2 < n ==> done@[i2])) by {
                if forall|i2: int| 0 <= i2 < n ==> done@[i2] {
                    lemma_count_true_full(done@);
                }
            }
            let x = choose|x: int| 0 <= x < n && !done@[x];
            let rem = Seq::new(n as nat, |v: int| !done@[v]);
            assert(pred_blocked(*graph, rem)) by {
                assert(((x as usize) as int) < rem.len() && rem[(x as usize) as int]);
                assert forall|v: int| 0 <= v < rem.len() && #[trigger] rem[v] implies exists|k: int|
                    0 <= k < graph.pred(v).len() && rem[(#[trigger] graph.pred(v)[k]) as int] by {
                    assert(!done@[v]);
                    graph.lemma_pred_in_range(v);
                    let k = choose|k: int|
                        0 <= k < graph.pred(v).len() && !done@[(graph.pred(v)[k]) as int];
                    assert((graph.pred(v)[k] as int) < n);
                    assert(rem[(graph.pred(v)[k]) as int]);
                }
            }
            crate::cycles::lemma_pred_blocked_cycle(*graph, rem);
        } else {
            lemma_count_true_full_conv(done@);
            assert(dp_fixpoint(*graph, h@)) by {
                assert forall|v: int, k: int|
                    0 <= v < graph.n() && 0 <= k < graph.pred(v).len() implies h@[v] >= h@[(
                #[trigger] graph.pred(v)[k]) as int] + 1 by {
                    assert(done@[v]);
                }
                assert forall|v: int|
                    0 <= v < graph.n() && (#[trigger] graph.pred(v)).len() == 0 implies h@[v]
                    == 0 by {
                    assert(done@[v]);
                }
                assert forall|v: int|
                    0 <= v < graph.n() && (#[trigger] graph.pred(v)).len() > 0 implies exists|
                    k: int,
                |
                    0 <= k < graph.pred(v).len() && h@[v] == h@[(#[trigger] graph.pred(
                        v,
                    )[k]) as int] + 1 by {
                    assert(done@[v]);
                }
            }
        }
        assert forall|v: int| 0 <= v < n implies (#[trigger] h@[v] as int) < n by {
            if done@[v] {
            } else {
                assert(h@[v] == 0);
            }
        }
    }
    h
}

/// The length of the critical path: the largest height over all nodes;
/// zero for an empty graph or when every node sits on or behind a cycle.
pub fn critical_path_length(graph: &DiGraph) -> (r: usize)
    requires
        graph.wf(),
    ensures
        graph.n() == 0 ==> r == 0,
        graph.n() > 0 ==> (r as int) < graph.n(),
        graph.n() > 0 ==> exists|h: Seq<usize>|
            (#[trigger] h.len()) == graph.n() && ((exists|v: usize|
                (v as int) < graph.n() && on_cycle(*graph, v)) || dp_fixpoint(*graph, h)) && (
            forall|j: int| 0 <= j < h.len() ==> h[j] <= r) && (exists|j: int|
                0 <= j < h.len() && h[j] == r),
{
    let heights = critical_path_heights(graph);
    let mut best: usize = 0;
    let mut i: usize = 0;
    let n = heights.len();
    while i < n
        invariant
            i <= n,
            n == heights@.len(),
            n as int == graph.n(),
            i > 0 ==> exists|j: int| 0 <= j < i && best == #[trigger] heights@[j],
            i == 0 ==> best == 0,
            forall|j: int| 0 <= j < i ==> best >= #[trigger] heights@[j],
            n > 0 && i > 0 ==> (best as int) < n,
            forall|j: int| 0 <= j < n ==> (#[trigger] heights@[j] as int) < n,
        decreases n - i,
    {
        if heights[i] > best {
            best = heights[i];
        }
        i = i + 1;
    }
    proof {
        if n > 0 {
            let h = heights@;
            assert(h.len() == graph.n());
            assert((forall|j: int| 0 <= j < h.len() ==> h[j] <= best) && (exists|j: int|
                0 <= j < h.len() && h[j] == best));
        }
    }
    best
}

/// One longest path, as a node sequence from a source (height zero) to a
/// node of maximal height, one node per height level. Ties break toward
/// the lowest node index, both for the final node and for each
/// predecessor chosen while walking back. On a graph whose heights never
/// settle (a cycle) the walk stops early, best-effort.
#[verifier::loop_isolation(false)]
#[verifier::rlimit(80)]
pub fn critical_path_nodes(graph: &DiGraph) -> (r: Vec<usize>)
    requires
        graph.wf(),
    ensures
        graph.n() == 0 ==> r@.len() == 0,
        graph.n() > 0 ==> r@.len() >= 1,
        forall|i: int| 0 <= i < r@.len() ==> ((#[trigger] r@[i]) as int) < graph.n(),
        forall|i: int|
            0 <= i < r@.len() - 1 ==> graph.succ(r@[i] as int).contains(#[trigger] r@[i + 1]),
        graph.n() > 0 ==> (exists|v: usize| (v as int) < graph.n() && on_cycle(*graph, v)) || (
        exists|h: Seq<usize>|
            #![trigger h.len()]
            {
                &&& h.len() == graph.n()
                &&& dp_fixpoint(*graph, h)
                &&& r@.len() >= 1
                &&& forall|i: int| 0 <= i < r@.len() ==> (h[(#[trigger] r@[i]) as int] as int) == i
                &&& forall|v: int| 0 <= v < graph.n() ==> (#[trigger] h[v] as int) <= r@.len() - 1
                &&& forall|v: int|
                    0 <= v < graph.n() && (#[trigger] h[v] as int) == r@.len() - 1 ==> (r@[r@.len()
                        - 1] as int) <= v
                &&& forall|i: int, k: int|
                    0 <= i < r@.len() - 1 && 0 <= k < graph.pred(r@[i + 1] as int).len() && (h[(
                    #[trigger] graph.pred(r@[i + 1] as int)[k]) as int] as int) == i ==> r@[i]
                        <= graph.pred(r@[i + 1] as int)[k]
            }),
{
    let n = graph.len();
    if n == 0 {
        return Vec::new();
    }
    let heights = critical_path_heights(graph);
    let mut end: usize = 0;
    let mut i: usize = 0;
    while i < n
        invariant
            i <= n,
            n as int == graph.n(),
            heights@.len() == n,
            (end as int) < n,
            (end as int) <= i,
            forall|j: int| 0 <= j < i ==> heights@[end as int] >= #[trigger] heights@[j],
            forall|j: int|
                0 <= j < i && #[trigger] heights@[j] == heights@[end as int] ==> (end as int) <= j,
        decreases n - i,
    {
        let ghost end0 = end;
        if heights[i] > heights[end] {
            end = i;
        }
        proof {
            assert forall|j: int|
                0 <= j < i + 1 && #[trigger] heights@[j] == heights@[end as int] implies (
            end as int) <= j by {
                if end == end0 {
                    if j < i {
                    } else {
                        assert(heights@[i as int] <= heights@[end0 as int]);
                    }
                } else {
                    assert(end == i);
                    if j < i {
                        assert(heights@[j] <= heights@[end0 as int]);
                        assert(heights@[end0 as int] < heights@[i as int]);
                    }
                }
            }
        }
        i = i + 1;
    }
    let mut rev_path: Vec<usize> = Vec::new();
    rev_path.push(end);
    let mut cur = end;
    let mut fuel = heights[end];
    let ghost mut settled = true;
    while fuel > 0
        invariant
            n as int == graph.n(),
            heights@.len() == n,
            (cur as int) < n,
            fuel == heights@[cur as int],
            rev_path@.len() >= 1,
            rev_path@[rev_path@.len() - 1] == cur,
            rev_path@[0] == end,
            settled,
            forall|i2: int|
                0 <= i2 < rev_path@.len() ==> ((#[trigger] rev_path@[i2]) as int) < n && (heights@[
                rev_path@[i2] as int] as int) == heights@[end as int] - i2,
            forall|i2: int|
                0 <= i2 < rev_path@.len() - 1 ==> graph.succ(rev_path@[i2 + 1] as int).contains(
                    #[trigger] rev_path@[i2],
                ),
            forall|i2: int, k: int|
                1 <= i2 < rev_path@.len() && 0 <= k < graph.pred(rev_path@[i2 - 1] as int).len()
                    && (heights@[(#[trigger] graph.pred(rev_path@[i2 - 1] as int)[k]) as int] as int)
                    + 1 == heights@[rev_path@[i2 - 1] as int] ==> rev_path@[i2] <= graph.pred(
                    rev_path@[i2 - 1] as int,
                )[k],
        decreases fuel,
    {
        proof {
            graph.lemma_pred_in_range(cur as int);
        }
        let preds = graph.predecessors_slice(cur);
        let pm = preds.len();
        let mut pi: usize = 0;
        let mut found = false;
        let mut next: usize = 0;
        while pi < pm
            invariant
                (cur as int) < n,
                preds@ == graph.pred(cur as int),
                pm == preds@.len(),
                pi <= pm,
                heights@.len() == n,
                found ==> (next as int) < n && graph.pred(cur as int).contains(next)
                    && heights@[next as int] + 1 == heights@[cur as int],
                found ==> forall|k: int|
                    0 <= k < pi && heights@[(#[trigger] preds@[k]) as int] + 1 == heights@[cur as int]
                        ==> next <= preds@[k],
                !found ==> forall|k: int|
                    0 <= k < pi ==> heights@[(#[trigger] preds@[k]) as int] + 1 != heights@[cur as int],
            decreases pm - pi,
        {
            let p = preds[pi];
            proof {
                assert((graph.pred(cur as int)[pi as int] as int) < n);
            }
            if heights[p] + 1 == heights[cur] {
                if !found || p < next {
                    found = true;
                    next = p;
                    proof {
                        assert(graph.pred(cur as int)[pi as int] == p);
                        assert(graph.pred(cur as int).contains(p));
                    }
                }
            }
            pi = pi + 1;
        }
        if !found {
            proof {
                if dp_fixpoint(*graph, heights@) {
                    assert(heights@[cur as int] > 0);
                    assert(graph.pred(cur as int).len() > 0) by {
                        if graph.pred(cur as int).len() == 0 {
                            assert(heights@[cur as int] == 0);
                        }
                    }
                    let k = choose|k: int|
                        0 <= k < graph.pred(cur as int).len() && heights@[cur as int] == heights@[(
                        graph.pred(cur as int)[k]) as int] + 1;
                    assert(heights@[(preds@[k]) as int] + 1 == heights@[cur as int]);
                    assert(false);
                }
                settled = false;
            }
            break;
        }
        rev_path.push(next);
        proof {
            crate::graph::lemma_edge_duality(*graph, next, cur);
            let rp0 = rev_path@.drop_last();
            assert forall|i2: int|
                0 <= i2 < rev_path@.len() - 1 implies graph.succ(rev_path@[i2 + 1] as int).contains(
                #[trigger] rev_path@[i2],
            ) by {
                if i2 < rev_path@.len() - 2 {
                    assert(rev_path@[i2] == rp0[i2]);
                    assert(rev_path@[i2 + 1] == rp0[i2 + 1]);
                } else {
                    assert(rev_path@[i2] == cur);
                    assert(rev_path@[i2 + 1] == next);
                }
            }
        }
        cur = next;
        let new_fuel = fuel - 1;
        fuel = new_fuel;
    }
    let mut path: Vec<usize> = Vec::new();
    let mut j = rev_path.len();
    while j > 0
        invariant
            j <= rev_path@.len(),
            path@.len() == rev_path@.len() - j,
            forall|i2: int|
                0 <= i2 < path@.len() ==> path@[i2] == rev_path@[rev_path@.len() - 1 - i2],
            forall|i2: int| 0 <= i2 < rev_path@.len() ==> ((#[trigger] rev_path@[i2]) as int) < n,
            forall|i2: int|
                0 <= i2 < rev_path@.len() - 1 ==> graph.succ(rev_path@[i2 + 1] as int).contains(
                    #[trigger] rev_path@[i2],
                ),
        decreases j,
    {
        j = j - 1;
        path.push(rev_path[j]);
    }
    proof {
        let l = rev_path@.len() as int;
        assert forall|i2: int|
            0 <= i2 < path@.len() - 1 implies graph.succ(path@[i2] as int).contains(
            #[trigger] path@[i2 + 1],
        ) by {
            assert(path@[i2] == rev_path@[l - 1 - i2]);
            assert(path@[i2 + 1] == rev_path@[l - 2 - i2]);
            assert(graph.succ(rev_path@[(l - 2 - i2) + 1] as int).contains(rev_path@[l - 2 - i2]));
        }
        if exists|v: usize| (v as int) < graph.n() && on_cycle(*graph, v) {
        } else {
            assert(dp_fixpoint(*graph, heights@));
            assert(settled);
            assert(heights@[cur as int] == 0);
            assert((heights@[end as int] as int) - (l - 1) == 0);
            let h = heights@;
            assert(h.len() == graph.n());
            assert forall|i2: int| 0 <= i2 < path@.len() implies (h[(
            #[trigger] path@[i2]) as int] as int) == i2 by {
                assert(path@[i2] == rev_path@[l - 1 - i2]);
                assert((h[rev_path@[l - 1 - i2] as int] as int) == h[end as int] - (l - 1 - i2));
            }
            assert forall|v: int| 0 <= v < graph.n() implies (#[trigger] h[v] as int) <= path@.len()
                - 1 by {
                assert(h[end as int] >= h[v]);
            }
            assert forall|v: int|
                0 <= v < graph.n() && (#[trigger] h[v] as int) == path@.len() - 1 implies (
            path@[path@.len() - 1] as int) <= v by {
                assert(h[v] == h[end as int]);
                assert(path@[path@.len() - 1] == rev_path@[0]);
            }
            assert forall|i2: int, k: int|
                0 <= i2 < path@.len() - 1 && 0 <= k < graph.pred(path@[i2 + 1] as int).len() && (h[(
            #[trigger] graph.pred(path@[i2 + 1] as int)[k]) as int] as int) == i2
                implies path@[i2] <= graph.pred(path@[i2 + 1] as int)[k] by {
                let rp1 = l - 2 - i2;
                assert(path@[i2 + 1] == rev_path@[rp1]);
                assert(path@[i2] == rev_path@[rp1 + 1]);
                assert((h[rev_path@[rp1] as int] as int) == i2 + 1);
                assert(1 <= rp1 + 1 < l);
                assert((h[(graph.pred(rev_path@[(rp1 + 1) - 1] as int)[k]) as int] as int) + 1
                    == h[rev_path@[(rp1 + 1) - 1] as int]);
                assert(rev_path@[rp1 + 1] <= graph.pred(rev_path@[(rp1 + 1) - 1] as int)[k]);
            }
        }
    }
    path
}

} // verus!
