//! Slack (float) per node: how much a node's longest path falls short of
//! the critical path. A node on the critical path has slack zero.
//!
//! The longest path through a node is its height (longest path ending at
//! it) plus its downstream height (longest path starting from it). Slack
//! is the critical-path length — the largest height — minus that, floored
//! at zero. The contract pins the whole vector: either the graph has a
//! cycle, or the slack values are computed exactly from a pair of height
//! vectors satisfying the longest-path fixpoint equations and their
//! successor-side duals.

use vstd::prelude::*;
use crate::counting::count_true;
use crate::counting::lemma_count_true_full;
use crate::counting::lemma_count_true_full_conv;
use crate::counting::lemma_count_true_le;
use crate::counting::lemma_count_true_set;
use crate::counting::lemma_count_true_zero;
use crate::critpath::critical_path_heights;
use crate::critpath::dp_fixpoint;
use crate::critpath::succ_blocked;
use crate::cycles::on_cycle;
use crate::graph::DiGraph;

verus! {

/// `h` satisfies the successor-side longest-path fixpoint equations: a
/// node with no successors has downstream height zero, and otherwise its
/// downstream height is one more than the largest among its successors.
pub open spec fn dp_fixpoint_rev(g: DiGraph, h: Seq<usize>) -> bool {
    &&& h.len() == g.n()
    &&& forall|v: int, k: int|
        0 <= v < g.n() && 0 <= k < g.succ(v).len() ==> h[v] >= h[(#[trigger] g.succ(v)[k]) as int]
            + 1
    &&& forall|v: int| 0 <= v < g.n() && (#[trigger] g.succ(v)).len() == 0 ==> h[v] == 0
    &&& forall|v: int|
        0 <= v < g.n() && (#[trigger] g.succ(v)).len() > 0 ==> exists|k: int|
            0 <= k < g.succ(v).len() && h[v] == h[(#[trigger] g.succ(v)[k]) as int] + 1
}

/// The largest element of a sequence, zero when empty.
pub open spec fn seq_max(s: Seq<usize>) -> int
    decreases s.len(),
{
    if s.len() == 0 {
        0
    } else {
        let rest = seq_max(s.drop_last());
        if s.last() > rest {
            s.last() as int
        } else {
            rest
        }
    }
}

/// `s` is the slack vector of `g`: either the graph has a cycle (the
/// values are then best-effort), or there are an up-heights vector and a
/// down-heights vector satisfying the two fixpoint systems such that each
/// entry is the critical-path length minus the longest path through the
/// node, floored at zero.
pub open spec fn slack_vector(g: DiGraph, s: Seq<usize>) -> bool {
    &&& s.len() == g.n()
    &&& (exists|v: usize| (v as int) < g.n() && on_cycle(g, v)) || (exists|
        up: Seq<usize>,
        down: Seq<usize>,
    |
        #![trigger up.len(), down.len()]
        {
            &&& dp_fixpoint(g, up)
            &&& dp_fixpoint_rev(g, down)
            &&& forall|v: int|
                0 <= v < g.n() ==> (#[trigger] s[v] as int) == (if up[v] + down[v] <= seq_max(up) {
                    seq_max(up) - (up[v] + down[v])
                } else {
                    0
                })
        })
}

/// Longest path (in edge count) starting at each node, computed by the
/// same topological pass as the heights, over successors instead of
/// predecessors. Nodes the pass never settles — only possible when the
/// graph has a cycle — keep zero.
#[verifier::loop_isolation(false)]
fn downstream_heights(graph: &DiGraph) -> (r: Vec<usize>)
    requires
        graph.wf(),
    ensures
        r@.len() == graph.n(),
        forall|v: int| 0 <= v < graph.n() ==> (#[trigger] r@[v] as int) < graph.n(),
        (exists|v: usize| (v as int) < graph.n() && on_cycle(*graph, v)) || dp_fixpoint_rev(
            *graph,
            r@,
        ),
{
    let n = graph.len();
    let mut h: Vec<usize> = Vec::new();
    let mut done: Vec<bool> = Vec::new();
    let mut i: usize = 0;
    while i < n
        invariant
            i <= n,
            h@.len() == i,
            done@.len() == i,
            forall|j: int| 0 <= j < i ==> h@[j] == 0,
            forall|j: int| 0 <= j < i ==> !done@[j],
        decreases n - i,
    {
        h.push(0);
        done.push(false);
        i = i + 1;
    }
    proof {
        lemma_count_true_zero(done@);
    }
    let mut processed: usize = 0;
    let mut progress = true;
    while progress
        invariant
            h@.len() == n,
            done@.len() == n,
            processed as nat == count_true(done@),
            processed <= n,
            forall|v: int, k: int|
                0 <= v < n && done@[v] && 0 <= k < graph.succ(v).len() ==> done@[(
                #[trigger] graph.succ(v)[k]) as int] && h@[v] >= h@[graph.succ(v)[k] as int] + 1,
            forall|v: int|
                0 <= v < n && #[trigger] done@[v] && graph.succ(v).len() == 0 ==> h@[v] == 0,
            forall|v: int|
                0 <= v < n && #[trigger] done@[v] && graph.succ(v).len() > 0 ==> exists|k: int|
                    0 <= k < graph.succ(v).len() && h@[v] == h@[(#[trigger] graph.succ(
                        v,
                    )[k]) as int] + 1,
            forall|v: int| 0 <= v < n && !(#[trigger] done@[v]) ==> h@[v] == 0,
            forall|v: int| 0 <= v < n && #[trigger] done@[v] ==> (h@[v] as int) < processed,
            !progress ==> forall|x: int|
                0 <= x < n && !(#[trigger] done@[x]) ==> exists|k: int|
                    0 <= k < graph.succ(x).len() && !done@[(#[trigger] graph.succ(x)[k]) as int],
        decreases n - processed, (if progress {
            1int
        } else {
            0int
        }),
    {
        progress = false;
        let ghost processed0 = processed;
        let mut vi: usize = 0;
        while vi < n
            invariant
                vi <= n,
                h@.len() == n,
                done@.len() == n,
                processed as nat == count_true(done@),
                processed <= n,
                processed0 <= processed,
                !progress ==> processed == processed0,
                progress ==> processed0 < processed,
                forall|v: int, k: int|
                    0 <= v < n && done@[v] && 0 <= k < graph.succ(v).len() ==> done@[(
                    #[trigger] graph.succ(v)[k]) as int] && h@[v] >= h@[graph.succ(v)[k] as int]
                        + 1,
                forall|v: int|
                    0 <= v < n && #[trigger] done@[v] && graph.succ(v).len() == 0 ==> h@[v] == 0,
                forall|v: int|
                    0 <= v < n && #[trigger] done@[v] && graph.succ(v).len() > 0 ==> exists|k: int|
                        0 <= k < graph.succ(v).len() && h@[v] == h@[(#[trigger] graph.succ(
                            v,
                        )[k]) as int] + 1,
                forall|v: int| 0 <= v < n && !(#[trigger] done@[v]) ==> h@[v] == 0,
                forall|v: int| 0 <= v < n && #[trigger] done@[v] ==> (h@[v] as int) < processed,
                !progress ==> forall|x: int|
                    0 <= x < vi && !(#[trigger] done@[x]) ==> exists|k: int|
                        0 <= k < graph.succ(x).len() && !done@[(#[trigger] graph.succ(
                            x,
                        )[k]) as int],
            decreases n - vi,
        {
            if !done[vi] {
                proof {
                    graph.lemma_succ_in_range(vi as int);
                }
                let succs = graph.successors_slice(vi);
                let sm = succs.len();
                let mut si: usize = 0;
                let mut all = true;
                let mut best: usize = 0;
                while si < sm
                    invariant
                        (vi as int) < n,
                        succs@ == graph.succ(vi as int),
                        sm == succs@.len(),
                        si <= sm,
                        h@.len() == n,
                        done@.len() == n,
                        processed <= n,
                        forall|v: int|
                            0 <= v < n && #[trigger] done@[v] ==> (h@[v] as int) < processed,
                        all ==> forall|k: int|
                            0 <= k < si ==> done@[(#[trigger] succs@[k]) as int],
                        all ==> forall|k: int|
                            0 <= k < si ==> best >= h@[(#[trigger] succs@[k]) as int] + 1,
                        all && si > 0 ==> exists|k: int|
                            0 <= k < si && best == h@[(#[trigger] succs@[k]) as int] + 1,
                        si == 0 ==> best == 0,
                        best <= processed,
                        !all ==> exists|k: int|
                            0 <= k < si && !done@[(#[trigger] succs@[k]) as int],
                    decreases sm - si,
                {
                    let w = succs[si];
                    proof {
                        assert((graph.succ(vi as int)[si as int] as int) < n);
                    }
                    if !done[w] {
                        if all {
                            proof {
                                assert(!done@[(succs@[si as int]) as int]);
                            }
                        }
                        all = false;
                    } else {
                        if all {
                            let ghost best0 = best;
                            let cand = h[w] + 1;
                            if cand > best {
                                best = cand;
                            }
                            proof {
                                assert forall|k: int| 0 <= k < si + 1 implies best >= h@[(
                                #[trigger] succs@[k]) as int] + 1 by {
                                    if k < si {
                                        assert(best0 >= h@[(succs@[k]) as int] + 1);
                                    }
                                }
                                if best == cand {
                                    assert(best == h@[(succs@[si as int]) as int] + 1);
                                } else {
                                    assert(si > 0);
                                }
                            }
                        }
                    }
                    si = si + 1;
                }
                if all {
                    let ghost h0 = h@;
                    let ghost done0 = done@;
                    h[vi] = best;
                    done[vi] = true;
                    proof {
                        lemma_count_true_set(done0, vi as int);
                        lemma_count_true_le(done0.update(vi as int, true));
                    }
                    processed = processed + 1;
                    progress = true;
                    proof {
                        assert forall|v: int, k: int|
                            0 <= v < n && done@[v] && 0 <= k < graph.succ(v).len() implies done@[(
                        #[trigger] graph.succ(v)[k]) as int] && h@[v] >= h@[graph.succ(
                            v,
                        )[k] as int] + 1 by {
                            graph.lemma_succ_in_range(v);
                            let p = graph.succ(v)[k] as int;
                            assert(0 <= p < n);
                            if v == vi {
                                assert(done0[p]);
                                assert(p != vi);
                                assert(h@[p] == h0[p]);
                                assert(best >= h0[p] + 1);
                            } else {
                                assert(done0[v]);
                                assert(done0[p]);
                                assert(p != vi && v != vi);
                                assert(h@[v] == h0[v] && h@[p] == h0[p]);
                            }
                        }
                        assert forall|v: int|
                            0 <= v < n && #[trigger] done@[v] && graph.succ(v).len() == 0
                            implies h@[v] == 0 by {
                            if v == vi {
                                assert(sm == 0);
                            }
                        }
                        assert forall|v: int|
                            0 <= v < n && #[trigger] done@[v] && graph.succ(v).len() > 0
                            implies exists|k: int|
                            0 <= k < graph.succ(v).len() && h@[v] == h@[(#[trigger] graph.succ(
                                v,
                            )[k]) as int] + 1 by {
                            graph.lemma_succ_in_range(v);
                            if v == vi {
                                let k = choose|k: int|
                                    0 <= k < sm && best == h0[(succs@[k]) as int] + 1;
                                assert(succs@[k] != vi) by {
                                    assert(done0[(succs@[k]) as int]);
                                }
                                assert(h@[(graph.succ(v)[k]) as int] == h0[(succs@[k]) as int]);
                                assert(h@[v] == h@[(graph.succ(v)[k]) as int] + 1);
                            } else {
                                assert(done0[v]);
                                let k = choose|k: int|
                                    0 <= k < graph.succ(v).len() && h0[v] == h0[(graph.succ(
                                        v,
                                    )[k]) as int] + 1;
                                assert(done0[(graph.succ(v)[k]) as int]);
                                assert(graph.succ(v)[k] != vi);
                                assert(h@[v] == h0[v]);
                                assert(h@[(graph.succ(v)[k]) as int] == h0[(graph.succ(
                                    v,
                                )[k]) as int]);
                            }
                        }
                    }
                }
            }
            vi = vi + 1;
        }
    }
    proof {
        if processed < n {
            assert(count_true(done@) < n);
            assert(!(forall|i2: int| 0 <= i2 < n ==> done@[i2])) by {
                if forall|i2: int| 0 <= i2 < n ==> done@[i2] {
                    lemma_count_true_full(done@);
                }
            }
            let x = choose|x: int| 0 <= x < n && !done@[x];
            let rem = Seq::new(n as nat, |v: int| !done@[v]);
            assert(succ_blocked(*graph, rem)) by {
                assert(((x as usize) as int) < rem.len() && rem[(x as usize) as int]);
                assert forall|v: int| 0 <= v < rem.len() && #[trigger] rem[v] implies exists|k: int|
                    0 <= k < graph.succ(v).len() && rem[(#[trigger] graph.succ(v)[k]) as int] by {
                    assert(!done@[v]);
                    graph.lemma_succ_in_range(v);
                    let k = choose|k: int|
                        0 <= k < graph.succ(v).len() && !done@[(graph.succ(v)[k]) as int];
                    assert((graph.succ(v)[k] as int) < n);
                    assert(rem[(graph.succ(v)[k]) as int]);
                }
            }
            crate::cycles::lemma_succ_blocked_cycle(*graph, rem);
        } else {
            lemma_count_true_full_conv(done@);
            assert(dp_fixpoint_rev(*graph, h@)) by {
                assert forall|v: int, k: int|
                    0 <= v < graph.n() && 0 <= k < graph.succ(v).len() implies h@[v] >= h@[(
                #[trigger] graph.succ(v)[k]) as int] + 1 by {
                    assert(done@[v]);
                }
                assert forall|v: int|
                    0 <= v < graph.n() && (#[trigger] graph.succ(v)).len() == 0 implies h@[v]
                    == 0 by {
                    assert(done@[v]);
                }
                assert forall|v: int|
                    0 <= v < graph.n() && (#[trigger] graph.succ(v)).len() > 0 implies exists|
                    k: int,
                |
                    0 <= k < graph.succ(v).len() && h@[v] == h@[(#[trigger] graph.succ(
                        v,
                    )[k]) as int] + 1 by {
                    assert(done@[v]);
                }
            }
        }
        assert forall|v: int| 0 <= v < n implies (#[trigger] h@[v] as int) < n by {
            if !done@[v] {
                assert(h@[v] == 0);
            }
        }
    }
    h
}

/// Per-node slack: critical-path length minus the longest path through
/// the node, floored at zero.
#[verifier::loop_isolation(false)]
pub fn slack(graph: &DiGraph) -> (r: Vec<usize>)
    requires
        graph.wf(),
    ensures
        r@.len() == graph.n(),
        forall|v: int| 0 <= v < graph.n() ==> (#[trigger] r@[v] as int) < graph.n(),
        slack_vector(*graph, r@),
{
    let n = graph.len();
    if n == 0 {
        return Vec::new();
    }
    let up = critical_path_heights(graph);
    let down = downstream_heights(graph);
    let mut cp: usize = 0;
    let mut i: usize = 0;
    proof {
        assert(up@.take(0).len() == 0);
    }
    while i < n
        invariant
            i <= n,
            up@.len() == n,
            n as int == graph.n(),
            (cp as int) < n,
            cp as int == seq_max(up@.take(i as int)),
            forall|j: int| 0 <= j < n ==> (#[trigger] up@[j] as int) < n,
        decreases n - i,
    {
        proof {
            assert(up@.take(i + 1).drop_last() =~= up@.take(i as int));
            assert(up@.take(i + 1).last() == up@[i as int]);
        }
        if up[i] > cp {
            cp = up[i];
        }
        i = i + 1;
    }
    proof {
        assert(up@.take(n as int) =~= up@);
    }
    let mut r: Vec<usize> = Vec::new();
    let mut v: usize = 0;
    while v < n
        invariant
            v <= n,
            r@.len() == v,
            up@.len() == n,
            down@.len() == n,
            n as int == graph.n(),
            (cp as int) < n,
            cp as int == seq_max(up@),
            forall|j: int| 0 <= j < n ==> (#[trigger] up@[j] as int) < n,
            forall|j: int| 0 <= j < n ==> (#[trigger] down@[j] as int) < n,
            forall|j: int| 0 <= j < v ==> (#[trigger] r@[j] as int) < n,
            forall|j: int|
                0 <= j < v ==> (#[trigger] r@[j] as int) == (if up@[j] + down@[j] <= seq_max(up@) {
                    seq_max(up@) - (up@[j] + down@[j])
                } else {
                    0
                }),
        decreases n - v,
    {
        let through = if up[v] > usize::MAX - down[v] {
            usize::MAX
        } else {
            up[v] + down[v]
        };
        let s = if through <= cp {
            cp - through
        } else {
            0
        };
        r.push(s);
        v = v + 1;
    }
    proof {
        if !(exists|x: usize| (x as int) < graph.n() && on_cycle(*graph, x)) {
            assert(dp_fixpoint(*graph, up@));
            assert(dp_fixpoint_rev(*graph, down@));
            assert(up@.len() == n && down@.len() == n);
        }
    }
    r
}

/// The saturating sum of a sequence, capped at the largest representable
/// value.
pub open spec fn sat_sum(s: Seq<usize>) -> int
    decreases s.len(),
{
    if s.len() == 0 {
        0
    } else {
        let rest = sat_sum(s.drop_last());
        if rest + s.last() > usize::MAX {
            usize::MAX as int
        } else {
            rest + s.last()
        }
    }
}

/// Total float: the sum of all per-node slack values, saturating at the
/// largest representable value.
pub fn total_float(graph: &DiGraph) -> (r: usize)
    requires
        graph.wf(),
    ensures
        graph.n() == 0 ==> r == 0,
        exists|s: Seq<usize>|
            #![trigger s.len()]
            slack_vector(*graph, s) && r as int == sat_sum(s),
{
    let slacks = slack(graph);
    let mut acc: usize = 0;
    let mut i: usize = 0;
    let n = slacks.len();
    proof {
        assert(slacks@.take(0).len() == 0);
    }
    while i < n
        invariant
            i <= n,
            n == slacks@.len(),
            acc as int == sat_sum(slacks@.take(i as int)),
        decreases n - i,
    {
        proof {
            assert(slacks@.take(i + 1).drop_last() =~= slacks@.take(i as int));
            assert(slacks@.take(i + 1).last() == slacks@[i as int]);
        }
        let s = slacks[i];
        acc = if acc > usize::MAX - s {
            usize::MAX
        } else {
            acc + s
        };
        i = i + 1;
    }
    proof {
        assert(slacks@.take(n as int) =~= slacks@);
    }
    acc
}

} // verus!
