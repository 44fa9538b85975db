//! K-core decomposition by bucketed peeling: repeatedly remove a node of
//! minimum remaining total degree (in plus out), assigning it the peel
//! level current at its removal; the maximum level assigned is the
//! graph's degeneracy.
//!
//! Buckets are intrusive stacks over two flat arrays (`head` per degree,
//! `next` per node), so each degree change is one push and the whole peel
//! stays near-linear in nodes plus edges. Degrees are clamped to the
//! bucket range `0 .. n`; that matters only when duplicate edges give a
//! node more than `n - 1` incident edges.

use vstd::prelude::*;
use crate::graph::DiGraph;

verus! {

/// Core number per node: the remaining-degree peel level at which the
/// node was removed.
#[verifier::loop_isolation(false)]
pub fn kcore(graph: &DiGraph) -> (r: Vec<usize>)
    requires
        graph.wf(),
    ensures
        r@.len() == graph.n(),
        forall|v: int| 0 <= v < graph.n() ==> (#[trigger] r@[v] as int) < graph.n(),
{
    let n = graph.len();
    if n == 0 {
        return Vec::new();
    }
    let mut deg: Vec<usize> = Vec::new();
    let mut i: usize = 0;
    while i < n
        invariant
            i <= n,
            n as int == graph.n(),
            n > 0,
            deg@.len() == i,
            forall|j: int| 0 <= j < i ==> (#[trigger] deg@[j] as int) < n,
        decreases n - i,
    {
        let od = graph.out_degree(i);
        let idg = graph.in_degree(i);
        let total = if od > usize::MAX - idg {
            usize::MAX
        } else {
            od + idg
        };
        let clamped = if total > n - 1 {
            n - 1
        } else {
            total
        };
        deg.push(clamped);
        i = i + 1;
    }
    // Intrusive bucket stacks: head[d] is the first node of degree d, and
    // next[v] chains to the rest; `n` is the end-of-list sentinel. Built
    // from the highest index down, so the initial pop order is ascending.
    let mut head: Vec<usize> = Vec::new();
    let mut next: Vec<usize> = Vec::new();
    let mut b: usize = 0;
    while b < n
        invariant
            b <= n,
            head@.len() == b,
            next@.len() == b,
            forall|j: int| 0 <= j < b ==> (#[trigger] head@[j] as int) <= n,
            forall|j: int| 0 <= j < b ==> (#[trigger] next@[j] as int) <= n,
        decreases n - b,
    {
        head.push(n);
        next.push(n);
        b = b + 1;
    }
    let mut v: usize = n;
    while v > 0
        invariant
            v <= n,
            n as int == graph.n(),
            deg@.len() == n,
            head@.len() == n,
            next@.len() == n,
            forall|j: int| 0 <= j < n ==> (#[trigger] deg@[j] as int) < n,
            forall|j: int| 0 <= j < n ==> (#[trigger] head@[j] as int) <= n,
            forall|j: int| 0 <= j < n ==> (#[trigger] next@[j] as int) <= n,
        decreases v,
    {
        v = v - 1;
        next[v] = head[deg[v]];
        head[deg[v]] = v;
    }
    let mut core: Vec<usize> = Vec::new();
    let mut removed: Vec<bool> = Vec::new();
    let mut i2: usize = 0;
    while i2 < n
        invariant
            i2 <= n,
            core@.len() == i2,
            removed@.len() == i2,
            forall|j: int| 0 <= j < i2 ==> (#[trigger] core@[j] as int) < n,
        decreases n - i2,
    {
        core.push(0);
        removed.push(false);
        i2 = i2 + 1;
    }
    // Each round removes one node: the first valid entry in the lowest
    // nonempty bucket. Stale entries (already removed, or re-bucketed at a
    // lower degree) are discarded as they surface; the fuel bounds that
    // discarding by the total number of entries ever pushed.
    let e = graph.edge_count();
    let mut level: usize = 0;
    let mut cursor: usize = 0;
    let mut round: usize = 0;
    while round < n
        invariant
            round <= n,
            n as int == graph.n(),
            n > 0,
            deg@.len() == n,
            head@.len() == n,
            next@.len() == n,
            core@.len() == n,
            removed@.len() == n,
            cursor <= n,
            (level as int) < n,
            forall|j: int| 0 <= j < n ==> (#[trigger] deg@[j] as int) < n,
            forall|j: int| 0 <= j < n ==> (#[trigger] head@[j] as int) <= n,
            forall|j: int| 0 <= j < n ==> (#[trigger] next@[j] as int) <= n,
            forall|j: int| 0 <= j < n ==> (#[trigger] core@[j] as int) < n,
        decreases n - round,
    {
        let mut fuel = if e > (usize::MAX - n) / 2 {
            usize::MAX
        } else {
            n + e + e
        };
        let mut found = false;
        let mut picked: usize = 0;
        while !found && fuel > 0
            invariant
                cursor <= n,
                deg@.len() == n,
                head@.len() == n,
                next@.len() == n,
                removed@.len() == n,
                forall|j: int| 0 <= j < n ==> (#[trigger] deg@[j] as int) < n,
                forall|j: int| 0 <= j < n ==> (#[trigger] head@[j] as int) <= n,
                forall|j: int| 0 <= j < n ==> (#[trigger] next@[j] as int) <= n,
                found ==> (picked as int) < n,
                found ==> cursor < n,
            decreases fuel,
        {
            fuel = fuel - 1;
            if cursor >= n {
                break;
            }
            let h = head[cursor];
            if h >= n {
                cursor = cursor + 1;
            } else {
                head[cursor] = next[h];
                if !removed[h] && deg[h] == cursor {
                    found = true;
                    picked = h;
                }
            }
        }
        if !found {
            // No valid entry surfaced: every node is already removed.
            break;
        }
        let vcur = picked;
        if cursor > level {
            level = cursor;
        }
        removed[vcur] = true;
        core[vcur] = level;
        // Lower the remaining degree of each still-present neighbour, in
        // both edge directions, and re-bucket it.
        proof {
            graph.lemma_succ_in_range(vcur as int);
            graph.lemma_pred_in_range(vcur as int);
        }
        let succs = graph.successors_slice(vcur);
        let sm = succs.len();
        let mut si: usize = 0;
        while si < sm
            invariant
                (vcur as int) < n,
                succs@ == graph.succ(vcur as int),
                sm == succs@.len(),
                si <= sm,
                cursor <= n,
                deg@.len() == n,
                head@.len() == n,
                next@.len() == n,
                removed@.len() == n,
                forall|j: int| 0 <= j < n ==> (#[trigger] deg@[j] as int) < n,
                forall|j: int| 0 <= j < n ==> (#[trigger] head@[j] as int) <= n,
                forall|j: int| 0 <= j < n ==> (#[trigger] next@[j] as int) <= n,
            decreases sm - si,
        {
            let w = succs[si];
            proof {
                assert((graph.succ(vcur as int)[si as int] as int) < n);
            }
            if !removed[w] && deg[w] > 0 {
                let nd = deg[w] - 1;
                deg[w] = nd;
                next[w] = head[nd];
                head[nd] = w;
                if nd < cursor {
                    cursor = nd;
                }
            }
            si = si + 1;
        }
        let preds = graph.predecessors_slice(vcur);
        let pm = preds.len();
        let mut pi: usize = 0;
        while pi < pm
            invariant
                (vcur as int) < n,
                preds@ == graph.pred(vcur as int),
                pm == preds@.len(),
                pi <= pm,
                cursor <= n,
                deg@.len() == n,
                head@.len() == n,
                next@.len() == n,
                removed@.len() == n,
                forall|j: int| 0 <= j < n ==> (#[trigger] deg@[j] as int) < n,
                forall|j: int| 0 <= j < n ==> (#[trigger] head@[j] as int) <= n,
                forall|j: int| 0 <= j < n ==> (#[trigger] next@[j] as int) <= n,
            decreases pm - pi,
        {
            let w = preds[pi];
            proof {
                assert((graph.pred(vcur as int)[pi as int] as int) < n);
            }
            if !removed[w] && deg[w] > 0 {
                let nd = deg[w] - 1;
                deg[w] = nd;
                next[w] = head[nd];
                head[nd] = w;
                if nd < cursor {
                    cursor = nd;
                }
            }
            pi = pi + 1;
        }
        round = round + 1;
    }
    core
}

/// The graph's degeneracy: the largest core number assigned during the
/// peel.
pub fn degeneracy(graph: &DiGraph) -> (r: usize)
    requires
        graph.wf(),
    ensures
        graph.n() == 0 ==> r == 0,
        graph.n() > 0 ==> (r as int) < graph.n(),
{
    let cores = kcore(graph);
    let mut best: usize = 0;
    let mut i: usize = 0;
    let n = cores.len();
    while i < n
        invariant
            i <= n,
            n == cores@.len(),
            n as int == graph.n(),
            n > 0 ==> (best as int) < n,
            n == 0 ==> best == 0,
            forall|j: int| 0 <= j < n ==> (#[trigger] cores@[j] as int) < n,
        decreases n - i,
    {
        if cores[i] > best {
            best = cores[i];
        }
        i = i + 1;
    }
    best
}

} // verus!
