//! The blocking/actionability predicate: an edge `u -> v` means "v is
//! blocked by u until u is closed." A node is actionable under a closed-set
//! iff it is not itself closed and every one of its predecessors is closed.
//!
//! The closed-set is a caller-supplied boolean indicator per node index; it
//! may be shorter than the node count, and missing entries mean "not
//! closed".

use vstd::prelude::*;
use crate::graph::DiGraph;

verus! {

/// Whether index `i` is marked closed. Entries past the end of the
/// closed-set are treated as not closed.
pub open spec fn closed_at(closed: Seq<bool>, i: int) -> bool {
    0 <= i < closed.len() && closed[i]
}

/// A node is actionable under `closed` iff it is not itself closed and
/// every one of its predecessors is closed. A node with no predecessors is
/// actionable unless closed.
pub open spec fn spec_actionable(g: DiGraph, closed: Seq<bool>, i: int) -> bool
    recommends
        0 <= i < g.n(),
{
    &&& !closed_at(closed, i)
    &&& forall|k: int|
        0 <= k < g.pred(i).len() ==> closed_at(closed, #[trigger] g.pred(i)[k] as int)
}

/// Whether `node` is currently actionable. An index out of range is never
/// actionable.
pub fn is_actionable(graph: &DiGraph, node: usize, closed_set: &[bool]) -> (r: bool)
    requires
        graph.wf(),
    ensures
        r == ((node as int) < graph.n() && spec_actionable(*graph, closed_set@, node as int)),
{
    let n = graph.len();
    if node >= n {
        return false;
    }
    if node < closed_set.len() && closed_set[node] {
        return false;
    }
    let preds = graph.predecessors_slice(node);
    let m = preds.len();
    let mut k: usize = 0;
    while k < m
        invariant
            graph.wf(),
            (node as int) < graph.n(),
            preds@ == graph.pred(node as int),
            m == preds@.len(),
            k <= m,
            forall|j: int| 0 <= j < k ==> closed_at(closed_set@, #[trigger] preds@[j] as int),
        decreases m - k,
    {
        let p = preds[k];
        if !(p < closed_set.len() && closed_set[p]) {
            return false;
        }
        k = k + 1;
    }
    true
}

/// All currently actionable node indices, in increasing index order.
pub fn actionable_nodes(graph: &DiGraph, closed_set: &[bool]) -> (r: Vec<usize>)
    requires
        graph.wf(),
    ensures
        forall|j: int|
            0 <= j < r@.len() ==> (#[trigger] r@[j] as int) < graph.n() && spec_actionable(
                *graph,
                closed_set@,
                r@[j] as int,
            ),
        forall|v: usize|
            (v as int) < graph.n() && spec_actionable(*graph, closed_set@, v as int)
                ==> r@.contains(v),
        forall|a: int, b: int| 0 <= a < b < r@.len() ==> r@[a] < r@[b],
{
    let n = graph.len();
    let mut r: Vec<usize> = Vec::new();
    let mut i: usize = 0;
    while i < n
        invariant
            graph.wf(),
            n as int == graph.n(),
            i <= n,
            forall|j: int|
                0 <= j < r@.len() ==> (#[trigger] r@[j] as int) < graph.n() && spec_actionable(
                    *graph,
                    closed_set@,
                    r@[j] as int,
                ),
            forall|v: usize|
                (v as int) < i && spec_actionable(*graph, closed_set@, v as int)
                    ==> r@.contains(v),
            forall|j: int| 0 <= j < r@.len() ==> (#[trigger] r@[j] as int) < i,
            forall|a: int, b: int| 0 <= a < b < r@.len() ==> r@[a] < r@[b],
        decreases n - i,
    {
        let ghost r0 = r@;
        if is_actionable(graph, i, closed_set) {
            r.push(i);
        }
        proof {
            assert forall|v: usize|
                (v as int) < i + 1 && spec_actionable(*graph, closed_set@, v as int)
                implies r@.contains(v) by {
                if (v as int) < i {
                    assert(r0.contains(v));
                    let j = choose|j: int| 0 <= j < r0.len() && r0[j] == v;
                    assert(r@[j] == v);
                } else {
                    assert(r@.last() == i);
                }
            }
        }
        i = i + 1;
    }
    r
}

} // verus!
