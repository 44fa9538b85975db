//! The graph store: nodes with dense integer indices, directed edges, and
//! adjacency lists kept in both directions.
//!
//! Nodes are opaque string identifiers; each is assigned the next integer
//! index at insertion time. Edges are ordered pairs of indices; duplicates
//! and self-loops are permitted and kept. The store is built once by
//! repeated `add_node` / `add_edge` calls and read immutably by every
//! algorithm.

use vstd::prelude::*;

verus! {

/// Number of occurrences of `x` in `s`.
pub open spec fn occ(s: Seq<usize>, x: usize) -> nat
    decreases s.len(),
{
    if s.len() == 0 {
        0
    } else {
        occ(s.drop_last(), x) + if s.last() == x {
            1nat
        } else {
            0nat
        }
    }
}

/// Appending one element changes each occurrence count by at most one:
/// the count of the pushed element grows by one, all others are kept.
pub proof fn lemma_occ_push(s: Seq<usize>, x: usize, y: usize)
    ensures
        occ(s.push(x), y) == occ(s, y) + if x == y {
            1nat
        } else {
            0nat
        },
{
    assert(s.push(x).drop_last() =~= s);
    assert(s.push(x).last() == x);
}

/// An element that occurs nowhere in a sequence has occurrence count zero.
pub proof fn lemma_occ_absent(s: Seq<usize>, x: usize)
    requires
        forall|k: int| 0 <= k < s.len() ==> s[k] != x,
    ensures
        occ(s, x) == 0,
    decreases s.len(),
{
    if s.len() > 0 {
        lemma_occ_absent(s.drop_last(), x);
    }
}

/// A positive occurrence count is the same as membership.
pub proof fn lemma_occ_contains(s: Seq<usize>, x: usize)
    ensures
        occ(s, x) > 0 <==> s.contains(x),
    decreases s.len(),
{
    if s.len() > 0 {
        lemma_occ_contains(s.drop_last(), x);
        if s.last() == x {
            assert(s[s.len() - 1] == x);
        } else if s.drop_last().contains(x) {
            let j = choose|j: int| 0 <= j < s.len() - 1 && s.drop_last()[j] == x;
            assert(s[j] == x);
        } else if s.contains(x) {
            let j = choose|j: int| 0 <= j < s.len() && s[j] == x;
            assert(s.drop_last()[j] == x);
        }
    }
}

/// In a well-formed graph an edge seen from the successor side is seen
/// from the predecessor side too.
pub proof fn lemma_edge_duality(g: DiGraph, u: usize, v: usize)
    requires
        g.wf(),
        (u as int) < g.n(),
        (v as int) < g.n(),
    ensures
        g.succ(u as int).contains(v) <==> g.pred(v as int).contains(u),
{
    assert(occ(g.succ(u as int), v) == occ(g.pred(v as int), u));
    lemma_occ_contains(g.succ(u as int), v);
    lemma_occ_contains(g.pred(v as int), u);
}

/// A directed graph over nodes `0 .. n`, with adjacency in both directions.
pub struct DiGraph {
    ids: Vec<String>,
    out_adj: Vec<Vec<usize>>,
    in_adj: Vec<Vec<usize>>,
    n_edges: usize,
}

impl DiGraph {
    /// Number of nodes.
    pub closed spec fn n(self) -> int {
        self.ids@.len() as int
    }

    /// Number of edges added so far.
    pub closed spec fn edges(self) -> int {
        self.n_edges as int
    }

    /// The node identifiers, in insertion (index) order.
    pub closed spec fn id_view(self) -> Seq<Seq<char>> {
        self.ids@.map_values(|s: String| s@)
    }

    /// Successors of node `i`, in edge-insertion order.
    pub closed spec fn succ(self, i: int) -> Seq<usize>
        recommends
            0 <= i < self.n(),
    {
        self.out_adj@[i]@
    }

    /// Predecessors of node `i`, in edge-insertion order.
    pub closed spec fn pred(self, i: int) -> Seq<usize>
        recommends
            0 <= i < self.n(),
    {
        self.in_adj@[i]@
    }

    /// Well-formedness: one adjacency row per node, every stored index in
    /// range, and the two adjacency directions describe the same edge
    /// multiset — `w` occurs among the successors of `u` exactly as often
    /// as `u` occurs among the predecessors of `w`.
    pub closed spec fn wf(self) -> bool {
        &&& self.out_adj@.len() == self.n()
        &&& self.in_adj@.len() == self.n()
        &&& forall|i: int, k: int|
            0 <= i < self.n() && 0 <= k < self.succ(i).len() ==> (#[trigger] self.succ(i)[k] as int)
                < self.n()
        &&& forall|i: int, k: int|
            0 <= i < self.n() && 0 <= k < self.pred(i).len() ==> (#[trigger] self.pred(i)[k] as int)
                < self.n()
        &&& forall|u: usize, w: usize|
            (u as int) < self.n() && (w as int) < self.n() ==> #[trigger] occ(
                self.succ(u as int),
                w,
            ) == occ(self.pred(w as int), u)
    }

    /// Every successor entry of a node of a well-formed graph is in range.
    pub proof fn lemma_succ_in_range(self, u: int)
        requires
            self.wf(),
            0 <= u < self.n(),
        ensures
            forall|k: int|
                0 <= k < self.succ(u).len() ==> (#[trigger] self.succ(u)[k] as int) < self.n(),
    {
    }

    /// Every predecessor entry of a node of a well-formed graph is in range.
    pub proof fn lemma_pred_in_range(self, u: int)
        requires
            self.wf(),
            0 <= u < self.n(),
        ensures
            forall|k: int|
                0 <= k < self.pred(u).len() ==> (#[trigger] self.pred(u)[k] as int) < self.n(),
    {
    }

    /// Create an empty graph.
    pub fn new() -> (g: DiGraph)
        ensures
            g.wf(),
            g.n() == 0,
            g.edges() == 0,
            g.id_view() == Seq::<Seq<char>>::empty(),
    {
        let g = DiGraph { ids: Vec::new(), out_adj: Vec::new(), in_adj: Vec::new(), n_edges: 0 };
        proof {
            assert(g.id_view() =~= Seq::<Seq<char>>::empty());
        }
        g
    }

    /// Create an empty graph with capacity hints for nodes and edges.
    pub fn with_capacity(nodes: usize, edges: usize) -> (g: DiGraph)
        ensures
            g.wf(),
            g.n() == 0,
            g.edges() == 0,
            g.id_view() == Seq::<Seq<char>>::empty(),
    {
        let _ = edges;
        let g = DiGraph {
            ids: Vec::with_capacity(nodes),
            out_adj: Vec::with_capacity(nodes),
            in_adj: Vec::with_capacity(nodes),
            n_edges: 0,
        };
        proof {
            assert(g.id_view() =~= Seq::<Seq<char>>::empty());
        }
        g
    }

    /// Add a node with the given identifier and return its dense index.
    pub fn add_node(&mut self, id: &str) -> (idx: usize)
        requires
            old(self).wf(),
        ensures
            final(self).wf(),
            idx as int == old(self).n(),
            final(self).n() == old(self).n() + 1,
            final(self).edges() == old(self).edges(),
            final(self).id_view() == old(self).id_view().push(id@),
            forall|i: int| 0 <= i < old(self).n() ==> final(self).succ(i) == old(self).succ(i),
            forall|i: int| 0 <= i < old(self).n() ==> final(self).pred(i) == old(self).pred(i),
            final(self).succ(old(self).n()) == Seq::<usize>::empty(),
            final(self).pred(old(self).n()) == Seq::<usize>::empty(),
    {
        let idx = self.ids.len();
        self.ids.push(id.to_owned());
        self.out_adj.push(Vec::new());
        self.in_adj.push(Vec::new());
        proof {
            assert(final(self).id_view() =~= old(self).id_view().push(id@));
            let g0 = *old(self);
            let g1 = *self;
            assert forall|i: int, k: int| 0 <= i < g1.n() && 0 <= k < g1.succ(i).len() implies (
            #[trigger] g1.succ(i)[k] as int) < g1.n() by {
                if i < g0.n() {
                    assert(g1.succ(i) == g0.succ(i));
                    assert((g0.succ(i)[k] as int) < g0.n());
                }
            }
            assert forall|i: int, k: int| 0 <= i < g1.n() && 0 <= k < g1.pred(i).len() implies (
            #[trigger] g1.pred(i)[k] as int) < g1.n() by {
                if i < g0.n() {
                    assert(g1.pred(i) == g0.pred(i));
                    assert((g0.pred(i)[k] as int) < g0.n());
                }
            }
            assert forall|u: usize, w: usize| (u as int) < g1.n() && (w as int) < g1.n()
                implies #[trigger] occ(g1.succ(u as int), w) == occ(g1.pred(w as int), u) by {
                if (u as int) < g0.n() && (w as int) < g0.n() {
                    assert(occ(g0.succ(u as int), w) == occ(g0.pred(w as int), u));
                } else if (u as int) == g0.n() {
                    assert(g1.succ(u as int) == Seq::<usize>::empty());
                    assert(occ(g1.succ(u as int), w) == 0);
                    if (w as int) < g0.n() {
                        lemma_occ_absent(g0.pred(w as int), u);
                    } else {
                        assert(occ(g1.pred(w as int), u) == 0);
                    }
                } else {
                    assert(g1.pred(w as int) == Seq::<usize>::empty());
                    assert(occ(g1.pred(w as int), u) == 0);
                    lemma_occ_absent(g0.succ(u as int), w);
                }
            }
        }
        idx
    }

    /// Add a directed edge `from -> to`. Indices must have been returned by
    /// `add_node` on this graph; an out-of-range index is a caller error.
    pub fn add_edge(&mut self, from: usize, to: usize)
        requires
            old(self).wf(),
            (from as int) < old(self).n(),
            (to as int) < old(self).n(),
            old(self).edges() < usize::MAX,
        ensures
            final(self).wf(),
            final(self).n() == old(self).n(),
            final(self).id_view() == old(self).id_view(),
            final(self).edges() == old(self).edges() + 1,
            final(self).succ(from as int) == old(self).succ(from as int).push(to),
            final(self).pred(to as int) == old(self).pred(to as int).push(from),
            forall|i: int|
                0 <= i < old(self).n() && i != from ==> final(self).succ(i) == old(self).succ(i),
            forall|i: int|
                0 <= i < old(self).n() && i != to ==> final(self).pred(i) == old(self).pred(i),
    {
        let ghost g0 = *self;
        let mut row_out = self.out_adj[from].clone();
        proof {
            assert(row_out@ =~= g0.succ(from as int));
        }
        row_out.push(to);
        self.out_adj[from] = row_out;
        let mut row_in = self.in_adj[to].clone();
        proof {
            assert(row_in@ =~= g0.pred(to as int));
        }
        row_in.push(from);
        self.in_adj[to] = row_in;
        self.n_edges = self.n_edges + 1;
        proof {
            let g1 = *self;
            assert(g1.succ(from as int) == g0.succ(from as int).push(to));
            assert(g1.pred(to as int) == g0.pred(to as int).push(from));
            assert forall|u: usize, w: usize| (u as int) < g1.n() && (w as int) < g1.n()
                implies #[trigger] occ(g1.succ(u as int), w) == occ(g1.pred(w as int), u) by {
                assert(occ(g0.succ(u as int), w) == occ(g0.pred(w as int), u));
                if u == from {
                    lemma_occ_push(g0.succ(u as int), to, w);
                }
                if w == to {
                    lemma_occ_push(g0.pred(w as int), from, u);
                }
            }
            assert forall|i: int, k: int| 0 <= i < g1.n() && 0 <= k < g1.succ(i).len() implies (
            #[trigger] g1.succ(i)[k] as int) < g1.n() by {
                if i == from && k == g1.succ(i).len() - 1 {
                } else {
                    assert(g1.succ(i)[k] == g0.succ(i)[k]);
                }
            }
            assert forall|i: int, k: int| 0 <= i < g1.n() && 0 <= k < g1.pred(i).len() implies (
            #[trigger] g1.pred(i)[k] as int) < g1.n() by {
                if i == to && k == g1.pred(i).len() - 1 {
                } else {
                    assert(g1.pred(i)[k] == g0.pred(i)[k]);
                }
            }
        }
    }

    /// Number of nodes in the graph.
    pub fn len(&self) -> (r: usize)
        ensures
            r as int == self.n(),
    {
        self.ids.len()
    }

    /// True when the graph has no nodes.
    pub fn is_empty(&self) -> (r: bool)
        ensures
            r == (self.n() == 0),
    {
        self.ids.len() == 0
    }

    /// Number of edges in the graph.
    pub fn edge_count(&self) -> (r: usize)
        ensures
            r as int == self.edges(),
    {
        self.n_edges
    }

    /// Out-degree of `i`; zero for an index out of range.
    pub fn out_degree(&self, i: usize) -> (r: usize)
        requires
            self.wf(),
        ensures
            (i as int) < self.n() ==> r == self.succ(i as int).len(),
            (i as int) >= self.n() ==> r == 0,
    {
        if i < self.out_adj.len() {
            self.out_adj[i].len()
        } else {
            0
        }
    }

    /// In-degree of `i`; zero for an index out of range.
    pub fn in_degree(&self, i: usize) -> (r: usize)
        requires
            self.wf(),
        ensures
            (i as int) < self.n() ==> r == self.pred(i as int).len(),
            (i as int) >= self.n() ==> r == 0,
    {
        if i < self.in_adj.len() {
            self.in_adj[i].len()
        } else {
            0
        }
    }

    /// Successors of `i`, in edge-insertion order.
    pub fn successors_slice(&self, i: usize) -> (r: &[usize])
        requires
            self.wf(),
            (i as int) < self.n(),
        ensures
            r@ == self.succ(i as int),
    {
        self.out_adj[i].as_slice()
    }

    /// Predecessors of `i`, in edge-insertion order.
    pub fn predecessors_slice(&self, i: usize) -> (r: &[usize])
        requires
            self.wf(),
            (i as int) < self.n(),
        ensures
            r@ == self.pred(i as int),
    {
        self.in_adj[i].as_slice()
    }

    /// Identifier of node `i`.
    pub fn id_of(&self, i: usize) -> (r: &String)
        requires
            self.wf(),
            (i as int) < self.n(),
        ensures
            r@ == self.id_view()[i as int],
    {
        &self.ids[i]
    }

    /// Index of the first node whose identifier equals `id`, if any.
    pub fn index_of(&self, id: &str) -> (r: Option<usize>)
        requires
            self.wf(),
        ensures
            match r {
                Some(j) => {
                    &&& (j as int) < self.n()
                    &&& self.id_view()[j as int] == id@
                    &&& forall|k: int| 0 <= k < j ==> self.id_view()[k] != id@
                },
                None => forall|k: int| 0 <= k < self.n() ==> self.id_view()[k] != id@,
            },
    {
        let key: String = id.to_owned();
        let n = self.ids.len();
        let mut j: usize = 0;
        while j < n
            invariant
                n == self.n(),
                j <= n,
                key@ == id@,
                forall|k: int| 0 <= k < j ==> self.id_view()[k] != id@,
            decreases n - j,
        {
            if self.ids[j] == key {
                return Some(j);
            }
            j = j + 1;
        }
        None
    }
}

} // verus!
