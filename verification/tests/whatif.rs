use bv_graph::graph::DiGraph;
use bv_graph::whatif::all_what_if;
use bv_graph::whatif::top_what_if;
use bv_graph::whatif::what_if_close;
use bv_graph::whatif::what_if_close_batch;

#[test]
fn test_what_if_empty() {
    let graph = DiGraph::new();
    let result = what_if_close(&graph, 0, &[]);
    assert_eq!(result.direct_unblocks, 0);
    assert_eq!(result.transitive_unblocks, 0);
}

#[test]
fn test_what_if_single_node() {
    let mut graph = DiGraph::new();
    graph.add_node("a");
    let result = what_if_close(&graph, 0, &[false]);
    assert_eq!(result.direct_unblocks, 0);
    assert_eq!(result.transitive_unblocks, 0);
}

#[test]
fn test_what_if_simple_chain() {
    // a -> b -> c
    // Closing a should unblock b, then c transitively
    let mut graph = DiGraph::new();
    let a = graph.add_node("a");
    let b = graph.add_node("b");
    let c = graph.add_node("c");
    graph.add_edge(a, b);
    graph.add_edge(b, c);

    let closed = vec![false, false, false];
    let result = what_if_close(&graph, a, &closed);

    assert_eq!(result.direct_unblocks, 1); // b
    assert_eq!(result.transitive_unblocks, 2); // b and c
    assert!(result.unblocked_ids.contains(&b));
    assert!(result.cascade_ids.contains(&b));
    assert!(result.cascade_ids.contains(&c));
}

#[test]
fn test_what_if_diamond() {
    //     a
    //    / \
    //   b   c
    //    \ /
    //     d
    // Closing a should unblock b and c directly, then d transitively
    let mut graph = DiGraph::new();
    let a = graph.add_node("a");
    let b = graph.add_node("b");
    let c = graph.add_node("c");
    let d = graph.add_node("d");
    graph.add_edge(a, b);
    graph.add_edge(a, c);
    graph.add_edge(b, d);
    graph.add_edge(c, d);

    let closed = vec![false, false, false, false];
    let result = what_if_close(&graph, a, &closed);

    assert_eq!(result.direct_unblocks, 2); // b and c
    assert_eq!(result.transitive_unblocks, 3); // b, c, and d
    assert_eq!(result.parallel_gain, 1); // 2 - 1 = 1
}

#[test]
fn test_what_if_partial_close() {
    // a -> c, b -> c
    // If a is already closed, closing b unblocks c
    let mut graph = DiGraph::new();
    let a = graph.add_node("a");
    let b = graph.add_node("b");
    let c = graph.add_node("c");
    graph.add_edge(a, c);
    graph.add_edge(b, c);

    // a is closed
    let closed = vec![true, false, false];
    let result = what_if_close(&graph, b, &closed);

    assert_eq!(result.direct_unblocks, 1); // c
    assert_eq!(result.transitive_unblocks, 1); // just c
}

#[test]
fn test_what_if_multi_blocker_not_ready() {
    // a -> c, b -> c
    // Neither closed: closing a doesn't unblock c (b still blocks it)
    let mut graph = DiGraph::new();
    let a = graph.add_node("a");
    let b = graph.add_node("b");
    let c = graph.add_node("c");
    graph.add_edge(a, c);
    graph.add_edge(b, c);

    let closed = vec![false, false, false];
    let result = what_if_close(&graph, a, &closed);

    assert_eq!(result.direct_unblocks, 0); // c still blocked by b
    assert_eq!(result.transitive_unblocks, 0);
    let _ = b;
}

#[test]
fn test_what_if_already_closed() {
    let mut graph = DiGraph::new();
    graph.add_node("a");
    graph.add_node("b");

    let closed = vec![true, false];
    let result = what_if_close(&graph, 0, &closed);

    assert_eq!(result.direct_unblocks, 0);
    assert_eq!(result.transitive_unblocks, 0);
}

#[test]
fn test_what_if_wide_fanout() {
    // a -> b1, b2, b3, b4, b5
    // Closing a unblocks all 5
    let mut graph = DiGraph::new();
    let a = graph.add_node("a");
    for i in 0..5 {
        let b = graph.add_node(&format!("b{}", i));
        graph.add_edge(a, b);
    }

    let closed = vec![false; 6];
    let result = what_if_close(&graph, a, &closed);

    assert_eq!(result.direct_unblocks, 5);
    assert_eq!(result.transitive_unblocks, 5);
    assert_eq!(result.parallel_gain, 4); // 5 - 1
}

#[test]
fn test_what_if_deep_cascade() {
    // a -> b -> c -> d -> e -> f (chain of 6)
    let mut graph = DiGraph::new();
    let mut prev = graph.add_node("a");
    for i in 1..6 {
        let node = graph.add_node(&format!("n{}", i));
        graph.add_edge(prev, node);
        prev = node;
    }

    let closed = vec![false; 6];
    let result = what_if_close(&graph, 0, &closed);

    assert_eq!(result.direct_unblocks, 1);
    assert_eq!(result.transitive_unblocks, 5); // All 5 subsequent nodes
}

#[test]
fn test_top_what_if() {
    //     a       e
    //    /|\      |
    //   b c d     f
    // a has more impact than e
    let mut graph = DiGraph::new();
    let a = graph.add_node("a");
    let b = graph.add_node("b");
    let c = graph.add_node("c");
    let d = graph.add_node("d");
    let e = graph.add_node("e");
    let f = graph.add_node("f");
    graph.add_edge(a, b);
    graph.add_edge(a, c);
    graph.add_edge(a, d);
    graph.add_edge(e, f);

    let closed = vec![false; 6];
    let top = top_what_if(&graph, &closed, 10);

    assert!(!top.is_empty());
    // a should be first (unblocks 3)
    assert_eq!(top[0].node, a);
    assert_eq!(top[0].result.transitive_unblocks, 3);

    // e should be second (unblocks 1)
    assert!(top.len() >= 2);
    assert_eq!(top[1].node, e);
    assert_eq!(top[1].result.transitive_unblocks, 1);
}

#[test]
fn test_top_what_if_limit() {
    let mut graph = DiGraph::new();
    for i in 0..10 {
        let a = graph.add_node(&format!("a{}", i));
        let b = graph.add_node(&format!("b{}", i));
        graph.add_edge(a, b);
    }

    let closed = vec![false; 20];
    let top = top_what_if(&graph, &closed, 3);

    assert_eq!(top.len(), 3);
}

#[test]
fn test_what_if_batch_simple() {
    // a -> c, b -> c
    // Closing both a and b should unblock c
    let mut graph = DiGraph::new();
    let a = graph.add_node("a");
    let b = graph.add_node("b");
    let c = graph.add_node("c");
    graph.add_edge(a, c);
    graph.add_edge(b, c);

    let closed = vec![false, false, false];
    let result = what_if_close_batch(&graph, &[a, b], &closed);

    assert_eq!(result.direct_unblocks, 1); // c
    assert_eq!(result.transitive_unblocks, 1);
}

#[test]
fn test_what_if_batch_cascade() {
    //     a       b
    //     |       |
    //     c       d
    //      \     /
    //        e
    // Closing both a and b unblocks c, d, then e
    let mut graph = DiGraph::new();
    let a = graph.add_node("a");
    let b = graph.add_node("b");
    let c = graph.add_node("c");
    let d = graph.add_node("d");
    let e = graph.add_node("e");
    graph.add_edge(a, c);
    graph.add_edge(b, d);
    graph.add_edge(c, e);
    graph.add_edge(d, e);

    let closed = vec![false; 5];
    let result = what_if_close_batch(&graph, &[a, b], &closed);

    assert_eq!(result.direct_unblocks, 2); // c and d
    assert_eq!(result.transitive_unblocks, 3); // c, d, e
}

#[test]
fn test_all_what_if() {
    // a -> b, c (isolated)
    let mut graph = DiGraph::new();
    let a = graph.add_node("a");
    let b = graph.add_node("b");
    let _c = graph.add_node("c");
    graph.add_edge(a, b);

    let closed = vec![false, false, false];
    let all = all_what_if(&graph, &closed, 10);

    // Only a has impact (c is isolated, b is blocked)
    assert_eq!(all.len(), 1);
    assert_eq!(all[0].node, a);
}

#[test]
fn test_what_if_cycle_handling() {
    // a -> b -> c -> a (cycle)
    // Each node should only unblock its direct successor
    let mut graph = DiGraph::new();
    let a = graph.add_node("a");
    let b = graph.add_node("b");
    let c = graph.add_node("c");
    graph.add_edge(a, b);
    graph.add_edge(b, c);
    graph.add_edge(c, a);

    let closed = vec![false, false, false];

    // In a cycle, nothing is actionable, so closing any one
    // won't immediately unblock anything (all still blocked)
    let result = what_if_close(&graph, a, &closed);
    // b is unblocked by closing a, but c still needs b, and a needs c
    // So only b is directly unblocked
    assert!(result.direct_unblocks <= 1);
}

#[test]
fn test_what_if_disconnected_components() {
    // Component 1: a -> b
    // Component 2: c -> d
    let mut graph = DiGraph::new();
    let a = graph.add_node("a");
    let b = graph.add_node("b");
    let c = graph.add_node("c");
    let d = graph.add_node("d");
    graph.add_edge(a, b);
    graph.add_edge(c, d);

    let closed = vec![false; 4];

    // Closing a should only affect component 1
    let result_a = what_if_close(&graph, a, &closed);
    assert_eq!(result_a.transitive_unblocks, 1);
    assert!(result_a.cascade_ids.contains(&b));

    // Closing c should only affect component 2
    let result_c = what_if_close(&graph, c, &closed);
    assert_eq!(result_c.transitive_unblocks, 1);
    assert!(result_c.cascade_ids.contains(&d));
}

#[test]
fn test_cascade_order() {
    // a -> b -> c -> d (deep chain)
    let mut graph = DiGraph::new();
    let a = graph.add_node("a");
    let b = graph.add_node("b");
    let c = graph.add_node("c");
    let d = graph.add_node("d");
    graph.add_edge(a, b);
    graph.add_edge(b, c);
    graph.add_edge(c, d);

    let closed = vec![false; 4];
    let result = what_if_close(&graph, a, &closed);

    // Cascade should include b, c, d in order
    assert_eq!(result.cascade_ids.len(), 3);
    assert_eq!(result.cascade_ids[0], b);
    assert_eq!(result.cascade_ids[1], c);
    assert_eq!(result.cascade_ids[2], d);
}

#[test]
fn test_what_if_batch_no_double_count() {
    // Batch close {a, b} on a -> c, b -> c: c counts once.
    let mut graph = DiGraph::new();
    let a = graph.add_node("a");
    let b = graph.add_node("b");
    let c = graph.add_node("c");
    graph.add_edge(a, c);
    graph.add_edge(b, c);

    let closed = vec![false; 3];
    let result = what_if_close_batch(&graph, &[a, b], &closed);
    assert_eq!(result.direct_unblocks, 1);
    assert_eq!(result.unblocked_ids, vec![c]);
    assert_eq!(result.parallel_gain, 0);
}

#[test]
fn test_what_if_out_of_range_node() {
    let mut graph = DiGraph::new();
    graph.add_node("a");
    let result = what_if_close(&graph, 7, &[false]);
    assert_eq!(result.direct_unblocks, 0);
    assert_eq!(result.transitive_unblocks, 0);
    assert!(result.unblocked_ids.is_empty());
    assert!(result.cascade_ids.is_empty());
    assert_eq!(result.parallel_gain, 0);
}

#[test]
fn test_what_if_short_closed_set() {
    // The closed-set may be shorter than the node count; missing entries
    // are treated as not closed.
    let mut graph = DiGraph::new();
    let a = graph.add_node("a");
    let b = graph.add_node("b");
    graph.add_edge(a, b);

    let result = what_if_close(&graph, a, &[]);
    assert_eq!(result.direct_unblocks, 1);
    assert_eq!(result.unblocked_ids, vec![b]);
}

#[test]
fn test_what_if_duplicate_edges_counted() {
    // The direct unblocks form a set: b counts once even though two
    // parallel edges from a reach it.
    let mut graph = DiGraph::new();
    let a = graph.add_node("a");
    let b = graph.add_node("b");
    graph.add_edge(a, b);
    graph.add_edge(a, b);

    let result = what_if_close(&graph, a, &[false, false]);
    assert_eq!(result.direct_unblocks, 1);
    assert_eq!(result.unblocked_ids, vec![b]);
    assert_eq!(result.cascade_ids, vec![b]);
    assert_eq!(result.parallel_gain, 0);
}

#[test]
fn test_all_what_if_includes_blocked_candidates() {
    // a -> b -> c: b is blocked, but closing b would still unblock c, so
    // all_what_if surfaces it while top_what_if does not.
    let mut graph = DiGraph::new();
    let a = graph.add_node("a");
    let b = graph.add_node("b");
    let c = graph.add_node("c");
    graph.add_edge(a, b);
    graph.add_edge(b, c);

    let closed = vec![false; 3];
    let all = all_what_if(&graph, &closed, 10);
    assert_eq!(all.len(), 2);
    assert_eq!(all[0].node, a); // impact 2
    assert_eq!(all[1].node, b); // impact 1
    let top = top_what_if(&graph, &closed, 10);
    assert_eq!(top.len(), 1);
    assert_eq!(top[0].node, a);
    let _ = c;
}

#[test]
fn test_what_if_batch_ignores_out_of_range() {
    let mut graph = DiGraph::new();
    let a = graph.add_node("a");
    let b = graph.add_node("b");
    graph.add_edge(a, b);

    let result = what_if_close_batch(&graph, &[a, 99], &[false, false]);
    assert_eq!(result.direct_unblocks, 1);
    assert_eq!(result.unblocked_ids, vec![b]);
}

#[test]
fn test_what_if_batch_singleton_matches_single() {
    // With set semantics for direct unblocks, a singleton batch agrees
    // with the single-node simulation field for field, duplicate edges
    // included.
    let mut graph = DiGraph::new();
    let a = graph.add_node("a");
    let b = graph.add_node("b");
    let c = graph.add_node("c");
    graph.add_edge(a, b);
    graph.add_edge(a, b);
    graph.add_edge(b, c);

    let closed = vec![false; 3];
    let single = what_if_close(&graph, a, &closed);
    let batch = what_if_close_batch(&graph, &[a], &closed);
    assert_eq!(single.direct_unblocks, batch.direct_unblocks);
    assert_eq!(single.transitive_unblocks, batch.transitive_unblocks);
    assert_eq!(single.unblocked_ids, batch.unblocked_ids);
    assert_eq!(single.cascade_ids, batch.cascade_ids);
    assert_eq!(single.parallel_gain, batch.parallel_gain);
}

#[test]
fn test_empty_result_constructor() {
    let r = bv_graph::whatif::WhatIfResult::empty();
    assert_eq!(r.direct_unblocks, 0);
    assert_eq!(r.transitive_unblocks, 0);
    assert!(r.unblocked_ids.is_empty());
    assert!(r.cascade_ids.is_empty());
    assert_eq!(r.parallel_gain, 0);
}
