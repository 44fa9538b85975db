use bv_graph::critpath::critical_path_heights;
use bv_graph::critpath::critical_path_length;
use bv_graph::critpath::critical_path_nodes;
use bv_graph::cycles::has_cycles;
use bv_graph::cycles::scc;
use bv_graph::graph::DiGraph;
use bv_graph::kcore::degeneracy;
use bv_graph::kcore::kcore;
use bv_graph::reachability::actionable_nodes;
use bv_graph::reachability::is_actionable;
use bv_graph::slack::slack;
use bv_graph::slack::total_float;

fn chain3() -> DiGraph {
    // a -> b -> c
    let mut g = DiGraph::new();
    let a = g.add_node("a");
    let b = g.add_node("b");
    let c = g.add_node("c");
    g.add_edge(a, b);
    g.add_edge(b, c);
    g
}

fn diamond() -> DiGraph {
    // a -> b, a -> c, b -> d, c -> d
    let mut g = DiGraph::new();
    let a = g.add_node("a");
    let b = g.add_node("b");
    let c = g.add_node("c");
    let d = g.add_node("d");
    g.add_edge(a, b);
    g.add_edge(a, c);
    g.add_edge(b, d);
    g.add_edge(c, d);
    g
}

fn triangle() -> DiGraph {
    // a -> b -> c -> a
    let mut g = DiGraph::new();
    let a = g.add_node("a");
    let b = g.add_node("b");
    let c = g.add_node("c");
    g.add_edge(a, b);
    g.add_edge(b, c);
    g.add_edge(c, a);
    g
}

#[test]
fn test_graph_counts_and_degrees() {
    let g = diamond();
    assert_eq!(g.len(), 4);
    assert_eq!(g.edge_count(), 4);
    assert_eq!(g.out_degree(0), 2);
    assert_eq!(g.in_degree(0), 0);
    assert_eq!(g.out_degree(3), 0);
    assert_eq!(g.in_degree(3), 2);
    assert_eq!(g.out_degree(9), 0);
    assert_eq!(g.in_degree(9), 0);
    assert_eq!(g.successors_slice(0), &[1, 2]);
    assert_eq!(g.predecessors_slice(3), &[1, 2]);
}

#[test]
fn test_graph_index_of() {
    let g = chain3();
    assert_eq!(g.index_of("a"), Some(0));
    assert_eq!(g.index_of("c"), Some(2));
    assert_eq!(g.index_of("zzz"), None);
    assert_eq!(g.id_of(1).as_str(), "b");
}

#[test]
fn test_graph_with_capacity() {
    let mut g = DiGraph::with_capacity(8, 16);
    assert_eq!(g.len(), 0);
    assert!(g.is_empty());
    let a = g.add_node("a");
    assert_eq!(a, 0);
    assert!(!g.is_empty());
}

#[test]
fn test_is_actionable_semantics() {
    let g = chain3();
    // No predecessors and not closed: actionable.
    assert!(is_actionable(&g, 0, &[false, false, false]));
    // Blocked by an open predecessor.
    assert!(!is_actionable(&g, 1, &[false, false, false]));
    // Unblocked once its predecessor closes.
    assert!(is_actionable(&g, 1, &[true, false, false]));
    // A closed node is never actionable.
    assert!(!is_actionable(&g, 0, &[true, false, false]));
    // Out of range is never actionable.
    assert!(!is_actionable(&g, 5, &[false, false, false]));
}

#[test]
fn test_actionable_nodes_index_order() {
    let g = diamond();
    assert_eq!(actionable_nodes(&g, &[false; 4]), vec![0]);
    assert_eq!(actionable_nodes(&g, &[true, false, false, false]), vec![1, 2]);
    assert_eq!(actionable_nodes(&g, &[true, true, true, false]), vec![3]);
}

#[test]
fn test_has_cycles_dag_and_cycle() {
    assert!(!has_cycles(&chain3()));
    assert!(!has_cycles(&diamond()));
    assert!(has_cycles(&triangle()));
    assert!(chain3().is_dag());
    assert!(!triangle().is_dag());
}

#[test]
fn test_has_cycles_self_loop() {
    let mut g = DiGraph::new();
    let a = g.add_node("a");
    g.add_node("b");
    g.add_edge(a, a);
    assert!(has_cycles(&g));
    assert!(!g.is_dag());
}

#[test]
fn test_scc_partition_dag() {
    let comps = scc(&diamond());
    assert_eq!(comps, vec![vec![0], vec![1], vec![2], vec![3]]);
}

#[test]
fn test_scc_cycle_component() {
    let mut g = triangle();
    let d = g.add_node("d");
    g.add_edge(0, d);
    let comps = scc(&g);
    assert_eq!(comps, vec![vec![0, 1, 2], vec![3]]);
}

#[test]
fn test_critical_path_chain() {
    let g = chain3();
    assert_eq!(critical_path_heights(&g), vec![0, 1, 2]);
    assert_eq!(critical_path_length(&g), 2);
    assert_eq!(critical_path_nodes(&g), vec![0, 1, 2]);
}

#[test]
fn test_critical_path_diamond() {
    let g = diamond();
    assert_eq!(critical_path_heights(&g), vec![0, 1, 1, 2]);
    assert_eq!(critical_path_length(&g), 2);
    // Ties break toward the lowest index: the path goes through b.
    assert_eq!(critical_path_nodes(&g), vec![0, 1, 3]);
}

#[test]
fn test_critical_path_empty() {
    let g = DiGraph::new();
    assert_eq!(critical_path_heights(&g).len(), 0);
    assert_eq!(critical_path_length(&g), 0);
    assert_eq!(critical_path_nodes(&g).len(), 0);
}

#[test]
fn test_slack_chain_with_branch() {
    // a -> b -> c and a -> d: d hangs off the critical path.
    let mut g = DiGraph::new();
    let a = g.add_node("a");
    let b = g.add_node("b");
    let c = g.add_node("c");
    let d = g.add_node("d");
    g.add_edge(a, b);
    g.add_edge(b, c);
    g.add_edge(a, d);
    assert_eq!(slack(&g), vec![0, 0, 0, 1]);
    assert_eq!(total_float(&g), 1);
}

#[test]
fn test_slack_diamond_all_critical() {
    let g = diamond();
    assert_eq!(slack(&g), vec![0, 0, 0, 0]);
    assert_eq!(total_float(&g), 0);
}

#[test]
fn test_kcore_chain() {
    let g = chain3();
    assert_eq!(kcore(&g), vec![1, 1, 1]);
    assert_eq!(degeneracy(&g), 1);
}

#[test]
fn test_kcore_triangle() {
    let g = triangle();
    assert_eq!(kcore(&g), vec![2, 2, 2]);
    assert_eq!(degeneracy(&g), 2);
}

#[test]
fn test_kcore_star() {
    // Hub pointing at five leaves: every node has core number one.
    let mut g = DiGraph::new();
    let hub = g.add_node("hub");
    for i in 0..5 {
        let leaf = g.add_node(&format!("leaf{}", i));
        g.add_edge(hub, leaf);
    }
    assert_eq!(kcore(&g), vec![1; 6]);
    assert_eq!(degeneracy(&g), 1);
}

#[test]
fn test_kcore_empty() {
    let g = DiGraph::new();
    assert_eq!(kcore(&g).len(), 0);
    assert_eq!(degeneracy(&g), 0);
}

#[test]
fn test_output_lengths_match_node_count() {
    // Every per-node output vector has exactly one entry per node.
    for g in [chain3(), diamond(), triangle()] {
        let n = g.len();
        assert_eq!(critical_path_heights(&g).len(), n);
        assert_eq!(slack(&g).len(), n);
        assert_eq!(kcore(&g).len(), n);
        let total: usize = scc(&g).iter().map(|c| c.len()).sum();
        assert_eq!(total, n);
    }
}
