//! Analytics over a directed dependency graph: a graph store with dense
//! integer node indices, a blocking/actionability predicate, structural
//! algorithms (strongly connected components, cycle detection, k-core,
//! critical path and slack), and a what-if simulator that computes the
//! cascade of nodes unblocked by closing one or more nodes.

pub mod graph;
pub mod reachability;
pub mod counting;
pub mod whatif;
pub mod cycles;
pub mod critpath;
pub mod slack;
pub mod kcore;

pub use graph::DiGraph;
pub use reachability::actionable_nodes;
pub use reachability::is_actionable;
pub use whatif::all_what_if;
pub use whatif::top_what_if;
pub use whatif::what_if_close;
pub use whatif::what_if_close_batch;
pub use whatif::TopWhatIfEntry;
pub use whatif::WhatIfResult;
pub use cycles::has_cycles;
pub use cycles::scc;
pub use critpath::critical_path_heights;
pub use critpath::critical_path_length;
pub use critpath::critical_path_nodes;
pub use kcore::degeneracy;
pub use kcore::kcore;
pub use slack::slack;
pub use slack::total_float;
