pub mod call_graph;
pub mod cycle_detect;
pub mod dep_graph;
pub mod metrics;
pub mod topology;
pub mod trace;
pub mod type_hierarchy;
