pub mod analysis;
pub mod call_sites;
pub mod cli;
pub mod config;
pub mod diff;
pub mod embed;
pub mod graph;
pub mod index_stats;
pub mod index_status;
pub mod mcp_setup;
pub mod path_util;
pub mod reindex;
pub mod response;
pub mod symbol_id;
pub mod symbol_record;
pub mod text;
pub mod text_scan;
pub mod types;
pub mod walk_roots;
