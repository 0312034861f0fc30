pub mod branch_diff;
pub mod symbol_diff;
