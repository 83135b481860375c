//! Expense report core: turning delimited rows into typed entries, ordering
//! them, and folding them into per-year and per-category totals.
pub mod amount;
pub mod entry;
pub mod order;
pub mod pipeline;
pub mod record;
pub mod render;
pub mod totals;
