//! Assignment of groups to company projects: a proposal-based allocator with
//! rank scoring, and a round-scoped ledger in which both sides accept or
//! reject their tentative match before it becomes final.

pub mod scoring;
pub mod text;
pub mod model;
pub mod order;
pub mod allocate;
pub mod allocation_laws;
pub mod ledger;
pub mod ledger_laws;
pub mod roster;
