//! Transactional core of a clinical records application.
//!
//! The library models the write path of the clinic's ledger: saving a
//! visit together with its billable sessions and items, keeping the
//! patient's running balance, and driving the debt lifecycle flags.
//! Monetary amounts are integer cents; calendar dates and timestamps are
//! integer day numbers, so that every financial rule is exact.

pub mod balance;
pub mod catalog;
pub mod clock;
pub mod debt;
pub mod items;
pub mod ledger;
pub mod model;
pub mod records;
pub mod settings;
pub mod store;
pub mod text;
