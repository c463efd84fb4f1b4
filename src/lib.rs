//! A small functional toolkit around a verified double-entry ledger:
//! a chart-of-accounts taxonomy, per-account ledgers, a ledger tree that
//! mirrors the taxonomy, transaction posting and the period-close engine.

pub mod account;
pub mod ledger;
pub mod tree;
pub mod ledger_tree;
pub mod ocs;
pub mod transaction;
pub mod accounting;
pub mod prelude;
pub mod fib;
pub mod concurrent;
