//! Guest memory: mapping tables, address-range custody, effect sessions and the page manager.
pub mod addr;
pub mod area;
pub mod custody;
pub mod domain;
pub mod errors;
pub mod flags;
pub mod manager;
pub mod range_set;
pub mod session;
pub mod vmas;
pub mod vmem;
pub mod wx_ledger;
