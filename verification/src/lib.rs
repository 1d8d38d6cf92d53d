//! A batch vesting ledger: a sender locks token amounts for many recipients at
//! once, each amount unlocking at a given time. Recipients claim what has
//! unlocked; the sender, or the admin, may revoke a schedule that has not
//! unlocked yet. An admin, set once, may pause the ledger.
//!
//! The ledger is held as a model of the contract's storage. Each operation
//! decides, from that storage and the current ledger time, either an error
//! (and then leaves the storage untouched) or the new storage together with
//! the token transfers and events that the host must carry out, in order.

pub mod types;
pub mod amounts;
pub mod schedule;
pub mod ledger;
pub mod holdings;
pub mod contract;
pub mod laws;
