//! Column engine of an embedded key-value store.
//!
//! A column maps fixed-width 32-byte keys to variable-length values through
//! three cooperating structures: an open-addressed hash index, a bank of 16
//! size-tiered value tables, and a queue of legacy indices that are drained
//! online after the primary index doubles. Writes are staged as plans in a
//! write-ahead log and become durable when the log replays them through
//! `enact_plan`.

pub mod column;
pub mod error;
pub mod index;
pub mod table;
pub mod wal;
