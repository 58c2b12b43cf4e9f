//! A metrics collection and reporting engine: typed metrics write through to
//! a store keyed by (ping, category, name), and pings are collected into JSON
//! payloads that read back to exactly what was stored.
//!
//! Decisions the engine makes:
//! - string values are cut to `MAX_STRING_LENGTH` (100) characters, and each
//!   cut is counted in `Glean::clamped_values`;
//! - counters saturate at `u64::MAX`, and adding 0 changes nothing;
//! - a mutation or a collection before `initialize` fails with `NotInitialized`;
//! - turning upload off deletes every stored record before the call returns,
//!   and while it is off every mutation is accepted and stores nothing, and
//!   restoring saved pings stores none of their values;
//! - the saved store (`Glean::save_store`) is a version line, the client
//!   identifier, and one line per ping: its lifetime and its payload at time 0
//!   (`Glean::restore_line` loads one); writing it to disk is up to the caller;
//! - boundary handles are never 0 and carry their metric type
//!   (`boundary::BOOLEAN_HANDLE_BASE` and the like).

use vstd::prelude::*;

pub mod boundary;
pub mod error;
pub mod glean;
pub mod laws;
pub mod metrics;
pub mod parse;
pub mod payload;
pub mod reader;
pub mod storage;
pub mod value;

verus! {

} // verus!
