//! Post-retrieval core of a process-historian client: typed sample values,
//! quality-code classification, point-in-time lookup over a sorted series,
//! and forward-fill alignment of several series into one change-driven table.
//!
//! Timestamps are carried as `i64` instants (e.g. milliseconds since an
//! epoch); the serving layer converts to and from its calendar types at the
//! boundary. Floating-point sample values are carried as their raw IEEE-754
//! bit patterns: the core never does float arithmetic, it only stores,
//! compares and forwards such values.

pub mod align;
pub mod convert;
pub mod events;
pub mod timebase;
pub mod timeseries;
