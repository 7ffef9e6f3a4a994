//! Durable-memory note keeping: parsing note files, parsing model output into
//! candidate notes, merging stores with case-insensitive dedup, planning
//! appends, and the event-by-event state machine of one extraction round trip.
//!
//! All I/O (file reads, appends, the streaming transport) lives outside this
//! library; every function here computes on plain values and is verified.

pub mod extract;
pub mod parse;
pub mod paths;
pub mod reader;
pub mod store;
pub mod text;
