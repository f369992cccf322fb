//! A planner for importing photo files into a date-partitioned, format-separated
//! destination tree.
//!
//! The library groups scanned files into logical photo units by shared base
//! name, resolves a capture time and sequence ordinals for each unit from
//! camera metadata fields, detects runs of HDR brackets and burst shots, and
//! computes a validated copy plan. All filesystem and metadata-tool access is
//! left to the caller; the library works on plain byte strings and timestamps.

pub mod bytes;
pub mod classify;
pub mod detect;
pub mod group;
pub mod incremental;
pub mod meta;
pub mod plan;
pub mod resolve;
pub mod time;
