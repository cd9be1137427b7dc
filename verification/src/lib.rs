//! Compares two installs of a line-oriented `set key value` configuration
//! format, merging user overrides and reporting which base settings were
//! removed or changed between versions.
//!
//! The pipeline is: parse the raw file bytes into flat key/value maps,
//! merge the two user-override maps (new value wins), diff the two base
//! maps into `changed` and `removed` sets, scrub every user-overridden key
//! out of those sets, and render the result in a deterministic order.

pub mod config;
pub mod diff;
pub mod load;
pub mod merge;
pub mod parse;
pub mod pipeline;
pub mod render;
pub mod text;
