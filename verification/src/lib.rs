//! Splits one exported chat transcript into a run of smaller pages.
//!
//! A transcript is a byte string with three structural markers: the opening
//! of the log, one marker in front of every message group, and the closing
//! boilerplate. The library finds the markers by plain substring search,
//! places a page boundary at every hundredth message group, and assembles
//! each page from the transcript's preamble, a navigation block, the bytes
//! between two boundaries, the navigation block again and the closing tags.
//!
//! Everything here works on values in memory; reading the transcript and
//! writing the pages is left to the caller.

pub mod search;
pub mod markers;
pub mod error;
pub mod offsets;
pub mod text;
pub mod navigation;
pub mod pages;
pub mod split;
pub mod config;
pub mod progress;
pub mod names;
