//! Merging WebVTT subtitle files into one deduplicated, sorted SubRip file.
//!
//! The library works on plain bytes: a subtitle file is a sequence of lines,
//! each line a sequence of bytes.  It extracts cue records from the lines of
//! each file, pools them while discarding exact duplicates, orders the pool
//! lexicographically, and renders the result as SubRip text.  Reading folders
//! and files and writing the output are left to the surrounding program.

pub mod cue;
pub mod order;
pub mod merge;
pub mod parse;
pub mod render;
