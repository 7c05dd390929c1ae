//! Correction of timing drift in SubRip (SRT) subtitle files.
//!
//! The crate has three parts: a millisecond-resolution timestamp codec
//! (`timestamp`), a linear drift model fitted from two anchor pairs and
//! applied with exact rational arithmetic (`drift`), and a streaming
//! line rewriter that recognizes cue header lines, corrects them, and
//! renumbers the output (`rewrite`). The `text` module holds the
//! character-level machinery the others share.

pub mod drift;
pub mod rewrite;
pub mod text;
pub mod timestamp;
