//! Near-duplicate image detection: the bookkeeping of a batch that scores
//! pairs of images with a perceptual dissimilarity metric.
//!
//! The crate holds the decisions of such a batch and proves them: which
//! image has to be decoded and by whom, which pairs are still to be scored,
//! in which order a sweep walks its candidates, and which scores are
//! reported.  Decoding, scoring and threads are the caller's business; the
//! caller performs what the library asks for and hands back what came of it.

pub mod args;
pub mod cache;
pub mod collect;
pub mod course;
pub mod engine;
pub mod schedule;
pub mod score;
pub mod tracker;
