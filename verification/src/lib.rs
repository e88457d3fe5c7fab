//! Resilient extraction of quote fields from unstable HTML.
//!
//! The crate locates data in a document whose markup changes without
//! notice: an ordered fallback chain of selectors is tried first, and
//! when every stored selector has gone stale the engine re-discovers
//! the value from a known text fragment and synthesizes a fresh ranked
//! list of selectors for it.

pub mod text;
pub mod backend;
pub mod change;
pub mod candidates;
pub mod discover;
pub mod dom;
pub mod extract;
pub mod resolve;
pub mod synth;
pub mod report;
pub mod scrape;
