//! Batch-renaming logic for video files whose names carry an `S<season>E<episode>`
//! tag: parsing and rewriting the tag, injecting episode titles, literal
//! search-and-replace over names, collision-safe renumbering, grouping flat
//! episode lists into seasons, and a cancellable media scan modelled as a fold
//! over directory events.

pub mod pattern;
pub mod renumber;
pub mod replace;
pub mod scan;
pub mod seasons;
pub mod text;
pub mod titles;
