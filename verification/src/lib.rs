//! Finds every dictionary word that can be traced as a path of adjacent
//! cells on a rectangular letter grid, no cell reused within a path, and
//! ranks the discoveries longest first.
//!
//! The crate is split along the components of the system: [`dict`] holds the
//! dictionary index with its word and prefix queries, [`grid`] the board
//! model with adjacency and rendering, [`search`] the pruned depth-first
//! path walk, and [`rank`] the ordering and truncation of the results.

pub mod dict;
pub mod grid;
pub mod rank;
pub mod search;
