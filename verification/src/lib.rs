//! Percolation on a rectangular grid of sites.
//!
//! A grid of `rows x cols` sites starts fully closed; sites are opened one at
//! a time, and the model answers whether a path of open, pairwise-adjacent
//! sites connects the top edge to the bottom edge (the grid "percolates"),
//! and whether a given open site is connected to the top edge (the site is
//! "full"). Connectivity is tracked by a weighted quick-union structure with
//! path halving; two independent structures are kept so that bottom-edge
//! connectivity can never leak into fullness answers ("backwash").

pub mod error;
pub mod percolation;
pub mod weighted_union_find;

pub use error::PercolationError;
pub use percolation::Percolation;
pub use weighted_union_find::WeightedUnionFind;
