//! Board geometry and traversal engine for a tile-based puzzle game.
//!
//! A generic rectangular grid of cells, with bounds-checked point
//! validation, four-directional neighbour lookup, cell read/write and
//! swap, and a small traversal algebra (fold, reverse fold, map,
//! for-each) whose row-major visiting order is part of the contract.

pub mod board;
pub mod geom;
