//! A tile-collapse (wave function collapse) solver.
//!
//! A grid of cells is filled with tiles so that every pair of adjacent
//! tiles agrees on the connection label they share across their common
//! edge.  Each cell holds a *domain*: the list of tile variants still
//! considered possible.  The solver repeatedly collapses the first
//! undecided cell to one randomly chosen tile, propagates the
//! consequences through an arc-consistency pass, and backtracks from
//! contradictions by excluding the failed choice.

pub mod bigtile;
pub mod consistency;
pub mod engine;
pub mod propagate;
pub mod tile;
pub mod tilesets;
pub mod worldmap;
