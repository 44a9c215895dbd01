//! Placement of every colour of a quantised RGB cube on a square grid, one
//! colour per cell, so that colours close in colour space end up close on
//! the grid.
//!
//! The modules, leaves first:
//! - `arith`: two facts of arithmetic;
//! - `types`: cells, colours, displacements and distances;
//! - `regions`: which region owns which cell;
//! - `vec_set`: a set of cells that keeps their order, with removal by
//!   position in constant time;
//! - `sorting`: ordering of ranked entries;
//! - `buckets`: what a bucketed index of cells holds, as mathematics;
//! - `nearest`: which cell of such an index is nearest to a target;
//! - `frontier`: the bucketed index itself;
//! - `offsets`: the colour cube and the table of colour displacements;
//! - `assigned`: where each placed colour lies, and the search for the
//!   nearest placed colour;
//! - `model`: a run as mathematics, placement by placement;
//! - `invariants`, `bookkeeping`: what holds of the state of a run, and why
//!   a placement keeps it;
//! - `laws`: what holds of whole runs;
//! - `growth`: the placement engine;
//! - `random`: runs on a random ordering and random seeds.
pub mod arith;
pub mod types;
pub mod regions;
pub mod vec_set;
pub mod sorting;
pub mod buckets;
pub mod nearest;
pub mod frontier;
pub mod offsets;
pub mod assigned;
pub mod model;
pub mod invariants;
pub mod bookkeeping;
pub mod laws;
pub mod growth;
pub mod random;
