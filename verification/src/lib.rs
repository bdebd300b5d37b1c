//! Enumeration of the connected clusters of a given size on a rectangular grid
//! with blocked cells.

pub mod bitfield;
pub mod board;
pub mod cluster;
pub mod corollaries;
pub mod grid;
pub mod partition;

pub use board::Board;
pub use cluster::all_possible_clusters;
