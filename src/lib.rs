//! Blue noise by Fast Poisson Disk Sampling in any number of dimensions.
//!
//! Coordinates are fixed-point integers: a domain is a box of integer
//! extents, a sample a vector of integer coordinates inside it, and the
//! minimum distance an integer in the same unit. Distances are compared
//! exactly, as squares.
pub mod radix;
pub mod cells;
pub mod grid;
pub mod generator;
