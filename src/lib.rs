//! Verified core pieces of a Monte Carlo path tracer: bounding boxes joined
//! and compared through order keys of their coordinates, the partition
//! structure of its bounding volume hierarchy, the lattice hashing of its
//! Perlin noise and the decisions of its integrator; together with a small
//! quicksort and a fixed-bucket hash map.

mod permutation;
mod random;
pub mod bounds;
pub mod bvh;
pub mod hmap;
pub mod integrator;
pub mod perlin;
pub mod qsort;

pub use crate::hmap::{HMap, BUCKETS};
pub use crate::qsort::{qsort, sorted};
