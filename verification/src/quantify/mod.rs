//! Books about collisions, and what they are measured with.
pub mod circles_soa;
pub mod tracker;
