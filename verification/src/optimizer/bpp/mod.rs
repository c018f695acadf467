//! Packing into bins.
pub mod compress;
pub mod consolidate;
pub mod explore;
pub mod layouts;
pub mod lbf;
pub mod pack_down;
pub mod run;
pub mod separator;
pub mod shelf;
pub mod trackers;
pub mod worker;
