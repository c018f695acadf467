//! The optimizer's phases.
pub mod bpp;
pub mod compress;
pub mod disrupt;
pub mod explore;
pub mod lbf;
pub mod pool;
pub mod run;
pub mod separator;
pub mod sheets;
