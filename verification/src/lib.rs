//! Decision logic of an irregular strip and bin packing optimizer.
//!
//! The geometry engine (collision detection, sampling, collision quantification) computes with
//! floating point numbers and lives outside of this crate. What lives here is everything the
//! optimizer *decides* from the engine's answers: which bin is attacked next, when a phase stops,
//! which candidate is accepted, which solution may be exported, and how the command line and the
//! input files are read. Every one of those decisions is a verified function on plain values.
//!
//! Floating point quantities are carried as [`scalar::Scalar`], the bit pattern of a 32-bit float,
//! whose comparisons are verified here; arithmetic on them is left to the engine.
#![allow(unused_imports)]
#![allow(dead_code)]

pub mod config;
pub mod keymap;
pub mod optimizer;
pub mod order;
pub mod quantify;
pub mod random;
pub mod scalar;
pub mod text;
pub mod util;

