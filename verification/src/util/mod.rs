//! Input, output and checks around the optimizer.
pub mod bpp_io;
pub mod ctrlc_terminator;
pub mod demand;
pub mod io;
pub mod listener;
pub mod packability;
pub mod rotations;
pub mod runs;
pub mod verify;
