//! Tile scheduling for an escape-time fractal renderer.
//!
//! A frame is a grid of pixels, each showing one point of the complex plane.
//! The grid is split into interleaved row stripes, one for each worker; a
//! worker scans its stripe with the escape-time kernel and emits a coloured
//! sample for each pixel whose point escapes; the workers' samples, merged in
//! worker order, are the frame.
//!
//! - [`grid`]: the pixel grid.
//! - [`escape`]: escape results, and the search for the step at which an
//!   orbit escapes.
//! - [`sample`]: colours and samples.
//! - [`stripe`]: the partition into stripes, and the proof that it covers the
//!   grid exactly once.
//! - [`kernel`]: what the scheduler asks of the kernel it is handed.
//! - [`scan`]: one worker's scan of its stripe.
//! - [`merge`]: merging the workers' results, all or nothing.
//! - [`frame`]: rendering a whole frame, and the proof that the number of
//!   workers has no part in what the frame holds.

pub mod escape;
pub mod frame;
pub mod grid;
pub mod kernel;
pub mod merge;
pub mod sample;
pub mod scan;
mod seq_facts;
pub mod stripe;
