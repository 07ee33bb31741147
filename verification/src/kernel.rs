//! The escape-time kernel as the scheduler sees it.
//!
//! The scheduler does not compute escape times itself. It is handed a kernel,
//! a function of the pixel's column and row that answers with the
//! [`EscapeResult`] of the point of the plane that the pixel shows, and calls
//! it on each pixel it scans. What it is told of the kernel is the kernel's own
//! precondition and postcondition.

use crate::escape::EscapeResult;
use crate::grid::Grid;
use crate::sample::SamplePoint;
use vstd::prelude::*;

verus! {

/// A kernel as a mathematical function of the pixel.
pub type KernelFn = spec_fn(int, int) -> EscapeResult;

/// What a pixel contributes to a frame under `kernel`: its sample if the
/// kernel reports it escaped, nothing if it reports it bounded.
pub open spec fn emit(kernel: KernelFn) -> spec_fn((int, int)) -> Option<SamplePoint> {
    |p: (int, int)| SamplePoint::from_escape(p.0 as i32, p.1 as i32, kernel(p.0, p.1))
}

/// The kernel may be called on every pixel of the grid.
pub open spec fn kernel_accepts<K: Fn(i32, i32) -> EscapeResult>(kernel: K, grid: Grid) -> bool {
    forall|x: i32, y: i32| grid.covers(x as int, y as int) ==> #[trigger] kernel.requires((x, y))
}

/// At each of `pixels`, `f` has a value that a call of the kernel on that
/// pixel can return.
pub open spec fn kernel_yields<K: Fn(i32, i32) -> EscapeResult>(
    kernel: K,
    f: KernelFn,
    pixels: Seq<(int, int)>,
) -> bool {
    forall|t: int|
        0 <= t < pixels.len() ==> kernel.ensures(
            ((#[trigger] pixels[t]).0 as i32, pixels[t].1 as i32),
            f(pixels[t].0, pixels[t].1),
        )
}

/// On each pixel of the grid the kernel has but one answer.
pub open spec fn kernel_deterministic<K: Fn(i32, i32) -> EscapeResult>(
    kernel: K,
    grid: Grid,
) -> bool {
    forall|x: i32, y: i32, one: EscapeResult, other: EscapeResult|
        grid.covers(x as int, y as int) && #[trigger] kernel.ensures((x, y), one)
            && #[trigger] kernel.ensures((x, y), other) ==> one == other
}

} // verus!
