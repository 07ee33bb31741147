//! One worker's scan of its stripe.

use crate::escape::EscapeResult;
use crate::grid::Grid;
use crate::kernel::{emit, kernel_accepts, kernel_yields, KernelFn};
use crate::sample::SamplePoint;
use crate::seq_facts::lemma_filter_map_congruence;
use crate::stripe::{
    in_stripe,
    lemma_last_row,
    stripe_column,
    stripe_holds_its_pixels_once,
    stripe_len,
    stripe_pixels,
};
use vstd::prelude::*;

verus! {

/// The samples of one worker under `kernel`: the escaped pixels of its stripe,
/// in scan order.
pub open spec fn stripe_samples(
    grid: Grid,
    worker: nat,
    worker_count: nat,
    kernel: KernelFn,
) -> Seq<SamplePoint> {
    stripe_pixels(grid, worker, worker_count).filter_map(emit(kernel))
}

/// `samples` is what the stripe of `worker` yields under some run of the
/// kernel: there are answers of the kernel, one for each pixel of the stripe,
/// under which the stripe's samples are `samples`.
pub open spec fn is_stripe_of<K: Fn(i32, i32) -> EscapeResult>(
    kernel: K,
    grid: Grid,
    worker: nat,
    worker_count: nat,
    samples: Seq<SamplePoint>,
) -> bool {
    exists|f: KernelFn|
        kernel_yields(kernel, f, stripe_pixels(grid, worker, worker_count)) && samples
            == #[trigger] stripe_samples(grid, worker, worker_count, f)
}

/// Scans the stripe of `worker`, one of `worker_count` workers: calls the
/// kernel on each pixel of the stripe, column after column and each column
/// from the top down, and returns the samples of the escaped pixels in that
/// order. Bounded pixels leave no sample.
pub fn scan_stripe<K>(grid: &Grid, worker: usize, worker_count: usize, kernel: &K) -> (samples:
    Vec<SamplePoint>) where K: Fn(i32, i32) -> EscapeResult
    requires
        worker_count >= 1,
        kernel_accepts(*kernel, *grid),
    ensures
        is_stripe_of(*kernel, *grid, worker as nat, worker_count as nat, samples@),
{
    let width = grid.width();
    let height = grid.height();
    let ghost g = *grid;
    let ghost w = worker as nat;
    let ghost n = worker_count as nat;
    let ghost columns = Seq::new((g.width() + 1) as nat, |x: int| stripe_column(g, w, n, x));
    // The kernel's answers so far, as a function, and the pixels scanned so far.
    let ghost mut f: KernelFn = |x: int, y: int| EscapeResult { bounded: true, iteration: 0 };
    let ghost mut seen: Seq<(int, int)> = Seq::empty();
    let mut samples: Vec<SamplePoint> = Vec::new();
    if worker > height as usize {
        proof {
            // No row of the grid belongs to this worker.
            stripe_holds_its_pixels_once(g, w, n);
            let pixels = stripe_pixels(g, w, n);
            if pixels.len() > 0 {
                assert(pixels.contains(pixels[0]));
                assert(in_stripe(g, w, n, pixels[0].0, pixels[0].1));
            }
            assert(samples@ == stripe_samples(g, w, n, f));
        }
        return samples;
    }
    let first: i32 = worker as i32;
    let ghost rows = stripe_len(g, w, n) as int;
    let mut x: i32 = 0;
    proof {
        assert(columns.take(0) =~= Seq::<Seq<(int, int)>>::empty());
        assert(columns.take(0).flatten() =~= Seq::<(int, int)>::empty());
    }
    loop
        invariant_except_break
            seen == columns.take(x as int).flatten(),
            forall|t: int| 0 <= t < seen.len() ==> (#[trigger] seen[t]).0 < x,
        invariant
            g == *grid,
            g.wf(),
            width == g.width(),
            height == g.height(),
            w == worker,
            n == worker_count,
            n >= 1,
            first == worker,
            first <= height,
            rows == stripe_len(g, w, n),
            columns == Seq::new((g.width() + 1) as nat, |x: int| stripe_column(g, w, n, x)),
            0 <= x <= width,
            kernel_accepts(*kernel, g),
            kernel_yields(*kernel, f, seen),
            samples@ == seen.filter_map(emit(f)),
        ensures
            seen == columns.flatten(),
        decreases width - x,
    {
        let ghost before = seen;
        let ghost column = stripe_column(g, w, n, x as int);
        let ghost mut m: int = 0;
        let mut y: i32 = first;
        proof {
            assert(before + column.take(0) =~= before);
            assert(0 * n == 0) by (nonlinear_arith);
        }
        loop
            invariant_except_break
                0 <= m < rows,
                y == first + m * n,
                seen == before + column.take(m),
                forall|t: int|
                    0 <= t < seen.len() ==> (#[trigger] seen[t]).0 < x || (seen[t].0 == x
                        && seen[t].1 < y),
            invariant
                g == *grid,
                g.wf(),
                width == g.width(),
                height == g.height(),
                w == worker,
                n == worker_count,
                n >= 1,
                first == worker,
                first <= y <= height,
                rows == stripe_len(g, w, n),
                column == stripe_column(g, w, n, x as int),
                0 <= x <= width,
                kernel_accepts(*kernel, g),
                kernel_yields(*kernel, f, seen),
                samples@ == seen.filter_map(emit(f)),
            ensures
                seen == before + column,
                forall|t: int| 0 <= t < seen.len() ==> (#[trigger] seen[t]).0 <= x,
            decreases height - y,
        {
            let result = kernel(x, y);
            let ghost earlier = seen;
            let ghost prior = f;
            proof {
                // The pixel is new, so recording its answer changes none of
                // the answers recorded before.
                f = |a: int, b: int| if a == x && b == y { result } else { prior(a, b) };
                seen = earlier.push((x as int, y as int));
                assert(seen.drop_last() =~= earlier);
                lemma_filter_map_congruence(earlier, emit(f), emit(prior));
                assert(column[m] == (x as int, y as int));
                assert(column.take(m + 1) =~= column.take(m).push(column[m]));
                assert(seen =~= before + column.take(m + 1));
            }
            match SamplePoint::from_escape(x, y, result) {
                Some(sample) => {
                    samples.push(sample);
                },
                None => {},
            }
            proof {
                lemma_last_row(height - first, n as int, m);
                assert((m + 1) * n == m * n + n) by (nonlinear_arith);
            }
            if worker_count > (height - y) as usize {
                proof {
                    assert(column.take(m + 1) =~= column);
                }
                break ;
            }
            y = y + worker_count as i32;
            proof {
                m = m + 1;
                lemma_last_row(height - first, n as int, m);
            }
        }
        proof {
            assert(columns.take(x + 1) =~= columns.take(x as int).push(columns[x as int]));
            columns.take(x as int).lemma_flatten_push(columns[x as int]);
        }
        if x == width {
            proof {
                assert(columns.take(x + 1) =~= columns);
            }
            break ;
        }
        x = x + 1;
    }
    proof {
        assert(samples@ == stripe_samples(g, w, n, f));
    }
    samples
}

} // verus!
