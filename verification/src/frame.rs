//! Rendering a frame: every worker scans its stripe, and the workers' samples
//! are merged in worker order.

use crate::escape::EscapeResult;
use crate::grid::Grid;
use crate::kernel::{emit, kernel_accepts, kernel_deterministic, kernel_yields, KernelFn};
use crate::merge::{merge, part_views};
use crate::sample::SamplePoint;
use crate::scan::{is_stripe_of, scan_stripe, stripe_samples};
use crate::seq_facts::{
    lemma_filter_map_congruence,
    lemma_filter_map_contains,
    lemma_filter_map_no_duplicates,
    lemma_flatten_contains,
    lemma_flatten_filter_map,
};
use crate::stripe::{
    owner,
    row_has_one_owner,
    scan_covers_grid_once,
    scan_order,
    stripe_holds_its_pixels_once,
    stripe_pixels,
};
use vstd::prelude::*;

verus! {

/// Worker count used when the caller configures none.
pub const DEFAULT_WORKER_COUNT: usize = 4;

/// The worker count that two optional settings configure: the first if it is
/// there, else the second if that is there, else the default.
pub fn configured_worker_count(first: Option<usize>, second: Option<usize>) -> (count: usize)
    ensures
        count == match (first, second) {
            (Some(wanted), _) => wanted,
            (None, Some(wanted)) => wanted,
            (None, None) => DEFAULT_WORKER_COUNT,
        },
{
    match first {
        Some(wanted) => wanted,
        None => match second {
            Some(wanted) => wanted,
            None => DEFAULT_WORKER_COUNT,
        },
    }
}

/// The samples of a frame under `kernel`: the escaped pixels of the stripe of
/// worker 0 in its scan order, then those of worker 1, and so on.
pub open spec fn frame_samples(grid: Grid, worker_count: nat, kernel: KernelFn) -> Seq<
    SamplePoint,
> {
    scan_order(grid, worker_count).filter_map(emit(kernel))
}

/// `samples` is what the frame yields under some run of the kernel: there are
/// answers of the kernel, one for each pixel scanned, under which the frame's
/// samples are `samples`.
pub open spec fn is_frame_of<K: Fn(i32, i32) -> EscapeResult>(
    kernel: K,
    grid: Grid,
    worker_count: nat,
    samples: Seq<SamplePoint>,
) -> bool {
    exists|f: KernelFn|
        kernel_yields(kernel, f, scan_order(grid, worker_count)) && samples
            == #[trigger] frame_samples(grid, worker_count, f)
}

/// Renders a frame with `worker_count` workers, on the calling thread: the
/// workers scan their stripes one after the other, and their results are
/// merged in worker order.
///
/// The kernel is called once on each pixel of the grid. With no worker at all
/// nothing is scanned and the frame is empty. A caller that runs the workers
/// side by side gets the same frame from [`scan_stripe`] for each worker and
/// [`merge`] of the results.
pub fn render_frame<K>(grid: &Grid, worker_count: usize, kernel: K) -> (samples: Vec<
    SamplePoint,
>) where K: Fn(i32, i32) -> EscapeResult
    requires
        kernel_accepts(kernel, *grid),
    ensures
        is_frame_of(kernel, *grid, worker_count as nat, samples@),
{
    let ghost g = *grid;
    let ghost n = worker_count as nat;
    let mut parts: Vec<Vec<SamplePoint>> = Vec::new();
    let mut worker: usize = 0;
    while worker < worker_count
        invariant
            g == *grid,
            n == worker_count,
            worker <= worker_count,
            parts.len() == worker,
            kernel_accepts(kernel, g),
            forall|t: int|
                0 <= t < worker ==> is_stripe_of(kernel, g, t as nat, n, (#[trigger] parts[t])@),
        decreases worker_count - worker,
    {
        let part = scan_stripe(grid, worker, worker_count, &kernel);
        parts.push(part);
        worker += 1;
    }
    proof {
        use_type_invariant(grid);
        let views = part_views(parts@);
        assert forall|t: int| 0 <= t < n implies is_stripe_of(
            kernel,
            g,
            t as nat,
            n,
            #[trigger] views[t],
        ) by {
            assert(views[t] == parts[t]@);
        }
        stripes_make_frame(kernel, g, n, views);
    }
    merge(parts)
}

/// The stripes of all workers, merged in worker order, are a frame: whoever
/// has the stripe of each worker scanned, in whatever order or side by side,
/// has a frame once the results are merged.
pub proof fn stripes_make_frame<K: Fn(i32, i32) -> EscapeResult>(
    kernel: K,
    grid: Grid,
    worker_count: nat,
    parts: Seq<Seq<SamplePoint>>,
)
    requires
        grid.wf(),
        parts.len() == worker_count,
        forall|t: int|
            0 <= t < worker_count ==> is_stripe_of(
                kernel,
                grid,
                t as nat,
                worker_count,
                #[trigger] parts[t],
            ),
    ensures
        is_frame_of(kernel, grid, worker_count, parts.flatten()),
{
    // For each worker, answers of the kernel that give its part.
    let answers = Seq::new(
        worker_count,
        |t: int|
            choose|f: KernelFn|
                kernel_yields(kernel, f, stripe_pixels(grid, t as nat, worker_count)) && parts[t]
                    == #[trigger] stripe_samples(grid, t as nat, worker_count, f),
    );
    let f = joined(answers, worker_count);
    let stripes = Seq::new(worker_count, |t: int| stripe_pixels(grid, t as nat, worker_count));
    let scan = scan_order(grid, worker_count);
    assert forall|t: int| 0 <= t < worker_count implies kernel_yields(
        kernel,
        f,
        #[trigger] stripes[t],
    ) && parts[t] == stripes[t].filter_map(emit(f)) by {
        assert(is_stripe_of(kernel, grid, t as nat, worker_count, parts[t]));
        lemma_stripe_agrees(grid, t as nat, worker_count, answers);
    }
    assert forall|u: int| 0 <= u < scan.len() implies kernel.ensures(
        ((#[trigger] scan[u]).0 as i32, scan[u].1 as i32),
        f(scan[u].0, scan[u].1),
    ) by {
        // The pixel stands in the stripe of some worker, whose answers the
        // joined kernel repeats.
        assert(scan.contains(scan[u]));
        lemma_flatten_contains(stripes, scan[u]);
        let t = choose|t: int| 0 <= t < stripes.len() && #[trigger] stripes[t].contains(scan[u]);
        let v = stripes[t].index_of(scan[u]);
        assert(stripes[t][v] == scan[u]);
    }
    lemma_flatten_filter_map(stripes, emit(f));
    assert(stripes.map_values(|part: Seq<(int, int)>| part.filter_map(emit(f))) =~= parts);
    assert(parts.flatten() == frame_samples(grid, worker_count, f));
}

/// The kernel that answers for each row as the row's owner does in `kernels`.
spec fn joined(kernels: Seq<KernelFn>, worker_count: nat) -> KernelFn {
    |x: int, y: int| kernels[owner(worker_count, y) as int](x, y)
}

/// Within a stripe, the joined kernel is the kernel of the stripe's own
/// worker.
proof fn lemma_stripe_agrees(grid: Grid, worker: nat, worker_count: nat, kernels: Seq<KernelFn>)
    requires
        grid.wf(),
        worker < worker_count,
    ensures
        stripe_samples(grid, worker, worker_count, joined(kernels, worker_count))
            == stripe_samples(grid, worker, worker_count, kernels[worker as int]),
        forall|t: int|
            0 <= t < stripe_pixels(grid, worker, worker_count).len() ==> {
                let p = #[trigger] stripe_pixels(grid, worker, worker_count)[t];
                joined(kernels, worker_count)(p.0, p.1) == kernels[worker as int](p.0, p.1)
            },
{
    let f = joined(kernels, worker_count);
    let own = kernels[worker as int];
    let pixels = stripe_pixels(grid, worker, worker_count);
    stripe_holds_its_pixels_once(grid, worker, worker_count);
    assert forall|t: int| 0 <= t < pixels.len() implies {
        let p = #[trigger] pixels[t];
        f(p.0, p.1) == own(p.0, p.1)
    } by {
        assert(pixels.contains(pixels[t]));
        row_has_one_owner(grid, worker, worker_count, pixels[t].0, pixels[t].1);
    }
    lemma_filter_map_congruence(pixels, emit(f), emit(own));
}

/// A frame holds one sample for each pixel of the grid that the kernel reports
/// escaped, in the colour of its escape iteration, and nothing else; no sample
/// stands in it twice.
pub proof fn frame_content(grid: Grid, worker_count: nat, kernel: KernelFn)
    requires
        grid.wf(),
        worker_count >= 1,
    ensures
        frame_samples(grid, worker_count, kernel).no_duplicates(),
        forall|s: SamplePoint|
            #[trigger] frame_samples(grid, worker_count, kernel).contains(s) <==> grid.covers(
                s.x as int,
                s.y as int,
            ) && SamplePoint::from_escape(s.x, s.y, kernel(s.x as int, s.y as int)) == Some(s),
{
    let scan = scan_order(grid, worker_count);
    let frame = frame_samples(grid, worker_count, kernel);
    scan_covers_grid_once(grid, worker_count);
    assert forall|t: int| 0 <= t < scan.len() implies grid.covers(
        (#[trigger] scan[t]).0,
        scan[t].1,
    ) by {
        assert(scan.contains((scan[t].0, scan[t].1)));
    }
    assert forall|i: int, j: int|
        0 <= i < j < scan.len() && emit(kernel)(#[trigger] scan[i]) is Some implies emit(kernel)(
        scan[i],
    ) != emit(kernel)(#[trigger] scan[j]) by {
        assert(grid.covers(scan[i].0, scan[i].1) && grid.covers(scan[j].0, scan[j].1));
        assert(scan[i] != scan[j]);
    }
    lemma_filter_map_no_duplicates(scan, emit(kernel));
    assert forall|s: SamplePoint|
        frame.contains(s) <==> grid.covers(s.x as int, s.y as int) && SamplePoint::from_escape(
            s.x,
            s.y,
            kernel(s.x as int, s.y as int),
        ) == Some(s) by {
        lemma_filter_map_contains(scan, emit(kernel), s);
        if frame.contains(s) {
            let i = choose|i: int| 0 <= i < scan.len() && emit(kernel)(#[trigger] scan[i]) == Some(s);
            assert(grid.covers(scan[i].0, scan[i].1));
        }
        if grid.covers(s.x as int, s.y as int) && SamplePoint::from_escape(
            s.x,
            s.y,
            kernel(s.x as int, s.y as int),
        ) == Some(s) {
            assert(scan.contains((s.x as int, s.y as int)));
            let i = choose|i: int| 0 <= i < scan.len() && scan[i] == (s.x as int, s.y as int);
            assert(emit(kernel)(scan[i]) == Some(s));
        }
    }
}

/// The number of workers has no part in what a frame holds: under one kernel,
/// two frames of one grid hold the same samples, each once, whatever the two
/// worker counts. Only the order of the samples depends on them.
pub proof fn frame_ignores_worker_count(grid: Grid, kernel: KernelFn, a: nat, b: nat)
    requires
        grid.wf(),
        a >= 1,
        b >= 1,
    ensures
        frame_samples(grid, a, kernel).to_set() == frame_samples(grid, b, kernel).to_set(),
        frame_samples(grid, a, kernel).to_multiset() == frame_samples(
            grid,
            b,
            kernel,
        ).to_multiset(),
{
    let one = frame_samples(grid, a, kernel);
    let other = frame_samples(grid, b, kernel);
    frame_content(grid, a, kernel);
    frame_content(grid, b, kernel);
    assert(one.to_set() =~= other.to_set());
    one.lemma_multiset_has_no_duplicates();
    other.lemma_multiset_has_no_duplicates();
    assert forall|s: SamplePoint| one.to_multiset().count(s) == other.to_multiset().count(s) by {
        vstd::seq_lib::to_multiset_contains(one, s);
        vstd::seq_lib::to_multiset_contains(other, s);
    }
    assert(one.to_multiset() =~= other.to_multiset());
}

/// Two frames that a deterministic kernel has rendered of one grid hold the
/// same samples, each once, whatever the two worker counts.
pub proof fn frames_agree<K: Fn(i32, i32) -> EscapeResult>(
    kernel: K,
    grid: Grid,
    a: nat,
    b: nat,
    first: Seq<SamplePoint>,
    second: Seq<SamplePoint>,
)
    requires
        grid.wf(),
        a >= 1,
        b >= 1,
        kernel_deterministic(kernel, grid),
        is_frame_of(kernel, grid, a, first),
        is_frame_of(kernel, grid, b, second),
    ensures
        first.to_set() == second.to_set(),
        first.to_multiset() == second.to_multiset(),
{
    let f = choose|f: KernelFn|
        kernel_yields(kernel, f, scan_order(grid, a)) && first == #[trigger] frame_samples(
            grid,
            a,
            f,
        );
    let h = choose|h: KernelFn|
        kernel_yields(kernel, h, scan_order(grid, b)) && second == #[trigger] frame_samples(
            grid,
            b,
            h,
        );
    let scan_a = scan_order(grid, a);
    let scan_b = scan_order(grid, b);
    scan_covers_grid_once(grid, a);
    scan_covers_grid_once(grid, b);
    assert forall|t: int| 0 <= t < scan_b.len() implies emit(h)(#[trigger] scan_b[t]) == emit(f)(
        scan_b[t],
    ) by {
        let p = scan_b[t];
        assert(scan_b.contains((p.0, p.1)));
        assert(grid.covers(p.0, p.1));
        assert(scan_a.contains((p.0, p.1)));
        let u = choose|u: int| 0 <= u < scan_a.len() && scan_a[u] == p;
        assert(scan_a[u] == p);
    }
    lemma_filter_map_congruence(scan_b, emit(h), emit(f));
    frame_ignores_worker_count(grid, f, a, b);
}

} // verus!
