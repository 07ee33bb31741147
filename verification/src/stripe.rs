//! The partition of the grid into interleaved row stripes, one per worker.
//!
//! Worker `i` of `n` owns the rows `i`, `i + n`, `i + 2n`, ... up to the
//! grid's height, and scans every column of each. Stripes are interleaved so
//! that the costly regions of a picture are spread evenly over the workers.

use crate::grid::Grid;
use crate::seq_facts::{lemma_flatten_contains, lemma_flatten_no_duplicates};
use vstd::arithmetic::div_mod::{
    lemma_div_is_ordered,
    lemma_fundamental_div_mod,
    lemma_fundamental_div_mod_converse,
};
use vstd::prelude::*;

verus! {

/// The number of rows in the stripe of `worker`.
pub open spec fn stripe_len(grid: Grid, worker: nat, worker_count: nat) -> nat {
    if worker_count == 0 || worker > grid.height() {
        0
    } else {
        ((grid.height() - worker) / (worker_count as int) + 1) as nat
    }
}

/// The pixels of column `x` that belong to the stripe of `worker`, from the
/// top down.
pub open spec fn stripe_column(grid: Grid, worker: nat, worker_count: nat, x: int) -> Seq<
    (int, int),
> {
    Seq::new(stripe_len(grid, worker, worker_count), |m: int| (x, worker + m * worker_count))
}

/// The pixels that `worker` scans, in the order in which it scans them:
/// column after column, and each column from the top down.
pub open spec fn stripe_pixels(grid: Grid, worker: nat, worker_count: nat) -> Seq<(int, int)> {
    Seq::new(
        (grid.width() + 1) as nat,
        |x: int| stripe_column(grid, worker, worker_count, x),
    ).flatten()
}

/// The pixels of a whole frame in the order of the merged result: the stripe
/// of worker 0, then that of worker 1, and so on.
pub open spec fn scan_order(grid: Grid, worker_count: nat) -> Seq<(int, int)> {
    Seq::new(
        worker_count,
        |worker: int| stripe_pixels(grid, worker as nat, worker_count),
    ).flatten()
}

/// Whether pixel `(x, y)` lies in the stripe of `worker`.
pub open spec fn in_stripe(grid: Grid, worker: nat, worker_count: nat, x: int, y: int) -> bool {
    &&& 0 <= x <= grid.width()
    &&& worker <= y <= grid.height()
    &&& worker_count > 0
    &&& (y - worker) % (worker_count as int) == 0
}

/// The worker whose stripe holds row `y`.
pub open spec fn owner(worker_count: nat, y: int) -> nat {
    (y % (worker_count as int)) as nat
}

/// The row with index `m` in a stripe lies `m * step` below the first row,
/// within the `span` from the first row to the last row of the grid.
proof fn lemma_row_of_index(span: int, step: int, m: int)
    requires
        0 <= span,
        0 < step,
        0 <= m <= span / step,
    ensures
        0 <= m * step <= span,
        (m * step) % step == 0,
{
    lemma_fundamental_div_mod(span, step);
    assert(0 <= m * step <= (span / step) * step == step * (span / step)) by (nonlinear_arith)
        requires
            0 <= m <= span / step,
            0 < step,
    ;
    lemma_fundamental_div_mod_converse(m * step, step, m, 0);
}

/// A row that lies a multiple of `step` below the first row, within `span`,
/// has an index in the stripe.
proof fn lemma_index_of_row(span: int, step: int, below: int)
    requires
        0 < step,
        0 <= below <= span,
        below % step == 0,
    ensures
        0 <= below / step <= span / step,
        (below / step) * step == below,
{
    lemma_fundamental_div_mod(below, step);
    lemma_div_is_ordered(below, span, step);
    lemma_div_is_ordered(0, below, step);
    assert(step * (below / step) == (below / step) * step) by (nonlinear_arith);
}

/// A row within `span` is not past the last index of the stripe; and it is
/// the last row of the stripe if the next one would lie beyond `span`.
pub(crate) proof fn lemma_last_row(span: int, step: int, m: int)
    requires
        0 < step,
        0 <= m,
        m * step <= span,
    ensures
        m <= span / step,
        span < (m + 1) * step ==> span / step == m,
{
    assert(0 <= m * step && (m + 1) * step == m * step + step) by (nonlinear_arith)
        requires
            0 <= m,
            0 < step,
    ;
    lemma_fundamental_div_mod_converse(m * step, step, m, 0);
    lemma_div_is_ordered(m * step, span, step);
    if span < (m + 1) * step {
        lemma_fundamental_div_mod_converse(span, step, m, span - m * step);
    }
}

/// A column of a stripe holds each of its pixels once, and holds exactly the
/// pixels of that column that lie in the stripe.
proof fn lemma_stripe_column(grid: Grid, worker: nat, worker_count: nat, x: int)
    requires
        grid.wf(),
        worker_count >= 1,
    ensures
        stripe_column(grid, worker, worker_count, x).no_duplicates(),
        forall|px: int, py: int|
            stripe_column(grid, worker, worker_count, x).contains((px, py)) <==> px == x
                && worker <= py <= grid.height() && (py - worker) % (worker_count as int) == 0,
{
    let column = stripe_column(grid, worker, worker_count, x);
    let step = worker_count as int;
    let span = grid.height() - worker;
    assert forall|a: int, b: int| 0 <= a < column.len() && 0 <= b < column.len() && a != b implies column[a]
        != column[b] by {
        assert(a * step != b * step) by (nonlinear_arith)
            requires
                a != b,
                0 < step,
        ;
    }
    assert forall|px: int, py: int|
        column.contains((px, py)) <==> px == x && worker <= py <= grid.height() && (py - worker)
            % step == 0 by {
        if column.contains((px, py)) {
            let m = choose|m: int| 0 <= m < column.len() && column[m] == (px, py);
            lemma_row_of_index(span, step, m);
        }
        if px == x && worker <= py <= grid.height() && (py - worker) % step == 0 {
            lemma_index_of_row(span, step, py - worker);
            assert(column[(py - worker) / step] == (px, py));
        }
    }
}

/// A stripe holds each of its pixels once, and holds exactly the pixels that
/// `in_stripe` names.
pub proof fn stripe_holds_its_pixels_once(grid: Grid, worker: nat, worker_count: nat)
    requires
        grid.wf(),
        worker_count >= 1,
    ensures
        stripe_pixels(grid, worker, worker_count).no_duplicates(),
        forall|x: int, y: int|
            #![trigger stripe_pixels(grid, worker, worker_count).contains((x, y))]
            #![trigger in_stripe(grid, worker, worker_count, x, y)]
            stripe_pixels(grid, worker, worker_count).contains((x, y)) <==> in_stripe(
                grid,
                worker,
                worker_count,
                x,
                y,
            ),
{
    let columns = Seq::new(
        (grid.width() + 1) as nat,
        |x: int| stripe_column(grid, worker, worker_count, x),
    );
    assert forall|i: int| 0 <= i < columns.len() implies (#[trigger] columns[i]).no_duplicates() by {
        lemma_stripe_column(grid, worker, worker_count, i);
    }
    assert forall|i: int, j: int, p: (int, int)| 0 <= i < j < columns.len() implies !(
    #[trigger] columns[i].contains(p) && #[trigger] columns[j].contains(p)) by {
        lemma_stripe_column(grid, worker, worker_count, i);
        lemma_stripe_column(grid, worker, worker_count, j);
    }
    lemma_flatten_no_duplicates(columns);
    assert forall|x: int, y: int|
        stripe_pixels(grid, worker, worker_count).contains((x, y)) <==> in_stripe(
            grid,
            worker,
            worker_count,
            x,
            y,
        ) by {
        lemma_flatten_contains(columns, (x, y));
        if columns.flatten().contains((x, y)) {
            let i = choose|i: int| 0 <= i < columns.len() && #[trigger] columns[i].contains((x, y));
            lemma_stripe_column(grid, worker, worker_count, i);
        }
        if in_stripe(grid, worker, worker_count, x, y) {
            lemma_stripe_column(grid, worker, worker_count, x);
            assert(columns[x].contains((x, y)));
        }
    }
}

/// Each row of the grid belongs to the stripe of exactly one of the workers:
/// the one whose index is the row's number modulo the worker count.
pub proof fn row_has_one_owner(grid: Grid, worker: nat, worker_count: nat, x: int, y: int)
    requires
        grid.wf(),
        worker < worker_count,
    ensures
        in_stripe(grid, worker, worker_count, x, y) <==> grid.covers(x, y) && worker == owner(
            worker_count,
            y,
        ),
{
    let step = worker_count as int;
    if in_stripe(grid, worker, worker_count, x, y) {
        let q = (y - worker) / step;
        lemma_fundamental_div_mod(y - worker, step);
        assert(step * q == q * step) by (nonlinear_arith);
        lemma_fundamental_div_mod_converse(y, step, q, worker as int);
    }
    if grid.covers(x, y) && worker == owner(worker_count, y) {
        let q = y / step;
        lemma_fundamental_div_mod(y, step);
        assert(step * q == q * step) by (nonlinear_arith);
        lemma_fundamental_div_mod_converse(y - worker, step, q, 0);
    }
}

/// The pixels of the grid, each once, column after column.
spec fn grid_pixels(grid: Grid) -> Seq<(int, int)> {
    let rows = grid.height() + 1;
    Seq::new(((grid.width() + 1) * rows) as nat, |t: int| (t / rows, t % rows))
}

/// `grid_pixels` holds each pixel of the grid once, and nothing else.
proof fn lemma_grid_pixels(grid: Grid)
    requires
        grid.wf(),
    ensures
        grid_pixels(grid).len() == (grid.width() + 1) * (grid.height() + 1),
        grid_pixels(grid).no_duplicates(),
        forall|x: int, y: int| grid_pixels(grid).contains((x, y)) <==> grid.covers(x, y),
{
    let pixels = grid_pixels(grid);
    let rows = grid.height() + 1;
    let columns = grid.width() + 1;
    assert(0 <= columns * rows) by (nonlinear_arith)
        requires
            0 <= columns,
            0 <= rows,
    ;
    assert forall|a: int, b: int| 0 <= a < pixels.len() && 0 <= b < pixels.len() && a != b implies pixels[a]
        != pixels[b] by {
        lemma_fundamental_div_mod(a, rows);
        lemma_fundamental_div_mod(b, rows);
    }
    assert forall|x: int, y: int| pixels.contains((x, y)) <==> grid.covers(x, y) by {
        if pixels.contains((x, y)) {
            let t = choose|t: int| 0 <= t < pixels.len() && pixels[t] == (x, y);
            lemma_fundamental_div_mod(t, rows);
            assert(0 <= x < columns) by (nonlinear_arith)
                requires
                    0 <= t < columns * rows,
                    t == rows * x + y,
                    0 <= y < rows,
            ;
        }
        if grid.covers(x, y) {
            let t = x * rows + y;
            assert(0 <= t < columns * rows) by (nonlinear_arith)
                requires
                    t == x * rows + y,
                    0 <= x < columns,
                    0 <= y < rows,
            ;
            lemma_fundamental_div_mod_converse(t, rows, x, y);
            assert(pixels[t] == (x, y));
        }
    }
}

/// Whatever the number of workers, their stripes together scan every pixel of
/// the grid, and each pixel exactly once: the scan holds no pixel twice, it
/// holds the pixels of the grid and no others, and it is as long as the grid
/// has pixels.
pub proof fn scan_covers_grid_once(grid: Grid, worker_count: nat)
    requires
        grid.wf(),
        worker_count >= 1,
    ensures
        scan_order(grid, worker_count).no_duplicates(),
        forall|x: int, y: int|
            #![trigger scan_order(grid, worker_count).contains((x, y))]
            #![trigger grid.covers(x, y)]
            scan_order(grid, worker_count).contains((x, y)) <==> grid.covers(x, y),
        scan_order(grid, worker_count).len() == (grid.width() + 1) * (grid.height() + 1),
{
    let scan = scan_order(grid, worker_count);
    let stripes = Seq::new(
        worker_count,
        |worker: int| stripe_pixels(grid, worker as nat, worker_count),
    );
    assert forall|i: int| 0 <= i < stripes.len() implies (#[trigger] stripes[i]).no_duplicates() by {
        stripe_holds_its_pixels_once(grid, i as nat, worker_count);
    }
    assert forall|i: int, j: int, p: (int, int)| 0 <= i < j < stripes.len() implies !(
    #[trigger] stripes[i].contains(p) && #[trigger] stripes[j].contains(p)) by {
        stripe_holds_its_pixels_once(grid, i as nat, worker_count);
        stripe_holds_its_pixels_once(grid, j as nat, worker_count);
        row_has_one_owner(grid, i as nat, worker_count, p.0, p.1);
        row_has_one_owner(grid, j as nat, worker_count, p.0, p.1);
    }
    lemma_flatten_no_duplicates(stripes);
    assert forall|x: int, y: int| scan.contains((x, y)) <==> grid.covers(x, y) by {
        lemma_flatten_contains(stripes, (x, y));
        if scan.contains((x, y)) {
            let i = choose|i: int| 0 <= i < stripes.len() && #[trigger] stripes[i].contains((x, y));
            stripe_holds_its_pixels_once(grid, i as nat, worker_count);
            assert(in_stripe(grid, i as nat, worker_count, x, y));
        }
        if grid.covers(x, y) {
            let i = owner(worker_count, y);
            row_has_one_owner(grid, i, worker_count, x, y);
            stripe_holds_its_pixels_once(grid, i, worker_count);
            assert(stripes[i as int].contains((x, y)));
        }
    }
    // Two sequences without duplicates that hold the same elements are of one
    // length.
    lemma_grid_pixels(grid);
    assert forall|p: (int, int)| scan.contains(p) <==> grid_pixels(grid).contains(p) by {
        assert(p == (p.0, p.1));
        assert(scan.contains((p.0, p.1)) <==> grid.covers(p.0, p.1));
    }
    assert(scan.to_set() =~= grid_pixels(grid).to_set());
    scan.unique_seq_to_set();
    grid_pixels(grid).unique_seq_to_set();
}

} // verus!
