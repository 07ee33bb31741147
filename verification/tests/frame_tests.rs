use mandelbrot::frame::{configured_worker_count, render_frame, DEFAULT_WORKER_COUNT};
use mandelbrot::grid::Grid;
use mandelbrot::merge::merge;
use mandelbrot::escape::{escape_time, EscapeResult, DEFAULT_MAX_ITERATIONS};
use mandelbrot::sample::{Color, SamplePoint};
use mandelbrot::scan::scan_stripe;
use std::cell::RefCell;
use std::collections::{HashMap, HashSet};

fn interpolate(value: f64, in_min: f64, in_max: f64, out_min: f64, out_max: f64) -> f64 {
    (value - in_min) * (out_max - out_min) / (in_max - in_min) + out_min
}

fn point_escape(c_real: f64, c_imag: f64, max_iterations: u32) -> EscapeResult {
    let p = (c_real - 0.25).powi(2) + c_imag.powi(2);
    if c_real < p.sqrt() - 2.0 * p + 0.25 || (c_real + 1.0).powi(2) + c_imag.powi(2) < 1.0 / 16.0 {
        return EscapeResult::bounded();
    }
    escape_time(
        (0.0, 0.0),
        max_iterations,
        |(x, y): (f64, f64)| (x * x - y * y + c_real, 2.0 * x * y + c_imag),
        |(x, y): (f64, f64)| x * x + y * y > 4.0,
    )
}

fn classic_kernel(width: f64, height: f64, max_iterations: u32) -> impl Fn(i32, i32) -> EscapeResult + Copy {
    move |x: i32, y: i32| {
        let c_real = interpolate(x as f64, 0.0, width, -2.0, 0.5);
        let c_imag = interpolate(y as f64, 0.0, height, -1.12, 1.12);
        point_escape(c_real, c_imag, max_iterations)
    }
}

fn checkerboard(x: i32, y: i32) -> EscapeResult {
    if (x + y) % 3 == 0 {
        EscapeResult::bounded()
    } else {
        EscapeResult::escaped((x * 31 + y) as u32)
    }
}

fn as_set(samples: &[SamplePoint]) -> HashSet<SamplePoint> {
    samples.iter().copied().collect()
}

#[test]
fn defaults_are_four_workers_and_a_thousand_iterations() {
    assert_eq!(DEFAULT_WORKER_COUNT, 4);
    assert_eq!(DEFAULT_MAX_ITERATIONS, 1000);
}

#[test]
fn first_setting_configures_the_worker_count() {
    assert_eq!(configured_worker_count(Some(8), None), 8);
    assert_eq!(configured_worker_count(Some(8), Some(2)), 8);
    assert_eq!(configured_worker_count(Some(0), Some(2)), 0);
}

#[test]
fn second_setting_stands_in_for_a_missing_first() {
    assert_eq!(configured_worker_count(None, Some(2)), 2);
    assert_eq!(configured_worker_count(None, Some(usize::MAX)), usize::MAX);
}

#[test]
fn default_worker_count_stands_in_for_missing_settings() {
    assert_eq!(configured_worker_count(None, None), 4);
}

#[test]
fn frame_lists_the_stripes_in_worker_order() {
    let grid = Grid::new(1, 1).expect("positive dimensions");
    let kernel = |x: i32, y: i32| {
        if x != 0 {
            EscapeResult::bounded()
        } else {
            EscapeResult::escaped(y as u32)
        }
    };
    let samples = render_frame(&grid, 2, kernel);
    assert_eq!(
        samples,
        vec![
            SamplePoint { x: 0, y: 0, color: Color { red: 255, green: 0, blue: 0 } },
            SamplePoint { x: 0, y: 1, color: Color { red: 255, green: 15, blue: 0 } },
        ]
    );
}

#[test]
fn frame_of_one_worker_is_column_major() {
    let grid = Grid::new(2, 1).expect("positive dimensions");
    let samples = render_frame(&grid, 1, |_x: i32, _y: i32| EscapeResult::escaped(1));
    let seen: Vec<(i32, i32)> = samples.iter().map(|s| (s.x, s.y)).collect();
    assert_eq!(seen, vec![(0, 0), (0, 1), (1, 0), (1, 1), (2, 0), (2, 1)]);
}

#[test]
fn frame_of_three_workers_interleaves_rows() {
    let grid = Grid::new(1, 4).expect("positive dimensions");
    let samples = render_frame(&grid, 3, |_x: i32, _y: i32| EscapeResult::escaped(1));
    let seen: Vec<(i32, i32)> = samples.iter().map(|s| (s.x, s.y)).collect();
    assert_eq!(
        seen,
        vec![(0, 0), (0, 3), (1, 0), (1, 3), (0, 1), (0, 4), (1, 1), (1, 4), (0, 2), (1, 2)]
    );
}

#[test]
fn frame_without_workers_is_empty() {
    let grid = Grid::new(10, 10).expect("positive dimensions");
    let calls = RefCell::new(0usize);
    let samples = render_frame(&grid, 0, |_x: i32, _y: i32| {
        *calls.borrow_mut() += 1;
        EscapeResult::escaped(0)
    });
    assert!(samples.is_empty());
    assert_eq!(*calls.borrow(), 0);
}

#[test]
fn frame_calls_the_kernel_once_on_each_pixel() {
    let grid = Grid::new(7, 5).expect("positive dimensions");
    for worker_count in [1usize, 2, 3, 4, 5, 6, 7, 8, 100] {
        let visits: RefCell<HashMap<(i32, i32), usize>> = RefCell::new(HashMap::new());
        let samples = render_frame(&grid, worker_count, |x: i32, y: i32| {
            *visits.borrow_mut().entry((x, y)).or_insert(0) += 1;
            EscapeResult::escaped(0)
        });
        let visits = visits.into_inner();
        assert_eq!(samples.len(), 8 * 6);
        assert_eq!(visits.len(), 8 * 6);
        assert!(visits.values().all(|&count| count == 1));
        for x in 0..=7 {
            for y in 0..=5 {
                assert!(visits.contains_key(&(x, y)));
            }
        }
    }
}

#[test]
fn frame_holds_each_escaped_pixel_once() {
    let grid = Grid::new(9, 11).expect("positive dimensions");
    let samples = render_frame(&grid, 4, checkerboard);
    let mut expected = HashSet::new();
    for x in 0..=9 {
        for y in 0..=11 {
            if (x + y) % 3 != 0 {
                expected.insert(SamplePoint { x, y, color: Color::escape((x * 31 + y) as u32) });
            }
        }
    }
    assert_eq!(samples.len(), expected.len());
    assert_eq!(as_set(&samples), expected);
}

#[test]
fn one_worker_and_eight_workers_render_the_same_samples() {
    let grid = Grid::new(40, 33).expect("positive dimensions");
    let one = render_frame(&grid, 1, checkerboard);
    let eight = render_frame(&grid, 8, checkerboard);
    assert_eq!(one.len(), eight.len());
    assert_eq!(as_set(&one), as_set(&eight));
    // The order differs: eight workers interleave the rows.
    assert_ne!(one, eight);
}

#[test]
fn worker_count_does_not_change_the_samples() {
    let grid = Grid::new(12, 17).expect("positive dimensions");
    let reference = as_set(&render_frame(&grid, 1, checkerboard));
    for worker_count in 2..=40usize {
        let samples = render_frame(&grid, worker_count, checkerboard);
        assert_eq!(samples.len(), reference.len());
        assert_eq!(as_set(&samples), reference);
    }
}

#[test]
fn more_workers_than_rows_is_a_finer_partition() {
    let grid = Grid::new(3, 2).expect("positive dimensions");
    let few = render_frame(&grid, 3, checkerboard);
    let many = render_frame(&grid, 1000, checkerboard);
    assert_eq!(few, many);
}

#[test]
fn frame_is_the_merge_of_the_stripes() {
    let grid = Grid::new(15, 22).expect("positive dimensions");
    for worker_count in [1usize, 2, 4, 5, 23, 24, 50] {
        let parts: Vec<Vec<SamplePoint>> =
            (0..worker_count).map(|worker| scan_stripe(&grid, worker, worker_count, &checkerboard)).collect();
        assert_eq!(render_frame(&grid, worker_count, checkerboard), merge(parts));
    }
}

#[test]
fn origin_is_bounded_under_every_budget() {
    for budget in [1u32, 2, 3, 10, 1000, 1_000_000] {
        assert_eq!(point_escape(0.0, 0.0, budget), EscapeResult::bounded());
    }
}

#[test]
fn conjugate_points_escape_alike() {
    for step_real in 0..60 {
        for step_imag in 0..30 {
            let c_real = -2.0 + step_real as f64 * 0.0417;
            let c_imag = step_imag as f64 * 0.0373;
            assert_eq!(point_escape(c_real, c_imag, 300), point_escape(c_real, -c_imag, 300));
        }
    }
}

#[test]
fn found_escape_stays_under_a_larger_budget() {
    for step_real in 0..60 {
        for step_imag in 0..30 {
            let c_real = -2.0 + step_real as f64 * 0.0417;
            let c_imag = step_imag as f64 * 0.0373;
            let found = point_escape(c_real, c_imag, 50);
            if !found.bounded {
                assert!(found.iteration < 50);
                assert_eq!(point_escape(c_real, c_imag, 51), found);
                assert_eq!(point_escape(c_real, c_imag, 5000), found);
            }
        }
    }
}

#[test]
fn classic_view_top_left_escapes_at_once() {
    let grid = Grid::new(1000, 744).expect("positive dimensions");
    let kernel = classic_kernel(1000.0, 744.0, DEFAULT_MAX_ITERATIONS);
    let samples = render_frame(&grid, DEFAULT_WORKER_COUNT, kernel);
    let top_left: Vec<&SamplePoint> = samples.iter().filter(|s| s.x == 0 && s.y == 0).collect();
    assert_eq!(top_left.len(), 1);
    assert_eq!(top_left[0].color, Color { red: 255, green: 0, blue: 0 });
    // Worker 0 owns row 0 and scans column 0 first.
    assert_eq!(samples[0], SamplePoint { x: 0, y: 0, color: Color::escape(0) });
}

#[test]
fn classic_view_bulb_centre_is_bounded() {
    let grid = Grid::new(1000, 744).expect("positive dimensions");
    let kernel = classic_kernel(1000.0, 744.0, DEFAULT_MAX_ITERATIONS);
    // Column 400 and row 372 show the point -1 + 0i.
    assert_eq!(kernel(400, 372), EscapeResult::bounded());
    let samples = render_frame(&grid, DEFAULT_WORKER_COUNT, kernel);
    assert!(samples.iter().all(|s| !(s.x == 400 && s.y == 372)));
    // Both kinds of pixel occur, and none lies outside the grid.
    assert!(!samples.is_empty());
    assert!(samples.len() < 1001 * 745);
    assert!(samples.iter().all(|s| 0 <= s.x && s.x <= 1000 && 0 <= s.y && s.y <= 744));
}

#[test]
fn classic_view_is_the_same_for_one_and_eight_workers() {
    let grid = Grid::new(200, 149).expect("positive dimensions");
    let kernel = classic_kernel(200.0, 149.0, 200);
    let one = render_frame(&grid, 1, kernel);
    let eight = render_frame(&grid, 8, kernel);
    assert_eq!(one.len(), eight.len());
    assert_eq!(as_set(&one), as_set(&eight));
}
