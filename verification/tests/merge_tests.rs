use mandelbrot::merge::{merge, merge_outcomes, FrameError};
use mandelbrot::sample::{Color, SamplePoint};

fn point(x: i32, y: i32) -> SamplePoint {
    SamplePoint { x, y, color: Color::escape(y as u32) }
}

#[test]
fn merge_keeps_worker_order() {
    let parts = vec![vec![point(0, 0), point(1, 0)], vec![point(0, 1)], vec![point(0, 2), point(1, 2)]];
    let merged = merge(parts);
    assert_eq!(merged, vec![point(0, 0), point(1, 0), point(0, 1), point(0, 2), point(1, 2)]);
}

#[test]
fn merge_of_nothing_is_empty() {
    assert!(merge(Vec::new()).is_empty());
}

#[test]
fn merge_passes_over_empty_parts() {
    let parts = vec![Vec::new(), vec![point(4, 1)], Vec::new(), Vec::new(), vec![point(2, 4)]];
    assert_eq!(merge(parts), vec![point(4, 1), point(2, 4)]);
}

#[test]
fn merge_keeps_repeated_samples() {
    let parts = vec![vec![point(1, 1)], vec![point(1, 1)]];
    assert_eq!(merge(parts), vec![point(1, 1), point(1, 1)]);
}

#[test]
fn outcomes_of_completed_workers_merge_in_order() {
    let outcomes = vec![Some(vec![point(0, 0)]), Some(Vec::new()), Some(vec![point(0, 2), point(1, 2)])];
    assert_eq!(merge_outcomes(outcomes), Ok(vec![point(0, 0), point(0, 2), point(1, 2)]));
}

#[test]
fn no_outcomes_make_an_empty_frame() {
    assert_eq!(merge_outcomes(Vec::new()), Ok(Vec::new()));
}

#[test]
fn one_failed_worker_fails_the_frame() {
    let outcomes = vec![Some(vec![point(0, 0)]), None, Some(vec![point(0, 2)])];
    assert_eq!(merge_outcomes(outcomes), Err(FrameError::WorkerFailed { worker: 1 }));
}

#[test]
fn first_failed_worker_is_reported() {
    let outcomes = vec![Some(vec![point(0, 0)]), Some(vec![point(0, 1)]), None, None, Some(Vec::new()), None];
    assert_eq!(merge_outcomes(outcomes), Err(FrameError::WorkerFailed { worker: 2 }));
}

#[test]
fn failure_of_the_first_worker_is_reported() {
    let outcomes: Vec<Option<Vec<SamplePoint>>> = vec![None];
    assert_eq!(merge_outcomes(outcomes), Err(FrameError::WorkerFailed { worker: 0 }));
}

#[test]
fn failure_of_the_last_worker_is_reported() {
    let outcomes = vec![Some(vec![point(0, 0)]), Some(vec![point(0, 1)]), None];
    assert_eq!(merge_outcomes(outcomes), Err(FrameError::WorkerFailed { worker: 2 }));
}
