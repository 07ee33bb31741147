//! Merging the workers' results into one frame.

use crate::sample::SamplePoint;
use vstd::prelude::*;

verus! {

/// Why a frame could not be put together.
#[derive(Clone, Copy, Debug, PartialEq, Eq, Structural)]
pub enum FrameError {
    /// The worker with this index did not complete its stripe; it is the
    /// first such worker.
    WorkerFailed { worker: usize },
}

/// The parts as sequences, in order.
pub open spec fn part_views(parts: Seq<Vec<SamplePoint>>) -> Seq<Seq<SamplePoint>> {
    parts.map_values(|part: Vec<SamplePoint>| part@)
}

/// The samples of the workers that completed, as sequences, in worker order;
/// a worker that failed stands in it with no sample.
pub open spec fn outcome_views(outcomes: Seq<Option<Vec<SamplePoint>>>) -> Seq<Seq<SamplePoint>> {
    outcomes.map_values(
        |outcome: Option<Vec<SamplePoint>>|
            match outcome {
                Some(part) => part@,
                None => Seq::empty(),
            },
    )
}

/// Appends the samples of `part` to `merged`, in order.
fn append_part(merged: &mut Vec<SamplePoint>, part: &Vec<SamplePoint>)
    ensures
        final(merged)@ == old(merged)@ + part@,
{
    let ghost start = merged@;
    let mut j: usize = 0;
    while j < part.len()
        invariant
            j <= part.len(),
            merged@ == start + part@.take(j as int),
        decreases part.len() - j,
    {
        assert(part@.take(j + 1) =~= part@.take(j as int).push(part@[j as int]));
        merged.push(part[j]);
        j += 1;
    }
    assert(part@.take(j as int) =~= part@);
}

/// Concatenates the workers' results in worker order.
pub fn merge(parts: Vec<Vec<SamplePoint>>) -> (merged: Vec<SamplePoint>)
    ensures
        merged@ == part_views(parts@).flatten(),
{
    let ghost views = part_views(parts@);
    let mut merged: Vec<SamplePoint> = Vec::new();
    let mut i: usize = 0;
    proof {
        assert(views.take(0) =~= Seq::<Seq<SamplePoint>>::empty());
        assert(views.take(0).flatten() =~= Seq::<SamplePoint>::empty());
    }
    while i < parts.len()
        invariant
            i <= parts.len(),
            views == part_views(parts@),
            merged@ == views.take(i as int).flatten(),
        decreases parts.len() - i,
    {
        append_part(&mut merged, &parts[i]);
        proof {
            assert(views.take(i + 1) =~= views.take(i as int).push(views[i as int]));
            views.take(i as int).lemma_flatten_push(views[i as int]);
        }
        i += 1;
    }
    proof {
        assert(views.take(i as int) =~= views);
    }
    merged
}

/// Puts a frame together from the outcomes of the workers, where `None`
/// stands for a worker that failed. A frame is all or nothing: one failed
/// worker fails the frame, and no part of it is handed out.
pub fn merge_outcomes(outcomes: Vec<Option<Vec<SamplePoint>>>) -> (frame: Result<
    Vec<SamplePoint>,
    FrameError,
>)
    ensures
        frame is Ok <==> forall|t: int| 0 <= t < outcomes.len() ==> (#[trigger] outcomes[t]) is Some,
        frame matches Ok(samples) ==> samples@ == outcome_views(outcomes@).flatten(),
        frame matches Err(FrameError::WorkerFailed { worker }) ==> worker < outcomes.len()
            && outcomes[worker as int] is None && forall|t: int|
            0 <= t < worker ==> (#[trigger] outcomes[t]) is Some,
{
    let ghost views = outcome_views(outcomes@);
    let mut merged: Vec<SamplePoint> = Vec::new();
    let mut i: usize = 0;
    proof {
        assert(views.take(0) =~= Seq::<Seq<SamplePoint>>::empty());
        assert(views.take(0).flatten() =~= Seq::<SamplePoint>::empty());
    }
    while i < outcomes.len()
        invariant
            i <= outcomes.len(),
            views == outcome_views(outcomes@),
            merged@ == views.take(i as int).flatten(),
            forall|t: int| 0 <= t < i ==> (#[trigger] outcomes[t]) is Some,
        decreases outcomes.len() - i,
    {
        match &outcomes[i] {
            Some(part) => {
                append_part(&mut merged, part);
                proof {
                    assert(views.take(i + 1) =~= views.take(i as int).push(views[i as int]));
                    views.take(i as int).lemma_flatten_push(views[i as int]);
                }
            },
            None => {
                return Err(FrameError::WorkerFailed { worker: i });
            },
        }
        i += 1;
    }
    proof {
        assert(views.take(i as int) =~= views);
    }
    Ok(merged)
}

} // verus!
