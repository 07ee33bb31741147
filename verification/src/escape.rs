//! Escape results, and the search for the step at which an orbit escapes.
//!
//! The orbit is a parameter: a start, a step from one point of the orbit to
//! the next, and a test that tells whether a point lies outside the escape
//! radius. The search counts the steps and decides the [`EscapeResult`].

use vstd::prelude::*;

verus! {

/// Iteration budget used when the caller configures none.
pub const DEFAULT_MAX_ITERATIONS: u32 = 1000;

/// Outcome of the escape-time test at one point of the plane.
///
/// `iteration` carries meaning only when `bounded` is false: it is then the
/// index of the step at which the orbit left the escape radius.
#[derive(Clone, Copy, Debug, PartialEq, Eq, Hash, Structural)]
pub struct EscapeResult {
    pub bounded: bool,
    pub iteration: u32,
}

impl EscapeResult {
    /// The result for a point whose orbit stayed inside the escape radius.
    pub fn bounded() -> (result: EscapeResult)
        ensures
            result == (EscapeResult { bounded: true, iteration: 0 }),
    {
        EscapeResult { bounded: true, iteration: 0 }
    }

    /// The result for a point whose orbit left the escape radius at step
    /// `iteration`.
    pub fn escaped(iteration: u32) -> (result: EscapeResult)
        ensures
            result == (EscapeResult { bounded: false, iteration }),
    {
        EscapeResult { bounded: false, iteration }
    }
}

/// The orbit can be followed from `start` for as long as one likes: the step
/// accepts the start, and whatever the step returns, both the test and the
/// step accept.
pub open spec fn orbit_can_run<T, S: Fn(T) -> T, E: Fn(T) -> bool>(
    step: S,
    outside: E,
    start: T,
) -> bool {
    &&& step.requires((start,))
    &&& forall|z: T, next: T| #[trigger]
        step.ensures((z,), next) ==> step.requires((next,)) && outside.requires((next,))
}

/// `trace` holds the points of an orbit from `start`, without the start:
/// `trace[0]` is a step from `start`, and each later point a step from the
/// one before it.
pub open spec fn is_orbit<T, S: Fn(T) -> T>(step: S, start: T, trace: Seq<T>) -> bool {
    forall|i: int|
        0 <= i < trace.len() ==> step.ensures(
            (if i == 0 {
                start
            } else {
                trace[i - 1]
            },),
            #[trigger] trace[i],
        )
}

/// The test finds none of the first `count` points of `trace` outside.
pub open spec fn stays_inside<T, E: Fn(T) -> bool>(outside: E, trace: Seq<T>, count: int) -> bool {
    forall|i: int| 0 <= i < count ==> outside.ensures((#[trigger] trace[i],), false)
}

/// `trace` accounts for `result` under a budget of `max_iterations` steps:
/// either the orbit ran through the whole budget without a point outside, and
/// the result is bounded, with iteration 0; or its last point is the first
/// one outside, and the result names that point's step.
pub open spec fn accounts_for<T, E: Fn(T) -> bool>(
    outside: E,
    trace: Seq<T>,
    max_iterations: u32,
    result: EscapeResult,
) -> bool {
    if result.bounded {
        &&& result.iteration == 0
        &&& trace.len() == max_iterations
        &&& stays_inside(outside, trace, max_iterations as int)
    } else {
        &&& result.iteration < max_iterations
        &&& trace.len() == result.iteration + 1
        &&& stays_inside(outside, trace, result.iteration as int)
        &&& outside.ensures((trace[result.iteration as int],), true)
    }
}

/// `result` is what the search returns on some run of the orbit.
pub open spec fn is_escape_time<T, S: Fn(T) -> T, E: Fn(T) -> bool>(
    step: S,
    outside: E,
    start: T,
    max_iterations: u32,
    result: EscapeResult,
) -> bool {
    exists|trace: Seq<T>| #[trigger]
        is_orbit(step, start, trace) && accounts_for(outside, trace, max_iterations, result)
}

/// Follows the orbit from `start` for at most `max_iterations` steps, and
/// tests each new point. The first point found outside ends the search: the
/// result is unbounded, with the index of that step, counted from 0. If the
/// budget runs out first, the result is bounded, with iteration 0.
pub fn escape_time<T, S, E>(start: T, max_iterations: u32, step: S, outside: E) -> (result:
    EscapeResult) where T: Copy, S: Fn(T) -> T, E: Fn(T) -> bool
    requires
        orbit_can_run(step, outside, start),
    ensures
        is_escape_time(step, outside, start, max_iterations, result),
        result.bounded ==> result.iteration == 0,
        !result.bounded ==> result.iteration < max_iterations,
{
    let ghost mut trace: Seq<T> = Seq::empty();
    let mut z = start;
    let mut n: u32 = 0;
    while n < max_iterations
        invariant
            n <= max_iterations,
            trace.len() == n,
            z == (if n == 0 {
                start
            } else {
                trace[n - 1]
            }),
            step.requires((z,)),
            orbit_can_run(step, outside, start),
            is_orbit(step, start, trace),
            stays_inside(outside, trace, n as int),
        decreases max_iterations - n,
    {
        z = step(z);
        proof {
            trace = trace.push(z);
            assert(is_orbit(step, start, trace));
        }
        if outside(z) {
            let result = EscapeResult::escaped(n);
            assert(accounts_for(outside, trace, max_iterations, result));
            return result;
        }
        n += 1;
    }
    let result = EscapeResult::bounded();
    assert(accounts_for(outside, trace, max_iterations, result));
    result
}

/// On each point the step has but one successor and the test but one answer.
pub open spec fn orbit_deterministic<T, S: Fn(T) -> T, E: Fn(T) -> bool>(step: S, outside: E) -> bool {
    &&& forall|z: T, one: T, other: T| #[trigger]
        step.ensures((z,), one) && #[trigger] step.ensures((z,), other) ==> one == other
    &&& forall|z: T, one: bool, other: bool| #[trigger]
        outside.ensures((z,), one) && #[trigger] outside.ensures((z,), other) ==> one == other
}

/// Two runs of a deterministic orbit from one start pass through the same
/// points, as far as both go.
proof fn lemma_orbits_agree<T, S: Fn(T) -> T, E: Fn(T) -> bool>(
    step: S,
    outside: E,
    start: T,
    one: Seq<T>,
    other: Seq<T>,
    i: int,
)
    requires
        orbit_deterministic(step, outside),
        is_orbit(step, start, one),
        is_orbit(step, start, other),
        0 <= i < one.len(),
        i < other.len(),
    ensures
        one[i] == other[i],
    decreases i,
{
    if i > 0 {
        lemma_orbits_agree(step, outside, start, one, other, i - 1);
    }
}

/// Once an orbit has been found to escape, a larger budget changes nothing:
/// under a deterministic step and test, the search reports the same step.
pub proof fn budget_keeps_escape<T, S: Fn(T) -> T, E: Fn(T) -> bool>(
    step: S,
    outside: E,
    start: T,
    small: u32,
    large: u32,
    first: EscapeResult,
    second: EscapeResult,
)
    requires
        orbit_deterministic(step, outside),
        small <= large,
        is_escape_time(step, outside, start, small, first),
        is_escape_time(step, outside, start, large, second),
        !first.bounded,
    ensures
        second == first,
{
    let one = choose|trace: Seq<T>| #[trigger]
        is_orbit(step, start, trace) && accounts_for(outside, trace, small, first);
    let other = choose|trace: Seq<T>| #[trigger]
        is_orbit(step, start, trace) && accounts_for(outside, trace, large, second);
    let k = first.iteration as int;
    if second.bounded || second.iteration > k {
        // The second run passes the step at which the first one escaped.
        lemma_orbits_agree(step, outside, start, one, other, k);
        assert(outside.ensures((other[k],), false));
        assert(outside.ensures((one[k],), true));
    } else if second.iteration < k {
        // The first run passes the step at which the second one escaped.
        let j = second.iteration as int;
        lemma_orbits_agree(step, outside, start, one, other, j);
        assert(outside.ensures((one[j],), false));
        assert(outside.ensures((other[j],), true));
    }
}

/// The second orbit is the mirror image of the first: its step takes the
/// image of a point to the image of that point's successor, and the test has
/// one answer for a point and its image.
pub open spec fn orbits_mirrored<T, S: Fn(T) -> T, M: Fn(T) -> T, E: Fn(T) -> bool>(
    step: S,
    mirrored: M,
    outside: E,
    mirror: spec_fn(T) -> T,
) -> bool {
    &&& forall|z: T, next: T, image: T| #[trigger]
        step.ensures((z,), next) && #[trigger] mirrored.ensures((mirror(z),), image) ==> image
            == mirror(next)
    &&& forall|z: T, one: bool, other: bool| #[trigger]
        outside.ensures((z,), one) && #[trigger] outside.ensures((mirror(z),), other) ==> one
            == other
}

/// A run of the mirrored orbit passes through the images of the points of a
/// run of the first orbit, as far as both go.
proof fn lemma_orbits_mirror<T, S: Fn(T) -> T, M: Fn(T) -> T, E: Fn(T) -> bool>(
    step: S,
    mirrored: M,
    outside: E,
    mirror: spec_fn(T) -> T,
    start: T,
    one: Seq<T>,
    other: Seq<T>,
    i: int,
)
    requires
        orbits_mirrored(step, mirrored, outside, mirror),
        is_orbit(step, start, one),
        is_orbit(mirrored, mirror(start), other),
        0 <= i < one.len(),
        i < other.len(),
    ensures
        other[i] == mirror(one[i]),
    decreases i,
{
    if i > 0 {
        lemma_orbits_mirror(step, mirrored, outside, mirror, start, one, other, i - 1);
        assert(step.ensures((one[i - 1],), one[i]));
        assert(mirrored.ensures((mirror(one[i - 1]),), other[i]));
    } else {
        assert(step.ensures((start,), one[0]));
        assert(mirrored.ensures((mirror(start),), other[0]));
    }
}

/// An orbit and its mirror image escape alike: under one budget, the search
/// has the same result for both.
pub proof fn mirrored_orbits_escape_alike<T, S: Fn(T) -> T, M: Fn(T) -> T, E: Fn(T) -> bool>(
    step: S,
    mirrored: M,
    outside: E,
    mirror: spec_fn(T) -> T,
    start: T,
    max_iterations: u32,
    first: EscapeResult,
    second: EscapeResult,
)
    requires
        orbits_mirrored(step, mirrored, outside, mirror),
        is_escape_time(step, outside, start, max_iterations, first),
        is_escape_time(mirrored, outside, mirror(start), max_iterations, second),
    ensures
        second == first,
{
    let one = choose|trace: Seq<T>| #[trigger]
        is_orbit(step, start, trace) && accounts_for(outside, trace, max_iterations, first);
    let other = choose|trace: Seq<T>| #[trigger]
        is_orbit(mirrored, mirror(start), trace) && accounts_for(
            outside,
            trace,
            max_iterations,
            second,
        );
    if !first.bounded {
        let k = first.iteration as int;
        if second.bounded || second.iteration > k {
            // The mirrored run passes the step at which the first one escaped.
            lemma_orbits_mirror(step, mirrored, outside, mirror, start, one, other, k);
            assert(outside.ensures((one[k],), true));
            assert(outside.ensures((other[k],), false));
        } else if second.iteration < k {
            // The first run passes the step at which the mirrored one escaped.
            let j = second.iteration as int;
            lemma_orbits_mirror(step, mirrored, outside, mirror, start, one, other, j);
            assert(outside.ensures((one[j],), false));
            assert(outside.ensures((other[j],), true));
        }
    } else if !second.bounded {
        // The first run passes the step at which the mirrored one escaped.
        let j = second.iteration as int;
        lemma_orbits_mirror(step, mirrored, outside, mirror, start, one, other, j);
        assert(outside.ensures((one[j],), false));
        assert(outside.ensures((other[j],), true));
    }
}

} // verus!
