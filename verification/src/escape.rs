//! The escape-time test: how long a point's orbit stays bounded.
//!
//! An orbit starts from a state and is moved on by a step, which also says
//! whether the state it arrives at has left the bounded region. The test counts
//! the steps up to the first that leaves, within an iteration budget. What a
//! state is and how a step computes is the caller's affair; this module decides
//! when to stop and what to report.

use vstd::prelude::*;

verus! {

/// `step` can take the orbit from `start` to `end` in `steps` steps, none of
/// which leaves the bounded region.
pub open spec fn stays<Z, S: Fn(Z) -> (Z, bool)>(step: S, start: Z, steps: nat, end: Z) -> bool
    decreases steps,
{
    if steps == 0 {
        end == start
    } else {
        exists|mid: Z|
            stays(step, start, (steps - 1) as nat, mid) && #[trigger] call_ensures(
                step,
                (mid,),
                (end, false),
            )
    }
}

/// `step` can take the orbit from `start` through `steps` bounded steps and then
/// out of the bounded region with the next one.
pub open spec fn leaves_after<Z, S: Fn(Z) -> (Z, bool)>(step: S, start: Z, steps: nat) -> bool {
    exists|last: Z, out: Z|
        stays(step, start, steps, last) && #[trigger] call_ensures(step, (last,), (out, true))
}

/// `step` can keep the orbit from `start` bounded for `steps` steps.
pub open spec fn stays_for<Z, S: Fn(Z) -> (Z, bool)>(step: S, start: Z, steps: nat) -> bool {
    exists|end: Z| stays(step, start, steps, end)
}

/// `outcome` is an escape time of the orbit from `start` under `step`, within
/// `limit` iterations: `Some(i)` where the step numbered `i`, counted from 0, is
/// the first to leave the bounded region, and `None` where `limit` steps all
/// stay inside.
pub open spec fn is_escape_time<Z, S: Fn(Z) -> (Z, bool)>(
    step: S,
    start: Z,
    limit: u32,
    outcome: Option<u32>,
) -> bool {
    match outcome {
        Some(i) => i < limit && leaves_after(step, start, i as nat),
        None => stays_for(step, start, limit as nat),
    }
}

/// `step` has one answer for each state.
pub open spec fn is_function<Z, S: Fn(Z) -> (Z, bool)>(step: S) -> bool {
    forall|state: Z, one: (Z, bool), other: (Z, bool)|
        #[trigger] call_ensures(step, (state,), one) && #[trigger] call_ensures(
            step,
            (state,),
            other,
        ) ==> one == other
}

/// Under a step with one answer for each state, an orbit is in one place after
/// a number of bounded steps.
pub proof fn lemma_stays_in_one_place<Z, S: Fn(Z) -> (Z, bool)>(
    step: S,
    start: Z,
    steps: nat,
    end: Z,
    other: Z,
)
    requires
        is_function(step),
        stays(step, start, steps, end),
        stays(step, start, steps, other),
    ensures
        end == other,
    decreases steps,
{
    if steps > 0 {
        let before = (steps - 1) as nat;
        let mid = choose|mid: Z|
            stays(step, start, before, mid) && #[trigger] call_ensures(step, (mid,), (end, false));
        let other_mid = choose|mid: Z|
            stays(step, start, before, mid) && #[trigger] call_ensures(
                step,
                (mid,),
                (other, false),
            );
        lemma_stays_in_one_place(step, start, before, mid, other_mid);
        assert((end, false) == (other, false));
    }
}

/// An orbit that stays bounded for some steps stays bounded for any fewer.
pub proof fn lemma_stays_for_fewer<Z, S: Fn(Z) -> (Z, bool)>(
    step: S,
    start: Z,
    steps: nat,
    fewer: nat,
)
    requires
        stays_for(step, start, steps),
        fewer <= steps,
    ensures
        stays_for(step, start, fewer),
    decreases steps,
{
    if fewer < steps {
        let end = choose|end: Z| stays(step, start, steps, end);
        let mid = choose|mid: Z|
            stays(step, start, (steps - 1) as nat, mid) && #[trigger] call_ensures(
                step,
                (mid,),
                (end, false),
            );
        lemma_stays_for_fewer(step, start, (steps - 1) as nat, fewer);
    }
}

/// Under a step with one answer for each state, an orbit cannot both leave the
/// bounded region after some steps and stay inside for more than those.
pub proof fn lemma_leaves_or_stays<Z, S: Fn(Z) -> (Z, bool)>(
    step: S,
    start: Z,
    steps: nat,
    longer: nat,
)
    requires
        is_function(step),
        leaves_after(step, start, steps),
        steps < longer,
    ensures
        !stays_for(step, start, longer),
{
    if stays_for(step, start, longer) {
        let beyond = steps + 1;
        lemma_stays_for_fewer(step, start, longer, beyond);
        let end = choose|end: Z| stays(step, start, beyond, end);
        let mid = choose|mid: Z|
            stays(step, start, steps, mid) && #[trigger] call_ensures(step, (mid,), (end, false));
        let (last, out) = choose|last: Z, out: Z|
            stays(step, start, steps, last) && #[trigger] call_ensures(step, (last,), (out, true));
        lemma_stays_in_one_place(step, start, steps, mid, last);
        assert((end, false) == (out, true));
    }
}

/// Under a step with one answer for each state, a point has one escape time:
/// the test's result is then determined by the start, the limit and the step.
pub proof fn lemma_escape_time_is_unique<Z, S: Fn(Z) -> (Z, bool)>(
    step: S,
    start: Z,
    limit: u32,
    outcome: Option<u32>,
    other: Option<u32>,
)
    requires
        is_function(step),
        is_escape_time(step, start, limit, outcome),
        is_escape_time(step, start, limit, other),
    ensures
        outcome == other,
{
    match (outcome, other) {
        (Some(i), Some(j)) => {
            if i < j {
                let (last, out) = choose|last: Z, out: Z|
                    stays(step, start, j as nat, last) && #[trigger] call_ensures(
                        step,
                        (last,),
                        (out, true),
                    );
                lemma_leaves_or_stays(step, start, i as nat, j as nat);
            } else if j < i {
                let (last, out) = choose|last: Z, out: Z|
                    stays(step, start, i as nat, last) && #[trigger] call_ensures(
                        step,
                        (last,),
                        (out, true),
                    );
                lemma_leaves_or_stays(step, start, j as nat, i as nat);
            }
        },
        (Some(i), None) => {
            lemma_leaves_or_stays(step, start, i as nat, limit as nat);
        },
        (None, Some(j)) => {
            lemma_leaves_or_stays(step, start, j as nat, limit as nat);
        },
        (None, None) => {},
    }
}

/// A point whose orbit cannot leave is a member for every limit: where the
/// start lies in a set of states that no step leaves, and no step from a state
/// of that set leaves the bounded region, the only escape time is `None`.
pub proof fn lemma_never_leaving_is_member<Z, S: Fn(Z) -> (Z, bool)>(
    step: S,
    start: Z,
    limit: u32,
    outcome: Option<u32>,
    safe: spec_fn(Z) -> bool,
)
    requires
        safe(start),
        forall|state: Z, next: Z, escaped: bool|
            safe(state) && #[trigger] call_ensures(step, (state,), (next, escaped)) ==> safe(next)
                && !escaped,
        is_escape_time(step, start, limit, outcome),
    ensures
        outcome is None,
{
    if let Some(i) = outcome {
        let (last, out) = choose|last: Z, out: Z|
            stays(step, start, i as nat, last) && #[trigger] call_ensures(step, (last,), (out, true));
        lemma_stays_inside(step, start, i as nat, last, safe);
    }
}

/// An orbit that starts in a set of states that no step leaves is still in it
/// after any number of bounded steps.
pub proof fn lemma_stays_inside<Z, S: Fn(Z) -> (Z, bool)>(
    step: S,
    start: Z,
    steps: nat,
    end: Z,
    safe: spec_fn(Z) -> bool,
)
    requires
        safe(start),
        forall|state: Z, next: Z, escaped: bool|
            safe(state) && #[trigger] call_ensures(step, (state,), (next, escaped)) ==> safe(next)
                && !escaped,
        stays(step, start, steps, end),
    ensures
        safe(end),
    decreases steps,
{
    if steps > 0 {
        let mid = choose|mid: Z|
            stays(step, start, (steps - 1) as nat, mid) && #[trigger] call_ensures(
                step,
                (mid,),
                (end, false),
            );
        lemma_stays_inside(step, start, (steps - 1) as nat, mid, safe);
    }
}

/// A point whose first step already leaves the bounded region escapes at
/// iteration 0, whatever the limit, as long as there is one step to take.
pub proof fn lemma_leaving_at_once_is_zero<Z, S: Fn(Z) -> (Z, bool)>(
    step: S,
    start: Z,
    limit: u32,
    outcome: Option<u32>,
)
    requires
        limit >= 1,
        forall|next: Z, escaped: bool| #[trigger]
            call_ensures(step, (start,), (next, escaped)) ==> escaped,
        is_escape_time(step, start, limit, outcome),
    ensures
        outcome == Some(0u32),
{
    let steps: nat = match outcome {
        Some(i) => i as nat,
        None => limit as nat,
    };
    if steps >= 1 {
        if let Some(i) = outcome {
            let (last, out) = choose|last: Z, out: Z|
                stays(step, start, i as nat, last) && #[trigger] call_ensures(
                    step,
                    (last,),
                    (out, true),
                );
        }
        assert(stays_for(step, start, steps));
        lemma_stays_for_fewer(step, start, steps, 1);
        let end = choose|end: Z| stays(step, start, 1, end);
        let mid = choose|mid: Z|
            stays(step, start, 0, mid) && #[trigger] call_ensures(step, (mid,), (end, false));
        assert(mid == start);
    }
}

/// Counts the steps of an orbit up to the first that leaves the bounded region.
///
/// Starting from `start`, `step` is applied at most `limit` times. If the step
/// numbered `i`, counted from 0, is the first to report that the orbit has left,
/// the result is `Some(i)`. If `limit` steps all stay inside, the point counts as
/// a member and the result is `None`.
pub fn escape_time<Z, S: Fn(Z) -> (Z, bool)>(start: Z, limit: u32, step: S) -> (outcome: Option<
    u32,
>)
    requires
        forall|state: Z| call_requires(step, (state,)),
    ensures
        is_escape_time(step, start, limit, outcome),
{
    let mut state: Z = start;
    let mut i: u32 = 0;
    while i < limit
        invariant
            i <= limit,
            forall|any: Z| call_requires(step, (any,)),
            stays(step, start, i as nat, state),
        decreases limit - i,
    {
        let (next, escaped) = step(state);
        if escaped {
            return Some(i);
        }
        state = next;
        i = i + 1;
    }
    None
}

} // verus!
