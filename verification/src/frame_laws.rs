//! What a frame makes of the cursor.

use vstd::arithmetic::power2::lemma_pow2_pos;
use vstd::prelude::*;

use crate::animation::{AnimationValue, CursorKey, DecayValues, Timing};
use crate::float_laws::units;
use crate::geometry::{quad_value, PointValue, Quad};
use crate::laws::{corner_at_rest, lemma_spring_stops, scrolling_snaps};
use crate::mirror_laws::{lemma_grid_sum, on_grid};
use crate::stillness::lemma_tolerance;

verus! {

/// The caret was seen in one place of the buffer, and is in another one now.
pub open spec fn moved_in_buffer(state: AnimationValue, key: CursorKey) -> bool {
    state.last_key matches Some(last) && (last.0 != key.0 || last.1 != key.1)
}

/// When the caret moves in the buffer, by however many rows or columns, the
/// corners are re-anchored: each offset takes up the difference of the old and
/// the new target, and nothing is snapped; velocities stay.
pub proof fn caret_that_moves_is_reanchored(
    state: AnimationValue,
    key: CursorKey,
    destination: Seq<PointValue>,
    timing: Timing,
    from: Seq<PointValue>,
    i: int,
)
    requires
        0 <= i < 4,
        moved_in_buffer(state, key),
        state.last_destination == Some(from),
    ensures
        ({
            let before = state.corners[i];
            let after = state.anchored(key, destination, timing).corners[i];
            &&& after.spring_x.position == before.spring_x.position.plus(
                destination[i].x.minus(from[i].x),
            )
            &&& after.spring_y.position == before.spring_y.position.plus(
                destination[i].y.minus(from[i].y),
            )
            &&& after.spring_x.velocity == before.spring_x.velocity
            &&& after.spring_y.velocity == before.spring_y.velocity
        }),
{
}

/// Where nothing is rounded, as with whole numbers of pixels, the offset of each
/// corner grows by the new target less the old one when the caret moves in the
/// buffer, by however many rows or columns.
pub proof fn moving_caret_adds_to_the_offset(
    state: AnimationValue,
    key: CursorKey,
    destination: Seq<PointValue>,
    timing: Timing,
    from: Seq<PointValue>,
    k: nat,
    i: int,
)
    requires
        0 <= i < 4,
        moved_in_buffer(state, key),
        state.last_destination == Some(from),
        k <= 200,
        on_grid(state.corners[i].spring_x.position, k, 1_000_000),
        on_grid(state.corners[i].spring_y.position, k, 1_000_000),
        on_grid(from[i].x, k, 1_000_000),
        on_grid(from[i].y, k, 1_000_000),
        on_grid(destination[i].x, k, 1_000_000),
        on_grid(destination[i].y, k, 1_000_000),
    ensures
        ({
            let before = state.corners[i];
            let after = state.anchored(key, destination, timing).corners[i];
            &&& units(after.spring_x.position) == units(before.spring_x.position) + units(
                destination[i].x,
            ) - units(from[i].x)
            &&& units(after.spring_y.position) == units(before.spring_y.position) + units(
                destination[i].y,
            ) - units(from[i].y)
        }),
{
    vstd::arithmetic::power2::lemma2_to64();
    let before = state.corners[i];
    lemma_grid_sum(destination[i].x, from[i].x, k, 1_000_000, 1_000_000);
    lemma_grid_sum(destination[i].y, from[i].y, k, 1_000_000, 1_000_000);
    lemma_grid_sum(
        before.spring_x.position,
        destination[i].x.minus(from[i].x),
        k,
        1_000_000,
        2_000_000,
    );
    lemma_grid_sum(
        before.spring_y.position,
        destination[i].y.minus(from[i].y),
        k,
        1_000_000,
        2_000_000,
    );
}

/// Where in the buffer the caret has moved to makes no difference, as long as it
/// has moved: two keys that both differ from the last one lead to the same
/// frame, and to states that differ in the key alone.
pub proof fn all_other_keys_are_alike(
    state: AnimationValue,
    one: CursorKey,
    other: CursorKey,
    destination: Seq<PointValue>,
    now: u64,
    timing: Timing,
    decays: DecayValues,
)
    requires
        state.last_key matches Some(last) ==> last != one && last != other,
    ensures
        state.painted(one, destination, now, timing, decays) == state.painted(
            other,
            destination,
            now,
            timing,
            decays,
        ),
        state.animating(one, destination, now, timing, decays) == state.animating(
            other,
            destination,
            now,
            timing,
            decays,
        ),
        state.exponents(one, destination, now, timing) == state.exponents(
            other,
            destination,
            now,
            timing,
        ),
        state.next(one, destination, now, timing, decays) == (AnimationValue {
            last_key: Some(one),
            ..state.next(other, destination, now, timing, decays)
        }),
{
}

/// Only the time since the last frame counts: where both that frame and this one
/// are as much later, everything is the same but for the time itself.
pub proof fn only_elapsed_time_counts(
    state: AnimationValue,
    later: AnimationValue,
    key: CursorKey,
    destination: Seq<PointValue>,
    now: u64,
    then: u64,
    timing: Timing,
    decays: DecayValues,
)
    requires
        state.last_frame_at is Some,
        later.last_frame_at is Some,
        later == (AnimationValue { last_frame_at: later.last_frame_at, ..state }),
        then - later.last_frame_at->Some_0 == now - state.last_frame_at->Some_0,
    ensures
        later.painted(key, destination, then, timing, decays) == state.painted(
            key,
            destination,
            now,
            timing,
            decays,
        ),
        later.animating(key, destination, then, timing, decays) == state.animating(
            key,
            destination,
            now,
            timing,
            decays,
        ),
        later.exponents(key, destination, then, timing) == state.exponents(
            key,
            destination,
            now,
            timing,
        ),
        later.next(key, destination, then, timing, decays) == (AnimationValue {
            last_frame_at: Some(then),
            ..state.next(key, destination, now, timing, decays)
        }),
{
    let a = state.anchored(key, destination, timing);
    let b = later.anchored(key, destination, timing);
    let frame = state.frame(key, now, timing);
    assert(later.frame(key, then, timing) == frame);
    if let Some(from) = state.last_destination {
        let p = state.moved(from, destination);
        let q = later.moved(from, destination);
        assert(p.corners =~= q.corners);
        assert(p.timed(destination, timing).corners =~= q.timed(destination, timing).corners);
    }
    assert(state.snapped().corners =~= later.snapped().corners);
    assert(a.corners =~= b.corners);
    assert(a.axis == b.axis && a.cross_length == b.cross_length);
    assert(a.wanted(frame).along =~= b.wanted(frame).along);
    assert(a.moves_across(frame) == b.moves_across(frame));
    assert(a.advanced(frame, decays) =~= b.advanced(frame, decays));
    assert(a.goes_on(frame, decays) == b.goes_on(frame, decays));
}

/// A frame is remembered: what the caret and the destination were, and when.
pub proof fn frame_is_remembered(
    state: AnimationValue,
    key: CursorKey,
    destination: Seq<PointValue>,
    now: u64,
    timing: Timing,
    decays: DecayValues,
)
    ensures
        ({
            let next = state.next(key, destination, now, timing, decays);
            &&& next.last_key == Some(key)
            &&& next.last_destination == Some(destination)
            &&& next.last_frame_at == Some(now)
            &&& next.corners.len() == 4
        }),
{
}

/// The cursor is drawn at its offsets from the destination: each corner at its
/// target less what its springs have left.
pub proof fn cursor_is_drawn_at_its_offsets(
    state: AnimationValue,
    key: CursorKey,
    destination: Seq<PointValue>,
    now: u64,
    timing: Timing,
    decays: DecayValues,
    i: int,
)
    requires
        0 <= i < 4,
    ensures
        ({
            let after = state.next(key, destination, now, timing, decays).corners[i];
            let painted = state.painted(key, destination, now, timing, decays);
            &&& painted.len() == 4
            &&& painted[i].x == destination[i].x.minus(after.spring_x.position)
            &&& painted[i].y == destination[i].y.minus(after.spring_y.position)
        }),
{
}

/// Another frame is asked for if and only if some spring is not at rest after
/// this one.
pub proof fn animation_goes_on_until_rest(
    state: AnimationValue,
    key: CursorKey,
    destination: Seq<PointValue>,
    now: u64,
    timing: Timing,
    decays: DecayValues,
)
    ensures
        ({
            let after = state.next(key, destination, now, timing, decays).corners;
            state.animating(key, destination, now, timing, decays) <==> exists|i: int|
                0 <= i < 4 && !corner_at_rest(#[trigger] after[i])
        }),
{
    let anchored = state.anchored(key, destination, timing);
    let frame = state.frame(key, now, timing);
    let after = state.next(key, destination, now, timing, decays).corners;
    assert forall|i: int| 0 <= i < 4 implies (!corner_at_rest(#[trigger] after[i])
        <==> anchored.corners[i].animating(
        anchored.axis,
        anchored.along(frame, decays, i),
        anchored.across(frame, decays),
    )) by {
        let c = anchored.corners[i];
        let along = anchored.along(frame, decays, i);
        let across = anchored.across(frame, decays);
        lemma_tolerance();
        lemma_pow2_pos(139);
        lemma_spring_stops(c.along(anchored.axis), along.dt, along.length, along.decay);
        lemma_spring_stops(c.across(anchored.axis), across.dt, across.length, across.decay);
    }
    if state.animating(key, destination, now, timing, decays) {
        let i = choose|i: int|
            0 <= i < 4 && (#[trigger] anchored.corners[i]).animating(
                anchored.axis,
                anchored.along(frame, decays, i),
                anchored.across(frame, decays),
            );
        assert(!corner_at_rest(after[i]));
    }
}

/// While the caret stays, a frame changes no animation length, nor the axis of
/// travel.
pub proof fn lengths_are_set_by_jumps_alone(
    state: AnimationValue,
    key: CursorKey,
    destination: Seq<PointValue>,
    now: u64,
    timing: Timing,
    decays: DecayValues,
    i: int,
)
    requires
        0 <= i < 4,
        state.last_key == Some(key),
    ensures
        ({
            let next = state.next(key, destination, now, timing, decays);
            &&& next.corners[i].animation_length == state.corners[i].animation_length
            &&& next.cross_length == state.cross_length
            &&& next.axis == state.axis
        }),
{
}

/// When the caret stays, and some coordinate of its destination changes, as in
/// scrolling, the cursor is drawn at its destination and nothing moves.
pub proof fn caret_that_stays_is_snapped(
    state: AnimationValue,
    key: CursorKey,
    destination: Quad,
    now: u64,
    timing: Timing,
    decays: DecayValues,
    from: Seq<PointValue>,
    i: int,
)
    requires
        0 <= i < 4,
        state.last_key == Some(key),
        state.last_destination == Some(from),
        from[i].x is Finite,
        from[i].y is Finite,
        units(from[i].x) != units(quad_value(destination)[i].x) || units(from[i].y) != units(
            quad_value(destination)[i].y,
        ),
        quad_value(destination)[i].x is Finite,
        quad_value(destination)[i].y is Finite,
    ensures
        state.painted(key, quad_value(destination), now, timing, decays) == quad_value(destination),
        !state.animating(key, quad_value(destination), now, timing, decays),
{
    assert(!from[i].same(quad_value(destination)[i]));
    scrolling_snaps(state, key, destination, now, timing, decays);
}

} // verus!
