//! When no time passes, the cursor stays where it is on the screen.

use vstd::arithmetic::power2::{
    lemma_pow2_adds, lemma_pow2_pos, lemma_pow2_strictly_increases, lemma_pow2_unfold, pow2,
};
use vstd::prelude::*;

use crate::animation::{
    longest_frame, AnimationValue, Axis, CursorKey, DecayValues, Exponents, PaceValue, Timing,
};
use crate::exponential::ordinary;
use crate::float::{clamped, less, magnitude, opposite, same, Format, Value};
use crate::float_laws::{
    lemma_plus_rounds, lemma_plus_within, lemma_power_representable, lemma_rounded_error,
    lemma_rounded_order, lemma_rounded_within, lemma_times_rounds, lemma_times_within, rounded,
    size, units, within,
};
use crate::geometry::{quad_same, PointValue};
use crate::laws::{
    clock_never_runs_back, lemma_below_one, lemma_fitting, lemma_minus_of_format, lemma_one,
    lemma_ratio, lemma_ratio_below, of_format,
};
use crate::rounding::lemma_round_nothing;
use crate::rounding_laws::{lemma_round_exact, lemma_round_monotone, representable, scaled};
use crate::spring::{decay_exponent, omega, tolerance, SpringValue};

verus! {

/// The tolerance is about a hundredth.
pub proof fn lemma_tolerance()
    ensures
        tolerance() is Finite,
        10 * pow2(139) <= units(tolerance()) <= 11 * pow2(139),
{
    lemma_pow2_adds(10, 139);
    vstd::arithmetic::power2::lemma2_to64();
    lemma_ratio_below(1, 100, 11, 139);
    lemma_ratio(1, 100);
    let y = 10 * pow2(139);
    assert(y == scaled(10, 139));
    assert(representable(24, y));
    lemma_round_exact(24, y, 1);
    assert(y * 1 == y);
    lemma_round_monotone(24, y, 1, 1 * pow2(149), 100);
}

/// The longest frame is a positive time.
pub proof fn lemma_longest_frame()
    ensures
        longest_frame() is Finite,
        0 <= units(longest_frame()) <= pow2(149),
{
    lemma_ratio_below(1, 10, 1, 149);
    assert(1 * pow2(149) == pow2(149));
}

/// An animation length that is more than nothing: at least `pow2(-100)` seconds.
pub open spec fn lasting(length: Value) -> bool {
    length matches Value::Finite { negative, units } && !negative && units >= pow2(49)
}

/// The angular frequency of a spring whose animation takes a while.
pub proof fn lemma_omega_within(length: Value)
    requires
        lasting(length),
    ensures
        within(omega(length), 252),
        !omega(length)->Finite_negative,
{
    reveal(Value::over);
    lemma_pow2_adds(3, 149);
    vstd::arithmetic::power2::lemma2_to64();
    lemma_ratio_below(583, 100, 8, 149);
    lemma_ratio(583, 100);
    let x = units(Value::ratio(583, 100)) as nat;
    let y = units(length) as nat;
    lemma_pow2_pos(49);
    let unit = pow2(149);
    lemma_pow2_adds(152, 149);
    lemma_pow2_adds(252, 49);
    assert(x * unit <= pow2(252) * y) by (nonlinear_arith)
        requires
            x <= pow2(152),
            y >= pow2(49),
            pow2(152) * unit == pow2(252) * pow2(49),
    ;
    lemma_rounded_within((x * unit) as int, y, 252);
}

/// Times one.
pub proof fn lemma_times_one(a: Value)
    requires
        of_format(Format::Single, a),
        a is Finite,
    ensures
        a.times(Value::of(1)) == a,
{
    reveal(Value::times);
    lemma_one();
    lemma_pow2_pos(149);
    let x = a->Finite_units;
    lemma_round_exact(24, x, pow2(149));
}

/// Times zero.
pub proof fn lemma_times_zero(a: Value, z: Value)
    requires
        a is Finite,
        z.is_zero(),
    ensures
        a.times(z).is_zero(),
{
    reveal(Value::times);
    lemma_pow2_pos(149);
    lemma_pow2_pos(277);
    let x = a->Finite_units;
    assert(x * 0 == 0);
    lemma_round_nothing(24, pow2(149));
}

/// Plus zero.
pub proof fn lemma_plus_zero(a: Value, z: Value)
    requires
        of_format(Format::Single, a),
        a is Finite,
        z.is_zero(),
    ensures
        a.plus(z) is Finite,
        units(a.plus(z)) == units(a),
        of_format(Format::Single, a.plus(z)),
{
    reveal(Value::plus);
    if !a.is_zero() {
        lemma_fitting(Format::Single, a->Finite_negative, a->Finite_units);
    } else {
        assert(a->Finite_units == a.plus(z)->Finite_units);
    }
}

/// Where no time passes, a spring keeps its position, unless it is so close to
/// its target that it settles.
pub proof fn resting_time_moves_nothing(s: SpringValue, dt: Value, length: Value, decay: Value)
    requires
        of_format(Format::Single, s.position),
        within(s.position, 165),
        within(s.velocity, 209),
        lasting(length),
        dt.is_zero(),
        s.moves(dt, length) ==> decay == Value::of(1),
    ensures
        ({
            let p = s.advanced(dt, length, decay).position;
            &&& p is Finite
            &&& units(p) == units(s.position) || units(p) == 0 && size(units(s.position))
                <= units(tolerance())
        }),
{
    lemma_tolerance();
    lemma_pow2_pos(49);
    let w = omega(length);
    lemma_omega_within(length);
    lemma_times_within(s.position, w, 165, 252);
    lemma_pow2_strictly_increases(209, 268);
    lemma_plus_within(s.position.times(w), s.velocity, 268);
    let b = s.position.times(w).plus(s.velocity);
    lemma_times_zero(b, dt);
    lemma_plus_zero(s.position, b.times(dt));
    let sum = s.position.plus(b.times(dt));
    lemma_times_one(sum);
}

/// The number whose exponential is the decay over no time is zero.
pub proof fn lemma_no_exponent(dt: Value, length: Value)
    requires
        dt.is_zero(),
        lasting(length),
    ensures
        decay_exponent(dt, length).is_zero(),
{
    lemma_omega_within(length);
    lemma_times_zero(opposite(omega(length)), dt);
}

/// A difference of coordinates whose exact value is below `pow2(24 + k)` units
/// is off by at most half of `pow2(k)` units.
proof fn lemma_minus_error(a: Value, b: Value, k: nat)
    requires
        a is Finite,
        b is Finite,
        size(units(a) - units(b)) < pow2(24 + k),
        k < 200,
    ensures
        a.minus(b) is Finite,
        2 * size(units(a.minus(b)) - (units(a) - units(b))) <= pow2(k),
{
    reveal(Value::minus);
    lemma_plus_rounds(Format::Single, a, opposite(b));
    let num = units(a) - units(b);
    assert(1 * pow2(24 + k) == pow2(24 + k));
    assert(1 * pow2(k) == pow2(k));
    lemma_rounded_within(num, 1, 24 + k);
    lemma_rounded_error(num, 1, k);
}

/// The same for a sum.
proof fn lemma_sum_error(a: Value, b: Value, k: nat)
    requires
        a is Finite,
        b is Finite,
        size(units(a) + units(b)) < pow2(24 + k),
        k < 200,
    ensures
        a.plus(b) is Finite,
        2 * size(units(a.plus(b)) - (units(a) + units(b))) <= pow2(k),
{
    reveal(Value::plus);
    lemma_plus_rounds(Format::Single, a, b);
    let num = units(a) + units(b);
    assert(1 * pow2(24 + k) == pow2(24 + k));
    assert(1 * pow2(k) == pow2(k));
    lemma_rounded_within(num, 1, 24 + k);
    lemma_rounded_error(num, 1, k);
}

/// A coordinate on the screen: within ten thousand pixels.
pub open spec fn on_canvas(x: Value) -> bool {
    x matches Value::Finite { units, .. } && units <= 10_000 * pow2(149)
}

/// On one axis, an offset that takes up the difference of two targets, and of
/// which at most the tolerance is cut off, keeps the corner in its place.
proof fn lemma_coordinate_kept(offset: Value, from: Value, to: Value, after: Value)
    requires
        within(offset, 164),
        on_canvas(from),
        on_canvas(to),
        on_canvas(from.minus(offset)),
        after is Finite,
        ({
            let moved = offset.plus(to.minus(from));
            units(after) == units(moved) || units(after) == 0 && size(units(moved)) <= units(
                tolerance(),
            )
        }),
    ensures
        size(units(to.minus(after)) - units(from.minus(offset))) * 50 <= pow2(149),
{
    lemma_tolerance();
    // Ten thousand is below the fourteenth power of two.
    vstd::arithmetic::power2::lemma2_to64();
    lemma_pow2_adds(14, 149);
    lemma_pow2_unfold(164);
    lemma_pow2_unfold(165);
    lemma_pow2_adds(138, 11);
    lemma_pow2_adds(139, 10);
    lemma_pow2_adds(140, 9);
    lemma_pow2_adds(141, 8);
    lemma_pow2_pos(138);
    // The place before, roughly and then closely.
    lemma_minus_error(from, offset, 141);
    lemma_minus_error(from, offset, 139);
    lemma_minus_error(to, from, 140);
    let d = to.minus(from);
    lemma_sum_error(offset, d, 140);
    let moved = offset.plus(d);
    lemma_minus_error(to, after, 139);
}

/// A moved offset is a number of the format, of bounded size.
pub proof fn lemma_moved_offset(offset: Value, from: Value, to: Value)
    requires
        within(offset, 164),
        of_format(Format::Single, offset),
        of_format(Format::Single, from),
        of_format(Format::Single, to),
        on_canvas(from),
        on_canvas(to),
    ensures
        within(offset.plus(to.minus(from)), 165),
        of_format(Format::Single, offset.plus(to.minus(from))),
{
    let d = to.minus(from);
    lemma_minus_of_format(to, from);
    vstd::arithmetic::power2::lemma2_to64();
    lemma_pow2_adds(14, 149);
    lemma_pow2_unfold(164);
    assert(within(d, 164)) by {
        reveal(Value::minus);
        lemma_plus_rounds(Format::Single, to, opposite(from));
        assert(pow2(164) * 1 == pow2(164));
        lemma_rounded_within(units(to) - units(from), 1, 164);
    }
    lemma_plus_within(offset, d, 164);
    assert(offset.plus(d) == offset.minus(opposite(d))) by {
        reveal(Value::plus);
        reveal(Value::minus);
    }
    lemma_minus_of_format(offset, opposite(d));
}

/// On one axis, a corner stays in its place while no time passes, whether its
/// target moves or not.
proof fn lemma_axis_kept(
    s: SpringValue,
    from: Value,
    to: Value,
    jumps: bool,
    dt: Value,
    length: Value,
    decay: Value,
)
    requires
        tame_spring(s),
        tame_coordinate(from),
        tame_coordinate(to),
        on_canvas(from.minus(s.position)),
        jumps || same(from, to),
        lasting(length),
        dt.is_zero(),
        ({
            let moved = if jumps {
                SpringValue { position: s.position.plus(to.minus(from)), velocity: s.velocity }
            } else {
                s
            };
            moved.moves(dt, length) ==> decay == Value::of(1)
        }),
    ensures
        ({
            let moved = if jumps {
                SpringValue { position: s.position.plus(to.minus(from)), velocity: s.velocity }
            } else {
                s
            };
            let after = moved.advanced(dt, length, decay).position;
            size(units(to.minus(after)) - units(from.minus(s.position))) * 50 <= pow2(149)
        }),
{
    if jumps {
        let moved = SpringValue {
            position: s.position.plus(to.minus(from)),
            velocity: s.velocity,
        };
        lemma_moved_offset(s.position, from, to);
        resting_time_moves_nothing(moved, dt, length, decay);
        lemma_coordinate_kept(
            s.position,
            from,
            to,
            moved.advanced(dt, length, decay).position,
        );
    } else {
        lemma_pow2_strictly_increases(164, 165);
        resting_time_moves_nothing(s, dt, length, decay);
        let after = s.advanced(dt, length, decay).position;
        assert(s.position.plus(to.minus(from)) is Finite && units(
            s.position.plus(to.minus(from)),
        ) == units(s.position)) by {
            assert(to.minus(from).is_zero()) by {
                reveal(Value::minus);
            }
            lemma_plus_zero(s.position, to.minus(from));
        }
        lemma_coordinate_kept(s.position, from, to, after);
    }
}

/// A spring with an offset of at most `pow2(15)` pixels and a speed of at most
/// `pow2(60)` pixels per second.
pub open spec fn tame_spring(s: SpringValue) -> bool {
    &&& of_format(Format::Single, s.position)
    &&& within(s.position, 164)
    &&& within(s.velocity, 209)
}

/// A number of the format that is a coordinate on the screen.
pub open spec fn tame_coordinate(x: Value) -> bool {
    of_format(Format::Single, x) && on_canvas(x)
}

/// The exponential of zero is one.
pub open spec fn one_at_zero(exponents: Exponents, decays: DecayValues) -> bool {
    &&& forall|i: int|
        0 <= i < 4 && exponents.along[i] is Some && exponents.along[i]->Some_0.is_zero()
            ==> #[trigger] decays.along[i] == Value::of(1)
    &&& exponents.across is Some && exponents.across->Some_0.is_zero() ==> decays.across
        == Value::of(1)
}

/// A length that was set, if one was, is more than nothing.
pub open spec fn usable(length: Value) -> bool {
    less(Value::zero(), length) ==> lasting(length)
}

/// All lengths that were set are more than nothing.
pub open spec fn lengths_usable(state: AnimationValue) -> bool {
    &&& usable(state.cross_length)
    &&& forall|i: int| 0 <= i < 4 ==> usable((#[trigger] state.corners[i]).animation_length)
}

/// A share of an ordinary length, of which some is left, lasts.
proof fn lemma_share_lasts(length: Value, share: Value)
    requires
        ordinary(length),
        share is Finite,
        pow2(125) <= units(share) <= pow2(149),
    ensures
        lasting(length.times(share)),
{
    reveal(Value::times);
    lemma_pow2_strictly_increases(49, 115);
    lemma_times_rounds(Format::Single, length, share);
    let x = units(length);
    let u = units(share);
    let unit = pow2(149);
    lemma_pow2_pos(149);
    lemma_pow2_pos(125);
    lemma_pow2_adds(139, 125);
    lemma_pow2_adds(115, 149);
    assert(pow2(115) * unit <= (x * u) * 1) by (nonlinear_arith)
        requires
            x >= pow2(139),
            u >= pow2(125),
            pow2(115) * unit == pow2(139) * pow2(125),
    ;
    lemma_power_representable(115);
    lemma_pow2_strictly_increases(115, 277);
    lemma_rounded_order(Format::Single, pow2(115) as int, 1, x * u, unit);
    lemma_fitting(Format::Single, false, pow2(115));
    // A share of a length that is in range is in range.
    vstd::arithmetic::power2::lemma2_to64();
    lemma_pow2_adds(4, 149);
    lemma_times_within(length, share, 153, 149);
}

/// With a trail size of one or more, nothing is left for the leading edge.
proof fn lemma_nothing_left(timing: Timing)
    requires
        ordinary(timing.animation_length),
        !less(timing.trail_size, Value::of(1)),
    ensures
        !less(Value::zero(), timing.leading()),
{
    reveal(Value::minus);
    reveal(Value::times);
    lemma_one();
    lemma_pow2_pos(149);
    let one = Value::of(1);
    let rest = one.minus(timing.trail_size);
    if timing.trail_size is Finite {
        lemma_plus_rounds(Format::Single, one, opposite(timing.trail_size));
        let left = pow2(149) - units(timing.trail_size);
        lemma_rounded_order(Format::Single, left, 1, 0, 1);
        lemma_round_nothing(24, 1);
        lemma_pow2_pos(277);
    }
    let share = clamped(rest, Value::zero(), one);
    if share is Finite {
        assert(units(share) == 0);
        lemma_times_zero(timing.animation_length, share);
    }
}

/// In a step with ordinary lengths, whatever the trail size, all lengths stay
/// usable; and they are so at first.
pub proof fn lengths_stay_usable(
    state: AnimationValue,
    key: CursorKey,
    destination: Seq<PointValue>,
    now: u64,
    timing: Timing,
    decays: DecayValues,
)
    requires
        lengths_usable(state),
        ordinary(timing.animation_length),
        ordinary(timing.short_animation_length),
        of_format(Format::Single, timing.trail_size),
    ensures
        lengths_usable(state.anchored(key, destination, timing)),
        lengths_usable(state.next(key, destination, now, timing, decays)),
        lengths_usable(AnimationValue::fresh()),
{
    lemma_one();
    lemma_pow2_pos(49);
    lemma_pow2_strictly_increases(49, 115);
    lemma_pow2_strictly_increases(115, 125);
    lemma_pow2_strictly_increases(125, 139);
    let one = Value::of(1);
    let rest = one.minus(timing.trail_size);
    let share = clamped(rest, Value::zero(), one);
    let small = less(timing.trail_size, one);
    assert(small ==> share is Finite && units(share) >= pow2(125)) by {
        reveal(Value::minus);
        lemma_pow2_strictly_increases(125, 149);
        if small && timing.trail_size is Finite {
            lemma_plus_rounds(Format::Single, one, opposite(timing.trail_size));
            let left = pow2(149) - units(timing.trail_size);
            if units(timing.trail_size) >= 0 {
                lemma_below_one(units(timing.trail_size) as nat);
            }
            lemma_power_representable(125);
            lemma_pow2_strictly_increases(125, 277);
            lemma_rounded_order(Format::Single, pow2(125) as int, 1, left, 1);
            lemma_fitting(Format::Single, false, pow2(125));
        }
    }
    let length = timing.animation_length;
    let leading = timing.leading();
    assert(small ==> lasting(leading)) by {
        if small {
            lemma_share_lasts(length, share);
        }
    }
    assert(!small ==> !less(Value::zero(), leading)) by {
        if !small {
            lemma_nothing_left(timing);
        }
    }
    let anchored = state.anchored(key, destination, timing);
    assert(lasting(timing.quick()));
    if state.jumps(key) && state.last_destination is Some {
        assert forall|i: int| 0 <= i < 4 implies usable(
            (#[trigger] anchored.corners[i]).animation_length,
        ) by {
            let set = anchored.corners[i].animation_length;
            assert(set == timing.quick() || set == leading || set == length);
        }
    } else {
        assert forall|i: int| 0 <= i < 4 implies usable(
            (#[trigger] anchored.corners[i]).animation_length,
        ) by {
            assert(usable(state.corners[i].animation_length));
        }
    }
    let next = state.next(key, destination, now, timing, decays);
    assert forall|i: int| 0 <= i < 4 implies usable(
        (#[trigger] next.corners[i]).animation_length,
    ) by {
        assert(next.corners[i].animation_length == anchored.corners[i].animation_length);
    }
}

/// Where no time passes, and the cursor jumps or stays, it is drawn where it
/// was, to within two hundredths of a pixel: rounding, and the tolerance of a
/// spring that settles. Lengths are between a thousandth of a second and ten
/// seconds; any trail size will do.
pub proof fn no_time_no_motion(
    state: AnimationValue,
    key: CursorKey,
    destination: Seq<PointValue>,
    now: u64,
    timing: Timing,
    decays: DecayValues,
    i: int,
)
    requires
        0 <= i < 4,
        state.last_frame_at matches Some(at) && now <= at,
        state.last_destination is Some,
        state.jumps(key) || quad_same(state.last_destination->Some_0, destination),
        ({
            let from = state.last_destination->Some_0;
            let place = state.corners[i].drawn(from[i]);
            &&& tame_spring(state.corners[i].spring_x)
            &&& tame_spring(state.corners[i].spring_y)
            &&& tame_coordinate(from[i].x)
            &&& tame_coordinate(from[i].y)
            &&& tame_coordinate(destination[i].x)
            &&& tame_coordinate(destination[i].y)
            &&& on_canvas(place.x)
            &&& on_canvas(place.y)
        }),
        lengths_usable(state),
        ordinary(timing.animation_length),
        ordinary(timing.short_animation_length),
        of_format(Format::Single, timing.trail_size),
        one_at_zero(state.exponents(key, destination, now, timing), decays),
    ensures
        ({
            let place = state.corners[i].drawn(state.last_destination->Some_0[i]);
            let there = state.painted(key, destination, now, timing, decays)[i];
            &&& size(units(there.x) - units(place.x)) * 50 <= pow2(149)
            &&& size(units(there.y) - units(place.y)) * 50 <= pow2(149)
        }),
{
    lengths_stay_usable(state, key, destination, now, timing, decays);
    lemma_pow2_strictly_increases(49, 139);
    let from = state.last_destination->Some_0;
    let anchored = state.anchored(key, destination, timing);
    let frame = state.frame(key, now, timing);
    let exponents = state.exponents(key, destination, now, timing);
    let along = anchored.along(frame, decays, i);
    let across = anchored.across(frame, decays);
    let c = anchored.corners[i];
    clock_never_runs_back(state, now);
    lemma_longest_frame();
    lemma_pow2_pos(49);
    assert(usable(c.animation_length));
    assert(lasting(along.length) && lasting(across.length));
    assert(along.dt == Value::zero());
    assert(across.dt == Value::zero());
    lemma_no_exponent(along.dt, along.length);
    lemma_no_exponent(across.dt, across.length);
    assert(c.along(anchored.axis).moves(along.dt, along.length) ==> along.decay
        == Value::of(1)) by {
        if c.along(anchored.axis).moves(along.dt, along.length) {
            assert(exponents.along[i] == Some(decay_exponent(along.dt, along.length)));
            assert(decays.along[i] == Value::of(1));
        }
    }
    assert(c.across(anchored.axis).moves(across.dt, across.length) ==> across.decay
        == Value::of(1)) by {
        if c.across(anchored.axis).moves(across.dt, across.length) {
            assert(anchored.moves_across(frame));
        }
    }
    let (x, y): (PaceValue, PaceValue) = match anchored.axis {
        Axis::Horizontal => (along, across),
        Axis::Vertical => (across, along),
    };
    let jumps = state.jumps(key);
    assert(jumps || from[i].same(destination[i]));
    lemma_axis_kept(
        state.corners[i].spring_x,
        from[i].x,
        destination[i].x,
        jumps,
        x.dt,
        x.length,
        x.decay,
    );
    lemma_axis_kept(
        state.corners[i].spring_y,
        from[i].y,
        destination[i].y,
        jumps,
        y.dt,
        y.length,
        y.decay,
    );
}

/// A coordinate within a hundred thousand pixels.
pub open spec fn on_wall(x: Value) -> bool {
    x matches Value::Finite { units, .. } && units <= 100_000 * pow2(149)
}

/// An offset that is not below the tolerance shows.
proof fn lemma_offset_shows(to: Value, offset: Value)
    requires
        on_wall(to),
        !less(magnitude(offset), tolerance()),
    ensures
        !same(to.minus(offset), to),
{
    lemma_tolerance();
    lemma_pow2_pos(139);
    if offset is Finite {
        let drawn = to.minus(offset);
        let num = units(to) - units(offset);
        vstd::arithmetic::power2::lemma2_to64();
        lemma_pow2_adds(17, 149);
        lemma_pow2_adds(139, 3);
        lemma_pow2_pos(149);
        assert(same(drawn, rounded(Format::Single, num, 1))) by {
            reveal(Value::minus);
            lemma_plus_rounds(Format::Single, to, opposite(offset));
        }
        if size(num) < pow2(166) {
            assert(1 * pow2(166) == pow2(166));
            assert(1 * pow2(142) == pow2(142));
            lemma_rounded_error(num, 1, 142);
        } else {
            lemma_power_representable(166);
            lemma_pow2_strictly_increases(166, 277);
            lemma_fitting(Format::Single, false, pow2(166));
            lemma_fitting(Format::Single, true, pow2(166));
            if num > 0 {
                lemma_rounded_order(Format::Single, pow2(166) as int, 1, num, 1);
            } else {
                lemma_rounded_order(Format::Single, num, 1, -pow2(166), 1);
            }
        }
    } else {
        reveal(Value::minus);
    }
}

/// A cursor that asks for another frame is on its way: it is not drawn at its
/// destination.
pub proof fn animating_cursor_is_on_its_way(
    state: AnimationValue,
    key: CursorKey,
    destination: Seq<PointValue>,
    now: u64,
    timing: Timing,
    decays: DecayValues,
)
    requires
        state.animating(key, destination, now, timing, decays),
        forall|i: int|
            0 <= i < 4 ==> on_wall((#[trigger] destination[i]).x) && on_wall(destination[i].y),
    ensures
        !quad_same(state.painted(key, destination, now, timing, decays), destination),
{
    let anchored = state.anchored(key, destination, timing);
    let frame = state.frame(key, now, timing);
    let i = choose|i: int|
        0 <= i < 4 && (#[trigger] anchored.corners[i]).animating(
            anchored.axis,
            anchored.along(frame, decays, i),
            anchored.across(frame, decays),
        );
    let c = anchored.corners[i];
    let along = anchored.along(frame, decays, i);
    let across = anchored.across(frame, decays);
    let painted = state.painted(key, destination, now, timing, decays);
    let after = anchored.advanced(frame, decays)[i];
    assert(on_wall(destination[i].x) && on_wall(destination[i].y));
    assert(painted[i] == after.drawn(destination[i]));
    if along.animates(c.along(anchored.axis)) {
        match anchored.axis {
            Axis::Horizontal => lemma_offset_shows(destination[i].x, after.spring_x.position),
            Axis::Vertical => lemma_offset_shows(destination[i].y, after.spring_y.position),
        }
    } else {
        match anchored.axis {
            Axis::Horizontal => lemma_offset_shows(destination[i].y, after.spring_y.position),
            Axis::Vertical => lemma_offset_shows(destination[i].x, after.spring_x.position),
        }
    }
    assert(!painted[i].same(destination[i]));
}

} // verus!
