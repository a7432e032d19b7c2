//! A step keeps the cursor on the canvas.

use vstd::arithmetic::power2::{
    lemma_pow2_adds, lemma_pow2_pos, lemma_pow2_strictly_increases, pow2,
};
use vstd::prelude::*;

use crate::animation::{AnimationValue, Axis, CursorKey, DecayValues, Exponents, PaceValue, Timing};
use crate::exponential::{
    angle, exponential, lemma_damped, lemma_decay, lemma_exponential, lemma_number_within,
    nearly_exponential, ordinary, short_of,
};
use crate::float::{at_most, same, Format, Value};
use crate::float_laws::{units, within};
use crate::geometry::{quad_same, PointValue};
use crate::laws::{lemma_times_of_format, of_format};
use crate::numbers::{
    abs, lemma_constants, lemma_minus_near, lemma_no_units, lemma_plus_near, lemma_real_product,
    number, ulp, unit,
};
use crate::reals::{
    lemma_mul_nonnegative, lemma_mul_order, lemma_mul_reorder, lemma_mul_sum, lemma_quotient,
};
use crate::rounding_laws::scaled;
use crate::spring::{decay_exponent, omega, SpringValue};
use crate::spring_error::{dust, exact_position, exact_velocity, lemma_dust, swing};
use crate::spring_flow::{extent, lemma_frame, lemma_frequency_bounds, lemma_mul_size};
use crate::stillness::{lemma_moved_offset, on_canvas, tame_coordinate, tame_spring};

verus! {

/// Where a spring heads for: were its target to let go of it, it would drift
/// this far.
pub open spec fn aim(s: SpringValue, to: Value, length: Value) -> real {
    number(to) - (number(s.position) + swing(s, length))
}

/// The target of a spring, its place and its aim are all within `a` pixels.
pub open spec fn steady(s: SpringValue, to: Value, length: Value, a: real) -> bool {
    &&& tame_spring(s)
    &&& tame_coordinate(to)
    &&& abs(number(to)) <= a
    &&& abs(number(to) - number(s.position)) <= a
    &&& ordinary(length) ==> abs(aim(s, to, length)) <= a
}

/// A mean with weights that are nearly right is nearly within the bounds.
proof fn lemma_mean(t: real, x: real, q: real, c: real, d: real, a: real)
    requires
        abs(t) <= a,
        abs(x) <= a,
        abs(q) <= a,
        c >= 0 as real,
        d >= 0 as real,
        c + d <= 1 as real + 16 as real * ulp(),
    ensures
        abs(t - (c * (t - x) + d * (t - q))) <= a + 32 as real * (ulp() * a),
{
    lemma_constants();
    let u = ulp();
    let w = 1 as real - (c + d);
    lemma_mul_sum(c, t, x);
    lemma_mul_sum(d, t, q);
    lemma_mul_sum(t, c, d);
    lemma_mul_sum(t, 1 as real, c + d);
    assert(t - (c * (t - x) + d * (t - q)) == w * t + c * x + d * q);
    lemma_mul_size(c, x, c, a);
    lemma_mul_size(d, q, d, a);
    lemma_mul_sum(a, c, d);
    let v = abs(w);
    lemma_mul_size(w, t, v, a);
    lemma_mul_sum(a, v, c + d);
    let all = v + (c + d);
    assert(all <= 1 as real + 32 as real * u);
    lemma_mul_order(all, 1 as real + 32 as real * u, a);
    lemma_mul_sum(a, 1 as real, 32 as real * u);
    lemma_mul_reorder(32 as real, u, a);
}

/// A frame keeps place and aim within bounds, in plain numbers.
proof fn lemma_frame_keeps(
    t: real,
    p: real,
    y: real,
    h: real,
    c: real,
    p1: real,
    y1: real,
    f: real,
    a: real,
)
    requires
        abs(t) <= a,
        abs(t - p) <= a,
        abs(t - (p + y)) <= a,
        h >= 0 as real,
        c >= 0 as real,
        c * (1 as real + h) <= 1 as real + 16 as real * ulp(),
        abs(p1 - exact_position(p, y, h, c)) <= f,
        abs(y1 - exact_velocity(p, y, h, c)) <= f,
    ensures
        abs(t - p1) <= a + 32 as real * (ulp() * a) + f,
        abs(t - (p1 + y1)) <= a + 32 as real * (ulp() * a) + 2 as real * f,
{
    let z = p + y;
    let d = c * h;
    lemma_mul_nonnegative(c, h);
    lemma_mul_sum(c, 1 as real, h);
    lemma_mean(t, t - p, t - z, c, d, a);
    lemma_mul_sum(c, p, h * z);
    lemma_mul_reorder(c, h, z);
    assert(t - (t - p) == p && t - (t - z) == z);
    lemma_mean(t, t - z, t, c, 0 as real, a);
    assert(0 as real * (t - t) == 0 as real);
    lemma_mul_sum(c, p + h * z, y - h * z);
    assert(p + h * z + (y - h * z) == z);
}

/// A frame of a spring keeps it steady, but for an eighth of a pixel.
proof fn lemma_spring_keeps(
    e: spec_fn(real) -> real,
    s: SpringValue,
    to: Value,
    dt: Value,
    length: Value,
    decay: Value,
    a: real,
)
    requires
        exponential(e),
        within(s.position, 165),
        within(s.velocity, 209),
        of_format(Format::Single, s.position),
        tame_coordinate(to),
        abs(number(to)) <= a,
        abs(number(to) - number(s.position)) <= a,
        ordinary(length) ==> abs(aim(s, to, length)) <= a,
        a <= 10_001 as real,
        dt is Finite,
        units(dt) >= 0,
        ordinary(length) || at_most(length, dt),
        s.moves(dt, length) ==> nearly_exponential(e, decay_exponent(dt, length), decay),
    ensures
        ({
            let next = s.advanced(dt, length, decay);
            let b = a + 1 as real / 10 as real;
            &&& of_format(Format::Single, next.position)
            &&& within(next.position, 164)
            &&& within(next.velocity, 209)
            &&& abs(number(to) - number(next.position)) <= b
            &&& ordinary(length) ==> abs(aim(next, to, length)) <= b
        }),
{
    let next = s.advanced(dt, length, decay);
    let t = number(to);
    let p = number(s.position);
    lemma_constants();
    lemma_dust();
    lemma_no_units(Value::zero());
    lemma_pow2_pos(164);
    lemma_pow2_pos(209);
    vstd::arithmetic::power2::lemma2_to64();
    assert(of_format(Format::Single, Value::zero())) by {
        lemma_pow2_pos(24);
        lemma_pow2_pos(277);
        assert(scaled(0, 0) == 0);
    }
    if ordinary(length) {
        lemma_frequency_bounds(length);
        lemma_quotient(0 as real, number(omega(length)));
        lemma_zero_quotient(number(omega(length)));
    }
    if at_most(length, dt) {
        assert(next == SpringValue::settled());
    } else if s.at_rest() {
        lemma_no_units(s.position);
        lemma_no_units(s.velocity);
    } else {
        let u = ulp();
        let y = swing(s, length);
        let n = extent(s, length);
        let swung = s.swung(dt, length, decay);
        lemma_pow2_strictly_increases(165, 240);
        lemma_pow2_strictly_increases(209, 254);
        assert(short_of(dt, length));
        lemma_frame(e, s, dt, length, decay);
        lemma_decay(e, dt, length, decay);
        let h = angle(dt, length);
        let c = number(decay);
        lemma_turn_weight(e, h, c);
        assert(n <= 4 as real * a);
        lemma_mul_order(n, 4 as real * a, u);
        lemma_mul_reorder(u, 4 as real, a);
        lemma_mul_order(a, 10_001 as real, u);
        let f = 9 as real * (u * n) + 20 as real * dust();
        let p1 = number(swung.position);
        let y1 = swing(swung, length);
        lemma_frame_keeps(t, p, y, h, c, p1, y1, f, a);
        assert(1_000 as real * (32 as real * (u * a) + 2 as real * f) <= 99 as real);
        assert(abs(p1) <= 20_010 as real);
        assert(abs(y1) <= 20_010 as real);
        lemma_number_within(swung.position, 15);
        let w = number(omega(length));
        lemma_quotient(number(swung.velocity), w);
        lemma_mul_size(y1, w, 20_010 as real, 16384 as real);
        lemma_pow2_strictly_increases(32, 60);
        lemma_number_within(swung.velocity, 60);
        assert(of_format(Format::Single, swung.position)) by {
            lemma_swung_of_format(s, dt, length, decay);
        }
    }
}

/// Zero over a number is zero.
proof fn lemma_zero_quotient(w: real)
    requires
        w > 0 as real,
    ensures
        0 as real / w == 0 as real,
{
    lemma_quotient(0 as real, w);
    let q = 0 as real / w;
    assert(q == 0 as real) by (nonlinear_arith)
        requires
            q * w == 0 as real,
            w > 0 as real,
    ;
}

/// The weights of a frame.
proof fn lemma_turn_weight(e: spec_fn(real) -> real, h: real, c: real)
    requires
        exponential(e),
        h >= 0 as real,
        abs(c - e(-h)) <= 16 as real * (ulp() * e(-h)),
    ensures
        c * (1 as real + h) <= 1 as real + 16 as real * ulp(),
{
    lemma_constants();
    lemma_damped(e, h);
    lemma_exponential(e, h);
    let u = ulp();
    let g = 1 as real + h;
    let exact = e(-h);
    let f = exact * g;
    lemma_mul_reorder(g, exact, exact);
    lemma_mul_order(c, exact + 16 as real * (u * exact), g);
    lemma_mul_sum(g, exact, 16 as real * (u * exact));
    lemma_mul_reorder(16 as real, u * exact, g);
    lemma_mul_reorder(u, exact, g);
    lemma_mul_order(f, 1 as real, u);
}

/// The offset after a frame is a number of the format.
proof fn lemma_swung_of_format(s: SpringValue, dt: Value, length: Value, decay: Value)
    requires
        s.swung(dt, length, decay).position is Finite,
    ensures
        of_format(Format::Single, s.swung(dt, length, decay).position),
{
    let w = omega(length);
    let sum = s.position.plus(s.position.times(w).plus(s.velocity).times(dt));
    reveal(Value::times);
    if sum is Finite && decay is Finite {
        lemma_times_of_format(sum, decay);
    }
}

/// A moved offset leaves place and aim where they are, up to rounding.
proof fn lemma_moved_keeps(s: SpringValue, from: Value, to: Value, length: Value, a: real)
    requires
        steady(s, from, length, a),
        tame_coordinate(to),
        abs(number(to)) <= a,
        a <= 10_000 as real,
    ensures
        ({
            let moved = SpringValue {
                position: s.position.plus(to.minus(from)),
                velocity: s.velocity,
            };
            let b = a + 1 as real / 100 as real;
            &&& within(moved.position, 165)
            &&& of_format(Format::Single, moved.position)
            &&& abs(number(to) - number(moved.position)) <= b
            &&& ordinary(length) ==> abs(aim(moved, to, length)) <= b
        }),
{
    lemma_constants();
    let u = ulp();
    let p = number(s.position);
    let f = number(from);
    let t = number(to);
    let d = to.minus(from);
    lemma_moved_offset(s.position, from, to);
    lemma_canvas_within(from);
    lemma_canvas_within(to);
    lemma_minus_near(to, from);
    lemma_mul_order(abs(t - f), 2 as real * a, u);
    lemma_mul_order(2 as real * a, 20_000 as real, u);
    let nd = number(d);
    assert(1000 as real * abs(nd - (t - f)) <= 2 as real);
    vstd::arithmetic::power2::lemma2_to64();
    lemma_number_within(d, 15);
    lemma_pow2_strictly_increases(164, 275);
    lemma_plus_near(s.position, d);
    lemma_mul_order(abs(p + nd), 20_001 as real, u);
    assert(1000 as real * abs(number(s.position.plus(d)) - (p + nd)) <= 2 as real);
}

/// A coordinate on the canvas is in range.
proof fn lemma_canvas_within(x: Value)
    requires
        on_canvas(x),
    ensures
        within(x, 275),
        within(x, 163),
{
    vstd::arithmetic::power2::lemma2_to64();
    lemma_pow2_adds(14, 149);
    lemma_pow2_pos(149);
    lemma_pow2_strictly_increases(163, 275);
}

/// A coordinate of at most ten thousand is on the canvas.
proof fn lemma_on_canvas(x: Value)
    requires
        x is Finite,
        abs(number(x)) <= 10_000 as real,
    ensures
        on_canvas(x),
{
    lemma_constants();
    let v = unit();
    let n = units(x) as real;
    lemma_quotient(n, v);
    lemma_mul_order(number(x), 10_000 as real, v);
    lemma_mul_order(-number(x), 10_000 as real, v);
    lemma_mul_sum(v, 0 as real, number(x));
    assert(0 as real * v == 0 as real);
    lemma_real_product(10_000, pow2(149) as int);
}

/// On one axis, a step keeps a corner on the canvas.
proof fn lemma_axis_steady(
    e: spec_fn(real) -> real,
    s: SpringValue,
    from: Value,
    to: Value,
    jumps: bool,
    pace: PaceValue,
    a: real,
)
    requires
        exponential(e),
        steady(s, from, pace.length, a),
        tame_coordinate(to),
        abs(number(to)) <= a,
        a <= 9_999 as real,
        jumps || same(from, to),
        pace.dt is Finite,
        units(pace.dt) >= 0,
        ordinary(pace.length) || at_most(pace.length, pace.dt),
        ({
            let moved = if jumps {
                SpringValue { position: s.position.plus(to.minus(from)), velocity: s.velocity }
            } else {
                s
            };
            moved.moves(pace.dt, pace.length) ==> nearly_exponential(
                e,
                decay_exponent(pace.dt, pace.length),
                pace.decay,
            )
        }),
    ensures
        ({
            let moved = if jumps {
                SpringValue { position: s.position.plus(to.minus(from)), velocity: s.velocity }
            } else {
                s
            };
            let next = pace.advances(moved);
            &&& steady(next, to, pace.length, a + 1 as real / 8 as real)
            &&& on_canvas(to.minus(next.position))
        }),
{
    let moved = if jumps {
        SpringValue { position: s.position.plus(to.minus(from)), velocity: s.velocity }
    } else {
        s
    };
    let b = a + 1 as real / 100 as real;
    if jumps {
        lemma_moved_keeps(s, from, to, pace.length, a);
    } else {
        lemma_pow2_strictly_increases(164, 165);
        assert(units(from) == units(to));
    }
    lemma_spring_keeps(e, moved, to, pace.dt, pace.length, pace.decay, b);
    let next = pace.advances(moved);
    lemma_canvas_within(to);
    lemma_pow2_strictly_increases(164, 275);
    lemma_minus_near(to, next.position);
    lemma_constants();
    let u = ulp();
    let place = number(to) - number(next.position);
    lemma_mul_order(abs(place), 10_000 as real, u);
    lemma_on_canvas(to.minus(next.position));
}

/// The decays that matter are near to the exponential.
pub open spec fn nearly_exponentials(
    e: spec_fn(real) -> real,
    exponents: Exponents,
    decays: DecayValues,
) -> bool {
    &&& forall|i: int|
        0 <= i < 4 && exponents.along[i] is Some ==> nearly_exponential(
            e,
            exponents.along[i]->Some_0,
            #[trigger] decays.along[i],
        )
    &&& exponents.across is Some ==> nearly_exponential(
        e,
        exponents.across->Some_0,
        decays.across,
    )
}

/// What the two springs of a corner are advanced by, in a frame.
pub open spec fn paces(
    state: AnimationValue,
    key: CursorKey,
    destination: Seq<PointValue>,
    now: u64,
    timing: Timing,
    decays: DecayValues,
    i: int,
) -> (PaceValue, PaceValue) {
    let anchored = state.anchored(key, destination, timing);
    let frame = state.frame(key, now, timing);
    let along = anchored.along(frame, decays, i);
    let across = anchored.across(frame, decays);
    match anchored.axis {
        Axis::Horizontal => (along, across),
        Axis::Vertical => (across, along),
    }
}

/// The time of a frame, and its length or its being over.
pub open spec fn paced(pace: PaceValue) -> bool {
    &&& pace.dt is Finite
    &&& units(pace.dt) >= 0
    &&& ordinary(pace.length) || at_most(pace.length, pace.dt)
}

/// A step keeps the cursor on the canvas: where the target, the place and the
/// aim of a corner are within `a` pixels, and its new target is, they are so
/// after the step, but for an eighth of a pixel; its offsets and velocities
/// stay tame, and it is drawn on the canvas. The aim is taken with the
/// animation length that the step goes by: a corner that was fast, and slows
/// down in a new jump, may be carried beyond its target.
pub proof fn step_keeps_the_cursor_on_canvas(
    e: spec_fn(real) -> real,
    state: AnimationValue,
    key: CursorKey,
    destination: Seq<PointValue>,
    now: u64,
    timing: Timing,
    decays: DecayValues,
    i: int,
    a: real,
)
    requires
        exponential(e),
        0 <= i < 4,
        a <= 9_999 as real,
        state.last_destination is Some,
        state.jumps(key) || quad_same(state.last_destination->Some_0, destination),
        nearly_exponentials(e, state.exponents(key, destination, now, timing), decays),
        ({
            let from = state.last_destination->Some_0[i];
            let (x, y) = paces(state, key, destination, now, timing, decays, i);
            &&& paced(x)
            &&& paced(y)
            &&& steady(state.corners[i].spring_x, from.x, x.length, a)
            &&& steady(state.corners[i].spring_y, from.y, y.length, a)
            &&& tame_coordinate(destination[i].x)
            &&& tame_coordinate(destination[i].y)
            &&& abs(number(destination[i].x)) <= a
            &&& abs(number(destination[i].y)) <= a
        }),
    ensures
        ({
            let (x, y) = paces(state, key, destination, now, timing, decays, i);
            let after = state.next(key, destination, now, timing, decays).corners[i];
            let painted = state.painted(key, destination, now, timing, decays)[i];
            let b = a + 1 as real / 8 as real;
            &&& steady(after.spring_x, destination[i].x, x.length, b)
            &&& steady(after.spring_y, destination[i].y, y.length, b)
            &&& on_canvas(painted.x)
            &&& on_canvas(painted.y)
        }),
{
    let from = state.last_destination->Some_0;
    let anchored = state.anchored(key, destination, timing);
    let frame = state.frame(key, now, timing);
    let exponents = state.exponents(key, destination, now, timing);
    let along = anchored.along(frame, decays, i);
    let across = anchored.across(frame, decays);
    let c = anchored.corners[i];
    let (x, y) = paces(state, key, destination, now, timing, decays, i);
    let jumps = state.jumps(key);
    assert(jumps || from[i].same(destination[i]));
    assert(c.along(anchored.axis).moves(along.dt, along.length) ==> nearly_exponential(
        e,
        decay_exponent(along.dt, along.length),
        along.decay,
    )) by {
        if c.along(anchored.axis).moves(along.dt, along.length) {
            assert(exponents.along[i] == Some(decay_exponent(along.dt, along.length)));
            assert(nearly_exponential(e, exponents.along[i]->Some_0, decays.along[i]));
        }
    }
    assert(c.across(anchored.axis).moves(across.dt, across.length) ==> nearly_exponential(
        e,
        decay_exponent(across.dt, across.length),
        across.decay,
    )) by {
        if c.across(anchored.axis).moves(across.dt, across.length) {
            assert(anchored.moves_across(frame));
        }
    }
    lemma_axis_steady(
        e,
        state.corners[i].spring_x,
        from[i].x,
        destination[i].x,
        jumps,
        x,
        a,
    );
    lemma_axis_steady(
        e,
        state.corners[i].spring_y,
        from[i].y,
        destination[i].y,
        jumps,
        y,
        a,
    );
}

/// A cursor that has just been seen, or has come to rest, is steady at its
/// target.
pub proof fn settled_spring_is_steady(to: Value, length: Value, a: real)
    requires
        tame_coordinate(to),
        abs(number(to)) <= a,
    ensures
        steady(SpringValue::settled(), to, length, a),
{
    lemma_no_units(Value::zero());
    lemma_pow2_pos(164);
    lemma_pow2_pos(209);
    lemma_pow2_pos(24);
    lemma_pow2_pos(277);
    vstd::arithmetic::power2::lemma2_to64();
    assert(scaled(0, 0) == 0);
    if ordinary(length) {
        lemma_frequency_bounds(length);
        lemma_zero_quotient(number(omega(length)));
    }
}

} // verus!
