//! What holds of the library as a whole.

use vstd::arithmetic::power2::{
    lemma_pow2_adds, lemma_pow2_pos, lemma_pow2_strictly_increases, pow2,
};
use vstd::prelude::*;

use crate::animation::{
    frame_time, longest_frame, short_jump, travel, AnimationValue, Axis, CornerValue, CursorKey,
    DecayValues, Direction, Exponents, FrameValue, Timing,
};
use crate::arithmetic::{lemma_root_exists, lemma_square_order};
use crate::float::{
    at_most, clamped, floor_root, less, nearest, opposite, same, signed, Format, Value,
};
use crate::float_laws::{
    lemma_plus_order, lemma_plus_rounds, lemma_rounded_order, lemma_times_order, lemma_times_rounds,
    units,
};
use crate::geometry::{quad_same, quad_value, Point, PointValue, Quad};
use crate::rounding::{lemma_round_nothing, quantum, round_ratio};
use crate::rounding_laws::{
    lemma_quantum_bounds, lemma_round_error, lemma_round_exact, lemma_round_monotone,
    lemma_round_nearest, lemma_round_representable, representable, scaled,
};
use crate::single::{encoded_units, magnitude_bits, Single};
use crate::spring::SpringValue;

verus! {

/// The value is one of the format: a finite one needs no rounding.
pub open spec fn of_format(f: Format, v: Value) -> bool {
    v matches Value::Finite { units, .. } ==> representable(f.precision(), units) && units
        < f.limit()
}

/// The same value, or at least equal as numbers: zeros may differ in sign.
pub open spec fn agrees(a: Value, b: Value) -> bool {
    a == b || same(a, b)
}

/// Both coordinates agree.
pub open spec fn point_agrees(a: PointValue, b: PointValue) -> bool {
    agrees(a.x, b.x) && agrees(a.y, b.y)
}

/// Zero is at most one.
pub proof fn lemma_zero_below_one()
    ensures
        at_most(Value::zero(), Value::of(1)),
{
    reveal(Value::of);
}

/// One is a whole number of units.
pub proof fn lemma_one()
    ensures
        Value::of(1) == (Value::Finite { negative: false, units: pow2(149) }),
        representable(24, pow2(149)),
        pow2(149) < Format::Single.limit(),
{
    reveal(Value::of);
    vstd::arithmetic::power2::lemma2_to64();
    assert(scaled(1, 149) == pow2(149));
    assert(representable(24, pow2(149)));
    lemma_round_exact(24, pow2(149), 1);
    lemma_pow2_strictly_increases(149, 277);
    assert(1 * pow2(149) == pow2(149));
    assert(pow2(149) * 1 == pow2(149));
}

/// What 32 bits encode is a single-precision number.
pub proof fn lemma_single_of_format(x: Single)
    ensures
        of_format(Format::Single, x@),
{
    let rest = magnitude_bits(x.bits);
    if rest < 0x7f80_0000 {
        let field = rest / 0x80_0000;
        let fraction = rest % 0x80_0000;
        vstd::arithmetic::power2::lemma2_to64();
        let n: nat = if field == 0 {
            fraction
        } else {
            (0x80_0000 + fraction) as nat
        };
        let k: nat = if field == 0 {
            0
        } else {
            (field - 1) as nat
        };
        let p = pow2(k);
        lemma_pow2_pos(k);
        if field == 0 {
            assert(n * 1 == n);
        }
        assert(encoded_units(rest) == scaled(n, k));
        assert(representable(24, encoded_units(rest)));
        lemma_pow2_adds(24, k);
        let full = pow2(24);
        assert(n * p < full * p) by (nonlinear_arith)
            requires
                n < full,
                p > 0,
        ;
        if k < 253 {
            lemma_pow2_strictly_increases(24 + k, 277);
        }
    }
}

/// A result of rounding is one of the format.
pub proof fn lemma_nearest_of_format(f: Format, negative: bool, num: nat, den: nat)
    requires
        den > 0,
    ensures
        of_format(f, nearest(f, negative, num, den)),
{
    lemma_round_representable(f.precision(), num, den);
}

/// A product is a number of the format.
pub proof fn lemma_times_of_format(a: Value, b: Value)
    requires
        a is Finite,
        b is Finite,
    ensures
        of_format(Format::Single, a.times(b)),
{
    reveal(Value::times);
    lemma_pow2_pos(149);
    let x = a->Finite_units;
    let y = b->Finite_units;
    lemma_nearest_of_format(
        Format::Single,
        a->Finite_negative != b->Finite_negative,
        x * y,
        pow2(149),
    );
}

/// A difference is one of the format.
pub proof fn lemma_minus_of_format(a: Value, b: Value)
    requires
        of_format(Format::Single, a),
        of_format(Format::Single, b),
    ensures
        of_format(Format::Single, a.minus(b)),
{
    reveal(Value::minus);
    let f = Format::Single;
    match (a, opposite(b)) {
        (
            Value::Finite { negative: s, units: x },
            Value::Finite { negative: t, units: y },
        ) => {
            let sum = signed(s, x) + signed(t, y);
            if sum > 0 {
                lemma_nearest_of_format(f, false, sum as nat, 1);
            } else if sum < 0 {
                lemma_nearest_of_format(f, true, (-sum) as nat, 1);
            } else {
                vstd::arithmetic::power2::lemma2_to64();
                assert(scaled(0, 0) == 0);
                lemma_pow2_pos(24);
                lemma_pow2_pos(277);
            }
        },
        _ => {},
    }
}

/// A magnitude that fits the format is not rounded.
pub proof fn lemma_fitting(f: Format, negative: bool, units: nat)
    requires
        representable(f.precision(), units),
        units < f.limit(),
    ensures
        nearest(f, negative, units, 1) == (Value::Finite { negative, units }),
{
    lemma_round_exact(f.precision(), units, 1);
    assert(units * 1 == units);
}

/// Taking away a zero changes nothing but the sign of a zero; taking away the
/// positive zero changes nothing at all.
proof fn lemma_minus_zero(a: Value, z: Value)
    requires
        of_format(Format::Single, a),
        z.is_zero(),
    ensures
        agrees(a.minus(z), a),
        z == Value::zero() ==> a.minus(z) == a,
{
    reveal(Value::minus);
    if let Value::Finite { negative, units } = a {
        if units != 0 {
            lemma_fitting(Format::Single, negative, units);
        }
    }
}

/// A spring that is told to stop is on target, and one that is on target stays
/// there.
pub proof fn lemma_spring_stops(s: SpringValue, dt: Value, length: Value, decay: Value)
    ensures
        !s.animating(dt, length, decay) ==> s.advanced(dt, length, decay).at_rest(),
        s.at_rest() ==> !s.animating(dt, length, decay) && s.advanced(
            dt,
            length,
            decay,
        ).at_rest(),
        at_most(length, dt) ==> !s.animating(dt, length, decay) && s.advanced(dt, length, decay)
            == SpringValue::settled(),
{
}

/// A corner on target, drawn, is on its target.
proof fn lemma_on_target(c: CornerValue, target: Point)
    requires
        c == c.snapped(),
    ensures
        c.drawn(target@) == target@,
{
    lemma_single_of_format(target.x);
    lemma_single_of_format(target.y);
    lemma_minus_zero(target.x@, Value::zero());
    lemma_minus_zero(target.y@, Value::zero());
}

/// Where all corners are snapped, the cursor is drawn at its destination, and
/// nothing moves.
proof fn lemma_snapped(
    state: AnimationValue,
    key: CursorKey,
    destination: Quad,
    now: u64,
    timing: Timing,
    decays: DecayValues,
)
    requires
        ({
            let corners = state.anchored(key, quad_value(destination), timing).corners;
            forall|i: int| 0 <= i < 4 ==> (#[trigger] corners[i]) == corners[i].snapped()
        }),
    ensures
        state.painted(key, quad_value(destination), now, timing, decays) == quad_value(destination),
        !state.animating(key, quad_value(destination), now, timing, decays),
{
    let to = quad_value(destination);
    let anchored = state.anchored(key, to, timing);
    let frame = state.frame(key, now, timing);
    assert forall|i: int| 0 <= i < 4 implies {
        &&& !(#[trigger] anchored.corners[i]).animating(
            anchored.axis,
            anchored.along(frame, decays, i),
            anchored.across(frame, decays),
        )
        &&& state.painted(key, to, now, timing, decays)[i] == to[i]
    } by {
        lemma_on_target(anchored.advanced(frame, decays)[i], destination[i]);
    }
    assert(state.painted(key, to, now, timing, decays) =~= to);
}

/// The first time that the cursor is seen, or seen again after a reset, it is
/// drawn at its destination, and nothing moves.
pub proof fn first_observation_snaps(
    key: CursorKey,
    destination: Quad,
    now: u64,
    timing: Timing,
    decays: DecayValues,
)
    ensures
        AnimationValue::fresh().painted(key, quad_value(destination), now, timing, decays)
            == quad_value(destination),
        !AnimationValue::fresh().animating(key, quad_value(destination), now, timing, decays),
{
    lemma_snapped(AnimationValue::fresh(), key, destination, now, timing, decays);
}

/// When the destination moves and the cursor does not, as in scrolling, the
/// cursor is drawn at its destination, and nothing moves.
pub proof fn scrolling_snaps(
    state: AnimationValue,
    key: CursorKey,
    destination: Quad,
    now: u64,
    timing: Timing,
    decays: DecayValues,
)
    requires
        !state.jumps(key),
        state.last_destination matches Some(from) && !quad_same(from, quad_value(destination)),
    ensures
        state.painted(key, quad_value(destination), now, timing, decays) == quad_value(destination),
        !state.animating(key, quad_value(destination), now, timing, decays),
{
    lemma_snapped(state, key, destination, now, timing, decays);
}

/// Both springs of the corner are on target.
pub open spec fn corner_at_rest(c: CornerValue) -> bool {
    c.spring_x.at_rest() && c.spring_y.at_rest()
}

/// When no further frame is asked for, the cursor is drawn at its destination,
/// and all corners have come to rest.
pub proof fn quiet_cursor_has_arrived(
    state: AnimationValue,
    key: CursorKey,
    destination: Quad,
    now: u64,
    timing: Timing,
    decays: DecayValues,
)
    requires
        !state.animating(key, quad_value(destination), now, timing, decays),
    ensures
        ({
            let to = quad_value(destination);
            let corners = state.next(key, to, now, timing, decays).corners;
            let painted = state.painted(key, to, now, timing, decays);
            &&& forall|i: int| 0 <= i < 4 ==> corner_at_rest(#[trigger] corners[i])
            &&& forall|i: int| 0 <= i < 4 ==> point_agrees(#[trigger] painted[i], to[i])
        }),
{
    let to = quad_value(destination);
    let anchored = state.anchored(key, to, timing);
    let frame = state.frame(key, now, timing);
    let after = state.next(key, to, now, timing, decays).corners;
    let painted = state.painted(key, to, now, timing, decays);
    assert forall|i: int| 0 <= i < 4 implies corner_at_rest(#[trigger] after[i]) && point_agrees(
        painted[i],
        to[i],
    ) by {
        let c = anchored.corners[i];
        let along = anchored.along(frame, decays, i);
        let across = anchored.across(frame, decays);
        assert(!c.animating(anchored.axis, along, across));
        lemma_spring_stops(c.along(anchored.axis), along.dt, along.length, along.decay);
        lemma_spring_stops(c.across(anchored.axis), across.dt, across.length, across.decay);
        lemma_single_of_format(destination[i].x);
        lemma_single_of_format(destination[i].y);
        lemma_minus_zero(to[i].x, after[i].spring_x.position);
        lemma_minus_zero(to[i].y, after[i].spring_y.position);
    }
    assert forall|i: int| 0 <= i < 4 implies point_agrees(#[trigger] painted[i], to[i]) by {
        assert(corner_at_rest(after[i]));
    }
}

/// A cursor at rest that stays in place asks for no further frame.
pub proof fn resting_cursor_stays_quiet(
    state: AnimationValue,
    key: CursorKey,
    destination: Quad,
    now: u64,
    timing: Timing,
    decays: DecayValues,
)
    requires
        !state.jumps(key),
        forall|i: int| 0 <= i < 4 ==> corner_at_rest(#[trigger] state.corners[i]),
    ensures
        !state.animating(key, quad_value(destination), now, timing, decays),
{
    let anchored = state.anchored(key, quad_value(destination), timing);
    let frame = state.frame(key, now, timing);
    assert forall|i: int| 0 <= i < 4 implies !(#[trigger] anchored.corners[i]).animating(
        anchored.axis,
        anchored.along(frame, decays, i),
        anchored.across(frame, decays),
    ) by {
        assert(corner_at_rest(state.corners[i]));
    }
}

/// A cursor that stayed in place for the animation lengths of its corners has
/// arrived: it is drawn at its destination, and nothing moves.
pub proof fn animation_settles(
    state: AnimationValue,
    key: CursorKey,
    destination: Quad,
    now: u64,
    timing: Timing,
    decays: DecayValues,
)
    requires
        !state.jumps(key),
        state.last_destination matches Some(from) && quad_same(from, quad_value(destination)),
        forall|i: int|
            0 <= i < 4 ==> at_most(
                #[trigger] state.length_along(state.frame(key, now, timing), i),
                state.elapsed(now),
            ),
        at_most(state.cross_length_or(timing.animation_length), state.elapsed(now)),
    ensures
        state.painted(key, quad_value(destination), now, timing, decays) == quad_value(destination),
        !state.animating(key, quad_value(destination), now, timing, decays),
{
    let to = quad_value(destination);
    let frame = state.frame(key, now, timing);
    let painted = state.painted(key, to, now, timing, decays);
    assert forall|i: int| 0 <= i < 4 implies {
        &&& !(#[trigger] state.corners[i]).animating(
            state.axis,
            state.along(frame, decays, i),
            state.across(frame, decays),
        )
        &&& painted[i] == to[i]
    } by {
        lemma_on_target(state.advanced(frame, decays)[i], destination[i]);
    }
    assert(painted =~= to);
}

/// An integer number of units that the single-precision format holds.
pub open spec fn fits(units: int) -> bool {
    let size = (if units >= 0 {
        units
    } else {
        -units
    }) as nat;
    representable(24, size) && size < Format::Single.limit()
}

/// Difference of two finite values, in units.
pub open spec fn gap(to: Value, from: Value) -> int {
    match (to, from) {
        (
            Value::Finite { negative: s, units: x },
            Value::Finite { negative: t, units: y },
        ) => signed(s, x) - signed(t, y),
        _ => 0,
    }
}

/// A sum that fits is exact.
pub proof fn fitting_sums_are_exact(a: Value, b: Value)
    requires
        a is Finite,
        b is Finite,
        fits(gap(a, opposite(b))),
    ensures
        a.plus(b) is Finite,
        gap(a.plus(b), Value::zero()) == gap(a, opposite(b)),
{
    reveal(Value::plus);
    let sum = gap(a, opposite(b));
    if sum > 0 {
        lemma_fitting(Format::Single, false, sum as nat);
    } else if sum < 0 {
        lemma_fitting(Format::Single, true, (-sum) as nat);
    }
}

/// On one axis, an offset that takes up the difference of two targets leaves
/// the corner in its place, as long as nothing is rounded away.
proof fn lemma_place_kept(offset: Value, from: Value, to: Value)
    requires
        offset is Finite,
        from is Finite,
        to is Finite,
        fits(gap(to, from)),
        fits(gap(offset, Value::zero()) + gap(to, from)),
    ensures
        agrees(to.minus(offset.plus(to.minus(from))), from.minus(offset)),
{
    reveal(Value::plus);
    reveal(Value::minus);
    fitting_sums_are_exact(to, opposite(from));
    fitting_sums_are_exact(offset, to.minus(from));
}

/// A jump leaves the corners where they are on the screen while their targets
/// move away, wherever the distance of the jump and the new offset can be held
/// without rounding.
pub proof fn jump_keeps_place(corner: CornerValue, from: PointValue, to: PointValue)
    requires
        corner.spring_x.position is Finite,
        corner.spring_y.position is Finite,
        from.x is Finite,
        from.y is Finite,
        to.x is Finite,
        to.y is Finite,
        fits(gap(to.x, from.x)),
        fits(gap(to.y, from.y)),
        fits(gap(corner.spring_x.position, Value::zero()) + gap(to.x, from.x)),
        fits(gap(corner.spring_y.position, Value::zero()) + gap(to.y, from.y)),
    ensures
        point_agrees(corner.moved(from, to).drawn(to), corner.drawn(from)),
{
    lemma_place_kept(corner.spring_x.position, from.x, to.x);
    lemma_place_kept(corner.spring_y.position, from.y, to.y);
}

/// The two corners on the edge that faces `d` take the leading time, the other
/// two the full one.
pub open spec fn paired(corners: Seq<CornerValue>, timing: Timing, d: Direction) -> bool {
    forall|i: int|
        0 <= i < 4 ==> (#[trigger] corners[i]).animation_length == (if d.leads(i) {
            timing.leading()
        } else {
            timing.animation_length
        })
}

/// After a jump, either all springs take the short time, or only two lengths
/// are in play: one on the leading edge, along the axis of travel, and one for
/// all else.
pub proof fn jump_uses_two_lengths(
    state: AnimationValue,
    key: CursorKey,
    destination: Seq<PointValue>,
    timing: Timing,
)
    requires
        state.jumps(key),
        state.last_destination is Some,
    ensures
        ({
            let after = state.anchored(key, destination, timing);
            ||| after.cross_length == timing.quick() && forall|i: int|
                0 <= i < 4 ==> (#[trigger] after.corners[i]).animation_length == timing.quick()
            ||| after.cross_length == timing.animation_length && exists|d: Direction|
                #[trigger] paired(after.corners, timing, d) && after.axis == d.along()
        }),
{
    let after = state.anchored(key, destination, timing);
    let moved = state.moved(state.last_destination->Some_0, destination);
    let whole = travel(moved.corners, destination);
    if !short_jump(destination, whole) {
        assert(paired(after.corners, timing, Direction::toward(whole.x, whole.y)));
    }
}

/// Animation length of the leading edge: a share of the full one.
pub proof fn lemma_leading_share(timing: Timing) -> (share: Value)
    requires
        timing.trail_size !is Nan,
        of_format(Format::Single, timing.trail_size),
    ensures
        share == clamped(Value::of(1).minus(timing.trail_size), Value::zero(), Value::of(1)),
        timing.leading() == timing.animation_length.times(share),
        share is Finite,
        of_format(Format::Single, share),
        at_most(Value::zero(), share),
        units(share) <= pow2(149),
{
    lemma_one();
    lemma_pow2_pos(149);
    lemma_pow2_pos(24);
    lemma_pow2_pos(277);
    lemma_minus_of_format(Value::of(1), timing.trail_size);
    vstd::arithmetic::power2::lemma2_to64();
    assert(scaled(0, 0) == 0);
    reveal(Value::minus);
    clamped(Value::of(1).minus(timing.trail_size), Value::zero(), Value::of(1))
}

/// A share of a length is no more than the length, and it is less than the
/// length if the share is less than one and the length is no tiny number.
pub proof fn lemma_share(length: Value, share: Value)
    requires
        of_format(Format::Single, length),
        length is Finite,
        at_most(Value::zero(), length),
        share is Finite,
        of_format(Format::Single, share),
        at_most(Value::zero(), share),
        units(share) <= pow2(149),
    ensures
        length.times(share) is Finite,
        0 <= units(length.times(share)) <= units(length),
        units(share) < pow2(149) && units(length) >= pow2(24) ==> units(length.times(share))
            < units(length),
{
    reveal(Value::times);
    let x = units(length) as nat;
    let u = units(share) as nat;
    let unit = pow2(149);
    lemma_pow2_pos(149);
    lemma_pow2_pos(277);
    lemma_times_rounds(Format::Single, length, share);
    assert((x * u) * 1 <= x * unit) by (nonlinear_arith)
        requires
            u <= unit,
    ;
    assert(units(length) * units(share) == x * u);
    lemma_round_monotone(24, x * u, unit, x, 1);
    lemma_round_exact(24, x, 1);
    assert(x * 1 == x);
    if u < unit && x >= pow2(24) {
        lemma_below_one(u);
        lemma_round_below(x, u);
    }
}

/// A number below one is at least a step below it.
pub proof fn lemma_below_one(u: nat)
    requires
        representable(24, u),
        u < pow2(149),
    ensures
        u + pow2(125) <= pow2(149),
{
    let (n, k) = choose|n: nat, k: nat| n <= pow2(24) && u == #[trigger] scaled(n, k);
    let p = pow2(k);
    lemma_pow2_pos(k);
    lemma_pow2_adds(24, 125);
    lemma_pow2_adds(24, 124);
    lemma_pow2_adds(148, 1);
    vstd::arithmetic::power2::lemma2_to64();
    lemma_pow2_strictly_increases(125, 148);
    if k < 125 {
        if k < 124 {
            lemma_pow2_strictly_increases(k, 124);
        }
        assert(n * p <= pow2(24) * pow2(124)) by (nonlinear_arith)
            requires
                n <= pow2(24),
                p <= pow2(124),
        ;
    } else if k >= 149 {
        if k > 149 {
            lemma_pow2_strictly_increases(149, k);
        }
        assert(n == 0) by (nonlinear_arith)
            requires
                n * p < pow2(149),
                p >= pow2(149),
        ;
        assert(n * p == 0) by (nonlinear_arith)
            requires
                n == 0,
        ;
    } else {
        let rest = pow2((149 - k) as nat);
        lemma_pow2_adds(k, (149 - k) as nat);
        if k > 125 {
            lemma_pow2_strictly_increases(125, k);
        }
        assert(n * p + p <= p * rest) by (nonlinear_arith)
            requires
                n * p < p * rest,
                p > 0,
        ;
    }
}

/// A length that is taken less than whole is rounded to less than itself.
proof fn lemma_round_below(x: nat, u: nat)
    requires
        x >= pow2(24),
        u + pow2(125) <= pow2(149),
    ensures
        round_ratio(24, x * u, pow2(149)) < x,
{
    let den = pow2(149);
    let step = pow2(125);
    let num = x * u;
    lemma_pow2_pos(149);
    lemma_pow2_pos(125);
    let whole = num / den;
    vstd::arithmetic::div_mod::lemma_fundamental_div_mod(num as int, den as int);
    let k = quantum(24, whole);
    let q = pow2(k);
    lemma_pow2_pos(k);
    lemma_quantum_bounds(24, whole);
    let bound = pow2(24 + k);
    assert(num < den * bound) by (nonlinear_arith)
        requires
            num < den * whole + den,
            whole < bound,
            den > 0,
    ;
    lemma_round_error(24, num, den, k);
    assert(whole < x) by (nonlinear_arith)
        requires
            den * whole <= num,
            num == x * u,
            u < den,
            x > 0,
    ;
    vstd::arithmetic::power2::lemma2_to64();
    lemma_pow2_adds(23, k);
    assert(x > pow2(23) * q) by {
        if k == 0 {
            lemma_pow2_strictly_increases(23, 24);
        }
    }
    lemma_pow2_adds(23, 126);
    lemma_pow2_adds(125, 1);
    let r = round_ratio(24, num, den);
    // den == pow2(23) * pow2(126), and num <= x * den - x * step.
    assert(den * q < x * (2 * step)) by (nonlinear_arith)
        requires
            x > pow2(23) * q,
            den == pow2(23) * (2 * step),
            step > 0,
    ;
    assert(num <= x * den - x * step) by (nonlinear_arith)
        requires
            num == x * u,
            u + step <= den,
    ;
    assert(r < x) by (nonlinear_arith)
        requires
            2 * (r * den - num) <= den * q,
            den * q < x * (2 * step),
            num <= x * den - x * step,
            den > 0,
    ;
}

/// The leading edge takes no longer than the rest. With a trail size above
/// zero it takes less time, in every frame in which some time passes; but a
/// trail size that taken from one leaves one, or an animation length below
/// `pow2(-125)` seconds, may be lost in rounding.
pub proof fn leading_edge_is_first(
    state: AnimationValue,
    key: CursorKey,
    destination: Seq<PointValue>,
    timing: Timing,
    jumps: bool,
    elapsed: Value,
    lead: int,
    trail: int,
)
    requires
        state.jumps(key),
        state.last_destination is Some,
        of_format(Format::Single, timing.animation_length),
        of_format(Format::Single, timing.trail_size),
        timing.animation_length is Finite,
        at_most(Value::zero(), timing.animation_length),
        timing.trail_size !is Nan,
        0 <= lead < 4,
        0 <= trail < 4,
        ({
            let moved = state.moved(state.last_destination->Some_0, destination);
            let travel = travel(moved.corners, destination);
            let d = Direction::toward(travel.x, travel.y);
            &&& !short_jump(destination, travel)
            &&& d.leads(lead)
            &&& !d.leads(trail)
        }),
    ensures
        ({
            let anchored = state.anchored(key, destination, timing);
            let frame = FrameValue { jumps, elapsed, default: timing.animation_length };
            let leading = anchored.length_along(frame, lead);
            let trailing = anchored.length_along(frame, trail);
            &&& at_most(leading, trailing)
            &&& less(Value::of(1).minus(timing.trail_size), Value::of(1)) && units(
                timing.animation_length,
            ) >= pow2(24) && less(Value::zero(), elapsed) ==> less(leading, trailing)
        }),
{
    lemma_one();
    let share = lemma_leading_share(timing);
    lemma_share(timing.animation_length, share);
    lemma_pow2_pos(149);
    lemma_pow2_pos(24);
    let corners = state.anchored(key, destination, timing).corners;
    assert(corners[lead].animation_length == timing.leading());
    assert(corners[trail].animation_length == timing.animation_length);
}

/// A trail size above `pow2(-24)` leaves less than one, so that it makes the
/// leading edge faster.
pub proof fn trail_size_counts(trail_size: Value)
    requires
        less(Value::Finite { negative: false, units: pow2(125) }, trail_size),
    ensures
        less(Value::of(1).minus(trail_size), Value::of(1)),
{
    reveal(Value::minus);
    lemma_one();
    lemma_pow2_adds(24, 125);
    lemma_pow2_pos(125);
    vstd::arithmetic::power2::lemma2_to64();
    if trail_size is Finite {
        let one = Value::of(1);
        lemma_plus_rounds(Format::Single, one, opposite(trail_size));
        let below = (pow2(149) - pow2(125)) as nat;
        let n = (pow2(24) - 1) as nat;
        assert(n * pow2(125) == below) by (nonlinear_arith)
            requires
                n == pow2(24) - 1,
                below == pow2(149) - pow2(125),
                pow2(149) == pow2(24) * pow2(125),
        ;
        assert(below == scaled(n, 125));
        lemma_rounded_order(Format::Single, pow2(149) - units(trail_size), 1, below as int, 1);
        lemma_fitting(Format::Single, false, below);
    }
}

/// A larger trail size never lengthens the animation of any corner: neither
/// the length that is set by a jump nor, in a frame in which some time passes,
/// the one that is gone by.
pub proof fn larger_trail_is_never_slower(
    state: AnimationValue,
    key: CursorKey,
    destination: Seq<PointValue>,
    now: u64,
    timing: Timing,
    trail_size: Value,
    i: int,
)
    requires
        state.jumps(key),
        state.last_destination is Some,
        of_format(Format::Single, timing.animation_length),
        of_format(Format::Single, timing.trail_size),
        of_format(Format::Single, trail_size),
        timing.animation_length is Finite,
        at_most(Value::zero(), timing.animation_length),
        at_most(timing.trail_size, trail_size),
        0 <= i < 4,
    ensures
        ({
            let larger = Timing { trail_size, ..timing };
            let frame = state.frame(key, now, timing);
            let before = state.anchored(key, destination, timing);
            let after = state.anchored(key, destination, larger);
            &&& less(Value::zero(), frame.elapsed) ==> at_most(
                after.length_along(frame, i),
                before.length_along(frame, i),
            )
            &&& at_most(
                after.corners[i].animation_length,
                before.corners[i].animation_length,
            )
            &&& after.cross_length == before.cross_length
        }),
{
    reveal(Value::minus);
    reveal(Value::times);
    let larger = Timing { trail_size, ..timing };
    let one = Value::of(1);
    lemma_one();
    let share = lemma_leading_share(timing);
    let share_there = lemma_leading_share(larger);
    lemma_share(timing.animation_length, share);
    lemma_share(timing.animation_length, share_there);
    assert(at_most(one.minus(trail_size), one.minus(timing.trail_size))) by {
        lemma_plus_order(
            Format::Single,
            one,
            opposite(trail_size),
            one,
            opposite(timing.trail_size),
        );
    }
    lemma_times_order(Format::Single, share_there, share, timing.animation_length);
}

/// A jump along one axis moves the cursor along that axis only: where a corner
/// rests on the other axis, and its target does not move there, it is drawn at
/// its target on that axis.
pub proof fn idle_axis_stays(
    state: AnimationValue,
    key: CursorKey,
    destination: Quad,
    now: u64,
    timing: Timing,
    decays: DecayValues,
    i: int,
)
    requires
        0 <= i < 4,
        state.jumps(key),
        state.last_destination is Some,
    ensures
        ({
            let to = quad_value(destination);
            let from = state.last_destination->Some_0;
            let painted = state.painted(key, to, now, timing, decays);
            &&& state.corners[i].spring_x.at_rest() && to[i].x is Finite && same(
                to[i].x,
                from[i].x,
            ) ==> agrees(painted[i].x, to[i].x)
            &&& state.corners[i].spring_y.at_rest() && to[i].y is Finite && same(
                to[i].y,
                from[i].y,
            ) ==> agrees(painted[i].y, to[i].y)
        }),
{
    reveal(Value::plus);
    reveal(Value::minus);
    let to = quad_value(destination);
    let from = state.last_destination->Some_0;
    let anchored = state.anchored(key, to, timing);
    let frame = state.frame(key, now, timing);
    let c = anchored.corners[i];
    let after = anchored.advanced(frame, decays)[i];
    let along = anchored.along(frame, decays, i);
    let across = anchored.across(frame, decays);
    lemma_single_of_format(destination[i].x);
    lemma_single_of_format(destination[i].y);
    lemma_spring_stops(c.along(anchored.axis), along.dt, along.length, along.decay);
    lemma_spring_stops(c.across(anchored.axis), across.dt, across.length, across.decay);
    if state.corners[i].spring_x.at_rest() && to[i].x is Finite && same(to[i].x, from[i].x) {
        lemma_minus_zero(to[i].x, after.spring_x.position);
    }
    if state.corners[i].spring_y.at_rest() && to[i].y is Finite && same(to[i].y, from[i].y) {
        lemma_minus_zero(to[i].y, after.spring_y.position);
    }
}

/// The sides of the quadrilateral are horizontal and vertical.
pub open spec fn upright(q: Seq<PointValue>) -> bool {
    &&& q[0].x == q[3].x
    &&& q[1].x == q[2].x
    &&& q[0].y == q[1].y
    &&& q[2].y == q[3].y
}

/// The springs of each side are in the same state, and the target is upright.
/// So it is with all springs settled.
pub open spec fn aligned(state: AnimationValue) -> bool {
    let c = state.corners;
    &&& c[0].spring_x == c[3].spring_x
    &&& c[1].spring_x == c[2].spring_x
    &&& c[0].spring_y == c[1].spring_y
    &&& c[2].spring_y == c[3].spring_y
    &&& state.last_destination matches Some(q) ==> upright(q)
}

/// The two corners of each edge across the axis of travel take the same time.
pub open spec fn edges_timed_alike(state: AnimationValue) -> bool {
    let c = state.corners;
    match state.axis {
        Axis::Horizontal => {
            &&& c[0].animation_length == c[3].animation_length
            &&& c[1].animation_length == c[2].animation_length
        },
        Axis::Vertical => {
            &&& c[0].animation_length == c[1].animation_length
            &&& c[2].animation_length == c[3].animation_length
        },
    }
}

/// Corners that ask for the same exponential get the same decay.
pub open spec fn answered_alike(exponents: Exponents, decays: DecayValues) -> bool {
    forall|i: int, j: int|
        0 <= i < 4 && 0 <= j < 4 && exponents.along[i] is Some && exponents.along[i]
            == exponents.along[j] ==> #[trigger] decays.along[i] == #[trigger] decays.along[j]
}

/// Where a cursor starts that is never tilted.
pub proof fn fresh_cursor_is_aligned()
    ensures
        aligned(AnimationValue::fresh()),
        edges_timed_alike(AnimationValue::fresh()),
{
}

/// The cursor stays an upright rectangle in every frame, whatever the jump: it
/// is stretched, but never tilted. A jump needs no more than that the cursor
/// was upright; it times the edges alike, and so each frame leaves a cursor
/// for which the same holds of the next one.
pub proof fn cursor_is_never_tilted(
    state: AnimationValue,
    key: CursorKey,
    destination: Seq<PointValue>,
    now: u64,
    timing: Timing,
    decays: DecayValues,
)
    requires
        aligned(state),
        edges_timed_alike(state) || state.jumps(key) && state.last_destination is Some,
        upright(destination),
        answered_alike(state.exponents(key, destination, now, timing), decays),
    ensures
        aligned(state.next(key, destination, now, timing, decays)),
        edges_timed_alike(state.next(key, destination, now, timing, decays)),
        upright(state.painted(key, destination, now, timing, decays)),
{
    let anchored = state.anchored(key, destination, timing);
    let frame = state.frame(key, now, timing);
    let exponents = state.exponents(key, destination, now, timing);
    assert(aligned(anchored) && edges_timed_alike(anchored));
    match anchored.axis {
        Axis::Horizontal => {
            lemma_alike(anchored, frame, exponents, decays, 0, 3);
            lemma_alike(anchored, frame, exponents, decays, 1, 2);
        },
        Axis::Vertical => {
            lemma_alike(anchored, frame, exponents, decays, 0, 1);
            lemma_alike(anchored, frame, exponents, decays, 2, 3);
        },
    }
}

/// Two corners that take the same time, and are in the same state along the
/// axis of travel, stay in the same state on that axis.
proof fn lemma_alike(
    anchored: AnimationValue,
    frame: FrameValue,
    exponents: Exponents,
    decays: DecayValues,
    i: int,
    j: int,
)
    requires
        0 <= i < 4,
        0 <= j < 4,
        exponents == anchored.wanted(frame),
        answered_alike(exponents, decays),
        anchored.corners[i].animation_length == anchored.corners[j].animation_length,
        anchored.corners[i].along(anchored.axis) == anchored.corners[j].along(anchored.axis),
    ensures
        anchored.along(frame, decays, i).advances(anchored.corners[i].along(anchored.axis))
            == anchored.along(frame, decays, j).advances(anchored.corners[j].along(anchored.axis)),
{
    assert(exponents.along[i] == exponents.along[j]);
    if exponents.along[i] is Some {
        assert(decays.along[i] == decays.along[j]);
    }
}

/// Naturals of few significant bits are held as they are.
pub proof fn short_naturals_are_exact(n: nat, m: nat, k: nat)
    requires
        n == m * pow2(k),
        m <= pow2(24),
        k <= 64,
    ensures
        Value::of(n) == (Value::Finite { negative: false, units: n * pow2(149) }),
{
    reveal(Value::of);
    let units = n * pow2(149);
    let a = pow2(k);
    let b = pow2(149);
    lemma_pow2_adds(k, 149);
    assert(units == m * (a * b)) by (nonlinear_arith)
        requires
            units == n * b,
            n == m * a,
    ;
    assert(units == scaled(m, k + 149));
    assert(representable(24, units));
    let p = pow2((k + 149) as nat);
    let full = pow2(24);
    lemma_pow2_adds(24, (k + 149) as nat);
    assert(m * p <= full * p) by (nonlinear_arith)
        requires
            m <= full,
    ;
    lemma_pow2_strictly_increases(24 + (k + 149) as nat, 277);
    lemma_fitting(Format::Single, false, units);
}

/// A ratio of short naturals is the number nearest to it.
pub proof fn lemma_ratio(n: nat, d: nat)
    requires
        n <= 65536,
        0 < d <= 65536,
    ensures
        Value::ratio(n, d) == nearest(Format::Single, false, n * pow2(149), d),
{
    reveal(Value::over);
    vstd::arithmetic::power2::lemma2_to64();
    assert(n * pow2(0) == n);
    assert(d * pow2(0) == d);
    short_naturals_are_exact(n, n, 0);
    short_naturals_are_exact(d, d, 0);
    let unit = pow2(149);
    lemma_pow2_pos(149);
    let num = (n * unit) * unit;
    let den = d * unit;
    assert(den > 0) by (nonlinear_arith)
        requires
            d > 0,
            unit > 0,
            den == d * unit,
    ;
    assert(num * d == (n * unit) * den) by (nonlinear_arith)
        requires
            num == (n * unit) * unit,
            den == d * unit,
    ;
    lemma_round_monotone(24, num, den, n * unit, d);
    lemma_round_monotone(24, n * unit, d, num, den);
}

/// A ratio of short naturals is within a bound that is a short multiple of a
/// power of two.
pub proof fn lemma_ratio_below(n: nat, d: nat, m: nat, k: nat)
    requires
        n <= 65536,
        0 < d <= 65536,
        m <= 1024,
        k <= 160,
        n * pow2(149) <= (m * pow2(k)) * d,
    ensures
        Value::ratio(n, d) is Finite,
        0 <= units(Value::ratio(n, d)) <= m * pow2(k),
{
    lemma_ratio(n, d);
    let y = m * pow2(k);
    vstd::arithmetic::power2::lemma2_to64();
    assert(y == scaled(m, k));
    assert(representable(24, y));
    lemma_round_monotone(24, n * pow2(149), d, y, 1);
    lemma_round_exact(24, y, 1);
    assert(y * 1 == y);
    let p = pow2(k);
    lemma_pow2_adds(10, k);
    assert(y <= pow2(10) * p) by (nonlinear_arith)
        requires
            y == m * p,
            m <= pow2(10),
    ;
    lemma_pow2_strictly_increases(10 + k, 277);
}

/// However long the pause before a jump, the jump is seen: its first frame is
/// no longer than the longest frame.
pub proof fn pause_before_jump_is_cut(elapsed: Value, length: Value)
    ensures
        at_most(frame_time(true, elapsed, length), longest_frame()),
        longest_frame() is Finite,
{
    reveal(Value::over);
    vstd::arithmetic::power2::lemma2_to64();
    assert(1 * pow2(0) == 1);
    assert(10 * pow2(0) == 10);
    short_naturals_are_exact(1, 1, 0);
    short_naturals_are_exact(10, 10, 0);
    let unit = pow2(149);
    lemma_pow2_pos(149);
    let den = 10 * unit;
    let num = (1 * unit) * unit;
    assert(num * 1 <= unit * den) by (nonlinear_arith)
        requires
            num == (1 * unit) * unit,
            den == 10 * unit,
    ;
    lemma_round_monotone(24, num, den, unit, 1);
    lemma_one();
    lemma_round_exact(24, unit, 1);
    assert(unit * 1 == unit);
}

/// However long the pause before a jump, a corner whose target moved and which
/// takes longer than the longest frame is under way.
pub proof fn jump_after_pause_is_seen(spring: SpringValue, elapsed: Value, length: Value)
    requires
        !spring.at_rest(),
        less(longest_frame(), length),
    ensures
        spring.moves(frame_time(true, elapsed, length), length),
{
    pause_before_jump_is_cut(elapsed, length);
}

/// Where the clock goes back, no time has passed.
pub proof fn clock_never_runs_back(state: AnimationValue, now: u64)
    requires
        state.last_frame_at matches Some(at) && now <= at,
    ensures
        state.elapsed(now) == Value::zero(),
{
    reveal(Value::plus);
    reveal(Value::over);
    vstd::arithmetic::power2::lemma2_to64();
    assert(0 * pow2(0) == 0);
    short_naturals_are_exact(0, 0, 0);
    assert(1_953_125 * pow2(9) == 1_000_000_000);
    short_naturals_are_exact(1_000_000_000, 1_953_125, 9);
    let unit = pow2(149);
    lemma_pow2_pos(149);
    lemma_pow2_pos(277);
    let den = (1_000_000_000 * unit) as nat;
    assert(0 * unit == 0);
    assert((0 * unit) as nat * unit == 0);
    lemma_round_nothing(24, den);
}

/// The square root is correctly rounded: no number of the format is nearer to
/// it. Whether the midpoint of two numbers is below or above the root is told
/// by its square.
pub proof fn root_is_nearest(units: nat, y: nat)
    requires
        units > 0,
        representable(24, y),
        y < Format::Single.limit(),
    ensures
        ({
            let square = 4 * (units * pow2(149));
            match (Value::Finite { negative: false, units }).root() {
                Value::Finite { negative, units: r } => {
                    &&& !negative
                    &&& r < y ==> square <= (r + y) * (r + y)
                    &&& y < r ==> (r + y) * (r + y) <= square
                },
                // Only where the root is out of range.
                _ => (y + y) * (y + y) <= square,
            }
        }),
{
    reveal(Value::root);
    let square = (4 * (units * pow2(149))) as nat;
    let h = floor_root(square);
    lemma_root_exists(square);
    let lost: nat = if h * h == square {
        0
    } else {
        1
    };
    let num = (2 * h + lost) as nat;
    let r = round_ratio(24, num, 4);
    lemma_round_nearest(24, num, 4, y);
    lemma_square_order((r + y) as nat, h);
    lemma_square_order((r + y) as nat, h + 1);
    lemma_square_order((y + y) as nat, (r + y) as nat);
}

} // verus!
