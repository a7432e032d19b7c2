//! Mirrored jumps take mirrored times.

use vstd::arithmetic::power2::{
    lemma_pow2_adds, lemma_pow2_pos, lemma_pow2_strictly_increases, pow2,
};
use vstd::prelude::*;

use crate::animation::{
    displacement, short_jump, travel, travel_of, AnimationValue, Direction, Timing,
};
use crate::float::{at_most, greater, less, magnitude, opposite, same, Format, Value};
use crate::float_laws::{
    lemma_plus_rounds, lemma_power_representable, lemma_rounded_order, lemma_times_rounds, rounded,
    size, units,
};
use crate::geometry::PointValue;
use crate::laws::{lemma_fitting, lemma_one, lemma_ratio, short_naturals_are_exact};
use crate::rounding::lemma_round_nothing;
use crate::rounding_laws::{lemma_round_exact, lemma_round_monotone, representable, scaled};
use crate::spring_laws::mirrors;

verus! {

/// The corner on the other side, left for right.
pub open spec fn across_the_middle(corner: int) -> int {
    if corner < 2 {
        1 - corner
    } else {
        5 - corner
    }
}

/// The corner on the other side, top for bottom.
pub open spec fn across_the_line(corner: int) -> int {
    3 - corner
}

/// Equal numbers, or both NaN. Zeros may have either sign.
pub open spec fn alike(a: Value, b: Value) -> bool {
    (a is Nan && b is Nan) || same(a, b)
}

/// A product of a number that is at least one with one that is at least half
/// is positive.
proof fn lemma_positive_product(a: Value, b: Value)
    requires
        at_most(Value::of(1), a),
        b is Finite,
        units(b) >= pow2(148),
    ensures
        less(Value::zero(), a.times(b)),
{
    reveal(Value::times);
    lemma_one();
    lemma_pow2_pos(148);
    lemma_pow2_pos(149);
    if a is Finite {
        lemma_times_rounds(Format::Single, a, b);
        let x = units(a);
        let y = units(b);
        let unit = pow2(149);
        assert(pow2(148) * unit <= (x * y) * 1) by (nonlinear_arith)
            requires
                x >= unit,
                y >= pow2(148),
                unit > 0,
        ;
        lemma_rounded_order(Format::Single, pow2(148) as int, 1, x * y, unit);
        lemma_power_representable(148);
        lemma_pow2_strictly_increases(148, 277);
        lemma_fitting(Format::Single, false, pow2(148));
    }
}

/// A ratio of at least half.
proof fn lemma_ratio_above_half(n: nat, d: nat)
    requires
        n <= 65536,
        0 < d <= 2 * n,
        d <= 65536,
    ensures
        Value::ratio(n, d) is Finite,
        units(Value::ratio(n, d)) >= pow2(148),
{
    lemma_ratio(n, d);
    let unit = pow2(149);
    lemma_pow2_adds(148, 1);
    vstd::arithmetic::power2::lemma2_to64();
    assert(pow2(148) * d <= (n * unit) * 1) by (nonlinear_arith)
        requires
            unit == pow2(148) * 2,
            d <= 2 * n,
    ;
    lemma_round_monotone(24, pow2(148), 1, n * unit, d);
    lemma_power_representable(148);
    lemma_round_exact(24, pow2(148), 1);
    assert(pow2(148) * 1 == pow2(148));
    // In range.
    let top = pow2(165);
    lemma_pow2_adds(16, 149);
    assert((n * unit) * 1 <= top * d) by (nonlinear_arith)
        requires
            top == 65536 * unit,
            n <= 65536,
            d >= 1,
    ;
    lemma_round_monotone(24, n * unit, d, top, 1);
    lemma_power_representable(165);
    lemma_round_exact(24, top, 1);
    assert(top * 1 == top);
    lemma_pow2_strictly_increases(165, 277);
}

/// A cursor that goes nowhere makes a short jump.
pub proof fn lemma_no_travel_is_short(destination: Seq<PointValue>, travel: PointValue)
    requires
        travel.x.is_zero(),
        travel.y.is_zero(),
    ensures
        short_jump(destination, travel),
{
    let one = Value::of(1);
    lemma_one();
    let width = greater(magnitude(destination[1].x.minus(destination[0].x)), one);
    let height = greater(magnitude(destination[2].y.minus(destination[1].y)), one);
    lemma_ratio_above_half(2001, 1000);
    lemma_ratio_above_half(1, 2);
    lemma_positive_product(width, Value::ratio(2001, 1000));
    lemma_positive_product(height, Value::ratio(1, 2));
    let length = travel.x.times(travel.x).plus(travel.y.times(travel.y)).root();
    assert(length.is_zero()) by {
        reveal(Value::times);
        reveal(Value::plus);
        reveal(Value::root);
        lemma_pow2_pos(149);
        lemma_pow2_pos(277);
        assert(0 * 0 == 0);
        lemma_round_nothing(24, pow2(149));
    }
}

/// Travels that are mirrored in one coordinate, or in none, are as short.
proof fn lemma_as_short(destination: Seq<PointValue>, travel: PointValue, other: PointValue)
    requires
        mirrors(travel.x, other.x) || alike(travel.x, other.x),
        mirrors(travel.y, other.y) || alike(travel.y, other.y),
    ensures
        short_jump(destination, other) == short_jump(destination, travel),
{
    reveal(Value::times);
    assert(other.x.times(other.x) == travel.x.times(travel.x));
    assert(other.y.times(other.y) == travel.y.times(travel.y));
}

/// Mirroring the travel left for right swaps the lengths of the left and the
/// right corners, and changes nothing else.
pub proof fn mirrored_travel_swaps_left_and_right(
    timing: Timing,
    destination: Seq<PointValue>,
    travel: PointValue,
    other: PointValue,
    i: int,
)
    requires
        0 <= i < 4,
        mirrors(travel.x, other.x),
        alike(travel.y, other.y),
    ensures
        timing.jump_length(destination, other, i) == timing.jump_length(
            destination,
            travel,
            across_the_middle(i),
        ),
        timing.cross_length(destination, other) == timing.cross_length(destination, travel),
        Direction::toward(other.x, other.y).along() == Direction::toward(
            travel.x,
            travel.y,
        ).along(),
{
    lemma_as_short(destination, travel, other);
    if travel.x.is_zero() && travel.y.is_zero() {
        lemma_no_travel_is_short(destination, travel);
    }
}

/// Mirroring the travel top for bottom swaps the lengths of the upper and the
/// lower corners, and changes nothing else. A travel that is NaN downward, or
/// NaN sideways and none downward, is left out: it counts as one up, or as one
/// down, mirrored or not.
pub proof fn mirrored_travel_swaps_top_and_bottom(
    timing: Timing,
    destination: Seq<PointValue>,
    travel: PointValue,
    other: PointValue,
    i: int,
)
    requires
        0 <= i < 4,
        alike(travel.x, other.x),
        mirrors(travel.y, other.y),
        travel.y !is Nan,
        travel.x is Nan ==> !travel.y.is_zero(),
    ensures
        timing.jump_length(destination, other, i) == timing.jump_length(
            destination,
            travel,
            across_the_line(i),
        ),
        timing.cross_length(destination, other) == timing.cross_length(destination, travel),
        Direction::toward(other.x, other.y).along() == Direction::toward(
            travel.x,
            travel.y,
        ).along(),
{
    lemma_as_short(destination, travel, other);
    if travel.x.is_zero() && travel.y.is_zero() {
        lemma_no_travel_is_short(destination, travel);
    }
}

/// The number is `c` steps of `pow2(k)` units.
pub open spec fn steps(v: Value, k: nat, c: int) -> bool {
    v is Finite && units(v) == c * pow2(k)
}

/// The number is a whole number of steps of `pow2(k)` units, and at most `m`
/// of them. With steps of one pixel, `k` is 149.
pub open spec fn on_grid(v: Value, k: nat, m: nat) -> bool {
    exists|c: int| #[trigger] steps(v, k, c) && size(c) <= m
}

/// Sums on a grid are exact, as long as they take no more than `pow2(24)`
/// steps.
pub proof fn lemma_grid_sum(a: Value, b: Value, k: nat, m: nat, n: nat)
    requires
        on_grid(a, k, m),
        on_grid(b, k, n),
        m + n <= pow2(24),
        k <= 200,
    ensures
        on_grid(a.plus(b), k, m + n),
        units(a.plus(b)) == units(a) + units(b),
        on_grid(a.minus(b), k, m + n),
        units(a.minus(b)) == units(a) - units(b),
{
    reveal(Value::plus);
    reveal(Value::minus);
    let c = choose|c: int| #[trigger] steps(a, k, c) && size(c) <= m;
    let d = choose|d: int| #[trigger] steps(b, k, d) && size(d) <= n;
    let p = pow2(k);
    assert(c * p + d * p == (c + d) * p) by (nonlinear_arith);
    assert(c * p - d * p == (c - d) * p) by (nonlinear_arith);
    lemma_plus_rounds(Format::Single, a, b);
    lemma_plus_rounds(Format::Single, a, opposite(b));
    lemma_grid_exact(c + d, k);
    lemma_grid_exact(c - d, k);
    assert(steps(a.plus(b), k, c + d));
    assert(steps(a.minus(b), k, c - d));
}

/// So many steps need no rounding.
proof fn lemma_grid_exact(c: int, k: nat)
    requires
        size(c) <= pow2(24),
        k <= 200,
    ensures
        rounded(Format::Single, c * pow2(k), 1) is Finite,
        units(rounded(Format::Single, c * pow2(k), 1)) == c * pow2(k),
{
    let p = pow2(k);
    let n = size(c);
    lemma_pow2_pos(k);
    assert(size(c * p) == n * p) by (nonlinear_arith)
        requires
            n == size(c),
            p > 0,
    ;
    assert(n * p == scaled(n, k));
    assert(representable(24, n * p));
    lemma_pow2_adds(24, k);
    lemma_pow2_strictly_increases(24 + k, 277);
    assert(n * p <= pow2(24) * p) by (nonlinear_arith)
        requires
            n <= pow2(24),
    ;
    lemma_fitting(Format::Single, c * p < 0, n * p);
}

/// The offsets of the second state are those of the first, mirrored left for
/// right.
pub open spec fn mirrored_offsets(s: AnimationValue, t: AnimationValue) -> bool {
    forall|i: int|
        0 <= i < 4 ==> (#[trigger] t.corners[i]).spring_x.position == opposite(
            s.corners[i].spring_x.position,
        ) && t.corners[i].spring_y.position == s.corners[i].spring_y.position
}

/// Where nothing is rounded, mirrored offsets make for a mirrored travel.
proof fn lemma_mirrored_travel(
    s: AnimationValue,
    t: AnimationValue,
    destination: Seq<PointValue>,
    k: nat,
    n: nat,
)
    requires
        mirrored_offsets(s, t),
        k <= 200,
        n <= 4,
        forall|i: int|
            0 <= i < 4 ==> on_grid((#[trigger] s.corners[i]).spring_x.position, k, 1_000_000)
                && on_grid(destination[i].x, k, 1_000_000),
    ensures
        ({
            let a = travel_of(s.corners, destination, n);
            let b = travel_of(t.corners, destination, n);
            &&& on_grid(a.x, k, n * 1_000_000)
            &&& on_grid(b.x, k, n * 1_000_000)
            &&& units(b.x) == -units(a.x)
            &&& b.y == a.y
        }),
    decreases n,
{
    vstd::arithmetic::power2::lemma2_to64();
    if n == 0 {
        assert(0 * pow2(k) == 0) by (nonlinear_arith);
        assert(steps(Value::zero(), k, 0));
    } else {
        let i = n - 1;
        lemma_mirrored_travel(s, t, destination, k, (n - 1) as nat);
        let to = destination[i].x;
        let p = s.corners[i].spring_x.position;
        let q = t.corners[i].spring_x.position;
        assert(on_grid(q, k, 1_000_000)) by {
            let c = choose|c: int| #[trigger] steps(p, k, c) && size(c) <= 1_000_000;
            assert((-c) * pow2(k) == -(c * pow2(k))) by (nonlinear_arith);
            assert(steps(q, k, -c));
        }
        lemma_grid_sum(to, p, k, 1_000_000, 1_000_000);
        lemma_grid_sum(to, q, k, 1_000_000, 1_000_000);
        lemma_grid_sum(to, to.minus(p), k, 1_000_000, 2_000_000);
        lemma_grid_sum(to, to.minus(q), k, 1_000_000, 2_000_000);
        let a = displacement(s.corners, destination, i).x;
        let b = displacement(t.corners, destination, i).x;
        assert(on_grid(a, k, 1_000_000)) by {
            let c = choose|c: int| #[trigger] steps(p, k, c) && size(c) <= 1_000_000;
            assert(steps(a, k, c));
        }
        assert(on_grid(b, k, 1_000_000)) by {
            let c = choose|c: int| #[trigger] steps(q, k, c) && size(c) <= 1_000_000;
            assert(steps(b, k, c));
        }
        let m = ((n - 1) * 1_000_000) as nat;
        let before = travel_of(s.corners, destination, (n - 1) as nat);
        let before_there = travel_of(t.corners, destination, (n - 1) as nat);
        lemma_grid_sum(before.x, a, k, m, 1_000_000);
        lemma_grid_sum(before_there.x, b, k, m, 1_000_000);
    }
}

/// A jump from mirrored offsets to one destination swaps the lengths of the
/// left and the right corners, and changes no other length; where nothing is
/// rounded, as with offsets and coordinates that are whole numbers of pixels.
pub proof fn mirrored_offsets_swap_left_and_right(
    s: AnimationValue,
    t: AnimationValue,
    destination: Seq<PointValue>,
    timing: Timing,
    k: nat,
    i: int,
)
    requires
        0 <= i < 4,
        mirrored_offsets(s, t),
        k <= 200,
        forall|i: int|
            0 <= i < 4 ==> on_grid((#[trigger] s.corners[i]).spring_x.position, k, 1_000_000)
                && on_grid(destination[i].x, k, 1_000_000),
    ensures
        t.timed(destination, timing).corners[i].animation_length == s.timed(
            destination,
            timing,
        ).corners[across_the_middle(i)].animation_length,
        t.timed(destination, timing).cross_length == s.timed(destination, timing).cross_length,
        t.timed(destination, timing).axis == s.timed(destination, timing).axis,
{
    lemma_mirrored_travel(s, t, destination, k, 4);
    let a = travel_of(s.corners, destination, 4);
    let b = travel_of(t.corners, destination, 4);
    assert(mirrors(a.x.over(Value::of(4)), b.x.over(Value::of(4)))) by {
        reveal(Value::over);
        vstd::arithmetic::power2::lemma2_to64();
        assert(4 * pow2(0) == 4);
        short_naturals_are_exact(4, 4, 0);
        lemma_pow2_pos(149);
        lemma_pow2_pos(277);
        let four = Value::of(4)->Finite_units;
        assert(four > 0);
        assert(0 * pow2(149) == 0);
        lemma_round_nothing(24, four);
    }
    mirrored_travel_swaps_left_and_right(
        timing,
        destination,
        travel(s.corners, destination),
        travel(t.corners, destination),
        i,
    );
}

} // verus!
