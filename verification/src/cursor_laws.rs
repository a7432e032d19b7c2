//! Which cursors have a trail, where they stand, and by what settings they
//! move.

use vstd::arithmetic::power2::{
    lemma_pow2_adds, lemma_pow2_pos, lemma_pow2_strictly_increases, pow2,
};
use vstd::prelude::*;

use crate::cursor_trail::{
    cursor_rectangle, has_trail, milliseconds, setting, CursorShape, CursorTrailSettings,
    FRAME_INTERVAL_MS,
};
use crate::float::{opposite, Value};
use crate::float_laws::{
    lemma_plus_within, lemma_power_representable, lemma_rounded_within, units, within,
};
use crate::geometry::PointValue;
use crate::laws::{fits, fitting_sums_are_exact, gap, short_naturals_are_exact};
use crate::numbers::{
    abs, lemma_constants, lemma_minus_near, lemma_no_units, lemma_over_near, lemma_plus_near,
    lemma_real_product, lemma_rounded_near, number, speck, ulp, unit,
};
use crate::reals::{
    lemma_mul_nonnegative, lemma_mul_order, lemma_mul_reorder, lemma_mul_sum, lemma_quotient,
};
use crate::rounding::lemma_round_nothing;
use crate::rounding_laws::{lemma_round_exact, lemma_round_monotone};
use crate::spring_error::{dust, lemma_dust, lemma_tiny};

verus! {

/// Where trails are enabled, the newest cursor has one as a bar, as a block and
/// as an underline, but not as an outline; where they are not, or for any other
/// cursor, none has.
pub proof fn solid_cursors_have_a_trail(enabled: bool, is_newest: bool)
    ensures
        enabled && is_newest ==> has_trail(enabled, is_newest, CursorShape::Bar),
        enabled && is_newest ==> has_trail(enabled, is_newest, CursorShape::Block),
        enabled && is_newest ==> has_trail(enabled, is_newest, CursorShape::Underline),
        !has_trail(enabled, is_newest, CursorShape::Hollow),
        forall|shape: CursorShape|
            !enabled || !is_newest ==> !#[trigger] has_trail(enabled, is_newest, shape),
{
}

/// Frames come as close to sixty in a second as whole milliseconds allow.
pub proof fn sixty_frames_fit_in_a_second()
    ensures
        60 * FRAME_INTERVAL_MS <= 1000,
        60 * (FRAME_INTERVAL_MS + 1) > 1000,
{
}

/// Where no sum is rounded, a block cursor is a block wide and a line high; a
/// bar is two pixels wide and a line high; an underline is a block wide, two
/// pixels high, and ends where the line does. All are upright, and start where
/// the cursor does. Numbers are in units, of which a pixel has `pow2(149)`.
pub proof fn cursor_has_the_size_of_its_shape(
    shape: CursorShape,
    origin: PointValue,
    block_width: Value,
    line_height: Value,
)
    requires
        origin.x is Finite,
        origin.y is Finite,
        block_width is Finite,
        line_height is Finite,
        fits(units(origin.x) + units(block_width)),
        fits(units(origin.x) + 2 * pow2(149)),
        fits(units(origin.y) + units(line_height)),
        fits(units(origin.y) + units(line_height) - 2 * pow2(149)),
    ensures
        ({
            let q = cursor_rectangle(shape, origin, block_width, line_height);
            let thickness = 2 * pow2(149);
            let wide = match shape {
                CursorShape::Bar => thickness as int,
                CursorShape::Block => units(block_width),
                CursorShape::Underline => units(block_width),
                CursorShape::Hollow => units(block_width),
            };
            let high = match shape {
                CursorShape::Bar => units(line_height),
                CursorShape::Block => units(line_height),
                CursorShape::Underline => thickness as int,
                CursorShape::Hollow => units(line_height),
            };
            &&& q.len() == 4
            &&& q[0].x == origin.x
            &&& q[3].x == origin.x
            &&& q[1].x == q[2].x
            &&& q[0].y == q[1].y
            &&& q[2].y == q[3].y
            &&& units(q[1].x) - units(q[0].x) == wide
            &&& units(q[3].y) - units(q[0].y) == high
            &&& units(q[3].y) == units(origin.y) + units(line_height)
            &&& shape != CursorShape::Underline ==> q[0].y == origin.y
        }),
{
    lemma_two();
    let two = Value::of(2);
    lemma_exact_sum(origin.x, block_width);
    lemma_exact_sum(origin.x, two);
    lemma_exact_sum(origin.y, line_height);
    let bottom = origin.y.plus(line_height);
    assert(bottom.minus(two) == bottom.plus(opposite(two))) by {
        reveal(Value::plus);
        reveal(Value::minus);
    }
    lemma_exact_sum(bottom, opposite(two));
    lemma_exact_sum(bottom.minus(two), two);
}

/// The same, up to rounding, for any sizes: in pixels, an edge is off by at most
/// two relative errors of the numbers that it comes from.
pub proof fn cursor_has_about_the_size_of_its_shape(
    shape: CursorShape,
    origin: PointValue,
    block_width: Value,
    line_height: Value,
)
    requires
        within(origin.x, 240),
        within(origin.y, 240),
        within(block_width, 240),
        within(line_height, 240),
    ensures
        ({
            let q = cursor_rectangle(shape, origin, block_width, line_height);
            let x = number(origin.x);
            let y = number(origin.y);
            let wide = if shape == CursorShape::Bar {
                2 as real
            } else {
                number(block_width)
            };
            let bottom = y + number(line_height);
            let top = if shape == CursorShape::Underline {
                bottom - 2 as real
            } else {
                y
            };
            let most = abs(y) + abs(number(line_height)) + 2 as real;
            &&& abs(number(q[0].x) - x) <= 0 as real
            &&& abs(number(q[3].x) - x) <= 0 as real
            &&& abs(number(q[1].x) - (x + wide)) <= 2 as real * (ulp() * abs(x + wide))
            &&& abs(number(q[2].x) - (x + wide)) <= 2 as real * (ulp() * abs(x + wide))
            &&& abs(number(q[0].y) - top) <= 4 as real * (ulp() * most)
            &&& abs(number(q[1].y) - top) <= 4 as real * (ulp() * most)
            &&& abs(number(q[2].y) - bottom) <= 4 as real * (ulp() * most)
            &&& abs(number(q[3].y) - bottom) <= 4 as real * (ulp() * most)
        }),
{
    lemma_constants();
    lemma_two();
    lemma_two_number();
    let two = Value::of(2);
    let u = ulp();
    let x = number(origin.x);
    let y = number(origin.y);
    let h = number(line_height);
    lemma_pow2_strictly_increases(240, 275);
    lemma_pow2_adds(1, 149);
    vstd::arithmetic::power2::lemma2_to64();
    lemma_pow2_strictly_increases(150, 240);
    lemma_plus_near(origin.x, block_width);
    lemma_plus_near(origin.x, two);
    lemma_mul_nonnegative(u, abs(x + number(block_width)));
    lemma_mul_nonnegative(u, abs(x + 2 as real));
    let most = abs(y) + abs(h) + 2 as real;
    let um = u * most;
    lemma_mul_nonnegative(u, most);
    lemma_tiny(most);
    lemma_tiny(um);
    lemma_plus_near(origin.y, line_height);
    lemma_plus_within(origin.y, line_height, 240);
    lemma_mul_order(abs(y + h), most, u);
    let bottom = origin.y.plus(line_height);
    lemma_pow2_strictly_increases(241, 275);
    lemma_pow2_strictly_increases(150, 241);
    lemma_minus_near(bottom, two);
    lemma_plus_within(bottom, two, 241);
    lemma_mul_order(abs(number(bottom) - 2 as real), most + um, u);
    lemma_mul_sum(u, most, um);
    let top = bottom.minus(two);
    lemma_pow2_strictly_increases(242, 275);
    lemma_plus_near(top, two);
    lemma_mul_order(abs(number(top) + 2 as real), most + 3 as real * um, u);
    lemma_mul_sum(u, most, 3 as real * um);
    lemma_mul_reorder(u, 3 as real, um);
}

/// Two is two.
proof fn lemma_two_number()
    ensures
        number(Value::of(2)) == 2 as real,
{
    lemma_two();
    lemma_constants();
    let v = unit();
    lemma_real_product(2, pow2(149) as int);
    lemma_quotient(2 as real * v, v);
    let n = (2 as real * v) / v;
    assert(n == 2 as real) by (nonlinear_arith)
        requires
            n * v == 2 as real * v,
            v > 0 as real,
    ;
}

/// Where no sum is rounded, a change of the block width moves the right corners
/// of a block or an underline by as much, and nothing else; it does not touch a
/// bar. A change of the line height moves the bottom corners of a block or a
/// bar by as much, and all of an underline.
pub proof fn cursor_grows_with_its_cell(
    shape: CursorShape,
    origin: PointValue,
    block_width: Value,
    line_height: Value,
    wider: Value,
    higher: Value,
)
    requires
        origin.x is Finite,
        origin.y is Finite,
        block_width is Finite,
        line_height is Finite,
        wider is Finite,
        higher is Finite,
        fits(units(origin.x) + units(block_width)),
        fits(units(origin.x) + units(wider)),
        fits(units(origin.x) + 2 * pow2(149)),
        fits(units(origin.y) + units(line_height)),
        fits(units(origin.y) + units(line_height) - 2 * pow2(149)),
        fits(units(origin.y) + units(higher)),
        fits(units(origin.y) + units(higher) - 2 * pow2(149)),
    ensures
        ({
            let q = cursor_rectangle(shape, origin, block_width, line_height);
            let r = cursor_rectangle(shape, origin, wider, higher);
            let x = if shape == CursorShape::Bar {
                0
            } else {
                units(wider) - units(block_width)
            };
            let y = units(higher) - units(line_height);
            let top = if shape == CursorShape::Underline {
                y
            } else {
                0
            };
            &&& units(r[0].x) == units(q[0].x) && units(r[3].x) == units(q[3].x)
            &&& units(r[1].x) == units(q[1].x) + x && units(r[2].x) == units(q[2].x) + x
            &&& units(r[0].y) == units(q[0].y) + top && units(r[1].y) == units(q[1].y) + top
            &&& units(r[2].y) == units(q[2].y) + y && units(r[3].y) == units(q[3].y) + y
        }),
{
    cursor_has_the_size_of_its_shape(shape, origin, block_width, line_height);
    cursor_has_the_size_of_its_shape(shape, origin, wider, higher);
}

/// Two pixels, in units.
proof fn lemma_two()
    ensures
        Value::of(2) == (Value::Finite { negative: false, units: 2 * pow2(149) }),
{
    vstd::arithmetic::power2::lemma2_to64();
    assert(2 * pow2(0) == 2);
    short_naturals_are_exact(2, 2, 0);
}

/// A sum that fits is exact, in units.
proof fn lemma_exact_sum(a: Value, b: Value)
    requires
        a is Finite,
        b is Finite,
        fits(units(a) + units(b)),
    ensures
        a.plus(b) is Finite,
        units(a.plus(b)) == units(a) + units(b),
{
    assert(gap(a, opposite(b)) == units(a) + units(b));
    fitting_sums_are_exact(a, b);
    assert(gap(a.plus(b), Value::zero()) == units(a.plus(b)));
}

/// A natural number is held to within a relative error.
pub proof fn lemma_of_near(n: nat)
    requires
        n <= pow2(64),
    ensures
        Value::of(n) is Finite,
        units(Value::of(n)) >= 0,
        n > 0 ==> units(Value::of(n)) >= pow2(149),
        within(Value::of(n), 213),
        abs(number(Value::of(n)) - n as real) <= ulp() * n as real,
{
    reveal(Value::of);
    lemma_constants();
    let unit_nat = pow2(149);
    lemma_pow2_pos(149);
    lemma_pow2_adds(64, 149);
    let m = (n * unit_nat) as int;
    assert(n * unit_nat <= pow2(64) * unit_nat) by (nonlinear_arith)
        requires
            n <= pow2(64),
    ;
    lemma_rounded_within(m, 1, 213);
    lemma_rounded_near(m, 1);
    lemma_real_product(n as int, unit_nat as int);
    vstd::arithmetic::power2::lemma2_to64();
    let r = units(Value::of(n)) as real;
    let v = unit();
    let p = pow2(24) as real;
    let x = n as real;
    let f = number(Value::of(n));
    lemma_quotient(r, v);
    let d = abs(f - x);
    assert(abs(r - x * v) == d * v) by {
        lemma_mul_sum(v, f, x);
        lemma_mul_sum(v, x, f);
        lemma_mul_nonnegative(d, v);
    }
    lemma_mul_nonnegative(x, v);
    // p * d * v <= x * v.
    lemma_mul_reorder(p, d, v);
    assert((p * d) * v <= x * v);
    assert(p * d <= x) by {
        if p * d > x {
            assert(x * v < (p * d) * v) by (nonlinear_arith)
                requires
                    x < p * d,
                    v > 0 as real,
            ;
        }
    }
    let u = ulp();
    lemma_mul_order(p * d, x, u);
    lemma_mul_reorder(u, p, d);
    assert(f >= 0 as real) by {
        lemma_mul_order(u, 1 as real, x);
    }
    lemma_no_units(Value::of(n));
    if n > 0 {
        assert(unit_nat * 1 <= (n * unit_nat) * 1) by (nonlinear_arith)
            requires
                n > 0,
        ;
        lemma_round_monotone(24, unit_nat, 1, n * unit_nat, 1);
        lemma_power_representable(149);
        lemma_round_exact(24, unit_nat, 1);
        assert(unit_nat * 1 == unit_nat);
    }
}

/// A ratio of natural numbers is held to within three relative errors.
pub proof fn lemma_ratio_near(n: nat, d: nat)
    requires
        n <= pow2(64),
        0 < d <= pow2(64),
    ensures
        Value::ratio(n, d) is Finite,
        number(Value::ratio(n, d)) >= 0 as real,
        abs(number(Value::ratio(n, d)) * d as real - n as real) <= 4 as real * (ulp() * n as real)
            + dust() * d as real,
{
    lemma_constants();
    lemma_dust();
    lemma_pow2_adds(148, 1);
    vstd::arithmetic::power2::lemma2_to64();
    lemma_of_near(n);
    lemma_of_near(d);
    let a = Value::of(n);
    let b = Value::of(d);
    let q = Value::ratio(n, d);
    lemma_over_in_range(a, b);
    lemma_over_near(a, b);
    lemma_no_units(q);
    let u = ulp();
    let k = speck();
    let x = n as real;
    let y = d as real;
    let f = number(a);
    let g = number(b);
    let r = number(q);
    let ux = u * x;
    lemma_mul_nonnegative(u, x);
    lemma_tiny(x);
    lemma_tiny(ux);
    lemma_mul_order(f, x + ux, u);
    lemma_mul_sum(u, x, ux);
    let uy = u * y;
    lemma_mul_nonnegative(u, y);
    lemma_tiny(y);
    lemma_mul_order(g, 2 as real * y, k);
    lemma_mul_reorder(k, 2 as real, y);
    // |r * g - x| <= 2.1 u x + 2 k y.
    let ky = k * y;
    lemma_mul_nonnegative(k, y);
    assert(10 as real * abs(r * g - x) <= 21 as real * ux + 20 as real * ky);
    // r * y is within u r y of r * g.
    let ry = r * y;
    lemma_mul_nonnegative(r, y);
    lemma_mul_sum(r, g, y);
    lemma_mul_sum(r, y, g);
    lemma_mul_order(g - y, uy, r);
    lemma_mul_order(y - g, uy, r);
    lemma_mul_reorder(r, u, y);
    assert(abs(r * g - ry) <= u * ry);
    lemma_tiny(ry);
    assert(ry <= 2 as real * x + 3 as real * ky);
    lemma_mul_order(ry, 2 as real * x + 3 as real * ky, u);
    lemma_mul_sum(u, 2 as real * x, 3 as real * ky);
    lemma_mul_reorder(u, 2 as real, x);
    lemma_mul_reorder(u, 3 as real, ky);
    // A tighter bound on r * y.
    let t = r * g;
    assert(10 as real * t <= 10 as real * x + 21 as real * ux + 20 as real * ky);
    assert(1000 as real * ry <= 1002 as real * t) by {
        assert(abs(t - ry) <= u * ry);
    }
    lemma_mul_order(1000 as real * ry, 1002 as real * t, u);
    lemma_mul_reorder(u, 1000 as real, ry);
    lemma_mul_reorder(u, 1002 as real, t);
    lemma_mul_order(10 as real * t, 10 as real * x + 21 as real * ux + 20 as real * ky, u);
    lemma_mul_reorder(u, 10 as real, t);
    lemma_mul_sum(u, 10 as real * x + 21 as real * ux, 20 as real * ky);
    lemma_mul_sum(u, 10 as real * x, 21 as real * ux);
    lemma_mul_reorder(u, 10 as real, x);
    lemma_mul_reorder(u, 21 as real, ux);
    lemma_mul_reorder(u, 20 as real, ky);
    lemma_tiny(ky);
    lemma_tiny(dust());
    lemma_mul_order(1000 as real * k, dust(), y);
    lemma_mul_reorder(1000 as real, k, y);
}

/// A quotient of such numbers is in range.
proof fn lemma_over_in_range(a: Value, b: Value)
    requires
        within(a, 213),
        b is Finite,
        units(a) >= 0,
        units(b) >= pow2(148),
    ensures
        a.over(b) is Finite,
        units(a.over(b)) >= 0,
{
    reveal(Value::over);
    let x = units(a) as nat;
    let y = units(b) as nat;
    let unit_nat = pow2(149);
    lemma_pow2_pos(148);
    lemma_pow2_pos(149);
    lemma_pow2_adds(213, 149);
    lemma_pow2_adds(214, 148);
    assert(x * unit_nat <= pow2(214) * y) by (nonlinear_arith)
        requires
            x <= pow2(213),
            y >= pow2(148),
            pow2(213) * unit_nat == pow2(214) * pow2(148),
    ;
    lemma_rounded_within((x * unit_nat) as int, y, 214);
    if x == 0 {
        assert(0 * unit_nat == 0);
        lemma_round_nothing(24, y);
    }
}

/// Milliseconds are thousandths of a second, however many they are, up to
/// rounding.
pub proof fn milliseconds_are_thousandths(ms: nat)
    requires
        ms <= u64::MAX,
    ensures
        milliseconds(ms) is Finite,
        number(milliseconds(ms)) >= 0 as real,
        abs(1000 as real * number(milliseconds(ms)) - ms as real) <= 4 as real * (ulp()
            * ms as real) + 1000 as real * dust(),
{
    vstd::arithmetic::power2::lemma2_to64();
    vstd::arithmetic::power2::lemma2_to64_rest();
    lemma_ratio_near(ms, 1000);
    lemma_mul_reorder(number(milliseconds(ms)), 1000 as real, 1 as real);
    lemma_mul_reorder(dust(), 1000 as real, 1 as real);
}

/// A setting that the user gave is taken, whatever the default; the default is
/// taken only where none was given.
pub proof fn given_settings_are_taken<T>(given: T, default: T)
    ensures
        setting(Some(given), default) == given,
        setting(None::<T>, default) == default,
{
}

/// The animation goes by the settings.
pub proof fn timing_is_by_the_settings(settings: CursorTrailSettings)
    ensures
        settings.timing().animation_length == settings.animation_length@,
        settings.timing().short_animation_length == settings.short_animation_length@,
        settings.timing().trail_size == settings.trail_size@,
{
}

} // verus!
