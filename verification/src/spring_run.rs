//! A spring over many frames: it neither overshoots nor grows, and it comes to
//! rest.

use vstd::arithmetic::power2::{lemma_pow2_pos, lemma_pow2_strictly_increases};
use vstd::prelude::*;

use crate::animation::{frame_time, longest_frame};
use crate::exponential::{
    angle, exponential, lemma_damped, lemma_decay, lemma_exponential, lemma_exponential_order,
    lemma_frequency, lemma_number_within, lemma_ordinary, multiplies, nearly_exponential, ordinary,
    short_of,
};
use crate::float::{at_most, less, opposite, Value};
use crate::float_laws::units;
use crate::laws::lemma_spring_stops;
use crate::numbers::{abs, lemma_constants, lemma_no_units, lemma_opposite, number, ulp, unit};
use crate::reals::{
    lemma_mul_nonnegative, lemma_mul_order, lemma_mul_reorder, lemma_mul_sum, lemma_quotient,
};
use crate::spring::{decay_exponent, omega, SpringValue};
use crate::spring_error::{
    dust, exact_position, exact_velocity, frame_error, lemma_dust, lemma_frame_error,
    lemma_swung_near, swing,
};
use crate::spring_flow::{
    bounded, lemma_below_tolerance, lemma_faster, lemma_first_frame, lemma_less_is_left,
    lemma_mul_size, lemma_stays_bounded, lemma_swing,
};
use crate::spring_inward::{inward, inward_spring_never_grows};
use crate::spring_laws::{opposite_springs, opposite_springs_stay_opposite};
use crate::stillness::lemma_longest_frame;

verus! {

/// The spring after the first `n` frames.
pub open spec fn after(
    s: SpringValue,
    dts: Seq<Value>,
    length: Value,
    decays: Seq<Value>,
    n: nat,
) -> SpringValue
    decreases n,
{
    if n == 0 {
        s
    } else {
        after(s, dts, length, decays, (n - 1) as nat).advanced(dts[n - 1], length, decays[n - 1])
    }
}

/// The angle that the first `n` frames make.
pub open spec fn turned(dts: Seq<Value>, length: Value, n: nat) -> real
    decreases n,
{
    if n == 0 {
        0 as real
    } else {
        turned(dts, length, (n - 1) as nat) + angle(dts[n - 1], length)
    }
}

/// The decay over the first `n` frames.
pub open spec fn faded(decays: Seq<Value>, n: nat) -> real
    decreases n,
{
    if n == 0 {
        1 as real
    } else {
        number(decays[n - 1]) * faded(decays, (n - 1) as nat)
    }
}

/// The seconds that the first `n` frames take.
pub open spec fn passed(dts: Seq<Value>, n: nat) -> real
    decreases n,
{
    if n == 0 {
        0 as real
    } else {
        passed(dts, (n - 1) as nat) + number(dts[n - 1])
    }
}

/// How far rounding may have put a spring off, in proportion, after `n` frames
/// that make an angle of `t`.
pub open spec fn blur(n: real, t: real) -> real {
    100 as real * (ulp() * ((1 as real + t) * (n + t)))
}

/// One more frame adds to the blur.
proof fn lemma_blur_grows(n: real, t: real, h: real)
    requires
        n >= 0 as real,
        t >= 0 as real,
        h >= 0 as real,
    ensures
        blur(n, t) >= 0 as real,
        blur(n + 1 as real, t + h) >= blur(n, t) + 100 as real * (ulp() * ((1 as real + t) * (
        1 as real + h))),
{
    lemma_constants();
    let u = ulp();
    let a = (1 as real + t) * (n + t);
    let b = (1 as real + (t + h)) * ((n + 1 as real) + (t + h));
    let c = (1 as real + t) * (1 as real + h);
    lemma_mul_nonnegative(1 as real + t, n + t);
    let m = (n + 1 as real) + (t + h);
    lemma_mul_sum(m, 1 as real + t, h);
    lemma_mul_sum(1 as real + t, n + t, 1 as real + h);
    lemma_mul_nonnegative(h, m);
    assert(m == (n + t) + (1 as real + h));
    assert(1 as real + (t + h) == (1 as real + t) + h);
    assert(b == a + c + h * m);
    lemma_mul_nonnegative(u, a);
    lemma_mul_order(a + c, b, u);
    lemma_mul_sum(u, a, c);
}

/// One frame, in plain numbers: a spring that is as far off from the exact
/// motion as the blur allows is so after the frame.
proof fn lemma_frame_in_numbers(
    p: real,
    y: real,
    h: real,
    c: real,
    x: real,
    t: real,
    n: real,
    p1: real,
    y1: real,
    f: real,
)
    requires
        n >= 0 as real,
        t >= 0 as real,
        h >= 0 as real,
        c >= 0 as real,
        x >= 0 as real,
        blur(n, t) <= 1 as real,
        abs(p - x * (1 as real + t)) <= (x * (1 as real + t)) * blur(n, t),
        abs((p + y) - x) <= x * blur(n, t),
        abs(p1 - exact_position(p, y, h, c)) <= f,
        abs(y1 - exact_velocity(p, y, h, c)) <= f,
        4 as real * f <= 33 as real * ((1 as real + h) * (c * (ulp() * (abs(p) + abs(y))))),
    ensures
        ({
            let d = blur(n + 1 as real, t + h);
            let x1 = c * x;
            &&& abs(p1 - x1 * (1 as real + (t + h))) <= (x1 * (1 as real + (t + h))) * d
            &&& abs((p1 + y1) - x1) <= x1 * d
            &&& x1 >= 0 as real
        }),
{
    lemma_constants();
    let u = ulp();
    let d = blur(n, t);
    let d1 = blur(n + 1 as real, t + h);
    let z = p + y;
    let z1 = p1 + y1;
    let g = 1 as real + t;
    let a = x * g;
    let x1 = c * x;
    lemma_blur_grows(n, t, h);
    lemma_mul_nonnegative(x, g);
    lemma_mul_nonnegative(x, t);
    lemma_mul_nonnegative(c, x);
    lemma_mul_sum(x, 1 as real, t);
    assert(a >= x);
    // The extent is at most six times the exact offset.
    lemma_mul_order(d, 1 as real, a);
    lemma_mul_order(d, 1 as real, x);
    let m = abs(p) + abs(y);
    assert(m <= 6 as real * a);
    // j is the unit that the error is measured in.
    let k = 1 as real + h;
    let j = k * (c * (u * a));
    lemma_mul_order(m, 6 as real * a, u);
    lemma_mul_reorder(u, 6 as real, a);
    lemma_mul_order(u * m, 6 as real * (u * a), c);
    lemma_mul_reorder(c, 6 as real, u * a);
    lemma_mul_order(c * (u * m), 6 as real * (c * (u * a)), k);
    lemma_mul_reorder(k, 6 as real, c * (u * a));
    assert(4 as real * f <= 198 as real * j);
    lemma_mul_nonnegative(u, a);
    lemma_mul_nonnegative(c, u * a);
    lemma_mul_nonnegative(k, c * (u * a));
    // What the blur gains, over the exact offset.
    let gain = d1 - d;
    assert(j == x1 * (u * (g * k))) by {
        lemma_mul_reorder(u, x, g);
        lemma_mul_reorder(c, x, u * g);
        lemma_mul_reorder(k, x1, u * g);
        lemma_mul_reorder(k, u, g);
        lemma_mul_reorder(k, g, g);
    }
    lemma_mul_order(100 as real * (u * (g * k)), gain, x1);
    lemma_mul_reorder(x1, 100 as real, u * (g * k));
    assert(x1 * gain >= 100 as real * j);
    lemma_mul_sum(x1, d, gain);
    assert(d + gain == d1);
    assert(x1 * d1 >= x1 * d + 100 as real * j);
    // The sum of offset and velocity.
    lemma_mul_sum(c, p + h * z, y - h * z);
    assert(p + h * z + (y - h * z) == z);
    let fz = z1 - c * z;
    assert(abs(fz) <= 2 as real * f);
    lemma_mul_size(c, z - x, c, x * d);
    lemma_mul_sum(c, z, x);
    lemma_mul_reorder(c, x, d);
    assert(abs(z1 - x1) <= x1 * d + 2 as real * f);
    // The offset.
    let top = x1 * (1 as real + (t + h));
    lemma_mul_size(c, p - a, c, a * d);
    lemma_mul_sum(c, p, a);
    lemma_mul_size(h, z - x, h, x * d);
    lemma_mul_sum(h, z, x);
    lemma_mul_size(c, h * (z - x), c, h * (x * d));
    lemma_mul_sum(c, h * z, h * x);
    lemma_mul_sum(c, p, h * z);
    assert(top == c * a + c * (h * x)) by {
        assert(1 as real + (t + h) == g + h);
        lemma_mul_sum(x1, g, h);
        lemma_mul_reorder(c, x, g);
        lemma_mul_reorder(c, x, h);
        lemma_mul_reorder(h, x, x);
    }
    assert(top * d == c * (a * d) + c * (h * (x * d))) by {
        lemma_mul_sum(d, c * a, c * (h * x));
        lemma_mul_reorder(c, a, d);
        lemma_mul_reorder(c, h * x, d);
        lemma_mul_reorder(h, x, d);
    }
    assert(abs(p1 - top) <= top * d + f);
    // top * d1 gains as much again.
    lemma_mul_nonnegative(x1, t + h);
    lemma_mul_sum(x1, 1 as real, t + h);
    lemma_mul_nonnegative(g, k);
    lemma_mul_nonnegative(u, g * k);
    lemma_mul_order(x1, top, gain);
    lemma_mul_sum(top, d, gain);
}

/// The decay over an angle of at most six is no less than `pow2(-12)`.
proof fn lemma_decay_floor(e: spec_fn(real) -> real, h: real)
    requires
        exponential(e),
        h <= 6 as real,
    ensures
        4096 as real * e(-h) >= 1 as real,
{
    let half = -(1 as real / 2 as real);
    assert(e(half) >= 1 as real + half);
    assert(multiplies(e, half, half));
    let a = e(-(1 as real));
    assert(half + half == -(1 as real));
    lemma_mul_order(1 as real / 2 as real, e(half), e(half));
    assert(4 as real * a >= 1 as real);
    assert(multiplies(e, -(1 as real), -(1 as real)));
    let b = e(-(2 as real));
    assert(-(1 as real) + -(1 as real) == -(2 as real));
    lemma_mul_order(1 as real / 4 as real, a, a);
    assert(16 as real * b >= 1 as real);
    assert(multiplies(e, -(2 as real), -(2 as real)));
    let c = e(-(4 as real));
    assert(-(2 as real) + -(2 as real) == -(4 as real));
    lemma_mul_order(1 as real / 16 as real, b, b);
    assert(256 as real * c >= 1 as real);
    assert(multiplies(e, -(4 as real), -(2 as real)));
    assert(-(4 as real) + -(2 as real) == -(6 as real));
    lemma_mul_order(1 as real / 16 as real, b, c);
    assert(4096 as real * e(-(6 as real)) >= 1 as real);
    lemma_exponential_order(e, -(6 as real), -h);
}

/// After a long turn next to nothing is left.
proof fn lemma_late(e: spec_fn(real) -> real, t: real)
    requires
        exponential(e),
        t >= 27 as real,
    ensures
        134217728 as real * (e(-t) * (1 as real + t)) <= 28 as real,
{
    // e(27) is at least pow2(27).
    assert(e(1 as real) >= 1 as real + 1 as real);
    let a = e(1 as real);
    assert(multiplies(e, 1 as real, 1 as real));
    assert(1 as real + 1 as real == 2 as real);
    lemma_mul_order(2 as real, a, a);
    let b = e(2 as real);
    assert(b >= 4 as real);
    assert(multiplies(e, 2 as real, 1 as real));
    assert(2 as real + 1 as real == 3 as real);
    lemma_mul_order(4 as real, b, a);
    let c = e(3 as real);
    assert(c >= 8 as real);
    assert(multiplies(e, 3 as real, 3 as real));
    assert(3 as real + 3 as real == 6 as real);
    lemma_mul_order(8 as real, c, c);
    let d = e(6 as real);
    assert(d >= 64 as real);
    assert(multiplies(e, 6 as real, 3 as real));
    assert(6 as real + 3 as real == 9 as real);
    lemma_mul_order(64 as real, d, c);
    let f = e(9 as real);
    assert(f >= 512 as real);
    assert(multiplies(e, 9 as real, 9 as real));
    assert(9 as real + 9 as real == 18 as real);
    lemma_mul_order(512 as real, f, f);
    let g = e(18 as real);
    assert(g >= 262144 as real);
    assert(multiplies(e, 18 as real, 9 as real));
    assert(18 as real + 9 as real == 27 as real);
    lemma_mul_order(262144 as real, g, f);
    let top = e(27 as real);
    assert(top >= 134217728 as real);
    lemma_exponential(e, 27 as real);
    let low = e(-(27 as real));
    lemma_mul_order(134217728 as real, top, low);
    assert(134217728 as real * low <= 1 as real);
    // The rest of the turn.
    let r = t - 27 as real;
    assert(multiplies(e, -(27 as real), -r));
    assert(-(27 as real) + -r == -t);
    lemma_damped(e, r);
    let q = e(-r);
    lemma_exponential(e, r);
    lemma_mul_order(1 as real + t, 28 as real * (1 as real + r), q);
    lemma_mul_reorder(28 as real, 1 as real + r, q);
    assert((1 as real + t) * q <= 28 as real);
    lemma_mul_order((1 as real + t) * q, 28 as real, low);
    lemma_mul_reorder(low, q, 1 as real + t);
    lemma_mul_reorder(q, 1 as real + t, low);
    lemma_mul_reorder(134217728 as real, low, 28 as real);
    assert(e(-t) * (1 as real + t) == ((1 as real + t) * q) * low);
}

/// A frame is off by little more than its relative errors come to.
proof fn lemma_error_folds(n: real, h: real, c: real)
    requires
        n * (1048576 as real) >= 1 as real,
        c * (8192 as real) >= 1 as real,
        h >= 0 as real,
    ensures
        4 as real * frame_error(n, h, c) <= 33 as real * ((1 as real + h) * (c * (ulp() * n))),
{
    lemma_constants();
    lemma_dust();
    lemma_frame_error(n, h, c);
    let u = ulp();
    let k = dust();
    let un = u * n;
    let cun = c * un;
    lemma_mul_order(1 as real, n * (1048576 as real), u);
    lemma_mul_reorder(u, n, 1048576 as real);
    assert(un * (1048576 as real) >= u);
    lemma_mul_order(1 as real, c * (8192 as real), un);
    lemma_mul_reorder(un, c, 8192 as real);
    lemma_mul_reorder(c, un, un);
    assert(cun * (8192 as real) >= un);
    lemma_mul_nonnegative(h, cun);
    lemma_mul_sum(cun, 1 as real, h);
    let q = (1 as real + h) * cun;
    assert(q >= cun);
    assert(80 as real * k <= q);
    lemma_mul_reorder(c, 8 as real, h * un + un);
    lemma_mul_sum(c, h * un, un);
    lemma_mul_reorder(c, h, un);
    assert(c * (8 as real * (h * un + un)) == 8 as real * q);
}

/// Each of the first `n` frames takes some time and, unless it takes the whole
/// animation length, has a decay that is near to the exponential.
pub open spec fn frames_decay(
    e: spec_fn(real) -> real,
    dts: Seq<Value>,
    length: Value,
    decays: Seq<Value>,
    n: nat,
) -> bool {
    forall|k: int|
        #![trigger dts[k]]
        0 <= k < n ==> dts[k] is Finite && units(dts[k]) >= 0 && (less(dts[k], length)
            ==> nearly_exponential(e, decay_exponent(dts[k], length), decays[k]))
}

/// The spring is under way in each of the first `n` frames.
spec fn under_way(
    s: SpringValue,
    dts: Seq<Value>,
    length: Value,
    decays: Seq<Value>,
    n: nat,
) -> bool
    decreases n,
{
    n > 0 ==> under_way(s, dts, length, decays, (n - 1) as nat) && after(
        s,
        dts,
        length,
        decays,
        (n - 1) as nat,
    ).animating(dts[n - 1], length, decays[n - 1])
}

/// How near a spring is to the exact motion after `n` frames; `now` is what it
/// has come to, before it is put on target where it is close to it.
spec fn near_course(
    e: spec_fn(real) -> real,
    s: SpringValue,
    dts: Seq<Value>,
    length: Value,
    decays: Seq<Value>,
    n: nat,
    now: SpringValue,
) -> bool {
    let p0 = number(s.position);
    let p = number(now.position);
    let y = swing(now, length);
    let t = turned(dts, length, n);
    let x = faded(decays, n) * p0;
    let d = blur(n as real, t);
    let r = 32 as real * (ulp() * n as real);
    &&& bounded(now)
    &&& t >= 0 as real
    &&& x >= 0 as real
    &&& abs(p - x * (1 as real + t)) <= (x * (1 as real + t)) * d
    &&& abs((p + y) - x) <= x * d
    &&& x <= p0 * (e(-t) * (1 as real + r))
    &&& x >= p0 * (e(-t) * (1 as real - r))
}

/// A spring under way after `n` frames is near to the exact motion.
spec fn on_course(
    e: spec_fn(real) -> real,
    s: SpringValue,
    dts: Seq<Value>,
    length: Value,
    decays: Seq<Value>,
    n: nat,
) -> bool {
    let now = after(s, dts, length, decays, n);
    &&& near_course(e, s, dts, length, decays, n, now)
    &&& abs(number(now.position)) * (1048576 as real) >= 1 as real
    &&& turned(dts, length, n) < 27 as real
}

/// The blur of so many frames.
proof fn lemma_blur_bound(n: real, t: real)
    requires
        0 as real <= n <= 5001 as real,
        0 as real <= t <= 33 as real,
    ensures
        0 as real <= blur(n, t) <= 2 as real,
        t <= 27 as real ==> blur(n, t) <= 1 as real,
{
    lemma_constants();
    let u = ulp();
    let m = if t <= 27 as real {
        27 as real
    } else {
        33 as real
    };
    lemma_mul_order(1 as real + t, 1 as real + m, n + t);
    lemma_mul_order(n + t, 5001 as real + m, 1 as real + m);
    lemma_mul_nonnegative(1 as real + t, n + t);
    lemma_mul_reorder(1 as real + m, n + t, n);
    let a = (1 as real + t) * (n + t);
    let b = (1 as real + m) * (5001 as real + m);
    assert(a <= b);
    assert(28 as real * 5028 as real == 140784 as real) by (nonlinear_arith);
    assert(34 as real * 5034 as real == 171156 as real) by (nonlinear_arith);
    let k = if t <= 27 as real {
        140784 as real
    } else {
        171156 as real
    };
    assert(b == k);
    lemma_mul_order(a, k, u);
    lemma_mul_nonnegative(u, a);
}

/// What is left of the exact offset.
proof fn lemma_left(e: spec_fn(real) -> real, p0: real, x: real, t: real, r: real)
    requires
        exponential(e),
        0 as real <= p0 <= 10_000 as real,
        t >= 0 as real,
        0 as real <= r,
        100 as real * r <= 1 as real,
        0 as real <= x <= p0 * (e(-t) * (1 as real + r)),
    ensures
        x * (1 as real + t) <= (e(-t) * (1 as real + t)) * (p0 * (1 as real + r)),
        0 as real <= e(-t) * (1 as real + t) <= 1 as real,
        x * (1 as real + t) <= 10_100 as real,
        x * (1 as real + t) >= x,
{
    lemma_damped(e, t);
    lemma_exponential(e, t);
    let g = 1 as real + t;
    let f = e(-t);
    let k = 1 as real + r;
    lemma_mul_reorder(g, f, f);
    lemma_mul_order(x, p0 * (f * k), g);
    lemma_mul_reorder(p0, f, k);
    lemma_mul_reorder(g, f, p0 * k);
    lemma_mul_reorder(f, g, p0 * k);
    lemma_mul_reorder(g, p0 * (f * k), g);
    assert((p0 * (f * k)) * g == (f * g) * (p0 * k));
    lemma_mul_order(p0, 10_000 as real, k);
    lemma_mul_nonnegative(p0, k);
    lemma_mul_order(f * g, 1 as real, p0 * k);
    lemma_mul_nonnegative(x, t);
    lemma_mul_sum(x, 1 as real, t);
}

/// A released spring, on its side of the target: a positive offset that is not
/// tiny, and no velocity.
spec fn released(s: SpringValue) -> bool {
    &&& s.position is Finite
    &&& number(s.position) * (1048576 as real) >= 1 as real
    &&& number(s.position) <= 10_000 as real
    &&& s.velocity.is_zero()
}

/// A released spring is on course.
proof fn lemma_start(
    e: spec_fn(real) -> real,
    s: SpringValue,
    dts: Seq<Value>,
    length: Value,
    decays: Seq<Value>,
)
    requires
        exponential(e),
        ordinary(length),
        released(s),
    ensures
        on_course(e, s, dts, length, decays, 0),
{
    let p0 = number(s.position);
    lemma_constants();
    lemma_frequency(length);
    lemma_no_units(s.velocity);
    let w = number(omega(length));
    lemma_quotient(number(s.velocity), w);
    let y = swing(s, length);
    assert(y == 0 as real) by (nonlinear_arith)
        requires
            y * w == 0 as real,
            w > 0 as real,
    ;
    vstd::arithmetic::power2::lemma2_to64();
    lemma_number_within(s.position, 31);
    lemma_pow2_strictly_increases(180, 240);
    lemma_pow2_pos(254);
    lemma_exponential(e, 0 as real);
    assert(-(0 as real) == 0 as real);
    let u = ulp();
    assert(u * (0 as real) == 0 as real);
    assert((1 as real + 0 as real) * (0 as real + 0 as real) == 0 as real);
    assert(blur(0 as real, 0 as real) == 0 as real);
    lemma_mul_sum(p0, 1 as real, 0 as real);
}

/// The angle and the decay of one more frame.
proof fn lemma_fading(
    e: spec_fn(real) -> real,
    p0: real,
    x: real,
    t: real,
    h: real,
    c: real,
    n: nat,
)
    requires
        exponential(e),
        p0 >= 0 as real,
        x >= 0 as real,
        c >= 0 as real,
        n <= 5001,
        x <= p0 * (e(-t) * (1 as real + 32 as real * (ulp() * n as real))),
        x >= p0 * (e(-t) * (1 as real - 32 as real * (ulp() * n as real))),
        abs(c - e(-h)) <= 16 as real * (ulp() * e(-h)),
    ensures
        c * x <= p0 * (e(-(t + h)) * (1 as real + 32 as real * (ulp() * (n + 1) as real))),
        c * x >= p0 * (e(-(t + h)) * (1 as real - 32 as real * (ulp() * (n + 1) as real))),
{
    lemma_constants();
    let u = ulp();
    let un = u * n as real;
    let f = e(-t);
    let g = e(-h);
    lemma_exponential(e, t);
    lemma_exponential(e, h);
    assert(multiplies(e, -t, -h));
    assert(-t + -h == -(t + h));
    let k = 1 as real + 32 as real * un;
    let k1 = 1 as real + 32 as real * (u * (n + 1) as real);
    lemma_mul_sum(u, n as real, 1 as real);
    assert((n + 1) as real == n as real + 1 as real);
    assert(k1 == k + 32 as real * u);
    // c <= g * (1 + 16 u).
    let a = 1 as real + 16 as real * u;
    lemma_mul_sum(g, 1 as real, 16 as real * u);
    lemma_mul_reorder(g, 16 as real, u);
    lemma_mul_reorder(g, u, u);
    assert(c <= g * a);
    lemma_mul_order(c, g * a, x);
    lemma_mul_nonnegative(g, a);
    lemma_mul_order(x, p0 * (f * k), g * a);
    assert(c * x <= (g * a) * (p0 * (f * k)));
    // a * k <= k1.
    lemma_mul_order(n as real, 5001 as real, u);
    assert(32 as real * un <= 1 as real);
    lemma_mul_order(k, 2 as real, 16 as real * u);
    lemma_mul_sum(k, 1 as real, 16 as real * u);
    assert(a * k <= k1);
    // (g * a) * (p0 * (f * k)) == p0 * ((f * g) * (a * k)).
    lemma_mul_reorder(g * a, p0, f * k);
    lemma_mul_reorder(g * a, f, k);
    lemma_mul_reorder(g, a, k);
    lemma_mul_reorder(f, g, a * k);
    assert((g * a) * (f * k) == (f * g) * (a * k));
    lemma_mul_nonnegative(f, g);
    lemma_mul_order(a * k, k1, f * g);
    lemma_mul_order((f * g) * (a * k), (f * g) * k1, p0);
    // The other way round: c >= g * (1 - 16 u).
    let b = 1 as real - 16 as real * u;
    lemma_mul_nonnegative(u, n as real);
    let l = 1 as real - 32 as real * un;
    let l1 = 1 as real - 32 as real * (u * (n + 1) as real);
    assert(l1 == l - 32 as real * u);
    lemma_mul_sum(g, 1 as real, 16 as real * u);
    assert(c >= g * b);
    lemma_mul_nonnegative(g, b);
    lemma_mul_order(g * b, c, x);
    lemma_mul_order(p0 * (f * l), x, g * b);
    assert(c * x >= (g * b) * (p0 * (f * l)));
    lemma_mul_order(l, 1 as real, 16 as real * u);
    lemma_mul_sum(l, 1 as real, 16 as real * u);
    assert(b * l >= l1);
    lemma_mul_reorder(g * b, p0, f * l);
    lemma_mul_reorder(g * b, f, l);
    lemma_mul_reorder(g, b, l);
    lemma_mul_reorder(f, g, b * l);
    assert((g * b) * (f * l) == (f * g) * (b * l));
    lemma_mul_order(l1, b * l, f * g);
    lemma_mul_order((f * g) * l1, (f * g) * (b * l), p0);
}

/// A spring that is under way after a frame has not turned far.
proof fn lemma_not_late(
    e: spec_fn(real) -> real,
    p0: real,
    x: real,
    t: real,
    n: nat,
    p: real,
)
    requires
        exponential(e),
        0 as real <= p0 <= 10_000 as real,
        x >= 0 as real,
        0 as real <= t <= 33 as real,
        n <= 5001,
        x <= p0 * (e(-t) * (1 as real + 32 as real * (ulp() * n as real))),
        abs(p - x * (1 as real + t)) <= (x * (1 as real + t)) * blur(n as real, t),
        1024 as real * abs(p) >= 10 as real,
    ensures
        t < 27 as real,
{
    lemma_constants();
    let u = ulp();
    let r = 32 as real * (u * n as real);
    lemma_mul_order(n as real, 5001 as real, u);
    lemma_mul_nonnegative(u, n as real);
    lemma_left(e, p0, x, t, r);
    lemma_blur_bound(n as real, t);
    let d = blur(n as real, t);
    let a = x * (1 as real + t);
    assert(d <= 2 as real);
    lemma_mul_order(d, 2 as real, a);
    assert(abs(p) <= 3 as real * a);
    if t >= 27 as real {
        lemma_late(e, t);
        let f = e(-t) * (1 as real + t);
        let k = p0 * (1 as real + r);
        lemma_mul_order(p0, 10_000 as real, 1 as real + r);
        lemma_mul_nonnegative(p0, 1 as real + r);
        lemma_mul_order(134217728 as real * f, 28 as real, k);
        lemma_mul_reorder(134217728 as real, f, k);
        assert(134217728 as real * a <= 28 as real * 10_100 as real);
    }
}

/// A spring under way stays on course.
proof fn lemma_on_course(
    e: spec_fn(real) -> real,
    s: SpringValue,
    dts: Seq<Value>,
    length: Value,
    decays: Seq<Value>,
    n: nat,
)
    requires
        exponential(e),
        ordinary(length),
        released(s),
        frames_decay(e, dts, length, decays, n),
        under_way(s, dts, length, decays, n),
        n <= 5001,
    ensures
        on_course(e, s, dts, length, decays, n),
    decreases n,
{
    if n == 0 {
        lemma_start(e, s, dts, length, decays);
    } else {
        let m = (n - 1) as nat;
        lemma_on_course(e, s, dts, length, decays, m);
        lemma_next_on_course(e, s, dts, length, decays, m);
    }
}

/// One more frame keeps a spring near to its course.
proof fn lemma_course_kept(
    e: spec_fn(real) -> real,
    s: SpringValue,
    dts: Seq<Value>,
    length: Value,
    decays: Seq<Value>,
    m: nat,
)
    requires
        exponential(e),
        ordinary(length),
        released(s),
        frames_decay(e, dts, length, decays, m + 1),
        on_course(e, s, dts, length, decays, m),
        short_of(dts[m as int], length),
        m <= 5000,
    ensures
        near_course(
            e,
            s,
            dts,
            length,
            decays,
            m + 1,
            after(s, dts, length, decays, m).swung(dts[m as int], length, decays[m as int]),
        ),
        turned(dts, length, m + 1) >= turned(dts, length, m),
        turned(dts, length, m + 1) <= 33 as real,
{
    let before = after(s, dts, length, decays, m);
    let dt = dts[m as int];
    let decay = decays[m as int];
    let next = before.swung(dt, length, decay);
    assert(turned(dts, length, m + 1) == turned(dts, length, m) + angle(dt, length));
    assert(faded(decays, m + 1) == number(decay) * faded(decays, m));
    lemma_constants();
    lemma_decay(e, dt, length, decay);
    lemma_frequency(length);
    lemma_swung_near(before, dt, length, decay);
    let u = ulp();
    let p0 = number(s.position);
    let p = number(before.position);
    let y = swing(before, length);
    let h = angle(dt, length);
    let c = number(decay);
    let t = turned(dts, length, m);
    let f = faded(decays, m);
    let x = f * p0;
    let size = abs(p) + abs(y);
    // The frame error.
    lemma_decay_floor(e, h);
    let exact = e(-h);
    lemma_mul_order(16 as real * u, 1 as real / 2 as real, exact);
    lemma_mul_reorder(16 as real, u, exact);
    assert(c * (8192 as real) >= 1 as real);
    lemma_error_folds(size, h, c);
    lemma_blur_bound(m as real, t);
    lemma_frame_in_numbers(
        p,
        y,
        h,
        c,
        x,
        t,
        m as real,
        number(next.position),
        swing(next, length),
        frame_error(size, h, c),
    );
    lemma_mul_reorder(c, f, p0);
    assert((m + 1) as real == m as real + 1 as real);
    // In bounds.
    let r = 32 as real * (u * m as real);
    lemma_mul_order(m as real, 5001 as real, u);
    lemma_mul_nonnegative(u, m as real);
    lemma_left(e, p0, x, t, r);
    let d = blur(m as real, t);
    lemma_mul_order(d, 1 as real, x * (1 as real + t));
    lemma_mul_order(d, 1 as real, x);
    assert(size <= 60_600 as real);
    vstd::arithmetic::power2::lemma2_to64();
    lemma_pow2_strictly_increases(32, 90);
    lemma_stays_bounded(e, before, dt, length, decay);
    lemma_fading(e, p0, x, t, h, c, m);
}

/// One more frame.
proof fn lemma_next_on_course(
    e: spec_fn(real) -> real,
    s: SpringValue,
    dts: Seq<Value>,
    length: Value,
    decays: Seq<Value>,
    m: nat,
)
    requires
        exponential(e),
        ordinary(length),
        released(s),
        frames_decay(e, dts, length, decays, m + 1),
        on_course(e, s, dts, length, decays, m),
        after(s, dts, length, decays, m).animating(dts[m as int], length, decays[m as int]),
        m <= 5000,
    ensures
        on_course(e, s, dts, length, decays, m + 1),
{
    let before = after(s, dts, length, decays, m);
    let dt = dts[m as int];
    let decay = decays[m as int];
    let next = before.swung(dt, length, decay);
    assert(after(s, dts, length, decays, m + 1) == before.advanced(dt, length, decay));
    assert(before.advanced(dt, length, decay) == next);
    assert(short_of(dt, length));
    lemma_course_kept(e, s, dts, length, decays, m);
    lemma_below_tolerance(next.position);
    let p0 = number(s.position);
    lemma_not_late(
        e,
        p0,
        faded(decays, m + 1) * p0,
        turned(dts, length, m + 1),
        m + 1,
        number(next.position),
    );
}

/// `(1 + t) * (1 + t) * e(-t)` is at most four.
proof fn lemma_square(e: spec_fn(real) -> real, t: real)
    requires
        exponential(e),
        t >= 0 as real,
    ensures
        (1 as real + t) * (e(-t) * (1 as real + t)) <= 4 as real,
{
    let h = t / 2 as real;
    lemma_damped(e, h);
    assert(multiplies(e, -h, -h));
    assert(-h + -h == -t);
    let f = e(-h);
    lemma_exponential(e, h);
    let a = 1 as real + h;
    let g = 1 as real + t;
    let b = g * f;
    lemma_mul_order(g, 2 as real * a, f);
    lemma_mul_reorder(2 as real, a, f);
    assert(b <= 2 as real);
    lemma_mul_nonnegative(g, f);
    lemma_mul_size(b, b, 2 as real, 2 as real);
    lemma_mul_reorder(f, f, g);
    lemma_mul_reorder(g, f, f * g);
    lemma_mul_reorder(f, g, g);
    lemma_mul_reorder(b, f, g);
    assert(g * (e(-t) * g) == b * b) by {
        assert(e(-t) * g == f * (f * g));
        assert(g * (f * (f * g)) == (g * f) * (f * g));
    }
}

/// `t * (1 + t) * (1 + t) * e(-t)` is at most 27.
proof fn lemma_cube(e: spec_fn(real) -> real, t: real)
    requires
        exponential(e),
        t >= 0 as real,
    ensures
        t * ((1 as real + t) * (e(-t) * (1 as real + t))) <= 27 as real,
{
    let h = t / 3 as real;
    lemma_damped(e, h);
    lemma_exponential(e, h);
    let f = e(-h);
    assert(multiplies(e, -h, -h));
    let two = -h + -h;
    assert(multiplies(e, two, -h));
    assert(two + -h == -t);
    let a = 1 as real + h;
    let g = 1 as real + t;
    let b = g * f;
    let c = t * f;
    lemma_mul_order(g, 3 as real * a, f);
    lemma_mul_order(t, 3 as real * a, f);
    lemma_mul_reorder(3 as real, a, f);
    lemma_mul_nonnegative(g, f);
    lemma_mul_nonnegative(t, f);
    assert(b <= 3 as real && c <= 3 as real);
    lemma_mul_size(b, b, 3 as real, 3 as real);
    lemma_mul_size(c, b * b, 3 as real, 9 as real);
    assert(e(-t) == (f * f) * f);
    // t * (g * (f * f * f * g)) == (t * f) * ((g * f) * (g * f)).
    assert(e(-t) * g == f * (f * (f * g))) by {
        lemma_mul_reorder(f, f, f);
        lemma_mul_reorder(f, f * f, g);
        lemma_mul_reorder(f, f, g);
    }
    assert(g * (f * (f * (f * g))) == f * (b * b)) by {
        lemma_mul_reorder(g, f, f * (f * g));
        lemma_mul_reorder(g, f, f * g);
        lemma_mul_reorder(f, g, g);
        lemma_mul_reorder(g, f, b);
    }
    lemma_mul_reorder(t, f, b * b);
}

/// A spring near its course is where the exponential has brought it, up to
/// rounding.
proof fn lemma_near(
    e: spec_fn(real) -> real,
    s: SpringValue,
    dts: Seq<Value>,
    length: Value,
    decays: Seq<Value>,
    n: nat,
    now: SpringValue,
)
    requires
        exponential(e),
        released(s),
        near_course(e, s, dts, length, decays, n, now),
        n <= 5001,
    ensures
        ({
            let p0 = number(s.position);
            let t = turned(dts, length, n);
            let exact = (e(-t) * (1 as real + t)) * p0;
            32768 as real * abs(number(now.position) - exact) <= (n as real + 7 as real) * p0
        }),
{
    lemma_constants();
    let u = ulp();
    let p0 = number(s.position);
    let q = number(now.position);
    let t = turned(dts, length, n);
    let x = faded(decays, n) * p0;
    let nn = n as real;
    let un = u * nn;
    let d = blur(nn, t);
    let r = 32 as real * un;
    lemma_mul_order(nn, 5001 as real, u);
    lemma_mul_nonnegative(u, nn);
    lemma_left(e, p0, x, t, r);
    lemma_blur_grows(nn, t, 0 as real);
    let a = x * (1 as real + t);
    let g = 1 as real + t;
    let f = e(-t) * g;
    let fp = f * p0;
    lemma_mul_nonnegative(f, p0);
    // a is near to fp.
    let k = 1 as real + r;
    assert(f * (p0 * k) == fp + fp * r) by {
        lemma_mul_reorder(f, p0, k);
        lemma_mul_sum(fp, 1 as real, r);
    }
    let l = 1 as real - r;
    assert(a >= fp - fp * r) by {
        let w = e(-t);
        lemma_mul_order(p0 * (w * l), x, g);
        lemma_mul_reorder(p0, w, l);
        lemma_mul_reorder(w, g, p0 * l);
        lemma_mul_reorder(g, w, p0 * l);
        lemma_mul_reorder(g, p0 * (w * l), g);
        lemma_mul_reorder(w, p0, l);
        assert((p0 * (w * l)) * g == f * (p0 * l)) by {
            lemma_mul_reorder(p0, w, l);
            lemma_mul_reorder(w, p0 * l, g);
            lemma_mul_reorder(p0 * l, g, g);
            lemma_mul_reorder(w, g, p0 * l);
        }
        lemma_mul_reorder(f, p0, l);
        lemma_mul_sum(fp, 1 as real, r);
    }
    // f * d <= 100 u (4 n + 27).
    lemma_square(e, t);
    lemma_cube(e, t);
    let gf = g * f;
    lemma_mul_nonnegative(g, f);
    let v = g * (nn + t);
    assert(f * d == 100 as real * (u * (f * v))) by {
        lemma_mul_reorder(f, 100 as real, u * v);
        lemma_mul_reorder(f, u, v);
    }
    assert(f * v == nn * gf + t * gf) by {
        lemma_mul_reorder(f, g, nn + t);
        lemma_mul_reorder(f, g, g);
        lemma_mul_sum(gf, nn, t);
    }
    lemma_mul_order(gf, 4 as real, nn);
    lemma_mul_order(f * v, 4 as real * nn + 27 as real, u);
    lemma_mul_sum(u, 4 as real * nn, 27 as real);
    lemma_mul_reorder(u, 4 as real, nn);
    let fd = f * d;
    let low = 400 as real * un + 2700 as real * u;
    assert(fd <= low);
    // a * d is at most 1.01 * p0 * low.
    lemma_mul_order(a, fp + fp * r, d);
    lemma_mul_order(r, 1 as real / 100 as real, fp);
    lemma_mul_order(100 as real * a, 101 as real * fp, d);
    lemma_mul_reorder(100 as real, a, d);
    lemma_mul_reorder(101 as real, fp, d);
    lemma_mul_reorder(f, p0, d);
    lemma_mul_reorder(p0, f, d);
    lemma_mul_order(fd, low, p0);
    assert(100 as real * (a * d) <= 101 as real * (low * p0));
    // fp * r is at most p0 * r.
    lemma_mul_order(f, 1 as real, p0);
    lemma_mul_order(fp, p0, r);
    assert(abs(q - fp) <= p0 * r + (101 as real / 100 as real) * (low * p0));
    // All in parts of p0.
    let unp = un * p0;
    let up = u * p0;
    assert(low * p0 == 400 as real * unp + 2700 as real * up) by {
        lemma_mul_sum(p0, 400 as real * un, 2700 as real * u);
        lemma_mul_reorder(400 as real, un, p0);
        lemma_mul_reorder(2700 as real, u, p0);
    }
    assert(p0 * r == 32 as real * unp) by {
        lemma_mul_reorder(p0, 32 as real, un);
        lemma_mul_reorder(p0, un, un);
    }
    lemma_mul_nonnegative(un, p0);
    lemma_mul_nonnegative(u, p0);
    assert(abs(q - fp) <= 512 as real * unp + 3584 as real * up);
    assert(16777216 as real * up == p0) by {
        lemma_mul_reorder(16777216 as real, u, p0);
    }
    assert(16777216 as real * unp == nn * p0) by {
        lemma_mul_reorder(u, nn, p0);
        lemma_mul_reorder(16777216 as real, u, nn * p0);
    }
    lemma_mul_sum(p0, nn, 7 as real);
}

/// A spring on course is on its side, and not much further from its target
/// than it was at first.
proof fn lemma_no_growth(
    e: spec_fn(real) -> real,
    s: SpringValue,
    dts: Seq<Value>,
    length: Value,
    decays: Seq<Value>,
    n: nat,
)
    requires
        exponential(e),
        released(s),
        on_course(e, s, dts, length, decays, n),
        n <= 5000,
    ensures
        ({
            let q = number(after(s, dts, length, decays, n).position);
            &&& 0 as real <= q
            &&& 32768 as real * q <= (32768 as real + n as real + 7 as real) * number(s.position)
        }),
{
    let p0 = number(s.position);
    let nn = n as real;
    let t = turned(dts, length, n);
    let x = faded(decays, n) * p0;
    let now = after(s, dts, length, decays, n);
    lemma_near(e, s, dts, length, decays, n, now);
    lemma_damped(e, t);
    lemma_exponential(e, t);
    let f = e(-t) * (1 as real + t);
    lemma_mul_reorder(1 as real + t, e(-t), e(-t));
    lemma_mul_order(f, 1 as real, p0);
    lemma_mul_sum(p0, 32768 as real, nn + 7 as real);
    // On its side.
    lemma_blur_bound(nn, t);
    lemma_mul_nonnegative(x, 1 as real + t);
    lemma_mul_order(blur(nn, t), 1 as real, x * (1 as real + t));
}

/// A spring is under way in every frame, or it has come to rest.
proof fn lemma_way_or_rest(
    s: SpringValue,
    dts: Seq<Value>,
    length: Value,
    decays: Seq<Value>,
    n: nat,
)
    ensures
        under_way(s, dts, length, decays, n) || after(s, dts, length, decays, n).at_rest(),
    decreases n,
{
    if n > 0 {
        let m = (n - 1) as nat;
        lemma_way_or_rest(s, dts, length, decays, m);
        lemma_spring_stops(
            after(s, dts, length, decays, m),
            dts[m as int],
            length,
            decays[m as int],
        );
    }
}

/// A tiny offset is not kept for a single frame.
proof fn lemma_tiny_offset(
    e: spec_fn(real) -> real,
    s: SpringValue,
    dts: Seq<Value>,
    length: Value,
    decays: Seq<Value>,
    n: nat,
)
    requires
        exponential(e),
        ordinary(length),
        s.position is Finite,
        s.velocity.is_zero(),
        0 as real <= number(s.position),
        number(s.position) * (1048576 as real) < 1 as real,
        frames_decay(e, dts, length, decays, n),
        n > 0,
    ensures
        !under_way(s, dts, length, decays, n),
    decreases n,
{
    if n > 1 {
        lemma_tiny_offset(e, s, dts, length, decays, (n - 1) as nat);
    } else if under_way(s, dts, length, decays, 1) {
        let dt = dts[0];
        let decay = decays[0];
        assert(after(s, dts, length, decays, 0) == s);
        assert(s.animating(dt, length, decay));
        assert(short_of(dt, length));
        lemma_constants();
        lemma_dust();
        lemma_no_units(s.velocity);
        lemma_swing(s, length);
        vstd::arithmetic::power2::lemma2_to64();
        lemma_number_within(s.position, 31);
        lemma_pow2_strictly_increases(180, 240);
        lemma_pow2_pos(254);
        lemma_pow2_strictly_increases(63, 90);
        lemma_stays_bounded(e, s, dt, length, decay);
        lemma_below_tolerance(s.swung(dt, length, decay).position);
    }
}

/// Opposite springs stay opposite over many frames.
proof fn lemma_opposite_runs(
    s: SpringValue,
    t: SpringValue,
    dts: Seq<Value>,
    length: Value,
    decays: Seq<Value>,
    n: nat,
)
    requires
        opposite_springs(s, t),
    ensures
        opposite_springs(
            after(s, dts, length, decays, n),
            after(t, dts, length, decays, n),
        ),
    decreases n,
{
    if n > 0 {
        let m = (n - 1) as nat;
        lemma_opposite_runs(s, t, dts, length, decays, m);
        opposite_springs_stay_opposite(
            after(s, dts, length, decays, m),
            after(t, dts, length, decays, m),
            dts[m as int],
            length,
            decays[m as int],
        );
    }
}

/// The opposite spring.
spec fn flipped(s: SpringValue) -> SpringValue {
    SpringValue { position: opposite(s.position), velocity: s.velocity }
}

/// A released spring neither overshoots its target nor moves away from it, up
/// to rounding: after up to 5000 frames of any length, or any number of frames
/// of at least a thousandth of the animation length, it is on the same side,
/// and no further off than at first, but for one part in `pow2(15)` for each
/// frame and seven more. `e` is the exponential function, which the decays are
/// near to.
pub proof fn released_spring_never_overshoots_nor_grows(
    e: spec_fn(real) -> real,
    s: SpringValue,
    dts: Seq<Value>,
    length: Value,
    decays: Seq<Value>,
    n: nat,
)
    requires
        exponential(e),
        ordinary(length),
        s.position is Finite,
        abs(number(s.position)) <= 10_000 as real,
        s.velocity.is_zero(),
        frames_decay(e, dts, length, decays, n),
        few_or_lasting(dts, length, n),
    ensures
        ({
            let p = number(s.position);
            let q = number(after(s, dts, length, decays, n).position);
            let bound = 32768 as real + n as real + 7 as real;
            &&& after(s, dts, length, decays, n).position is Finite
            &&& p >= 0 as real ==> 0 as real <= q && 32768 as real * q <= bound * p
            &&& p <= 0 as real ==> q <= 0 as real && bound * p <= 32768 as real * q
        }),
{
    let p = number(s.position);
    let bound = 32768 as real + n as real + 7 as real;
    if p >= 0 as real {
        lemma_one_side(e, s, dts, length, decays, n);
    }
    if p <= 0 as real {
        let t = flipped(s);
        lemma_opposite(s.position);
        lemma_one_side(e, t, dts, length, decays, n);
        lemma_opposite_runs(s, t, dts, length, decays, n);
        let a = after(s, dts, length, decays, n).position;
        let b = after(t, dts, length, decays, n).position;
        lemma_opposite(a);
        assert(units(b) == units(opposite(a)));
        lemma_mul_sum(bound, 0 as real, p);
        assert(bound * (0 as real) == 0 as real);
    }
}

/// The same, of a spring on one side.
proof fn lemma_one_side(
    e: spec_fn(real) -> real,
    s: SpringValue,
    dts: Seq<Value>,
    length: Value,
    decays: Seq<Value>,
    n: nat,
)
    requires
        exponential(e),
        ordinary(length),
        s.position is Finite,
        0 as real <= number(s.position) <= 10_000 as real,
        s.velocity.is_zero(),
        frames_decay(e, dts, length, decays, n),
        few_or_lasting(dts, length, n),
    ensures
        ({
            let p = number(s.position);
            let q = number(after(s, dts, length, decays, n).position);
            let bound = 32768 as real + n as real + 7 as real;
            &&& after(s, dts, length, decays, n).position is Finite
            &&& 0 as real <= q
            &&& 32768 as real * q <= bound * p
        }),
{
    let p = number(s.position);
    let bound = 32768 as real + n as real + 7 as real;
    let now = after(s, dts, length, decays, n);
    lemma_way_or_rest(s, dts, length, decays, n);
    lemma_mul_order(32768 as real, bound, p);
    lemma_mul_nonnegative(bound, p);
    if now.at_rest() {
        lemma_no_units(now.position);
    } else if n == 0 {
        assert(now == s);
    } else if p * (1048576 as real) < 1 as real {
        lemma_tiny_offset(e, s, dts, length, decays, n);
    } else {
        lemma_few(e, s, dts, length, decays, n);
        lemma_on_course(e, s, dts, length, decays, n);
        lemma_no_growth(e, s, dts, length, decays, n);
    }
}

/// The angle is the time, times the frequency.
proof fn lemma_turned(dts: Seq<Value>, length: Value, n: nat)
    ensures
        turned(dts, length, n) == number(omega(length)) * passed(dts, n),
    decreases n,
{
    let w = number(omega(length));
    if n == 0 {
        assert(w * (0 as real) == 0 as real);
    } else {
        lemma_turned(dts, length, (n - 1) as nat);
        lemma_mul_sum(w, passed(dts, (n - 1) as nat), number(dts[n - 1]));
    }
}

/// Each of the first `n` frames takes at least a thousandth of the animation
/// length.
pub open spec fn frames_last(dts: Seq<Value>, length: Value, n: nat) -> bool {
    forall|k: int|
        #![trigger dts[k]]
        0 <= k < n ==> 1000 as real * number(dts[k]) >= number(length)
}

/// There are at most 5000 frames, or any number that are not too short, so that
/// what rounding may add up to stays small.
pub open spec fn few_or_lasting(dts: Seq<Value>, length: Value, n: nat) -> bool {
    n <= 5000 || frames_last(dts, length, n)
}

/// So many frames take so much time.
proof fn lemma_passed(dts: Seq<Value>, length: Value, n: nat)
    requires
        frames_last(dts, length, n),
    ensures
        1000 as real * passed(dts, n) >= n as real * number(length),
    decreases n,
{
    let l = number(length);
    if n > 0 {
        let m = (n - 1) as nat;
        lemma_passed(dts, length, m);
        assert(1000 as real * number(dts[n - 1]) >= l);
        lemma_mul_sum(l, m as real, 1 as real);
        assert(n as real == m as real + 1 as real);
    } else {
        assert(0 as real * l == 0 as real);
    }
}

/// A spring is not under way for so many frames.
proof fn lemma_few(
    e: spec_fn(real) -> real,
    s: SpringValue,
    dts: Seq<Value>,
    length: Value,
    decays: Seq<Value>,
    n: nat,
)
    requires
        exponential(e),
        ordinary(length),
        s.position is Finite,
        0 as real <= number(s.position) <= 10_000 as real,
        s.velocity.is_zero(),
        frames_decay(e, dts, length, decays, n),
        few_or_lasting(dts, length, n),
        under_way(s, dts, length, decays, n),
    ensures
        n <= 5000,
{
    if n > 5000 {
        lemma_ordinary(length);
        lemma_way_is_short(e, s, dts, length, decays, n);
        lemma_passed(dts, length, n);
        lemma_mul_order(5000 as real, n as real, number(length));
    }
}

/// A spring is not under way for long.
proof fn lemma_way_is_short(
    e: spec_fn(real) -> real,
    s: SpringValue,
    dts: Seq<Value>,
    length: Value,
    decays: Seq<Value>,
    n: nat,
)
    requires
        exponential(e),
        ordinary(length),
        s.position is Finite,
        0 as real <= number(s.position) <= 10_000 as real,
        s.velocity.is_zero(),
        frames_decay(e, dts, length, decays, n),
        frames_last(dts, length, n),
        under_way(s, dts, length, decays, n),
    ensures
        passed(dts, n) < 5 as real * number(length),
    decreases n,
{
    lemma_ordinary(length);
    if n > 0 {
        let m = (n - 1) as nat;
        lemma_way_is_short(e, s, dts, length, decays, m);
        lemma_passed(dts, length, m);
        if m >= 5000 {
            lemma_mul_order(5000 as real, m as real, number(length));
        }
        assert(m < 5000);
        if number(s.position) * (1048576 as real) < 1 as real {
            lemma_tiny_offset(e, s, dts, length, decays, n);
        } else {
            lemma_on_course(e, s, dts, length, decays, n);
            lemma_turned(dts, length, n);
            lemma_frequency(length);
            let w = number(omega(length));
            let l = number(length);
            if passed(dts, n) >= 5 as real * l {
                lemma_mul_order(5 as real * l, passed(dts, n), w);
                lemma_mul_reorder(w, 5 as real, l);
            }
        }
    }
}

/// Every animation ends in bounded time: a released spring has come to rest
/// once frames of at least a thousandth of the animation length have taken
/// five animation lengths, and the last of them says so. With an animation of
/// up to a second, frames of a thousandth of a second will do. `e` is the
/// exponential function, which the decays are near to.
pub proof fn released_spring_comes_to_rest(
    e: spec_fn(real) -> real,
    s: SpringValue,
    dts: Seq<Value>,
    length: Value,
    decays: Seq<Value>,
    n: nat,
)
    requires
        exponential(e),
        ordinary(length),
        s.position is Finite,
        abs(number(s.position)) <= 10_000 as real,
        s.velocity.is_zero(),
        frames_decay(e, dts, length, decays, n),
        frames_last(dts, length, n),
        n > 0,
        passed(dts, n) >= 5 as real * number(length),
    ensures
        after(s, dts, length, decays, n).at_rest(),
        !after(s, dts, length, decays, (n - 1) as nat).animating(
            dts[n - 1],
            length,
            decays[n - 1],
        ),
{
    let m = (n - 1) as nat;
    let t = if number(s.position) >= 0 as real {
        s
    } else {
        flipped(s)
    };
    lemma_opposite(s.position);
    if under_way(t, dts, length, decays, n) {
        lemma_way_is_short(e, t, dts, length, decays, n);
    }
    lemma_way_or_rest(t, dts, length, decays, n);
    lemma_way_or_rest(t, dts, length, decays, m);
    lemma_spring_stops(
        after(t, dts, length, decays, m),
        dts[m as int],
        length,
        decays[m as int],
    );
    if number(s.position) < 0 as real {
        lemma_opposite_runs(s, t, dts, length, decays, n);
        lemma_opposite_runs(s, t, dts, length, decays, m);
        opposite_springs_stay_opposite(
            after(s, dts, length, decays, m),
            after(t, dts, length, decays, m),
            dts[m as int],
            length,
            decays[m as int],
        );
    }
}

/// A lower bound of a product of exponentials, in ten-thousandths.
proof fn lemma_product(e: spec_fn(real) -> real, x: real, y: real, a: real, b: real)
    requires
        exponential(e),
        10000 as real * e(x) >= a,
        10000 as real * e(y) >= b,
        a >= 0 as real,
        b >= 0 as real,
    ensures
        10000 as real * (10000 as real * e(x + y)) >= a * b,
{
    assert(multiplies(e, x, y));
    let f = e(x);
    let g = e(y);
    lemma_exponential(e, x);
    lemma_exponential(e, y);
    lemma_mul_order(a, 10000 as real * f, b);
    lemma_mul_order(b, 10000 as real * g, 10000 as real * f);
    lemma_mul_reorder(10000 as real * f, 10000 as real, g);
    lemma_mul_reorder(10000 as real, f, g);
}

/// After the turn that an animation length makes, about a fiftieth is left.
proof fn lemma_settling(e: spec_fn(real) -> real, t: real)
    requires
        exponential(e),
        10 as real * t >= 58 as real,
    ensures
        1000 as real * (e(-t) * (1 as real + t)) <= 24 as real,
{
    // Doubling the argument squares the exponential.
    let a1 = 1 as real / 32 as real;
    assert(e(a1) >= 1 as real + a1);
    let a2 = 1 as real / 16 as real;
    lemma_product(e, a1, a1, 10312 as real, 10312 as real);
    assert(a1 + a1 == a2);
    assert(10000 as real * e(a2) >= 10633 as real);
    let a4 = 1 as real / 8 as real;
    lemma_product(e, a2, a2, 10633 as real, 10633 as real);
    assert(a2 + a2 == a4);
    assert(10000 as real * e(a4) >= 11306 as real);
    let a8 = 1 as real / 4 as real;
    lemma_product(e, a4, a4, 11306 as real, 11306 as real);
    assert(a4 + a4 == a8);
    assert(10000 as real * e(a8) >= 12782 as real);
    let a16 = 1 as real / 2 as real;
    lemma_product(e, a8, a8, 12782 as real, 12782 as real);
    assert(a8 + a8 == a16);
    assert(10000 as real * e(a16) >= 16337 as real);
    let a32 = 1 as real;
    lemma_product(e, a16, a16, 16337 as real, 16337 as real);
    assert(a16 + a16 == a32);
    assert(10000 as real * e(a32) >= 26689 as real);
    let two = 2 as real;
    lemma_product(e, a32, a32, 26689 as real, 26689 as real);
    assert(a32 + a32 == two);
    assert(10000 as real * e(two) >= 71230 as real);
    let four = 4 as real;
    lemma_product(e, two, two, 71230 as real, 71230 as real);
    assert(two + two == four);
    assert(10000 as real * e(four) >= 507371 as real);
    let five = 5 as real;
    lemma_product(e, four, a32, 507371 as real, 26689 as real);
    assert(four + a32 == five);
    assert(10000 as real * e(five) >= 1354122 as real);
    let more = 11 as real / 2 as real;
    lemma_product(e, five, a16, 1354122 as real, 16337 as real);
    assert(five + a16 == more);
    assert(10000 as real * e(more) >= 2212229 as real);
    let most = 23 as real / 4 as real;
    lemma_product(e, more, a8, 2212229 as real, 12782 as real);
    assert(more + a8 == most);
    assert(10000 as real * e(most) >= 2827671 as real);
    let top = e(most);
    lemma_exponential(e, most);
    let low = e(-most);
    lemma_mul_order(2827671 as real, 10000 as real * top, low);
    lemma_mul_reorder(10000 as real, top, low);
    assert(2827671 as real * low <= 10000 as real);
    // The rest of the turn.
    let r = t - most;
    assert(multiplies(e, -most, -r));
    assert(-most + -r == -t);
    lemma_damped(e, r);
    lemma_exponential(e, r);
    let q = e(-r);
    lemma_mul_order(4 as real * (1 as real + t), 27 as real * (1 as real + r), q);
    lemma_mul_reorder(27 as real, 1 as real + r, q);
    lemma_mul_reorder(4 as real, 1 as real + t, q);
    let v = (1 as real + t) * q;
    assert(4 as real * v <= 27 as real);
    lemma_mul_order(4 as real * v, 27 as real, low);
    lemma_mul_reorder(4 as real, v, low);
    lemma_mul_reorder(low, q, 1 as real + t);
    lemma_mul_reorder(q, 1 as real + t, low);
    lemma_mul_reorder(low, v, v);
    assert(e(-t) * (1 as real + t) == v * low);
}

/// A spring settles to about 2% within its animation length: after up to a
/// hundred frames that have taken so long together, a released spring is on the
/// same side of its target, and at most a fortieth as far off as at first. `e`
/// is the exponential function, which the decays are near to.
pub proof fn released_spring_settles_within_its_length(
    e: spec_fn(real) -> real,
    s: SpringValue,
    dts: Seq<Value>,
    length: Value,
    decays: Seq<Value>,
    n: nat,
)
    requires
        exponential(e),
        ordinary(length),
        s.position is Finite,
        abs(number(s.position)) <= 10_000 as real,
        s.velocity.is_zero(),
        frames_decay(e, dts, length, decays, n),
        n <= 100,
        passed(dts, n) >= number(length),
    ensures
        after(s, dts, length, decays, n).position is Finite,
        40 as real * abs(number(after(s, dts, length, decays, n).position)) <= abs(
            number(s.position),
        ),
{
    let t = if number(s.position) >= 0 as real {
        s
    } else {
        flipped(s)
    };
    lemma_opposite(s.position);
    lemma_settled_side(e, t, dts, length, decays, n);
    if number(s.position) < 0 as real {
        lemma_opposite_runs(s, t, dts, length, decays, n);
        let a = after(s, dts, length, decays, n).position;
        let b = after(t, dts, length, decays, n).position;
        lemma_opposite(a);
        assert(units(b) == units(opposite(a)));
    }
}

/// The same, of a spring on one side.
proof fn lemma_settled_side(
    e: spec_fn(real) -> real,
    s: SpringValue,
    dts: Seq<Value>,
    length: Value,
    decays: Seq<Value>,
    n: nat,
)
    requires
        exponential(e),
        ordinary(length),
        s.position is Finite,
        0 as real <= number(s.position) <= 10_000 as real,
        s.velocity.is_zero(),
        frames_decay(e, dts, length, decays, n),
        n <= 100,
        passed(dts, n) >= number(length),
    ensures
        after(s, dts, length, decays, n).position is Finite,
        40 as real * abs(number(after(s, dts, length, decays, n).position)) <= number(s.position),
{
    let p0 = number(s.position);
    let now = after(s, dts, length, decays, n);
    lemma_way_or_rest(s, dts, length, decays, n);
    lemma_ordinary(length);
    if now.at_rest() {
        lemma_no_units(now.position);
    } else if p0 * (1048576 as real) < 1 as real {
        lemma_tiny_offset(e, s, dts, length, decays, n);
    } else {
        lemma_on_course(e, s, dts, length, decays, n);
        lemma_turned(dts, length, n);
        lemma_frequency(length);
        lemma_constants();
        let u = ulp();
        let w = number(omega(length));
        let t = turned(dts, length, n);
        lemma_mul_order(number(length), passed(dts, n), w);
        lemma_settling(e, t);
        let x = faded(decays, n) * p0;
        let nn = n as real;
        let r = 32 as real * (u * nn);
        lemma_mul_order(nn, 100 as real, u);
        lemma_mul_nonnegative(u, nn);
        lemma_left(e, p0, x, t, r);
        let d = blur(nn, t);
        lemma_hundred_frames(nn, t);
        let a = x * (1 as real + t);
        let f = e(-t) * (1 as real + t);
        let pk = p0 * (1 as real + r);
        lemma_mul_nonnegative(p0, 1 as real + r);
        lemma_mul_order(1000 as real * f, 24 as real, pk);
        lemma_mul_reorder(1000 as real, f, pk);
        assert(1000 as real * a <= 24 as real * pk);
        lemma_mul_order(1000 as real * r, 1 as real, p0);
        lemma_mul_reorder(1000 as real, r, p0);
        lemma_mul_sum(p0, 1 as real, r);
        lemma_mul_reorder(p0, r, r);
        lemma_mul_order(d, 3 as real / 100 as real, a);
        lemma_mul_reorder(a, d, d);
    }
}

/// The blur of a hundred frames.
proof fn lemma_hundred_frames(n: real, t: real)
    requires
        0 as real <= n <= 100 as real,
        0 as real <= t <= 27 as real,
    ensures
        0 as real <= blur(n, t) <= 3 as real / 100 as real,
{
    lemma_constants();
    let u = ulp();
    let a = (1 as real + t) * (n + t);
    lemma_mul_size(1 as real + t, n + t, 28 as real, 127 as real);
    lemma_mul_nonnegative(1 as real + t, n + t);
    assert(28 as real * 127 as real == 3556 as real) by (nonlinear_arith);
    lemma_mul_order(a, 3556 as real, u);
    lemma_mul_nonnegative(u, a);
}

/// Over an angle of at most six, more than the tolerance is left of a pixel.
proof fn lemma_much_is_left(e: spec_fn(real) -> real, h: real)
    requires
        exponential(e),
        0 as real <= h <= 6 as real,
    ensures
        10000 as real * (e(-h) * (1 as real + h)) >= 147 as real,
{
    // Doubling the argument squares the exponential.
    let a1 = -(1 as real / 32 as real);
    assert(e(a1) >= 1 as real + a1);
    let a2 = -(1 as real / 16 as real);
    lemma_product(e, a1, a1, 9687 as real, 9687 as real);
    assert(a1 + a1 == a2);
    assert(10000 as real * e(a2) >= 9383 as real);
    let a4 = -(1 as real / 8 as real);
    lemma_product(e, a2, a2, 9383 as real, 9383 as real);
    assert(a2 + a2 == a4);
    assert(10000 as real * e(a4) >= 8804 as real);
    let a8 = -(1 as real / 4 as real);
    lemma_product(e, a4, a4, 8804 as real, 8804 as real);
    assert(a4 + a4 == a8);
    assert(10000 as real * e(a8) >= 7751 as real);
    let a16 = -(1 as real / 2 as real);
    lemma_product(e, a8, a8, 7751 as real, 7751 as real);
    assert(a8 + a8 == a16);
    assert(10000 as real * e(a16) >= 6007 as real);
    let a32 = -(1 as real);
    lemma_product(e, a16, a16, 6007 as real, 6007 as real);
    assert(a16 + a16 == a32);
    assert(10000 as real * e(a32) >= 3608 as real);
    let two = -(2 as real);
    lemma_product(e, a32, a32, 3608 as real, 3608 as real);
    assert(a32 + a32 == two);
    assert(10000 as real * e(two) >= 1301 as real);
    let four = -(4 as real);
    lemma_product(e, two, two, 1301 as real, 1301 as real);
    assert(two + two == four);
    assert(10000 as real * e(four) >= 169 as real);
    let six = -(6 as real);
    lemma_product(e, four, two, 169 as real, 1301 as real);
    assert(four + two == six);
    assert(10000 as real * e(six) >= 21 as real);
    lemma_less_is_left(e, h, 6 as real);
}

/// A jump is seen: a released spring that is at least a pixel off is still
/// under way after a frame that is shorter than its animation length. `e` is
/// the exponential function, which the decay is near to.
pub proof fn released_spring_is_still_seen(
    e: spec_fn(real) -> real,
    s: SpringValue,
    dt: Value,
    length: Value,
    decay: Value,
)
    requires
        exponential(e),
        ordinary(length),
        short_of(dt, length),
        nearly_exponential(e, decay_exponent(dt, length), decay),
        s.position is Finite,
        1 as real <= abs(number(s.position)) <= 10_000 as real,
        s.velocity.is_zero(),
    ensures
        s.animating(dt, length, decay),
{
    let t = if number(s.position) >= 0 as real {
        s
    } else {
        flipped(s)
    };
    lemma_opposite(s.position);
    lemma_first_frame(e, t, dt, length, decay);
    lemma_decay(e, dt, length, decay);
    lemma_constants();
    lemma_dust();
    let p = number(t.position);
    let h = angle(dt, length);
    lemma_much_is_left(e, h);
    let f = e(-h) * (1 as real + h);
    lemma_mul_order(147 as real, 10000 as real * f, p);
    lemma_mul_reorder(10000 as real, f, p);
    lemma_mul_order(1000000 as real * ulp(), 1 as real, p);
    lemma_mul_reorder(1000000 as real, ulp(), p);
    lemma_below_tolerance(t.swung(dt, length, decay).position);
    lemma_no_units(t.position);
    assert(t.animating(dt, length, decay));
    if number(s.position) < 0 as real {
        opposite_springs_stay_opposite(t, s, dt, length, decay);
    }
}

/// A jump is seen however long the pause before it: an animation that takes
/// longer than the longest frame is under way after the first frame of the
/// jump.
pub proof fn jump_after_pause_is_animated(
    e: spec_fn(real) -> real,
    s: SpringValue,
    elapsed: Value,
    length: Value,
    decay: Value,
)
    requires
        exponential(e),
        ordinary(length),
        less(longest_frame(), length),
        elapsed is Finite,
        units(elapsed) >= 0,
        nearly_exponential(
            e,
            decay_exponent(frame_time(true, elapsed, length), length),
            decay,
        ),
        s.position is Finite,
        1 as real <= abs(number(s.position)) <= 10_000 as real,
        s.velocity.is_zero(),
    ensures
        s.animating(frame_time(true, elapsed, length), length, decay),
{
    lemma_longest_frame();
    released_spring_is_still_seen(e, s, frame_time(true, elapsed, length), length, decay);
}

/// Each of the first `n` frames leaves the spring on its side, and in range.
pub open spec fn keeps_its_side(
    s: SpringValue,
    dts: Seq<Value>,
    length: Value,
    decays: Seq<Value>,
    n: nat,
) -> bool {
    forall|k: nat|
        k <= n ==> {
            let now = #[trigger] after(s, dts, length, decays, k);
            bounded(now) && units(now.position) >= 0
        }
}

/// A spring that was let go on one side of its target, and keeps to that side,
/// always moves toward the target.
proof fn lemma_always_inward(
    e: spec_fn(real) -> real,
    s: SpringValue,
    dts: Seq<Value>,
    length: Value,
    decays: Seq<Value>,
    n: nat,
)
    requires
        exponential(e),
        ordinary(length),
        inward(s),
        frames_decay(e, dts, length, decays, n),
        keeps_its_side(s, dts, length, decays, n),
    ensures
        inward(after(s, dts, length, decays, n)),
    decreases n,
{
    if n > 0 {
        let m = (n - 1) as nat;
        assert(keeps_its_side(s, dts, length, decays, m));
        lemma_always_inward(e, s, dts, length, decays, m);
        let before = after(s, dts, length, decays, m);
        let now = after(s, dts, length, decays, n);
        assert(bounded(before) && bounded(now) && units(now.position) >= 0);
        let dt = dts[m as int];
        if less(dt, length) {
            inward_spring_never_grows(e, before, dt, length, decays[m as int]);
        }
    }
}

/// A spring that was let go on one side of its target never grows from one
/// frame to the next, up to the rounding of one frame, for as many frames as it
/// keeps to that side. `e` is the exponential function, which the decays are
/// near to.
pub proof fn spring_on_its_side_never_grows(
    e: spec_fn(real) -> real,
    s: SpringValue,
    dts: Seq<Value>,
    length: Value,
    decays: Seq<Value>,
    n: nat,
)
    requires
        exponential(e),
        ordinary(length),
        inward(s),
        frames_decay(e, dts, length, decays, n + 1),
        keeps_its_side(s, dts, length, decays, n),
    ensures
        ({
            let now = after(s, dts, length, decays, n).position;
            let next = after(s, dts, length, decays, n + 1).position;
            &&& next is Finite
            &&& 524288 as real * number(next) <= 524289 as real * number(now)
        }),
{
    lemma_always_inward(e, s, dts, length, decays, n);
    let now = after(s, dts, length, decays, n);
    assert(bounded(now));
    let dt = dts[n as int];
    assert(after(s, dts, length, decays, n + 1) == now.advanced(dt, length, decays[n as int]));
    if less(dt, length) {
        inward_spring_never_grows(e, now, dt, length, decays[n as int]);
    } else {
        lemma_no_units(now.position);
        lemma_no_units(Value::zero());
        lemma_mul_nonnegative(524289 as real, number(now.position));
    }
}

/// A released spring keeps to its side.
proof fn lemma_keeps_its_side(
    e: spec_fn(real) -> real,
    s: SpringValue,
    dts: Seq<Value>,
    length: Value,
    decays: Seq<Value>,
    n: nat,
)
    requires
        exponential(e),
        ordinary(length),
        s.position is Finite,
        0 as real <= number(s.position) <= 10_000 as real,
        s.velocity.is_zero(),
        frames_decay(e, dts, length, decays, n),
        few_or_lasting(dts, length, n),
    ensures
        keeps_its_side(s, dts, length, decays, n),
{
    assert forall|k: nat| k <= n implies {
        let now = #[trigger] after(s, dts, length, decays, k);
        bounded(now) && units(now.position) >= 0
    } by {
        let now = after(s, dts, length, decays, k);
        assert(few_or_lasting(dts, length, k));
        lemma_one_side(e, s, dts, length, decays, k);
        lemma_no_units(now.position);
        lemma_way_or_rest(s, dts, length, decays, k);
        lemma_pow2_pos(240);
        lemma_pow2_pos(254);
        if !now.at_rest() {
            if k == 0 {
                vstd::arithmetic::power2::lemma2_to64();
                lemma_number_within(s.position, 31);
                lemma_pow2_strictly_increases(180, 240);
            } else if number(s.position) * (1048576 as real) < 1 as real {
                lemma_tiny_offset(e, s, dts, length, decays, k);
            } else {
                lemma_few(e, s, dts, length, decays, k);
                lemma_on_course(e, s, dts, length, decays, k);
            }
        }
    }
}

/// A released spring never grows from one frame to the next, up to the rounding
/// of one frame: 32 parts in `pow2(24)`. So it is on either side of the target.
pub proof fn released_spring_never_grows(
    e: spec_fn(real) -> real,
    s: SpringValue,
    dts: Seq<Value>,
    length: Value,
    decays: Seq<Value>,
    n: nat,
)
    requires
        exponential(e),
        ordinary(length),
        s.position is Finite,
        abs(number(s.position)) <= 10_000 as real,
        s.velocity.is_zero(),
        frames_decay(e, dts, length, decays, n + 1),
        few_or_lasting(dts, length, n + 1),
    ensures
        ({
            let now = after(s, dts, length, decays, n).position;
            let next = after(s, dts, length, decays, n + 1).position;
            &&& now is Finite
            &&& next is Finite
            &&& 524288 as real * abs(number(next)) <= 524289 as real * abs(number(now))
        }),
{
    let t = if number(s.position) >= 0 as real {
        s
    } else {
        flipped(s)
    };
    lemma_opposite(s.position);
    lemma_no_units(t.position);
    assert(few_or_lasting(dts, length, n));
    lemma_keeps_its_side(e, t, dts, length, decays, n);
    spring_on_its_side_never_grows(e, t, dts, length, decays, n);
    released_spring_never_overshoots_nor_grows(e, t, dts, length, decays, n);
    released_spring_never_overshoots_nor_grows(e, t, dts, length, decays, n + 1);
    if number(s.position) < 0 as real {
        lemma_opposite_runs(s, t, dts, length, decays, n);
        lemma_opposite_runs(s, t, dts, length, decays, n + 1);
        let a = after(s, dts, length, decays, n).position;
        let b = after(s, dts, length, decays, n + 1).position;
        lemma_opposite(a);
        lemma_opposite(b);
        assert(units(after(t, dts, length, decays, n).position) == units(opposite(a)));
        assert(units(after(t, dts, length, decays, n + 1).position) == units(opposite(b)));
    }
}

/// The turn grows with the frames, and with a shorter animation.
proof fn lemma_turns(dts: Seq<Value>, short: Value, long: Value, m: nat, n: nat)
    requires
        ordinary(short),
        ordinary(long),
        units(short) <= units(long),
        m <= n,
        forall|k: int| #![trigger dts[k]] 0 <= k < n ==> dts[k] is Finite && units(dts[k]) >= 0,
    ensures
        0 as real <= turned(dts, long, m) <= turned(dts, long, n),
        turned(dts, long, n) <= turned(dts, short, n),
    decreases n,
{
    if n > 0 {
        let k = (n - 1) as nat;
        let dt = dts[k as int];
        lemma_no_units(dt);
        lemma_faster(short, long, dt);
        lemma_frequency(long);
        lemma_mul_nonnegative(number(omega(long)), number(dt));
        if m < n {
            lemma_turns(dts, short, long, m, k);
        } else {
            lemma_turns(dts, short, long, k, k);
        }
    }
}

/// Where a spring that is no longer under way was put on target.
proof fn lemma_where_it_stopped(
    s: SpringValue,
    dts: Seq<Value>,
    length: Value,
    decays: Seq<Value>,
    n: nat,
) -> (m: nat)
    requires
        !under_way(s, dts, length, decays, n),
    ensures
        m < n,
        under_way(s, dts, length, decays, m),
        !after(s, dts, length, decays, m).animating(dts[m as int], length, decays[m as int]),
    decreases n,
{
    let k = (n - 1) as nat;
    if under_way(s, dts, length, decays, k) {
        k
    } else {
        lemma_where_it_stopped(s, dts, length, decays, k)
    }
}

/// A spring that is under way is not at rest.
proof fn lemma_way_is_no_rest(
    s: SpringValue,
    dts: Seq<Value>,
    length: Value,
    decays: Seq<Value>,
    m: nat,
)
    requires
        under_way(s, dts, length, decays, m),
        number(s.position) > 0 as real,
        after(s, dts, length, decays, m).position is Finite,
    ensures
        !after(s, dts, length, decays, m).at_rest(),
{
    lemma_no_units(s.position);
    lemma_no_units(after(s, dts, length, decays, m).position);
    lemma_below_tolerance(after(s, dts, length, decays, m).position);
}

/// The frames of both springs.
pub open spec fn both_decay(
    e: spec_fn(real) -> real,
    dts: Seq<Value>,
    short: Value,
    long: Value,
    fast: Seq<Value>,
    slow: Seq<Value>,
    n: nat,
) -> bool {
    frames_decay(e, dts, short, fast, n) && frames_decay(e, dts, long, slow, n)
}

/// A shorter length is less, as a number.
proof fn lemma_shorter_number(short: Value, long: Value)
    requires
        units(short) <= units(long),
    ensures
        number(short) <= number(long),
{
    lemma_constants();
    let v = unit();
    let a = number(short);
    let b = number(long);
    lemma_quotient(units(short) as real, v);
    lemma_quotient(units(long) as real, v);
    assert(a <= b) by (nonlinear_arith)
        requires
            a * v <= b * v,
            v > 0 as real,
    ;
}

/// The spring with the shorter animation is ahead, on one side.
proof fn lemma_ahead(
    e: spec_fn(real) -> real,
    s: SpringValue,
    dts: Seq<Value>,
    short: Value,
    long: Value,
    fast: Seq<Value>,
    slow: Seq<Value>,
    n: nat,
)
    requires
        exponential(e),
        ordinary(long),
        ordinary(short) && units(short) <= units(long) || n > 0 && at_most(short, dts[0]),
        both_decay(e, dts, short, long, fast, slow, n),
        s.position is Finite,
        0 as real <= number(s.position) <= 10_000 as real,
        s.velocity.is_zero(),
        few_or_lasting(dts, long, n),
    ensures
        ({
            let ahead = after(s, dts, short, fast, n).position;
            let behind = after(s, dts, long, slow, n).position;
            &&& ahead is Finite
            &&& behind is Finite
            &&& 0 as real <= number(ahead)
            &&& 0 as real <= number(behind)
            &&& 16384 as real * (number(ahead) - number(behind)) <= 176 as real + (n as real
                + 7 as real) * number(s.position)
        }),
{
    let p0 = number(s.position);
    let nn = n as real;
    let a = after(s, dts, short, fast, n);
    let b = after(s, dts, long, slow, n);
    lemma_one_side(e, s, dts, long, slow, n);
    lemma_mul_nonnegative(nn + 7 as real, p0);
    lemma_no_units(Value::zero());
    if n > 0 && at_most(short, dts[0]) {
        lemma_over_at_once(s, dts, short, fast, n);
        lemma_no_units(a.position);
    } else {
        assert(few_or_lasting(dts, short, n)) by {
            lemma_shorter_number(short, long);
        }
        lemma_one_side(e, s, dts, short, fast, n);
        lemma_way_or_rest(s, dts, short, fast, n);
        if a.at_rest() {
            lemma_no_units(a.position);
        } else if n == 0 {
        } else if p0 * (1048576 as real) < 1 as real {
            lemma_tiny_offset(e, s, dts, short, fast, n);
        } else {
            lemma_few(e, s, dts, short, fast, n);
            lemma_on_course(e, s, dts, short, fast, n);
            lemma_near(e, s, dts, short, fast, n, a);
            lemma_turns(dts, short, long, n, n);
            let t = turned(dts, short, n);
            let r = turned(dts, long, n);
            lemma_less_is_left(e, r, t);
            let f = e(-t) * (1 as real + t);
            let g = e(-r) * (1 as real + r);
            lemma_mul_order(f, g, p0);
            if under_way(s, dts, long, slow, n) {
                lemma_on_course(e, s, dts, long, slow, n);
                lemma_near(e, s, dts, long, slow, n, b);
            } else {
                let m = lemma_where_it_stopped(s, dts, long, slow, n);
                lemma_stopped_near(e, s, dts, short, long, fast, slow, m, n);
                let q = turned(dts, long, m + 1);
                lemma_turns(dts, short, long, m + 1, n);
                lemma_less_is_left(e, q, r);
                lemma_mul_order(g, e(-q) * (1 as real + q), p0);
                lemma_mul_order((m + 1) as real + 7 as real, nn + 7 as real, p0);
            }
        }
    }
}

/// A spring that was put on target was close to it by then, as the exponential
/// has it.
proof fn lemma_stopped_near(
    e: spec_fn(real) -> real,
    s: SpringValue,
    dts: Seq<Value>,
    short: Value,
    long: Value,
    fast: Seq<Value>,
    slow: Seq<Value>,
    m: nat,
    n: nat,
)
    requires
        exponential(e),
        ordinary(long),
        ordinary(short),
        units(short) <= units(long),
        both_decay(e, dts, short, long, fast, slow, n),
        released(s),
        m < n <= 5000,
        under_way(s, dts, short, fast, n),
        under_way(s, dts, long, slow, m),
        !after(s, dts, long, slow, m).animating(dts[m as int], long, slow[m as int]),
    ensures
        ({
            let q = turned(dts, long, m + 1);
            let p0 = number(s.position);
            32768 as real * ((e(-q) * (1 as real + q)) * p0) <= 352 as real + ((m + 1) as real
                + 7 as real) * p0
        }),
{
    lemma_way_goes_on(s, dts, short, fast, m + 1, n);
    let dt = dts[m as int];
    assert(after(s, dts, short, fast, m).animating(dt, short, fast[m as int]));
    assert(dt is Finite && units(dt) >= 0);
    assert(short_of(dt, long));
    lemma_on_course(e, s, dts, long, slow, m);
    let before = after(s, dts, long, slow, m);
    lemma_way_is_no_rest(s, dts, long, slow, m);
    lemma_course_kept(e, s, dts, long, slow, m);
    let next = before.swung(dt, long, slow[m as int]);
    lemma_near(e, s, dts, long, slow, m + 1, next);
    lemma_below_tolerance(next.position);
}

/// A spring under way after many frames was so after fewer.
proof fn lemma_way_goes_on(
    s: SpringValue,
    dts: Seq<Value>,
    length: Value,
    decays: Seq<Value>,
    m: nat,
    n: nat,
)
    requires
        under_way(s, dts, length, decays, n),
        m <= n,
    ensures
        under_way(s, dts, length, decays, m),
    decreases n,
{
    if m < n {
        lemma_way_goes_on(s, dts, length, decays, m, (n - 1) as nat);
    }
}

/// An animation that is over within the first frame stays so.
proof fn lemma_over_at_once(
    s: SpringValue,
    dts: Seq<Value>,
    length: Value,
    decays: Seq<Value>,
    n: nat,
)
    requires
        n > 0,
        at_most(length, dts[0]),
    ensures
        after(s, dts, length, decays, n).at_rest(),
    decreases n,
{
    let m = (n - 1) as nat;
    if n > 1 {
        lemma_over_at_once(s, dts, length, decays, m);
    }
    lemma_spring_stops(
        after(s, dts, length, decays, m),
        dts[m as int],
        length,
        decays[m as int],
    );
}

/// A corner that takes less time is ahead for the duration of the animation:
/// after any number of frames of a jump (up to 5000, or of at least a
/// thousandth of the longer animation length), the offset of a spring with the
/// shorter animation length is no larger than that of one with the longer, up
/// to rounding and the tolerance within which a spring is put on target. So the
/// leading edge is ahead, and the cursor is stretched. `e` is the exponential
/// function, which the decays are near to; the shorter animation may also be
/// over in the first frame.
pub proof fn shorter_animation_is_ahead(
    e: spec_fn(real) -> real,
    s: SpringValue,
    dts: Seq<Value>,
    short: Value,
    long: Value,
    fast: Seq<Value>,
    slow: Seq<Value>,
    n: nat,
)
    requires
        exponential(e),
        ordinary(long),
        ordinary(short) && units(short) <= units(long) || n > 0 && at_most(short, dts[0]),
        both_decay(e, dts, short, long, fast, slow, n),
        s.position is Finite,
        abs(number(s.position)) <= 10_000 as real,
        s.velocity.is_zero(),
        few_or_lasting(dts, long, n),
    ensures
        ({
            let ahead = after(s, dts, short, fast, n).position;
            let behind = after(s, dts, long, slow, n).position;
            &&& ahead is Finite
            &&& behind is Finite
            &&& 16384 as real * (abs(number(ahead)) - abs(number(behind))) <= 176 as real + (
            n as real + 7 as real) * abs(number(s.position))
        }),
{
    let t = if number(s.position) >= 0 as real {
        s
    } else {
        flipped(s)
    };
    lemma_opposite(s.position);
    lemma_ahead(e, t, dts, short, long, fast, slow, n);
    if number(s.position) < 0 as real {
        lemma_opposite_runs(s, t, dts, short, fast, n);
        lemma_opposite_runs(s, t, dts, long, slow, n);
        let a = after(s, dts, short, fast, n).position;
        let b = after(s, dts, long, slow, n).position;
        lemma_opposite(a);
        lemma_opposite(b);
        assert(units(after(t, dts, short, fast, n).position) == units(opposite(a)));
        assert(units(after(t, dts, long, slow, n).position) == units(opposite(b)));
    }
}

} // verus!
