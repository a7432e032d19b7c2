//! Two short frames come to one long one.

use vstd::arithmetic::power2::{
    lemma_pow2_adds, lemma_pow2_pos, lemma_pow2_strictly_increases, pow2,
};
use vstd::prelude::*;

use crate::exponential::{
    angle, exponential, lasting, lemma_damped, lemma_decay, lemma_exponential,
    lemma_exponential_near_one, lemma_frequency, lemma_lasting, lemma_number_within,
    lemma_within_number, multiplies, nearly_exponential, ordinary, short_of,
};
use crate::float::{less, magnitude, Value};
use crate::float_laws::{units, within};
use crate::laws::lemma_ratio;
use crate::numbers::{
    abs, lemma_constants, lemma_no_units, lemma_plus_near, lemma_real_product, number, ulp, unit,
};
use crate::reals::{
    lemma_mul_nonnegative, lemma_mul_order, lemma_mul_reorder, lemma_mul_sum, lemma_quotient,
};
use crate::rounding_laws::lemma_round_monotone;
use crate::spring::{decay_exponent, omega, tolerance, SpringValue};
use crate::spring_error::{
    dust, exact_position, exact_velocity, frame_error, lemma_dust, lemma_frame_error,
    lemma_swung_near, swing,
};
use crate::stillness::lemma_tolerance;

verus! {

/// A product is bounded in size by the product of bounds.
pub proof fn lemma_mul_size(a: real, b: real, m: real, n: real)
    requires
        abs(a) <= m,
        abs(b) <= n,
    ensures
        abs(a * b) <= m * n,
        m * n >= 0 as real,
{
    let x = abs(a);
    let y = abs(b);
    lemma_mul_order(x, m, y);
    lemma_mul_order(y, n, m);
    lemma_mul_nonnegative(x, y);
    lemma_mul_nonnegative(m, n);
    lemma_mul_reorder(x, y, y);
    lemma_mul_reorder(m, y, y);
    assert(abs(a * b) == x * y) by (nonlinear_arith)
        requires
            x == abs(a),
            y == abs(b),
    ;
}

/// How large the offset and the velocity of a spring are together, as an
/// offset.
pub open spec fn extent(s: SpringValue, length: Value) -> real {
    abs(number(s.position)) + abs(swing(s, length))
}

/// A spring whose offset and velocity are in bounds.
pub open spec fn bounded(s: SpringValue) -> bool {
    within(s.position, 240) && within(s.velocity, 254)
}

/// One frame: the exact motion, but for an error in proportion to the extent,
/// and no growth beyond it.
pub proof fn lemma_frame(
    e: spec_fn(real) -> real,
    s: SpringValue,
    dt: Value,
    length: Value,
    decay: Value,
)
    requires
        exponential(e),
        lasting(length),
        ordinary(length) || within(dt, 153),
        short_of(dt, length),
        nearly_exponential(e, decay_exponent(dt, length), decay),
        bounded(s),
    ensures
        ({
            let next = s.swung(dt, length, decay);
            let p = number(s.position);
            let y = swing(s, length);
            let h = angle(dt, length);
            let c = number(decay);
            let n = extent(s, length);
            let error = 9 as real * (ulp() * n) + 20 as real * dust();
            &&& next.position is Finite
            &&& next.velocity is Finite
            &&& abs(number(next.position) - exact_position(p, y, h, c)) <= error
            &&& abs(swing(next, length) - exact_velocity(p, y, h, c)) <= error
            &&& 0 as real <= c * (1 as real + h)
            &&& 100 as real * (c * (1 as real + h)) <= 101 as real
            &&& abs(p + h * (p + y)) <= (1 as real + h) * n
            &&& abs(y - h * (p + y)) <= (1 as real + h) * n
        }),
{
    lemma_decay(e, dt, length, decay);
    lemma_frequency(length);
    lemma_swung_near(s, dt, length, decay);
    lemma_constants();
    lemma_dust();
    let p = number(s.position);
    let y = swing(s, length);
    let h = angle(dt, length);
    let c = number(decay);
    let n = extent(s, length);
    let u = ulp();
    let exact = e(-h);
    let g = 1 as real + h;
    // c * g is at most 1.01.
    lemma_damped(e, h);
    lemma_mul_reorder(g, exact, exact);
    lemma_mul_order(16 as real * u, 1 as real / 100 as real, exact);
    lemma_mul_reorder(16 as real, u, exact);
    assert(100 as real * c <= 101 as real * exact);
    lemma_mul_order(100 as real * c, 101 as real * exact, g);
    lemma_mul_reorder(100 as real, c, g);
    lemma_mul_reorder(101 as real, exact, g);
    lemma_mul_nonnegative(c, g);
    // The frame error.
    lemma_frame_error(n, h, c);
    lemma_mul_nonnegative(u, n);
    let un = u * n;
    lemma_mul_sum(un, 1 as real, h);
    lemma_mul_reorder(h, un, un);
    assert(h * un + un == g * un);
    lemma_mul_reorder(c, 8 as real, g * un);
    lemma_mul_reorder(c, g, un);
    lemma_mul_order(c * g, 101 as real / 100 as real, un);
    assert(frame_error(n, h, c) <= 9 as real * un + 20 as real * dust());
    // The size of the exact motion.
    let z = p + y;
    lemma_mul_size(h, z, h, n);
    lemma_mul_sum(n, 1 as real, h);
}

/// What the offset of a spring comes to after two frames is what it comes to
/// after one, in exact numbers but for the errors of the frames.
proof fn lemma_two_frames(
    p: real,
    y: real,
    h1: real,
    h2: real,
    c1: real,
    c2: real,
    a1: real,
    b1: real,
    a2: real,
)
    ensures
        ({
            let p1 = exact_position(p, y, h1, c1) + a1;
            let y1 = exact_velocity(p, y, h1, c1) + b1;
            exact_position(p1, y1, h2, c2) + a2 == (c1 * c2) * (p + (h1 + h2) * (p + y)) + (c2 * (a1
                + h2 * (a1 + b1)) + a2)
        }),
{
    let p1 = exact_position(p, y, h1, c1) + a1;
    let y1 = exact_velocity(p, y, h1, c1) + b1;
    let z = p + y;
    let d = a1 + b1;
    // The sum of offset and velocity decays as a whole.
    lemma_mul_sum(c1, p + h1 * z, y - h1 * z);
    let z1 = p1 + y1;
    assert(p + h1 * z + (y - h1 * z) == z);
    assert(z1 == c1 * z + d);
    lemma_mul_sum(h2, c1 * z, d);
    lemma_mul_reorder(h2, c1, z);
    lemma_mul_sum(z, h1, h2);
    lemma_mul_sum(c1, p + h1 * z, h2 * z);
    assert(p1 + h2 * z1 == c1 * (p + (h1 + h2) * z) + (a1 + h2 * d));
    lemma_mul_sum(c2, c1 * (p + (h1 + h2) * z), a1 + h2 * d);
    lemma_mul_reorder(c2, c1, p + (h1 + h2) * z);
    lemma_mul_reorder(c1, c2, p);
}

/// The decays of two frames, multiplied, are near to that of one.
proof fn lemma_decays_multiply(
    e: spec_fn(real) -> real,
    h1: real,
    h2: real,
    h: real,
    c1: real,
    c2: real,
    c: real,
)
    requires
        exponential(e),
        h1 >= 0 as real,
        h2 >= 0 as real,
        h >= 0 as real,
        abs(c1 - e(-h1)) <= 16 as real * (ulp() * e(-h1)),
        abs(c2 - e(-h2)) <= 16 as real * (ulp() * e(-h2)),
        abs(c - e(-h)) <= 16 as real * (ulp() * e(-h)),
        abs(h - (h1 + h2)) <= 7 as real * ulp(),
    ensures
        abs(c1 * c2 - c) * (1 as real + (h1 + h2)) <= 60 as real * ulp(),
{
    lemma_constants();
    let u = ulp();
    let e1 = e(-h1);
    let e2 = e(-h2);
    lemma_exponential(e, h1);
    lemma_exponential(e, h2);
    lemma_exponential(e, h);
    assert(multiplies(e, -h1, -h2));
    let s = h1 + h2;
    assert(-h1 + -h2 == -s);
    let both = e(-s);
    assert(both == e1 * e2);
    lemma_exponential(e, s);
    let d = s - h;
    assert(multiplies(e, -s, d));
    assert(-s + d == -h);
    lemma_exponential_near_one(e, d, 7 as real * u);
    let f = e(d);
    let one = e(-h);
    assert(one == both * f);
    let ub = u * both;
    lemma_mul_nonnegative(u, both);
    // |one - both| <= 8 u both.
    lemma_mul_size(f - 1 as real, both, 8 as real * u, both);
    lemma_mul_sum(both, f, 1 as real);
    lemma_mul_reorder(both, f, f);
    lemma_mul_reorder(8 as real, u, both);
    assert(abs(one - both) <= 8 as real * ub);
    assert(1000 as real * ub <= both) by {
        lemma_mul_order(1000 as real * u, 1 as real, both);
        lemma_mul_reorder(1000 as real, u, both);
    }
    // |c - one| <= 17 u both.
    lemma_mul_order(100 as real * one, 101 as real * both, u);
    lemma_mul_reorder(u, 100 as real, one);
    lemma_mul_reorder(u, 101 as real, both);
    assert(abs(c - one) <= 17 as real * ub);
    // |c1 * c2 - both| <= 33 u both.
    let d1 = c1 - e1;
    let d2 = c2 - e2;
    lemma_mul_sum(c1, e2, d2);
    lemma_mul_sum(e2, e1, d1);
    lemma_mul_sum(d2, e1, d1);
    assert(c1 * c2 == both + d1 * e2 + e1 * d2 + d1 * d2) by {
        lemma_mul_reorder(c1, d2, d2);
        lemma_mul_reorder(d1, e2, e2);
        lemma_mul_reorder(e1, e2, e2);
        lemma_mul_reorder(e2, c1, c1);
        lemma_mul_reorder(d2, e1, e1);
        lemma_mul_reorder(d2, d1, d1);
        assert(c1 * c2 == c1 * (e2 + d2));
    }
    let m1 = 16 as real * (u * e1);
    let m2 = 16 as real * (u * e2);
    lemma_mul_size(d1, e2, m1, e2);
    lemma_mul_size(e1, d2, e1, m2);
    lemma_mul_size(d1, d2, m1, m2);
    assert(m1 * e2 == 16 as real * ub) by (nonlinear_arith)
        requires
            m1 == 16 as real * (u * e1),
            ub == u * both,
            both == e1 * e2,
    ;
    assert(e1 * m2 == 16 as real * ub) by (nonlinear_arith)
        requires
            m2 == 16 as real * (u * e2),
            ub == u * both,
            both == e1 * e2,
    ;
    assert(m1 * m2 == 256 as real * (u * ub)) by (nonlinear_arith)
        requires
            m1 == 16 as real * (u * e1),
            m2 == 16 as real * (u * e2),
            ub == u * both,
            both == e1 * e2,
    ;
    assert(1000 as real * (u * ub) <= ub) by {
        lemma_mul_order(1000 as real * u, 1 as real, ub);
        lemma_mul_reorder(1000 as real, u, ub);
    }
    let gap = abs(c1 * c2 - c);
    assert(gap <= 59 as real * ub);
    let g = 1 as real + s;
    lemma_mul_order(gap, 59 as real * ub, g);
    lemma_damped(e, s);
    lemma_mul_reorder(g, both, both);
    lemma_mul_reorder(59 as real, ub, g);
    lemma_mul_reorder(u, both, g);
    lemma_mul_order(both * g, 1 as real, u);
}

/// The frequency is at most `pow2(14)`, and at least half.
pub proof fn lemma_frequency_bounds(length: Value)
    requires
        ordinary(length),
    ensures
        number(omega(length)) <= 16384 as real,
        2 as real * number(omega(length)) >= 1 as real,
{
    lemma_frequency(length);
    lemma_within_number(omega(length), 14);
    vstd::arithmetic::power2::lemma2_to64();
}

/// A velocity over the frequency is at most twice the velocity, where the length
/// is ordinary, and at most what it makes in the animation length.
pub proof fn lemma_swing(s: SpringValue, length: Value)
    requires
        lasting(length),
    ensures
        ordinary(length) ==> abs(swing(s, length)) <= 2 as real * abs(number(s.velocity)),
        abs(swing(s, length)) <= abs(number(s.velocity)) * number(length),
{
    lemma_frequency(length);
    lemma_lasting(length);
    let w = number(omega(length));
    let v = number(s.velocity);
    let y = swing(s, length);
    let l = number(length);
    lemma_quotient(v, w);
    let a = abs(y);
    let b = abs(v);
    assert(b == a * w) by (nonlinear_arith)
        requires
            y * w == v,
            w > 0 as real,
            a == abs(y),
            b == abs(v),
    ;
    if ordinary(length) {
        lemma_mul_order(1 as real, 2 as real * w, a);
        lemma_mul_reorder(2 as real, w, a);
    }
    lemma_mul_reorder(a, w, w);
    lemma_mul_order(1 as real, w * l, a);
    lemma_mul_reorder(a, w, l);
}

/// A spring that is under way has an offset and a velocity in bounds after a
/// frame, where its extent was moderate.
pub proof fn lemma_stays_bounded(
    e: spec_fn(real) -> real,
    s: SpringValue,
    dt: Value,
    length: Value,
    decay: Value,
)
    requires
        exponential(e),
        ordinary(length),
        short_of(dt, length),
        nearly_exponential(e, decay_exponent(dt, length), decay),
        bounded(s),
        extent(s, length) <= pow2(90) as real,
    ensures
        bounded(s.swung(dt, length, decay)),
        100 as real * extent(s.swung(dt, length, decay), length) <= 203 as real * extent(s, length)
            + 4001 as real * dust(),
{
    lemma_frame(e, s, dt, length, decay);
    lemma_decay(e, dt, length, decay);
    lemma_frequency_bounds(length);
    lemma_constants();
    lemma_dust();
    let next = s.swung(dt, length, decay);
    let p = number(s.position);
    let y = swing(s, length);
    let h = angle(dt, length);
    let c = number(decay);
    let n = extent(s, length);
    let g = 1 as real + h;
    let u = ulp();
    lemma_mul_order(1000 as real * u, 1 as real / 1000 as real, n);
    lemma_mul_reorder(1000 as real, u, n);
    lemma_mul_size(c, p + h * (p + y), c, g * n);
    lemma_mul_size(c, y - h * (p + y), c, g * n);
    lemma_mul_reorder(c, g, n);
    lemma_mul_order(100 as real * (c * g), 101 as real, n);
    lemma_mul_reorder(100 as real, c * g, n);
    let p1 = number(next.position);
    let y1 = swing(next, length);
    let top = pow2(91) as real;
    lemma_pow2_adds(90, 1);
    lemma_pow2_adds(91, 14);
    lemma_pow2_pos(90);
    vstd::arithmetic::power2::lemma2_to64();
    assert(pow2(90) as real >= 1 as real);
    assert(top == 2 as real * pow2(90) as real);
    assert(abs(p1) <= top);
    assert(abs(y1) <= top);
    lemma_number_within(next.position, 91);
    let w = number(omega(length));
    lemma_quotient(number(next.velocity), w);
    lemma_mul_size(y1, w, top, 16384 as real);
    lemma_real_product(pow2(91) as int, 16384);
    lemma_number_within(next.velocity, 105);
}

/// The tolerance is at most 0.0108.
proof fn lemma_tolerance_number()
    ensures
        1024 as real * number(tolerance()) <= 11 as real,
        number(tolerance()) > 0 as real,
{
    lemma_tolerance();
    lemma_constants();
    let v = unit();
    let x = units(tolerance()) as real;
    lemma_quotient(x, v);
    let t = number(tolerance());
    vstd::arithmetic::power2::lemma2_to64();
    lemma_pow2_adds(139, 10);
    lemma_pow2_pos(139);
    lemma_real_product(pow2(139) as int, 1024);
    lemma_real_product(11, pow2(139) as int);
    let w = pow2(139) as real;
    assert(1024 as real * t <= 11 as real && t > 0 as real) by (nonlinear_arith)
        requires
            t * v == x,
            v == w * (1024 as real),
            x > 0 as real,
            x <= 11 as real * w,
            w > 0 as real,
    ;
}

/// What is below the tolerance.
pub proof fn lemma_below_tolerance(v: Value)
    requires
        v is Finite,
    ensures
        less(magnitude(v), tolerance()) <==> abs(number(v)) < number(tolerance()),
        1024 as real * number(tolerance()) <= 11 as real,
        1024 as real * number(tolerance()) >= 10 as real,
{
    lemma_tolerance();
    lemma_tolerance_number();
    lemma_constants();
    let w = unit();
    let x = units(v) as real;
    let t = units(tolerance()) as real;
    lemma_quotient(x, w);
    lemma_quotient(t, w);
    let n = number(v);
    let m = number(tolerance());
    assert(abs(x) == abs(n) * w) by (nonlinear_arith)
        requires
            n * w == x,
            w > 0 as real,
    ;
    let a = abs(n);
    assert((a * w < m * w) == (a < m)) by (nonlinear_arith)
        requires
            w > 0 as real,
    ;
    vstd::arithmetic::power2::lemma2_to64();
    lemma_pow2_adds(139, 10);
    lemma_pow2_pos(139);
    lemma_real_product(pow2(139) as int, 1024);
    lemma_real_product(10, pow2(139) as int);
    let q = pow2(139) as real;
    assert(1024 as real * m >= 10 as real) by (nonlinear_arith)
        requires
            m * w == t,
            w == q * (1024 as real),
            t >= 10 as real * q,
            q > 0 as real,
    ;
}

/// The angles of two frames add up to that of one.
proof fn lemma_turn(dt1: Value, dt2: Value, length: Value)
    requires
        ordinary(length),
        within(dt1, 153),
        within(dt2, 153),
        angle(dt1, length) >= 0 as real,
        angle(dt2, length) >= 0 as real,
        10 as real * angle(dt1.plus(dt2), length) <= 59 as real,
    ensures
        abs(angle(dt1.plus(dt2), length) - (angle(dt1, length) + angle(dt2, length))) <= 6 as real
            * ulp(),
{
    let dt = dt1.plus(dt2);
    let h1 = angle(dt1, length);
    let h2 = angle(dt2, length);
    let h = angle(dt, length);
    let w = number(omega(length));
    let u = ulp();
    let t1 = number(dt1);
    let t2 = number(dt2);
    lemma_constants();
    lemma_frequency_bounds(length);
    lemma_pow2_strictly_increases(153, 275);
    lemma_plus_near(dt1, dt2);
    let both = t1 + t2;
    let turn = h1 + h2;
    lemma_mul_sum(w, t1, t2);
    lemma_mul_sum(w, number(dt), both);
    lemma_mul_size(w, number(dt) - both, w, u * abs(both));
    lemma_mul_reorder(w, u, abs(both));
    assert(w * abs(both) == turn) by {
        if both < 0 as real {
            lemma_mul_nonnegative(w, -both);
            lemma_mul_sum(w, 0 as real, both);
            assert(w * (0 as real) == 0 as real);
        }
    }
    assert(abs(h - turn) <= u * turn);
    lemma_mul_order(1000 as real * u, 1 as real, turn);
    lemma_mul_reorder(1000 as real, u, turn);
    assert(turn <= 6 as real);
    lemma_mul_order(turn, 6 as real, u);
    lemma_mul_reorder(u, turn, turn);
}

/// What the errors of two frames come to.
proof fn lemma_two_errors(
    a1: real,
    b1: real,
    h2: real,
    r2: real,
    n: real,
)
    requires
        abs(a1) <= 9 as real * (ulp() * n) + 20 as real * dust(),
        abs(b1) <= 9 as real * (ulp() * n) + 20 as real * dust(),
        h2 >= 0 as real,
        r2 >= 0 as real,
        100 as real * (r2 * (1 as real + h2)) <= 101 as real,
        n >= 0 as real,
    ensures
        abs(r2 * (a1 + h2 * (a1 + b1))) <= 19 as real * (ulp() * n) + 41 as real * dust(),
{
    lemma_constants();
    lemma_dust();
    let u = ulp();
    let k = dust();
    let un = u * n;
    lemma_mul_nonnegative(u, n);
    let f1 = 9 as real * un + 20 as real * k;
    let d = a1 + b1;
    lemma_mul_size(h2, d, h2, 2 as real * f1);
    let lost = a1 + h2 * d;
    let g2 = 1 as real + h2;
    lemma_mul_sum(f1, 1 as real, h2);
    lemma_mul_reorder(h2, 2 as real, f1);
    lemma_mul_nonnegative(g2, f1);
    assert(abs(lost) <= 2 as real * (g2 * f1));
    lemma_mul_size(r2, lost, r2, 2 as real * (g2 * f1));
    lemma_mul_reorder(r2, 2 as real, g2 * f1);
    lemma_mul_reorder(r2, g2, f1);
    lemma_mul_order(100 as real * (r2 * g2), 101 as real, f1);
    lemma_mul_reorder(100 as real, r2 * g2, f1);
    assert(100 as real * abs(r2 * lost) <= 202 as real * f1);
}

/// What the difference of decays and of angles comes to.
proof fn lemma_decays_agree(
    p: real,
    y: real,
    turn: real,
    h: real,
    r12: real,
    r: real,
    n: real,
)
    requires
        n == abs(p) + abs(y),
        turn >= 0 as real,
        abs(h - turn) <= 6 as real * ulp(),
        abs(r12 - r) * (1 as real + turn) <= 60 as real * ulp(),
        0 as real <= r,
        2 as real * r <= 3 as real,
    ensures
        abs(r12 * (p + turn * (p + y)) - r * (p + h * (p + y))) <= 69 as real * (ulp() * n),
{
    lemma_constants();
    let u = ulp();
    let z = p + y;
    let un = u * n;
    lemma_mul_nonnegative(u, n);
    let both = p + turn * z;
    let g = 1 as real + turn;
    lemma_mul_size(turn, z, turn, n);
    lemma_mul_sum(n, 1 as real, turn);
    assert(abs(both) <= g * n);
    let gap = r12 - r;
    lemma_mul_size(gap, both, abs(gap), g * n);
    lemma_mul_reorder(abs(gap), g, n);
    lemma_mul_order(abs(gap) * g, 60 as real * u, n);
    lemma_mul_reorder(60 as real, u, n);
    lemma_mul_sum(both, r12, r);
    let off = turn - h;
    lemma_mul_sum(z, turn, h);
    lemma_mul_size(off, z, 6 as real * u, n);
    lemma_mul_reorder(6 as real, u, n);
    lemma_mul_size(r, off * z, 3 as real / 2 as real, 6 as real * un);
    lemma_mul_sum(r, both, p + h * z);
    assert(both - (p + h * z) == off * z);
}

/// Where the offset of a spring comes to after two short frames is where it
/// comes to after one long one, up to rounding.
proof fn lemma_swings_agree(
    e: spec_fn(real) -> real,
    s: SpringValue,
    dt1: Value,
    dt2: Value,
    length: Value,
    c1: Value,
    c2: Value,
    c: Value,
)
    requires
        exponential(e),
        ordinary(length),
        short_of(dt1, length),
        short_of(dt2, length),
        short_of(dt1.plus(dt2), length),
        nearly_exponential(e, decay_exponent(dt1, length), c1),
        nearly_exponential(e, decay_exponent(dt2, length), c2),
        nearly_exponential(e, decay_exponent(dt1.plus(dt2), length), c),
        bounded(s),
        extent(s, length) <= pow2(90) as real,
    ensures
        ({
            let one = s.swung(dt1.plus(dt2), length, c);
            let two = s.swung(dt1, length, c1).swung(dt2, length, c2);
            &&& one.position is Finite
            &&& two.position is Finite
            &&& abs(number(two.position) - number(one.position)) <= 128 as real * (ulp() * extent(
                s,
                length,
            )) + 128 as real * dust()
        }),
{
    let dt = dt1.plus(dt2);
    let first = s.swung(dt1, length, c1);
    let two = first.swung(dt2, length, c2);
    let one = s.swung(dt, length, c);
    lemma_frame(e, s, dt1, length, c1);
    lemma_stays_bounded(e, s, dt1, length, c1);
    lemma_frame(e, first, dt2, length, c2);
    lemma_frame(e, s, dt, length, c);
    lemma_decay(e, dt1, length, c1);
    lemma_decay(e, dt2, length, c2);
    lemma_decay(e, dt, length, c);
    lemma_turn(dt1, dt2, length);
    let h1 = angle(dt1, length);
    let h2 = angle(dt2, length);
    let h = angle(dt, length);
    let r1 = number(c1);
    let r2 = number(c2);
    let r = number(c);
    lemma_decays_multiply(e, h1, h2, h, r1, r2, r);
    lemma_numbers_agree(
        number(s.position),
        swing(s, length),
        h1,
        h2,
        h,
        r1,
        r2,
        r,
        number(first.position),
        swing(first, length),
        number(two.position),
        number(one.position),
    );
}

/// The same, of plain numbers.
proof fn lemma_numbers_agree(
    p: real,
    y: real,
    h1: real,
    h2: real,
    h: real,
    r1: real,
    r2: real,
    r: real,
    p1: real,
    y1: real,
    two: real,
    one: real,
)
    requires
        ({
            let n = abs(p) + abs(y);
            let n1 = abs(p1) + abs(y1);
            let error = 9 as real * (ulp() * n) + 20 as real * dust();
            &&& abs(p1 - exact_position(p, y, h1, r1)) <= error
            &&& abs(y1 - exact_velocity(p, y, h1, r1)) <= error
            &&& abs(two - exact_position(p1, y1, h2, r2)) <= 9 as real * (ulp() * n1) + 20 as real
                * dust()
            &&& abs(one - exact_position(p, y, h, r)) <= error
            &&& 100 as real * n1 <= 203 as real * n + 4001 as real * dust()
        }),
        h1 >= 0 as real,
        h2 >= 0 as real,
        r2 >= 0 as real,
        100 as real * (r2 * (1 as real + h2)) <= 101 as real,
        abs(h - (h1 + h2)) <= 6 as real * ulp(),
        abs(r1 * r2 - r) * (1 as real + (h1 + h2)) <= 60 as real * ulp(),
        0 as real <= r,
        2 as real * r <= 3 as real,
    ensures
        abs(two - one) <= 128 as real * (ulp() * (abs(p) + abs(y))) + 128 as real * dust(),
{
    lemma_constants();
    lemma_dust();
    let u = ulp();
    let k = dust();
    let n = abs(p) + abs(y);
    let n1 = abs(p1) + abs(y1);
    lemma_mul_nonnegative(u, n);
    let a1 = p1 - exact_position(p, y, h1, r1);
    let b1 = y1 - exact_velocity(p, y, h1, r1);
    let a2 = two - exact_position(p1, y1, h2, r2);
    lemma_two_frames(p, y, h1, h2, r1, r2, a1, b1, a2);
    lemma_two_errors(a1, b1, h2, r2, n);
    lemma_mul_order(100 as real * n1, 203 as real * n + 4001 as real * k, u);
    lemma_mul_sum(u, 203 as real * n, 4001 as real * k);
    lemma_mul_reorder(u, 203 as real, n);
    lemma_mul_reorder(u, 4001 as real, k);
    lemma_mul_reorder(u, 100 as real, n1);
    lemma_mul_order(1000000 as real * u, 1 as real, k);
    lemma_mul_reorder(1000000 as real, u, k);
    assert(abs(a2) <= 19 as real * (u * n) + 21 as real * k);
    lemma_decays_agree(p, y, h1 + h2, h, r1 * r2, r, n);
}

/// Two short frames come to one long one: as long as the first of them does
/// not bring the spring to rest, its offset is the same after both, but for
/// the tolerance within which a spring is put on target, and for rounding. `e`
/// is the exponential function, which the decays are near to; offsets are up to
/// `pow2(89)` pixels and velocities up to `pow2(88)` pixels per second, so that
/// nothing overflows. A spring that is caught at its target by the first frame,
/// though in swift motion, is left out: it stays there.
pub proof fn two_short_frames_come_to_a_long_one(
    e: spec_fn(real) -> real,
    s: SpringValue,
    dt1: Value,
    dt2: Value,
    length: Value,
    c1: Value,
    c2: Value,
    c: Value,
)
    requires
        exponential(e),
        ordinary(length),
        short_of(dt1, length),
        short_of(dt2, length),
        short_of(dt1.plus(dt2), length),
        nearly_exponential(e, decay_exponent(dt1, length), c1),
        nearly_exponential(e, decay_exponent(dt2, length), c2),
        nearly_exponential(e, decay_exponent(dt1.plus(dt2), length), c),
        within(s.position, 149 + 89),
        within(s.velocity, 149 + 88),
        s.animating(dt1, length, c1),
    ensures
        ({
            let one = s.advanced(dt1.plus(dt2), length, c).position;
            let two = s.advanced(dt1, length, c1).advanced(dt2, length, c2).position;
            let reach = abs(number(s.position)) + abs(number(s.velocity)) * number(length);
            &&& one is Finite
            &&& two is Finite
            &&& 100_000 as real * abs(number(one) - number(two)) <= 1100 as real + reach
        }),
{
    let dt = dt1.plus(dt2);
    lemma_pow2_strictly_increases(238, 240);
    lemma_pow2_strictly_increases(237, 254);
    lemma_swing(s, length);
    vstd::arithmetic::power2::lemma2_to64();
    lemma_within_number(s.position, 89);
    lemma_within_number(s.velocity, 88);
    lemma_pow2_adds(88, 1);
    lemma_pow2_adds(89, 1);
    let n = extent(s, length);
    let first = s.swung(dt1, length, c1);
    let whole = s.swung(dt, length, c);
    let second = first.swung(dt2, length, c2);
    lemma_swings_agree(e, s, dt1, dt2, length, c1, c2, c);
    lemma_frame(e, s, dt1, length, c1);
    lemma_below_tolerance(first.position);
    lemma_below_tolerance(second.position);
    lemma_below_tolerance(whole.position);
    lemma_constants();
    lemma_dust();
    let u = ulp();
    lemma_mul_order(12_800_000 as real * u, 1 as real, n);
    lemma_mul_reorder(12_800_000 as real, u, n);
    lemma_no_units(first.position);
    lemma_no_units(Value::zero());
}

/// A shorter animation turns faster.
pub proof fn lemma_faster(short: Value, long: Value, dt: Value)
    requires
        ordinary(short),
        ordinary(long),
        units(short) <= units(long),
        number(dt) >= 0 as real,
    ensures
        angle(dt, long) <= angle(dt, short),
{
    reveal(Value::over);
    lemma_frequency(short);
    lemma_frequency(long);
    let r = Value::ratio(583, 100);
    let a = omega(short);
    let b = omega(long);
    let n = r->Finite_units * pow2(149);
    let x = units(short) as nat;
    let y = units(long) as nat;
    lemma_pow2_pos(139);
    lemma_ratio(583, 100);
    assert(n * x <= n * y) by (nonlinear_arith)
        requires
            x <= y,
            n >= 0,
    ;
    lemma_round_monotone(24, n, y, n, x);
    assert(units(b) <= units(a));
    lemma_constants();
    let v = unit();
    lemma_quotient(units(a) as real, v);
    lemma_quotient(units(b) as real, v);
    let f = number(a);
    let g = number(b);
    assert(g <= f) by (nonlinear_arith)
        requires
            g * v <= f * v,
            v > 0 as real,
    ;
    lemma_mul_order(g, f, number(dt));
}

/// What is left after a larger angle is less.
pub proof fn lemma_less_is_left(e: spec_fn(real) -> real, g: real, h: real)
    requires
        exponential(e),
        0 as real <= g <= h,
    ensures
        e(-h) * (1 as real + h) <= e(-g) * (1 as real + g),
{
    let r = h - g;
    lemma_exponential(e, g);
    lemma_exponential(e, r);
    lemma_damped(e, r);
    assert(multiplies(e, -g, -r));
    assert(-g + -r == -h);
    let a = e(-g);
    let b = e(-r);
    let k = 1 as real + g;
    lemma_mul_nonnegative(g, r);
    lemma_mul_sum(k, 1 as real, r);
    lemma_mul_sum(r, 1 as real, g);
    lemma_mul_reorder(g, r, r);
    assert(1 as real + h <= k * (1 as real + r));
    lemma_mul_order(1 as real + h, k * (1 as real + r), b);
    lemma_mul_reorder(k, 1 as real + r, b);
    lemma_mul_order((1 as real + r) * b, 1 as real, k);
    lemma_mul_reorder(k, (1 as real + r) * b, b);
    assert((1 as real + h) * b <= k);
    lemma_mul_order((1 as real + h) * b, k, a);
    lemma_mul_reorder(1 as real + h, b, a);
    lemma_mul_reorder(a, b, 1 as real + h);
    lemma_mul_reorder(b, 1 as real + h, b);
}

/// A released spring after one frame: what the exponential leaves of it, up to
/// rounding.
pub proof fn lemma_first_frame(
    e: spec_fn(real) -> real,
    s: SpringValue,
    dt: Value,
    length: Value,
    decay: Value,
)
    requires
        exponential(e),
        ordinary(length),
        short_of(dt, length),
        nearly_exponential(e, decay_exponent(dt, length), decay),
        s.position is Finite,
        0 as real <= number(s.position) <= 10_000 as real,
        s.velocity.is_zero(),
    ensures
        ({
            let h = angle(dt, length);
            let p = number(s.position);
            let next = s.swung(dt, length, decay).position;
            &&& next is Finite
            &&& h >= 0 as real
            &&& abs(number(next) - (e(-h) * (1 as real + h)) * p) <= 32 as real * (ulp() * p)
                + 20 as real * dust()
        }),
{
    let p = number(s.position);
    let y = swing(s, length);
    let h = angle(dt, length);
    let c = number(decay);
    lemma_constants();
    lemma_no_units(s.velocity);
    lemma_swing(s, length);
    vstd::arithmetic::power2::lemma2_to64();
    lemma_number_within(s.position, 31);
    lemma_pow2_strictly_increases(180, 240);
    lemma_pow2_pos(254);
    lemma_frame(e, s, dt, length, decay);
    lemma_decay(e, dt, length, decay);
    assert(y == 0 as real);
    let u = ulp();
    let k = 1 as real + h;
    let exact = e(-h);
    let f = exact * k;
    // c * k is near to f.
    lemma_mul_sum(p, 1 as real, h);
    assert(p + h * (p + y) == k * p);
    lemma_mul_reorder(c, k, p);
    lemma_damped(e, h);
    lemma_mul_reorder(k, exact, exact);
    let d = c - exact;
    lemma_mul_size(d, k, 16 as real * (u * exact), k);
    lemma_mul_sum(k, c, exact);
    lemma_mul_reorder(16 as real, u * exact, k);
    lemma_mul_reorder(u, exact, k);
    lemma_mul_order(f, 1 as real, u);
    assert(abs(c * k - f) <= 16 as real * u);
    lemma_mul_size(c * k - f, p, 16 as real * u, p);
    lemma_mul_sum(p, c * k, f);
    lemma_mul_reorder(16 as real, u, p);
}

} // verus!
