//! How near a frame of the spring is to the exact motion.

use vstd::arithmetic::power2::lemma_pow2_strictly_increases;
use vstd::prelude::*;

use crate::float::{opposite, Value};
use crate::float_laws::{lemma_plus_within, within};
use crate::numbers::{
    abs, lemma_constants, lemma_minus_near, lemma_opposite, lemma_plus_near, lemma_times_near,
    number, speck, ulp,
};
use crate::reals::{
    lemma_mul_nonnegative, lemma_mul_order, lemma_mul_reorder, lemma_mul_sum, lemma_quotient,
};
use crate::spring::{omega, SpringValue};

verus! {

/// A rounded result is nearly what it should be, where its exact argument is.
pub proof fn lemma_chain(f: real, x: real, x0: real, e: real, m: real, u: real, k: real)
    requires
        abs(f - x) <= u * abs(x) + k,
        abs(x - x0) <= e,
        abs(x0) <= m,
        u >= 0 as real,
    ensures
        abs(f - x0) <= e + u * (m + e) + k,
{
    let y = abs(x);
    assert(y <= m + e);
    assert(u * y <= u * (m + e)) by (nonlinear_arith)
        requires
            y <= m + e,
            u >= 0 as real,
    ;
}

/// One frame, in exact numbers: position and velocity, the latter over the
/// angular frequency, after an angle of `h` and with decay `c`.
pub open spec fn exact_position(p: real, y: real, h: real, c: real) -> real {
    c * (p + h * (p + y))
}

/// The velocity after the frame, over the angular frequency.
pub open spec fn exact_velocity(p: real, y: real, h: real, c: real) -> real {
    c * (y - h * (p + y))
}

/// What one frame may be off by.
pub open spec fn frame_error(n: real, h: real, c: real) -> real {
    8 as real * (1 as real + h) * ulp() * c * n + 20 as real * dust()
}

/// A bound for all that is lost in products close to zero.
pub open spec fn dust() -> real {
    ulp() * ulp() * ulp() * ulp() * ulp()
}

/// The results of the operations of a frame, each but for its rounding, all
/// over the angular frequency where they are velocities.
pub struct FrameSteps {
    pub stretch: real,
    pub lift: real,
    pub drift: real,
    pub sum: real,
    pub position: real,
    pub pull: real,
    pub fall: real,
    pub rest: real,
    pub velocity: real,
}

/// Each operation of a frame is nearly exact.
pub open spec fn nearly(s: FrameSteps, p: real, y: real, h: real, c: real) -> bool {
    let u = ulp();
    let k = dust();
    &&& abs(s.stretch - p) <= u * abs(p) + k
    &&& abs(s.lift - (s.stretch + y)) <= u * abs(s.stretch + y)
    &&& abs(s.drift - h * s.lift) <= u * abs(h * s.lift) + k
    &&& abs(s.sum - (p + s.drift)) <= u * abs(p + s.drift)
    &&& abs(s.position - s.sum * c) <= u * abs(s.sum * c) + k
    &&& abs(s.pull - s.drift) <= u * abs(s.drift) + k
    &&& abs(s.fall - (-s.stretch - s.pull)) <= u * abs(-s.stretch - s.pull)
    &&& abs(s.rest - (s.fall + s.lift)) <= u * abs(s.fall + s.lift)
    &&& abs(s.velocity - c * s.rest) <= u * abs(c * s.rest) + k
}

/// A product with a bounded number.
proof fn lemma_scaled_by(x: real, x0: real, e: real, m: real, h: real)
    requires
        abs(x - x0) <= e,
        abs(x0) <= m,
        h >= 0 as real,
    ensures
        abs(h * x - h * x0) <= h * e,
        abs(h * x0) <= h * m,
{
    assert(-(h * e) <= h * x - h * x0 <= h * e) by (nonlinear_arith)
        requires
            -e <= x - x0 <= e,
            h >= 0 as real,
    ;
    assert(-(h * m) <= h * x0 <= h * m) by (nonlinear_arith)
        requires
            -m <= x0 <= m,
            h >= 0 as real,
    ;
}

/// A frame is near to the exact motion.
pub proof fn lemma_frame_near(s: FrameSteps, p: real, y: real, h: real, c: real)
    requires
        nearly(s, p, y, h, c),
        0 as real <= h <= 6 as real,
        0 as real <= c,
        2 as real * c <= 3 as real,
    ensures
        abs(s.position - exact_position(p, y, h, c)) <= frame_error(abs(p) + abs(y), h, c),
        abs(s.velocity - exact_velocity(p, y, h, c)) <= frame_error(abs(p) + abs(y), h, c),
{
    lemma_constants();
    lemma_dust();
    let u = ulp();
    let k = dust();
    let n = abs(p) + abs(y);
    let z = p + y;
    let un = u * n;
    let hn = h * n;
    let hun = h * un;
    let hk = h * k;
    lemma_mul_nonnegative(u, n);
    lemma_mul_nonnegative(h, n);
    lemma_mul_nonnegative(h, un);
    lemma_mul_nonnegative(h, k);
    lemma_mul_reorder(u, h, n);
    assert(u * hn == hun);
    lemma_mul_order(h, 6 as real, k);
    // Stretch and lift.
    lemma_chain(s.stretch, p, p, 0 as real, n, u, k);
    let e1 = un + k;
    lemma_chain(s.lift, s.stretch + y, z, e1, n, u, 0 as real);
    lemma_mul_sum(u, n, e1);
    lemma_tiny(e1);
    // In hundredths.
    let e2 = (201 as real * un + 101 as real * k) / 100 as real;
    assert(abs(s.lift - z) <= e2);
    // Drift.
    lemma_scaled_by(s.lift, z, e2, n, h);
    let he2 = h * e2;
    assert(he2 == (201 as real * hun + 101 as real * hk) / 100 as real) by {
        lemma_mul_reorder(h, 201 as real, un);
        lemma_mul_reorder(h, 101 as real, k);
        lemma_mul_sum(h, 201 as real * un, 101 as real * k);
        let x = 201 as real * un + 101 as real * k;
        assert(100 as real * e2 == x);
        lemma_mul_reorder(h, 100 as real, e2);
    }
    lemma_chain(s.drift, h * s.lift, h * z, he2, hn, u, k);
    lemma_mul_sum(u, hn, he2);
    lemma_tiny(he2);
    let e3 = (302 as real * hun + 102 as real * hk + 100 as real * k) / 100 as real;
    assert(abs(s.drift - h * z) <= e3);
    // Sum.
    lemma_chain(s.sum, p + s.drift, p + h * z, e3, n + hn, u, 0 as real);
    lemma_mul_sum(u, n + hn, e3);
    lemma_mul_sum(u, n, hn);
    lemma_tiny(e3);
    let e4 = (403 as real * hun + 100 as real * un + 103 as real * hk + 101 as real * k)
        / 100 as real;
    assert(abs(s.sum - (p + h * z)) <= e4);
    // Pull.
    lemma_chain(s.pull, s.drift, h * z, e3, hn, u, k);
    lemma_mul_sum(u, hn, e3);
    let e5 = (403 as real * hun + 103 as real * hk + 201 as real * k) / 100 as real;
    assert(abs(s.pull - h * z) <= e5);
    // Fall.
    let e15 = e1 + e5;
    lemma_chain(s.fall, -s.stretch - s.pull, -p - h * z, e15, n + hn, u, 0 as real);
    lemma_mul_sum(u, n + hn, e15);
    lemma_tiny(e15);
    let e6 = (504 as real * hun + 201 as real * un + 104 as real * hk + 305 as real * k)
        / 100 as real;
    assert(abs(s.fall - (-p - h * z)) <= e6);
    // Rest.
    let e26 = e2 + e6;
    lemma_chain(s.rest, s.fall + s.lift, y - h * z, e26, n + hn, u, 0 as real);
    lemma_mul_sum(u, n + hn, e26);
    lemma_tiny(e26);
    let e7 = (605 as real * hun + 503 as real * un + 105 as real * hk + 410 as real * k)
        / 100 as real;
    assert(abs(s.rest - (y - h * z)) <= e7);
    // The decay.
    lemma_mul_reorder(c, s.rest, s.rest);
    lemma_decayed(s.position, s.sum, p + h * z, e4, h, c, n);
    lemma_decayed(s.velocity, s.rest, y - h * z, e7, h, c, n);
}

/// The last operation of a frame: what is nearly exact stays so when it decays.
proof fn lemma_decayed(f: real, x: real, x0: real, e: real, h: real, c: real, n: real)
    requires
        abs(f - x * c) <= ulp() * abs(x * c) + dust(),
        abs(x - x0) <= e,
        abs(x0) <= n + h * n,
        0 as real <= c,
        2 as real * c <= 3 as real,
        n >= 0 as real,
        h >= 0 as real,
        10 as real * e <= 61 as real * (h * (ulp() * n)) + 51 as real * (ulp() * n) + 106 as real
            * dust(),
    ensures
        abs(f - c * x0) <= frame_error(n, h, c),
{
    lemma_constants();
    let u = ulp();
    let k = dust();
    lemma_dust();
    let m = n + h * n;
    let un = u * n;
    let hun = h * un;
    lemma_mul_nonnegative(u, n);
    lemma_mul_nonnegative(h, un);
    lemma_scaled_by(x, x0, e, m, c);
    lemma_mul_reorder(c, x, x);
    lemma_chain(f, x * c, c * x0, c * e, c * m, u, k);
    // u * m is un + hun, and u * e is next to nothing.
    lemma_mul_sum(u, n, h * n);
    lemma_mul_reorder(u, h, n);
    assert(u * m == un + hun);
    let small = 8 as real * hun + 8 as real * un + 12 as real * k;
    lemma_mul_order(e, small, u);
    lemma_tiny(small);
    let all = e + u * m + u * e;
    lemma_mul_sum(u, c * m, c * e);
    lemma_mul_reorder(u, c, m);
    lemma_mul_reorder(u, c, e);
    lemma_mul_sum(c, e, u * m);
    lemma_mul_sum(c, e + u * m, u * e);
    assert(c * e + u * (c * m + c * e) == c * all);
    let big = 8 as real * (hun + un);
    assert(all <= big + 12 as real * k);
    lemma_mul_order(all, big + 12 as real * k, c);
    lemma_mul_sum(c, big, 12 as real * k);
    lemma_mul_reorder(c, 12 as real, k);
    lemma_mul_order(2 as real * c, 3 as real, k);
    lemma_mul_reorder(2 as real, c, k);
    lemma_frame_error(n, h, c);
}

/// The dust is positive.
pub proof fn lemma_dust()
    ensures
        dust() > 0 as real,
        speck() <= ulp() * dust(),
        dust() * (16777216 as real) <= ulp(),
        281474976710656 as real * (281474976710656 as real * dust()) == ulp(),
{
    lemma_constants();
    let u = ulp();
    let k = dust();
    let v = u * u;
    assert(v > 0 as real && v * (16777216 as real) == u) by (nonlinear_arith)
        requires
            u > 0 as real,
            v == u * u,
            u * (16777216 as real) == 1 as real,
    ;
    let w = v * v;
    assert((0 as real) < w <= v) by (nonlinear_arith)
        requires
            v > 0 as real,
            v <= 1 as real,
            w == v * v,
    ;
    assert(k == w * u) by (nonlinear_arith)
        requires
            k == u * u * u * u * u,
            w == v * v,
            v == u * u,
    ;
    assert((0 as real) < k <= w) by (nonlinear_arith)
        requires
            k == w * u,
            (0 as real) < u <= 1 as real,
            w > 0 as real,
    ;
    let f = 281474976710656 as real;
    assert(f * v == 1 as real);
    lemma_mul_reorder(f, v, v);
    lemma_mul_reorder(f, w, u);
    lemma_mul_reorder(f, v, u);
    assert(u * u * u * u * u * u == u * k) by (nonlinear_arith)
        requires
            k == u * u * u * u * u,
    ;
}

/// The relative error times a number is a small part of it.
pub proof fn lemma_tiny(x: real)
    requires
        x >= 0 as real,
    ensures
        0 as real <= ulp() * x,
        1000 as real * (ulp() * x) <= x,
{
    lemma_constants();
    let u = ulp();
    lemma_mul_nonnegative(u, x);
    lemma_mul_order(1000 as real * u, 1 as real, x);
    lemma_mul_reorder(1000 as real, u, x);
}

/// The frame error, written out.
pub proof fn lemma_frame_error(n: real, h: real, c: real)
    ensures
        frame_error(n, h, c) == c * (8 as real * (h * (ulp() * n) + ulp() * n)) + 20 as real
            * dust(),
{
    let u = ulp();
    assert(8 as real * (1 as real + h) * u * c * n == c * (8 as real * (h * (u * n) + u * n)))
        by (nonlinear_arith);
}

/// What is nearly a multiple of the angular frequency, over it.
proof fn lemma_divided(f: real, x: real, w: real, k: real)
    requires
        1000 as real * w >= 1 as real,
        abs(f - x * w) <= ulp() * abs(x * w) + k,
        k >= 0 as real,
    ensures
        abs(f / w - x) <= ulp() * abs(x) + 1000 as real * k,
{
    let u = ulp();
    lemma_constants();
    let g = f / w;
    lemma_quotient(f, w);
    let d = abs(g - x);
    let e = abs(x);
    lemma_mul_sum(w, g, x);
    assert(abs(f - x * w) == d * w) by {
        lemma_mul_sum(w, -g, -x);
        if g >= x {
            assert(f - x * w == d * w);
        } else {
            lemma_mul_sum(w, x, g);
            assert(x * w - f == d * w);
            lemma_mul_nonnegative(d, w);
        }
        lemma_mul_nonnegative(d, w);
    }
    assert(abs(x * w) == e * w) by {
        if x >= 0 as real {
            lemma_mul_nonnegative(x, w);
        } else {
            lemma_mul_nonnegative(-x, w);
            lemma_mul_sum(w, 0 as real, x);
            assert(0 as real * w == 0 as real);
        }
    }
    lemma_mul_reorder(u, e, w);
    // k is at most 1000 * k * w.
    lemma_mul_order(1 as real, 1000 as real * w, k);
    lemma_mul_reorder(1000 as real, w, k);
    lemma_mul_reorder(1000 as real, k, w);
    lemma_mul_reorder(w, k, k);
    let right = u * e + 1000 as real * k;
    lemma_mul_sum(w, u * e, 1000 as real * k);
    assert(d * w <= right * w);
    if d > right {
        lemma_cancel(right, d, w);
    }
}

/// A product with a positive number grows with the other factor.
proof fn lemma_cancel(a: real, b: real, w: real)
    requires
        a < b,
        w > 0 as real,
    ensures
        a * w < b * w,
{
    assert(a * w < b * w) by (nonlinear_arith)
        requires
            a < b,
            w > 0 as real,
    ;
}

/// A spring, a time and a decay that a frame can be told of: nothing is out of
/// range.
pub open spec fn in_bounds(s: SpringValue, dt: Value, length: Value, decay: Value) -> bool {
    let w = number(omega(length));
    let h = w * number(dt);
    &&& within(s.position, 240)
    &&& within(s.velocity, 254)
    &&& within(omega(length), 163)
    &&& within(dt, 153)
    &&& within(decay, 150)
    &&& 1000 as real * w >= 1 as real
    &&& 0 as real <= h <= 6 as real
    &&& number(decay) >= 0 as real
    &&& 2 as real * number(decay) <= 3 as real
}

/// The velocity of a spring, over the angular frequency.
pub open spec fn swing(s: SpringValue, length: Value) -> real {
    number(s.velocity) / number(omega(length))
}

/// A frame of the spring is near to the exact motion.
pub proof fn lemma_swung_near(s: SpringValue, dt: Value, length: Value, decay: Value)
    requires
        in_bounds(s, dt, length, decay),
    ensures
        ({
            let next = s.swung(dt, length, decay);
            let p = number(s.position);
            let y = swing(s, length);
            let h = number(omega(length)) * number(dt);
            let c = number(decay);
            let error = frame_error(abs(p) + abs(y), h, c);
            &&& next.position is Finite
            &&& next.velocity is Finite
            &&& abs(number(next.position) - exact_position(p, y, h, c)) <= error
            &&& abs(swing(next, length) - exact_velocity(p, y, h, c)) <= error
        }),
{
    let steps = lemma_frame_steps(s, dt, length, decay);
    lemma_frame_near(
        steps,
        number(s.position),
        swing(s, length),
        number(omega(length)) * number(dt),
        number(decay),
    );
}

/// The operations of a frame of the spring are nearly exact, and none of their
/// results is out of range.
pub proof fn lemma_frame_steps(
    s: SpringValue,
    dt: Value,
    length: Value,
    decay: Value,
) -> (steps: FrameSteps)
    requires
        in_bounds(s, dt, length, decay),
    ensures
        ({
            let w = omega(length);
            let next = s.swung(dt, length, decay);
            let b = s.position.times(w).plus(s.velocity);
            let drift = b.times(dt);
            &&& next.position is Finite
            &&& next.velocity is Finite
            &&& s.position.times(w) is Finite
            &&& b is Finite
            &&& drift is Finite
            &&& s.position.plus(drift) is Finite
            &&& drift.times(w) is Finite
            &&& opposite(s.position).times(w).minus(drift.times(w)) is Finite
            &&& opposite(s.position).times(w) == opposite(s.position.times(w))
            &&& steps.position == number(next.position)
            &&& steps.velocity == swing(next, length)
        }),
        nearly(
            steps,
            number(s.position),
            swing(s, length),
            number(omega(length)) * number(dt),
            number(decay),
        ),
{
    lemma_constants();
    lemma_dust();
    let wv = omega(length);
    let w = number(wv);
    let t = number(dt);
    let h = w * t;
    let c = number(decay);
    let p = number(s.position);
    let v = number(s.velocity);
    let y = swing(s, length);
    let k = speck();
    lemma_small_speck();
    lemma_quotient(v, w);
    // Stretch.
    let m1 = s.position.times(wv);
    lemma_times_near(s.position, wv, 240, 163);
    lemma_divided(number(m1), p, w, k);
    let stretch = number(m1) / w;
    lemma_quotient(number(m1), w);
    // Lift.
    lemma_pow2_strictly_increases(254, 275);
    let b = m1.plus(s.velocity);
    lemma_plus_near(m1, s.velocity);
    lemma_plus_within(m1, s.velocity, 254);
    lemma_mul_sum(w, stretch, y);
    lemma_divided(number(b), stretch + y, w, 0 as real);
    let lift = number(b) / w;
    lemma_quotient(number(b), w);
    // Drift.
    let m2 = b.times(dt);
    lemma_times_near(b, dt, 255, 153);
    assert(number(b) * t == h * lift) by {
        lemma_mul_reorder(lift, w, t);
        lemma_mul_reorder(lift, h, h);
    }
    let drift = number(m2);
    // Sum and position.
    lemma_pow2_strictly_increases(240, 259);
    lemma_pow2_strictly_increases(259, 275);
    let sum = s.position.plus(m2);
    lemma_plus_near(s.position, m2);
    lemma_plus_within(s.position, m2, 259);
    lemma_times_near(sum, decay, 260, 150);
    // Pull.
    let m3 = m2.times(wv);
    lemma_times_near(m2, wv, 259, 163);
    lemma_divided(number(m3), drift, w, k);
    let pull = number(m3) / w;
    lemma_quotient(number(m3), w);
    // Fall.
    let n1 = opposite(s.position).times(wv);
    assert(n1 == opposite(m1)) by {
        reveal(Value::times);
    }
    lemma_opposite(m1);
    lemma_pow2_strictly_increases(254, 273);
    lemma_pow2_strictly_increases(273, 275);
    let d1 = n1.minus(m3);
    lemma_minus_near(n1, m3);
    lemma_plus_within(n1, m3, 273);
    let down = -stretch - pull;
    lemma_mul_sum(w, -stretch, pull);
    lemma_mul_sum(w, 0 as real, stretch);
    assert(0 as real * w == 0 as real);
    assert((-stretch) * w == -number(m1));
    assert(down * w == number(n1) - number(m3));
    lemma_divided(number(d1), down, w, 0 as real);
    let fall = number(d1) / w;
    lemma_quotient(number(d1), w);
    // Rest and velocity.
    lemma_pow2_strictly_increases(255, 274);
    lemma_pow2_strictly_increases(274, 275);
    let d2 = d1.plus(b);
    lemma_plus_near(d1, b);
    lemma_plus_within(d1, b, 274);
    lemma_mul_sum(w, fall, lift);
    lemma_divided(number(d2), fall + lift, w, 0 as real);
    let rest = number(d2) / w;
    lemma_quotient(number(d2), w);
    let v2 = decay.times(d2);
    lemma_times_near(decay, d2, 150, 275);
    lemma_mul_reorder(c, rest, w);
    lemma_divided(number(v2), c * rest, w, k);
    let steps = FrameSteps {
        stretch,
        lift,
        drift,
        sum: number(sum),
        position: number(sum.times(decay)),
        pull,
        fall,
        rest,
        velocity: number(v2) / w,
    };
    assert(nearly(steps, p, y, h, c));
    steps
}

/// A thousand times what a product close to zero loses is dust.
proof fn lemma_small_speck()
    ensures
        speck() > 0 as real,
        1000 as real * speck() <= dust(),
{
    lemma_constants();
    lemma_dust();
    lemma_tiny(dust());
}

} // verus!
