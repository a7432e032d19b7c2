//! How a spring moves, and the cursor with it, in plain numbers.

use vstd::arithmetic::power2::{
    lemma_pow2_adds, lemma_pow2_pos, lemma_pow2_strictly_increases, pow2,
};
use vstd::prelude::*;

use crate::animation::{
    frame_time, longest_frame, seconds, AnimationValue, Axis, CursorKey, DecayValues, Timing,
};
use crate::canvas::nearly_exponentials;
use crate::cursor_laws::{lemma_of_near, lemma_ratio_near};
use crate::exponential::{
    angle, exponential, lasting, lemma_damped, lemma_decay, lemma_exponential,
    lemma_exponential_near_one, lemma_frequency, lemma_lasting, lemma_number_within, multiplies,
    nearly_exponential, ordinary, short_of,
};
use crate::float::{at_most, less, opposite, Value};
use crate::float_laws::{size, units, within};
use crate::frame_laws::moved_in_buffer;
use crate::geometry::{quad_same, PointValue};
use crate::laws::clock_never_runs_back;
use crate::length_laws::{lemma_compare, lemma_number_sum};
use crate::mirror_laws::{lemma_grid_sum, on_grid, steps};
use crate::numbers::{
    abs, lemma_constants, lemma_no_units, lemma_opposite, lemma_over_near, lemma_plus_near, number,
    speck, ulp,
};
use crate::reals::{
    lemma_mul_nonnegative, lemma_mul_order, lemma_mul_reorder, lemma_mul_sum, lemma_quotient,
};
use crate::spring::{decay_exponent, omega, tolerance, SpringValue};
use crate::spring_error::{dust, exact_position, exact_velocity, lemma_dust, lemma_tiny, swing};
use crate::spring_flow::{
    bounded, extent, lemma_below_tolerance, lemma_frame, lemma_mul_size, lemma_swing,
};
use crate::stillness::lemma_longest_frame;

verus! {

/// The angle that a critically damped spring turns by in `d` seconds, such that
/// it settles to 2% in `length` seconds.
pub open spec fn turn(d: real, length: real) -> real {
    583 as real * d / (100 as real * length)
}

/// Where such a spring is after `d` seconds, from an offset `p` and a velocity
/// `v`; `e` is the exponential function.
pub open spec fn swung_to(
    e: spec_fn(real) -> real,
    p: real,
    v: real,
    d: real,
    length: real,
) -> real {
    let h = turn(d, length);
    e(-h) * (p + h * p + d * v)
}

/// How fast it is then, in pixels per animation length.
pub open spec fn swung_by(
    e: spec_fn(real) -> real,
    p: real,
    v: real,
    d: real,
    length: real,
) -> real {
    let h = turn(d, length);
    e(-h) * (v * length - h * (583 as real * p / 100 as real + v * length))
}

/// The frequency times the length.
proof fn lemma_frequency_tight(length: Value)
    requires
        lasting(length),
    ensures
        100 as real * abs(
            number(omega(length)) * number(length) - 583 as real / 100 as real,
        ) <= 4000 as real * ulp(),
{
    lemma_constants();
    lemma_dust();
    lemma_frequency(length);
    lemma_lasting(length);
    vstd::arithmetic::power2::lemma2_to64();
    vstd::arithmetic::power2::lemma2_to64_rest();
    lemma_ratio_near(583, 100);
    let r = Value::ratio(583, 100);
    let f = number(r);
    let u = ulp();
    let k = dust();
    lemma_mul_reorder(f, 100 as real, 1 as real);
    lemma_mul_reorder(u, 583 as real, 1 as real);
    lemma_mul_reorder(k, 100 as real, 1 as real);
    lemma_tiny(1 as real);
    lemma_tiny(k);
    lemma_no_units(r);
    lemma_over_near(r, length);
    lemma_mul_order(f, 6 as real, u);
    lemma_mul_order(number(length), 4096 as real, speck());
}

/// A rounding error is less than a ten-millionth.
proof fn lemma_ten_millionth(x: real)
    requires
        x >= 0 as real,
    ensures
        0 as real <= ulp() * x,
        10_000_000 as real * (ulp() * x) <= x,
{
    lemma_constants();
    let u = ulp();
    lemma_mul_nonnegative(u, x);
    lemma_mul_order(10_000_000 as real * u, 1 as real, x);
    lemma_mul_reorder(10_000_000 as real, u, x);
}

/// The angle of a frame, against that of the exact time.
proof fn lemma_turn_near(dt: Value, length: Value, d: real)
    requires
        lasting(length),
        ordinary(length) || within(dt, 153),
        short_of(dt, length),
        d >= 0 as real,
        abs(number(dt) - d) <= 16 as real * (ulp() * d),
    ensures
        ({
            let l = number(length);
            let h = turn(d, l);
            &&& abs(angle(dt, length) - h) <= 140 as real * ulp()
            &&& 0 as real <= h <= 6 as real
            &&& 1000 as real * d <= 1001 as real * l
            &&& h * l == 583 as real * d / 100 as real
        }),
{
    lemma_constants();
    lemma_frequency(length);
    lemma_frequency_tight(length);
    lemma_lasting(length);
    let u = ulp();
    let w = number(omega(length));
    let l = number(length);
    let t = number(dt);
    let a = w * l;
    let hf = angle(dt, length);
    let h = turn(d, l);
    lemma_compare(dt, length);
    lemma_ten_millionth(d);
    lemma_no_units(dt);
    assert(t <= l);
    assert(1000 as real * d <= 1001 as real * l);
    lemma_quotient(583 as real * d, 100 as real * l);
    assert(h * l == 583 as real * d / 100 as real) by {
        lemma_mul_reorder(h, 100 as real, l);
        lemma_mul_reorder(100 as real, h, l);
    }
    // hf * l == a * t.
    assert(hf * l == a * t) by {
        lemma_mul_reorder(w, t, l);
        lemma_mul_reorder(w, l, t);
        lemma_mul_reorder(t, l, l);
    }
    let c = 583 as real / 100 as real;
    lemma_mul_sum(a, t, d);
    lemma_mul_size(a, t - d, 59 as real / 10 as real, 16 as real * (u * d));
    lemma_mul_sum(d, a, c);
    lemma_mul_size(a - c, d, 40 as real * u, d);
    lemma_mul_reorder(40 as real, u, d);
    let ud = u * d;
    assert((59 as real / 10 as real) * (16 as real * ud) <= 95 as real * ud);
    assert(abs(a * t - c * d) <= 135 as real * ud);
    lemma_mul_order(1000 as real * d, 1001 as real * l, u);
    lemma_mul_reorder(u, 1000 as real, d);
    lemma_mul_reorder(u, 1001 as real, l);
    let ul = u * l;
    assert(abs(a * t - c * d) <= 140 as real * ul);
    // Over l.
    lemma_mul_sum(l, hf, h);
    lemma_mul_sum(l, h, hf);
    let g = abs(hf - h);
    assert(g * l <= (140 as real * u) * l) by {
        lemma_mul_reorder(140 as real, u, l);
        assert(hf * l - h * l == a * t - c * d);
    }
    assert(g <= 140 as real * u) by {
        if g > 140 as real * u {
            assert((140 as real * u) * l < g * l) by (nonlinear_arith)
                requires
                    140 as real * u < g,
                    l > 0 as real,
            ;
        }
    }
    lemma_mul_order(t, l, w);
    lemma_tiny(1 as real);
    assert(h >= 0 as real) by {
        if h < 0 as real {
            assert(h * l < 0 as real) by (nonlinear_arith)
                requires
                    h < 0 as real,
                    l > 0 as real,
            ;
        }
    }
}

/// The decay, against the exponential of the exact angle.
proof fn lemma_decay_tight(
    e: spec_fn(real) -> real,
    dt: Value,
    length: Value,
    decay: Value,
    d: real,
)
    requires
        exponential(e),
        lasting(length),
        ordinary(length) || within(dt, 153),
        short_of(dt, length),
        nearly_exponential(e, decay_exponent(dt, length), decay),
        d >= 0 as real,
        abs(number(dt) - d) <= 16 as real * (ulp() * d),
    ensures
        ({
            let h = turn(d, number(length));
            &&& 0 as real <= e(-h) <= 1 as real
            &&& abs(number(decay) - e(-h)) <= 160 as real * ulp()
            &&& 0 as real <= number(decay)
            &&& 2 as real * number(decay) <= 3 as real
        }),
{
    lemma_constants();
    lemma_turn_near(dt, length, d);
    lemma_decay(e, dt, length, decay);
    let u = ulp();
    let hf = angle(dt, length);
    let h = turn(d, number(length));
    let x = h - hf;
    assert(multiplies(e, -h, x));
    assert(-h + x == -hf);
    lemma_exponential_near_one(e, x, 140 as real * u);
    lemma_exponential(e, h);
    lemma_damped(e, h);
    let exact = e(-h);
    let f = e(x);
    lemma_mul_size(f - 1 as real, exact, 143 as real * u, 1 as real);
    lemma_mul_sum(exact, f, 1 as real);
    lemma_mul_reorder(exact, f, f);
    lemma_mul_order(e(-hf), 1 as real, u);
}

/// How far a spring can get: its offset, and what its velocity makes in the
/// animation length.
pub open spec fn reach(p: real, v: real, length: real) -> real {
    abs(p) + abs(v) * length
}

/// The offset after a frame, in plain numbers.
proof fn lemma_offset_numbers(
    p: real,
    v: real,
    y: real,
    w: real,
    l: real,
    t: real,
    d: real,
    h: real,
    hf: real,
    c: real,
    exact: real,
    next: real,
    r: real,
)
    requires
        y * w == v,
        hf == w * t,
        r == abs(p) + abs(v) * l,
        l > 0 as real,
        d >= 0 as real,
        abs(hf - h) <= 140 as real * ulp(),
        abs(t - d) <= 16 as real * (ulp() * d),
        0 as real <= h <= 6 as real,
        1000 as real * d <= 1001 as real * l,
        0 as real <= c,
        2 as real * c <= 3 as real,
        abs(c - exact) <= 160 as real * ulp(),
        abs(next - exact_position(p, y, hf, c)) <= 9 as real * (ulp() * r) + 20 as real * dust(),
    ensures
        abs(next - exact * (p + h * p + d * v)) <= 2048 as real * (ulp() * r) + 20 as real * dust(),
{
    lemma_constants();
    let u = ulp();
    let b = abs(v) * l;
    lemma_mul_nonnegative(abs(v), l);
    let ur = u * r;
    lemma_mul_nonnegative(u, r);
    // hf * y == t * v.
    assert(hf * y == t * v) by {
        lemma_mul_reorder(y, w, t);
        lemma_mul_reorder(y, hf, hf);
        lemma_mul_reorder(t, v, v);
        lemma_mul_reorder(w, t, y);
        lemma_mul_reorder(y, t, w);
    }
    lemma_mul_sum(hf, p, y);
    let mf = p + hf * (p + y);
    let m = p + h * p + d * v;
    assert(mf == p + hf * p + t * v);
    // mf - m == (hf - h) * p + (t - d) * v.
    lemma_mul_sum(p, hf, h);
    lemma_mul_sum(v, t, d);
    lemma_mul_size(hf - h, p, 140 as real * u, abs(p));
    lemma_mul_reorder(140 as real, u, abs(p));
    lemma_mul_size(t - d, v, 16 as real * (u * d), abs(v));
    let dv = d * abs(v);
    assert((16 as real * (u * d)) * abs(v) == 16 as real * (u * dv)) by {
        lemma_mul_reorder(16 as real, u * d, abs(v));
        lemma_mul_reorder(u, d, abs(v));
    }
    lemma_mul_order(1000 as real * d, 1001 as real * l, abs(v));
    lemma_mul_reorder(1000 as real, d, abs(v));
    lemma_mul_reorder(1001 as real, l, abs(v));
    lemma_mul_reorder(l, abs(v), abs(v));
    assert(1000 as real * dv <= 1001 as real * b);
    lemma_mul_order(1000 as real * dv, 1001 as real * b, u);
    lemma_mul_reorder(u, 1000 as real, dv);
    lemma_mul_reorder(u, 1001 as real, b);
    lemma_mul_sum(u, abs(p), b);
    lemma_mul_nonnegative(u, abs(p));
    lemma_mul_nonnegative(u, b);
    assert(abs(mf - m) <= 140 as real * ur);
    // |m| <= 8 r.
    lemma_mul_size(h, p, 6 as real, abs(p));
    lemma_mul_size(d, v, d, abs(v));
    assert(abs(m) <= 8 as real * r);
    // c * mf - exact * m.
    lemma_mul_sum(c, mf, m);
    lemma_mul_size(c, mf - m, 3 as real / 2 as real, 140 as real * ur);
    lemma_mul_sum(m, c, exact);
    lemma_mul_size(c - exact, m, 160 as real * u, 8 as real * r);
    assert((160 as real * u) * (8 as real * r) == 1280 as real * ur) by {
        lemma_mul_reorder(160 as real, u, 8 as real * r);
        lemma_mul_reorder(u, 8 as real, r);
    }
}

/// The velocity after a frame, in plain numbers.
proof fn lemma_speed_numbers(
    p: real,
    v: real,
    y: real,
    w: real,
    l: real,
    h: real,
    hf: real,
    c: real,
    exact: real,
    next: real,
    r: real,
)
    requires
        y * w == v,
        r == abs(p) + abs(v) * l,
        l > 0 as real,
        100 as real * abs(w * l - 583 as real / 100 as real) <= 4000 as real * ulp(),
        abs(hf - h) <= 140 as real * ulp(),
        0 as real <= h <= 6 as real,
        0 as real <= c,
        2 as real * c <= 3 as real,
        abs(c - exact) <= 160 as real * ulp(),
        abs(next - exact_velocity(p, y, hf, c)) <= 9 as real * (ulp() * r) + 20 as real * dust(),
    ensures
        abs(
            (next * w) * l - exact * (v * l - h * (583 as real * p / 100 as real + v * l)),
        ) <= 8192 as real * (ulp() * r) + 200 as real * dust(),
{
    lemma_constants();
    lemma_dust();
    let u = ulp();
    let a = w * l;
    let k = 583 as real / 100 as real;
    let vl = v * l;
    let b = abs(v) * l;
    lemma_mul_nonnegative(abs(v), l);
    assert(abs(vl) == b) by {
        lemma_mul_size(v, l, abs(v), l);
        if v < 0 as real {
            lemma_mul_sum(l, 0 as real, v);
            assert(0 as real * l == 0 as real);
        }
    }
    let ur = u * r;
    lemma_mul_nonnegative(u, r);
    lemma_tiny(1 as real);
    // a * y == vl.
    assert(a * y == vl) by {
        lemma_mul_reorder(y, w, l);
        lemma_mul_reorder(y, a, a);
    }
    assert((next * w) * l == a * next) by {
        lemma_mul_reorder(next, w, l);
        lemma_mul_reorder(next, a, a);
    }
    let inner = y - hf * (p + y);
    let ap = a * p;
    assert(a * inner == vl - hf * (ap + vl)) by {
        lemma_mul_sum(a, y, hf * (p + y));
        lemma_mul_reorder(a, hf, p + y);
        lemma_mul_sum(a, p, y);
    }
    let x = vl - hf * (ap + vl);
    let z = vl - h * (k * p + vl);
    // x - z.
    lemma_mul_sum(p, a, k);
    lemma_mul_size(a - k, p, 40 as real * u, abs(p));
    lemma_mul_reorder(40 as real, u, abs(p));
    lemma_mul_order(abs(p), r, u);
    let s = ap + vl;
    let q = k * p + vl;
    assert(abs(s - q) <= 40 as real * ur);
    lemma_mul_size(k, p, k, abs(p));
    assert(abs(q) <= 6 as real * r);
    lemma_tiny(r);
    assert(abs(s) <= 7 as real * r);
    lemma_mul_sum(s, hf, h);
    lemma_mul_size(hf - h, s, 140 as real * u, 7 as real * r);
    assert((140 as real * u) * (7 as real * r) == 980 as real * ur) by {
        lemma_mul_reorder(140 as real, u, 7 as real * r);
        lemma_mul_reorder(u, 7 as real, r);
    }
    lemma_mul_sum(h, s, q);
    lemma_mul_size(h, s - q, 6 as real, 40 as real * ur);
    assert(abs(x - z) <= 1220 as real * ur);
    lemma_mul_size(h, q, 6 as real, 6 as real * r);
    assert(abs(z) <= 37 as real * r);
    // c * x - exact * z.
    lemma_mul_sum(c, x, z);
    lemma_mul_size(c, x - z, 3 as real / 2 as real, 1220 as real * ur);
    lemma_mul_sum(z, c, exact);
    lemma_mul_size(c - exact, z, 160 as real * u, 37 as real * r);
    assert((160 as real * u) * (37 as real * r) == 5920 as real * ur) by {
        lemma_mul_reorder(160 as real, u, 37 as real * r);
        lemma_mul_reorder(u, 37 as real, r);
    }
    // a * next - a * (c * inner).
    let err = 9 as real * ur + 20 as real * dust();
    lemma_mul_sum(a, next, c * inner);
    lemma_mul_size(a, next - c * inner, 6 as real, err);
    lemma_mul_reorder(a, c, inner);
    assert(k * p == 583 as real * p / 100 as real);
}

/// A frame of a spring is the motion of a critically damped spring that settles
/// to 2% in its animation length: in `d` seconds it goes from an offset `p` and
/// a velocity `v` to where that motion goes, up to one part in `pow2(13)` of its
/// reach; and it is put on target exactly where that is less than a hundredth
/// of a pixel away.
pub proof fn spring_moves_by_the_exponential(
    e: spec_fn(real) -> real,
    s: SpringValue,
    dt: Value,
    length: Value,
    decay: Value,
    d: real,
)
    requires
        exponential(e),
        lasting(length),
        ordinary(length) || within(dt, 153),
        short_of(dt, length),
        s.moves(dt, length) ==> nearly_exponential(e, decay_exponent(dt, length), decay),
        bounded(s),
        d >= 0 as real,
        abs(number(dt) - d) <= 16 as real * (ulp() * d),
    ensures
        ({
            let p = number(s.position);
            let v = number(s.velocity);
            let l = number(length);
            let next = s.advanced(dt, length, decay);
            let x = swung_to(e, p, v, d, l);
            let error = reach(p, v, l) / 8192 as real + 1 as real / 1_000_000 as real;
            &&& next.position is Finite
            &&& next.velocity is Finite
            &&& 100 as real * abs(x) >= 1 as real + 100 as real * error ==> abs(
                number(next.position) - x,
            ) <= error && abs(number(next.velocity) * l - swung_by(e, p, v, d, l)) <= 4 as real
                * error && s.animating(dt, length, decay)
            &&& 100 as real * abs(x) <= 1 as real - 100 as real * error ==> units(next.position)
                == 0 && units(next.velocity) == 0 && !s.animating(dt, length, decay)
            &&& abs(number(next.position) - x) <= error || units(next.position) == 0 && units(
                next.velocity,
            ) == 0 && 100 as real * abs(x) <= 1 as real + 100 as real * error
        }),
{
    lemma_constants();
    lemma_dust();
    let u = ulp();
    let p = number(s.position);
    let v = number(s.velocity);
    let l = number(length);
    let r = reach(p, v, l);
    let next = s.advanced(dt, length, decay);
    let x = swung_to(e, p, v, d, l);
    lemma_lasting(length);
    lemma_frequency(length);
    lemma_mul_nonnegative(abs(v), l);
    lemma_mul_nonnegative(u, r);
    assert(8192 as real * (2048 as real * (u * r)) == r) by {
        lemma_mul_reorder(16777216 as real, u, r);
    }
    lemma_no_units(Value::zero());
    lemma_hundredth();
    if s.at_rest() {
        lemma_no_units(s.position);
        lemma_no_units(s.velocity);
        let h = turn(d, l);
        lemma_turn_near(dt, length, d);
        assert(h * (0 as real) == 0 as real && d * (0 as real) == 0 as real);
        assert(e(-h) * (0 as real) == 0 as real);
        assert(0 as real * l == 0 as real);
    } else {
        lemma_frame(e, s, dt, length, decay);
        lemma_turn_near(dt, length, d);
        lemma_decay(e, dt, length, decay);
        lemma_decay_tight(e, dt, length, decay, d);
        lemma_frequency_tight(length);
        lemma_swing(s, length);
        let w = number(omega(length));
        let y = swing(s, length);
        lemma_quotient(v, w);
        let swung = s.swung(dt, length, decay);
        let h = turn(d, l);
        let n = extent(s, length);
        lemma_mul_order(n, r, u);
        lemma_offset_numbers(
            p,
            v,
            y,
            w,
            l,
            number(dt),
            d,
            h,
            angle(dt, length),
            number(decay),
            e(-h),
            number(swung.position),
            r,
        );
        lemma_speed_numbers(
            p,
            v,
            y,
            w,
            l,
            h,
            angle(dt, length),
            number(decay),
            e(-h),
            swing(swung, length),
            r,
        );
        lemma_quotient(number(swung.velocity), w);
        lemma_below_tolerance(swung.position);
    }
}

/// The tolerance is a hundredth of a pixel.
proof fn lemma_hundredth()
    ensures
        abs(100 as real * number(tolerance()) - 1 as real) <= 5 as real * ulp(),
        10_000_000 as real * ulp() <= 1 as real,
        1_000_000_000 as real * dust() <= ulp(),
{
    lemma_constants();
    lemma_dust();
    vstd::arithmetic::power2::lemma2_to64();
    vstd::arithmetic::power2::lemma2_to64_rest();
    lemma_ratio_near(1, 100);
    let t = number(tolerance());
    lemma_mul_reorder(t, 100 as real, 1 as real);
    lemma_mul_reorder(dust(), 100 as real, 1 as real);
}

/// Seconds since the last frame; none where the clock went back.
pub open spec fn passed(state: AnimationValue, now: u64) -> real {
    match state.last_frame_at {
        Some(at) => if now >= at {
            (now - at) as real / 1_000_000_000 as real
        } else {
            0 as real
        },
        None => 0 as real,
    }
}

/// The smaller of two numbers.
pub open spec fn smaller(a: real, b: real) -> real {
    if a < b {
        a
    } else {
        b
    }
}

/// The time between two frames is what the clock says, in nanoseconds, up to
/// rounding.
pub proof fn time_is_counted_in_nanoseconds(state: AnimationValue, now: u64)
    ensures
        ({
            let t = passed(state, now);
            &&& t >= 0 as real
            &&& state.elapsed(now) is Finite
            &&& units(state.elapsed(now)) >= 0
            &&& abs(number(state.elapsed(now)) - t) <= 8 as real * (ulp() * t)
        }),
{
    lemma_constants();
    lemma_no_units(Value::zero());
    if let Some(at) = state.last_frame_at {
        if now > at {
            lemma_seconds_near((now - at) as nat);
        } else {
            clock_never_runs_back(state, now);
        }
    }
}

/// Nanoseconds in seconds.
proof fn lemma_seconds_near(n: nat)
    requires
        0 < n <= u64::MAX,
    ensures
        ({
            let t = n as real / 1_000_000_000 as real;
            &&& t >= 0 as real
            &&& seconds(n) is Finite
            &&& units(seconds(n)) >= 0
            &&& abs(number(seconds(n)) - t) <= 8 as real * (ulp() * t)
        }),
{
    lemma_constants();
    lemma_hundredth();
    vstd::arithmetic::power2::lemma2_to64();
    vstd::arithmetic::power2::lemma2_to64_rest();
    let whole = n / 1_000_000_000;
    let part = n % 1_000_000_000;
    assert(n == 1_000_000_000 * whole + part);
    lemma_of_near(whole);
    lemma_ratio_near(part, 1_000_000_000);
    let x = Value::of(whole);
    let y = Value::ratio(part, 1_000_000_000);
    let a = number(x);
    let b = number(y);
    let u = ulp();
    let k = dust();
    let g = 1_000_000_000 as real;
    let t = n as real / g;
    let w = whole as real;
    let f = part as real;
    assert(n as real == g * w + f);
    lemma_mul_reorder(b, g, 1 as real);
    lemma_mul_reorder(k, g, 1 as real);
    lemma_mul_sum(u, g * w, f);
    lemma_mul_reorder(u, g, w);
    lemma_mul_reorder(u, g, t);
    assert(g * t == n as real);
    lemma_mul_nonnegative(u, w);
    lemma_mul_nonnegative(u, f);
    lemma_mul_order(1 as real, n as real, u);
    let ut = u * t;
    assert(g * ut == g * (u * w) + u * f);
    // The parts.
    assert(g * abs(a + b - t) <= g * (u * w) + 4 as real * (u * f) + u);
    assert(abs(a + b - t) <= 5 as real * ut);
    // The sum.
    lemma_no_units(x);
    lemma_no_units(y);
    lemma_ten_millionth(f);
    lemma_number_within(y, 1);
    lemma_pow2_strictly_increases(213, 275);
    lemma_pow2_strictly_increases(150, 275);
    lemma_plus_near(x, y);
    lemma_ten_millionth(t);
    lemma_mul_order(a + b, 2 as real * t, u);
    lemma_mul_reorder(u, 2 as real, t);
    let s = seconds(n);
    lemma_no_units(s);
    if units(s) < 0 {
        lemma_opposite(s);
        lemma_no_units(opposite(s));
    }
}

/// A time of at most a tenth of a second is in range.
proof fn lemma_time_within(dt: Value)
    requires
        dt is Finite,
        units(dt) >= 0,
        number(dt) <= 1 as real,
    ensures
        within(dt, 153),
{
    lemma_no_units(dt);
    vstd::arithmetic::power2::lemma2_to64();
    lemma_number_within(dt, 4);
}

/// A spring is advanced by the time that has passed, but by no more than a tenth
/// of a second.
proof fn lemma_frame_time(t: real, jumps: bool, elapsed: Value, length: Value)
    requires
        t >= 0 as real,
        elapsed is Finite,
        units(elapsed) >= 0,
        abs(number(elapsed) - t) <= 8 as real * (ulp() * t),
        jumps || !at_most(length, elapsed),
    ensures
        ({
            let dt = frame_time(jumps, elapsed, length);
            let d = smaller(t, 1 as real / 10 as real);
            &&& dt is Finite
            &&& units(dt) >= 0
            &&& abs(number(dt) - d) <= 16 as real * (ulp() * d)
            &&& dt == elapsed || dt == longest_frame() && less(longest_frame(), elapsed)
        }),
{
    lemma_constants();
    lemma_hundredth();
    vstd::arithmetic::power2::lemma2_to64();
    vstd::arithmetic::power2::lemma2_to64_rest();
    lemma_ratio_near(1, 10);
    lemma_longest_frame();
    let f = longest_frame();
    let x = number(f);
    let k = dust();
    let u = ulp();
    lemma_mul_reorder(x, 10 as real, 1 as real);
    lemma_mul_reorder(k, 10 as real, 1 as real);
    lemma_compare(elapsed, f);
    lemma_compare(f, elapsed);
    lemma_ten_millionth(t);
    let tenth = 1 as real / 10 as real;
    assert(u * tenth == u / 10 as real);
    if t < tenth {
        lemma_mul_order(t, tenth, u);
        // Where the longest frame is taken, the time is next to it.
        if number(elapsed) > x {
            assert(10 as real * t >= 1 as real - 20 as real * u);
            lemma_mul_order(9 as real / 100 as real, t, u);
        }
    } else {
        lemma_mul_order(tenth, t, u);
        if number(elapsed) <= x {
            assert(100 as real * t <= 11 as real);
            lemma_mul_order(t, 11 as real / 100 as real, u);
        }
    }
}

/// A coordinate of a point.
pub open spec fn coordinate(point: PointValue, axis: Axis) -> Value {
    match axis {
        Axis::Horizontal => point.x,
        Axis::Vertical => point.y,
    }
}

/// The offset of corner `i` from its new target, before any time has passed:
/// where the caret has moved, it grows by as much as the target has moved.
pub open spec fn offset_before(
    state: AnimationValue,
    key: CursorKey,
    destination: Seq<PointValue>,
    i: int,
    axis: Axis,
) -> real {
    let offset = number(state.corners[i].along(axis).position);
    match (state.last_key, state.last_destination) {
        (Some(last), Some(from)) => if last.0 != key.0 || last.1 != key.1 {
            offset + number(coordinate(destination[i], axis)) - number(coordinate(from[i], axis))
        } else {
            offset
        },
        _ => offset,
    }
}

/// The caret stays and so does its target; or it has moved in the buffer, with
/// an offset and coordinates that are a whole number of steps of `pow2(k)`
/// units, so that nothing is rounded.
pub open spec fn frame_in_bounds(
    state: AnimationValue,
    key: CursorKey,
    destination: Seq<PointValue>,
    i: int,
    axis: Axis,
    k: nat,
) -> bool {
    let s = state.corners[i].along(axis);
    match (state.last_key, state.last_destination) {
        (Some(last), Some(from)) => if last.0 != key.0 || last.1 != key.1 {
            &&& k <= 200
            &&& on_grid(s.position, k, 1_000_000)
            &&& on_grid(coordinate(from[i], axis), k, 1_000_000)
            &&& on_grid(coordinate(destination[i], axis), k, 1_000_000)
            &&& within(s.velocity, 254)
        } else {
            quad_same(from, destination) && bounded(s)
        },
        _ => false,
    }
}

/// The length that a corner goes by on an axis: what was set by the last jump,
/// along the axis of that jump or across it; or, where that is nothing, the
/// full length.
pub open spec fn length_on(after: AnimationValue, timing: Timing, i: int, axis: Axis) -> Value {
    let set = if axis == after.axis {
        after.corners[i].animation_length
    } else {
        after.cross_length
    };
    if number(set) > 0 as real {
        set
    } else {
        timing.animation_length
    }
}

/// What is on a grid is in range.
proof fn lemma_grid_within(v: Value, k: nat)
    requires
        k <= 200,
        on_grid(v, k, 3_000_000),
    ensures
        within(v, 240),
{
    let c = choose|c: int| #[trigger] steps(v, k, c) && size(c) <= 3_000_000;
    vstd::arithmetic::power2::lemma2_to64();
    lemma_pow2_adds(22, k);
    let p = pow2(k) as int;
    lemma_pow2_pos(k);
    assert(-(3_000_000 * p) <= c * p <= 3_000_000 * p) by (nonlinear_arith)
        requires
            p > 0,
            -3_000_000 <= c <= 3_000_000,
    ;
    lemma_pow2_strictly_increases(22 + k, 240);
}

/// What a spring is advanced by, and from where.
proof fn lemma_spring_in_frame(
    e: spec_fn(real) -> real,
    state: AnimationValue,
    key: CursorKey,
    destination: Seq<PointValue>,
    now: u64,
    timing: Timing,
    decays: DecayValues,
    i: int,
    axis: Axis,
    k: nat,
) -> (r: (SpringValue, Value))
    requires
        0 <= i < 4,
        frame_in_bounds(state, key, destination, i, axis, k),
        nearly_exponentials(e, state.exponents(key, destination, now, timing), decays),
        ({
            let after = state.next(key, destination, now, timing, decays);
            &&& after.corners[i].animation_length is Finite
            &&& after.cross_length is Finite
            &&& number(after.corners[i].animation_length) > 0 as real || number(after.cross_length)
                <= 0 as real
        }),
    ensures
        ({
            let (s, decay) = r;
            let after = state.next(key, destination, now, timing, decays);
            let length = length_on(after, timing, i, axis);
            let dt = frame_time(state.jumps(key), state.elapsed(now), length);
            &&& after.corners[i].along(axis) == s.advanced(dt, length, decay)
            &&& s.moves(dt, length) ==> nearly_exponential(e, decay_exponent(dt, length), decay)
            &&& bounded(s)
            &&& number(s.position) == offset_before(state, key, destination, i, axis)
            &&& s.velocity == state.corners[i].along(axis).velocity
        }),
{
    let frame = state.frame(key, now, timing);
    let anchored = state.anchored(key, destination, timing);
    let after = state.next(key, destination, now, timing, decays);
    let s = anchored.corners[i].along(axis);
    lemma_no_units(Value::zero());
    lemma_compare(Value::zero(), after.corners[i].animation_length);
    lemma_compare(Value::zero(), after.cross_length);
    lemma_compare(after.corners[i].animation_length, after.cross_length);
    lemma_compare(after.corners[i].animation_length, Value::zero());
    let length = length_on(after, timing, i, axis);
    let from = state.last_destination->Some_0;
    if state.jumps(key) {
        vstd::arithmetic::power2::lemma2_to64();
        let to = coordinate(destination[i], axis);
        let was = coordinate(from[i], axis);
        let old = state.corners[i].along(axis).position;
        lemma_grid_sum(to, was, k, 1_000_000, 1_000_000);
        lemma_grid_sum(old, to.minus(was), k, 1_000_000, 2_000_000);
        lemma_number_sum(units(to), units(was));
        lemma_number_sum(units(old), units(to.minus(was)));
        lemma_grid_within(s.position, k);
    }
    if axis == after.axis {
        assert(anchored.length_along(frame, i) == length);
        let pace = anchored.along(frame, decays, i);
        assert(after.corners[i].along(axis) == s.advanced(pace.dt, pace.length, pace.decay));
        if s.moves(pace.dt, length) {
            assert(anchored.wanted(frame).along[i] is Some);
            assert(decays.along[i] == pace.decay);
        }
        (s, pace.decay)
    } else {
        assert(anchored.cross_length_or(frame.default) == length);
        let pace = anchored.across(frame, decays);
        assert(after.corners[i].along(axis) == s.advanced(pace.dt, pace.length, pace.decay));
        assert(s == anchored.corners[i].across(anchored.axis));
        if s.moves(pace.dt, length) {
            assert(anchored.moves_across(frame));
        }
        (s, pace.decay)
    }
}

/// The time is clearly less than the length.
pub open spec fn clearly_before(t: real, length: real) -> bool {
    100_000 as real * t <= 99_999 as real * length
}

/// The time is clearly no less than the length.
pub open spec fn clearly_after(t: real, length: real) -> bool {
    100_000 as real * t >= 100_001 as real * length
}

/// How a frame moves the cursor, in plain numbers. A corner starts from its
/// offset, to which a caret that moves adds what its target has moved by. In the
/// time since the last frame, but in no more than a tenth of a second, it goes
/// where a critically damped spring goes that settles to 2% in the length which
/// the last jump has set; and it is put on target if that is less than a
/// hundredth of a pixel away. It also is where the length is over: for a caret
/// that moves, within that tenth of a second; for one that stays, in the whole
/// time. `e` is the exponential function, which the decays are near to.
pub proof fn cursor_moves_by_the_exponential(
    e: spec_fn(real) -> real,
    state: AnimationValue,
    key: CursorKey,
    destination: Seq<PointValue>,
    now: u64,
    timing: Timing,
    decays: DecayValues,
    i: int,
    axis: Axis,
    k: nat,
)
    requires
        exponential(e),
        0 <= i < 4,
        frame_in_bounds(state, key, destination, i, axis, k),
        nearly_exponentials(e, state.exponents(key, destination, now, timing), decays),
        ({
            let after = state.next(key, destination, now, timing, decays);
            &&& after.corners[i].animation_length is Finite
            &&& after.cross_length is Finite
            &&& number(after.corners[i].animation_length) > 0 as real || number(after.cross_length)
                <= 0 as real
            &&& length_on(after, timing, i, axis) is Finite
        }),
    ensures
        ({
            let after = state.next(key, destination, now, timing, decays);
            let spring = after.corners[i].along(axis);
            let length = number(length_on(after, timing, i, axis));
            let p = offset_before(state, key, destination, i, axis);
            let v = number(state.corners[i].along(axis).velocity);
            let t = passed(state, now);
            let d = smaller(t, 1 as real / 10 as real);
            let whole = if moved_in_buffer(state, key) {
                d
            } else {
                t
            };
            let x = swung_to(e, p, v, d, length);
            let error = reach(p, v, length) / 8192 as real + 1 as real / 1_000_000 as real;
            let under_way = lasting(length_on(after, timing, i, axis)) && clearly_before(
                whole,
                length,
            );
            &&& under_way && 100 as real * abs(x) >= 1 as real + 100 as real
                * error ==> abs(number(spring.position) - x) <= error && abs(
                number(spring.velocity) * length - swung_by(e, p, v, d, length),
            ) <= 4 as real * error
            &&& under_way && 100 as real * abs(x) <= 1 as real - 100 as real
                * error ==> number(spring.position) == 0 as real && number(spring.velocity)
                == 0 as real
            &&& under_way ==> spring.position is Finite && spring.velocity is Finite
            &&& under_way ==> number(spring.position) == 0 as real || abs(
                number(spring.position) - x,
            ) <= error
            &&& clearly_after(whole, length) ==> number(spring.position) == 0 as real && number(
                spring.velocity,
            ) == 0 as real
        }),
{
    let (s, decay) = lemma_spring_in_frame(
        e,
        state,
        key,
        destination,
        now,
        timing,
        decays,
        i,
        axis,
        k,
    );
    let after = state.next(key, destination, now, timing, decays);
    let length = length_on(after, timing, i, axis);
    let t = passed(state, now);
    let d = smaller(t, 1 as real / 10 as real);
    let elapsed = state.elapsed(now);
    let jumps = state.jumps(key);
    let dt = frame_time(jumps, elapsed, length);
    time_is_counted_in_nanoseconds(state, now);
    lemma_constants();
    lemma_compare(length, elapsed);
    lemma_no_units(Value::zero());
    lemma_no_units(s.advanced(dt, length, decay).position);
    lemma_no_units(s.advanced(dt, length, decay).velocity);
    lemma_ten_millionth(t);
    if lasting(length) {
        lemma_lasting(length);
    }
    if jumps || !at_most(length, elapsed) {
        lemma_frame_time(t, jumps, elapsed, length);
        lemma_ten_millionth(d);
        lemma_compare(dt, length);
        lemma_compare(length, dt);
        if less(dt, length) && lasting(length) {
            lemma_time_within(dt);
            spring_moves_by_the_exponential(e, s, dt, length, decay, d);
        }
    }
}

/// A leading edge that takes no time, while the rest of the cursor takes some, is
/// at its target as soon as any time has passed: a trail size of one leaves it
/// none.
pub proof fn leading_edge_of_no_length_arrives_at_once(
    state: AnimationValue,
    key: CursorKey,
    destination: Seq<PointValue>,
    now: u64,
    timing: Timing,
    decays: DecayValues,
    i: int,
)
    requires
        0 <= i < 4,
        state.last_frame_at matches Some(at) && at < now,
        ({
            let after = state.next(key, destination, now, timing, decays);
            &&& after.corners[i].animation_length is Finite
            &&& number(after.corners[i].animation_length) == 0 as real
            &&& after.cross_length is Finite
            &&& number(after.cross_length) > 0 as real
        }),
    ensures
        ({
            let after = state.next(key, destination, now, timing, decays);
            after.corners[i].along(after.axis) == SpringValue::settled()
        }),
{
    let after = state.next(key, destination, now, timing, decays);
    let anchored = state.anchored(key, destination, timing);
    let length = after.corners[i].animation_length;
    let elapsed = state.elapsed(now);
    lemma_no_units(Value::zero());
    lemma_no_units(length);
    lemma_no_units(elapsed);
    lemma_compare(length, after.cross_length);
    time_is_counted_in_nanoseconds(state, now);
    let t = passed(state, now);
    lemma_ten_millionth(t);
    lemma_constants();
    assert(t > 0 as real);
    lemma_compare(Value::zero(), elapsed);
    lemma_longest_frame();
    assert(anchored.leads_at_once(i));
}

/// Nothing has been seen by a state that is new, or has been reset.
pub proof fn fresh_cursor_has_seen_nothing(i: int)
    requires
        0 <= i < 4,
    ensures
        ({
            let fresh = AnimationValue::fresh();
            &&& fresh.last_key is None
            &&& fresh.last_destination is None
            &&& fresh.last_frame_at is None
            &&& fresh.corners.len() == 4
            &&& number(fresh.corners[i].spring_x.position) == 0 as real
            &&& number(fresh.corners[i].spring_x.velocity) == 0 as real
            &&& number(fresh.corners[i].spring_y.position) == 0 as real
            &&& number(fresh.corners[i].spring_y.velocity) == 0 as real
            &&& number(fresh.corners[i].animation_length) == 0 as real
            &&& number(fresh.cross_length) == 0 as real
        }),
{
    lemma_no_units(Value::zero());
}

} // verus!
