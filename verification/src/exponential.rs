//! The exponential function, and decays that are near to it.

use vstd::arithmetic::power2::{
    lemma_pow2_adds, lemma_pow2_pos, lemma_pow2_strictly_increases, pow2,
};
use vstd::prelude::*;

use crate::float::{less, opposite, Value};
use crate::float_laws::{lemma_rounded_within, units, within};
use crate::laws::{lemma_ratio, lemma_ratio_below};
use crate::numbers::{
    abs, lemma_constants, lemma_opposite, lemma_over_near, lemma_real_product, lemma_rounded_near,
    lemma_times_near, number, speck, ulp, unit,
};
use crate::reals::{
    lemma_mul_nonnegative, lemma_mul_order, lemma_mul_reorder, lemma_mul_sum, lemma_quotient,
};
use crate::spring::{decay_exponent, omega};
use crate::spring_error::{dust, lemma_dust};

verus! {

/// The function turns this sum into a product.
pub open spec fn multiplies(e: spec_fn(real) -> real, x: real, y: real) -> bool {
    e(x + y) == e(x) * e(y)
}

/// The exponential function: it turns sums into products, and its graph lies
/// above the tangent at zero. No other function does both.
pub open spec fn exponential(e: spec_fn(real) -> real) -> bool {
    &&& forall|x: real, y: real| #[trigger] multiplies(e, x, y)
    &&& forall|x: real| #[trigger] e(x) >= 1 as real + x
}

/// The exponential of zero is one, and no exponential is zero or less.
pub proof fn lemma_exponential(e: spec_fn(real) -> real, x: real)
    requires
        exponential(e),
    ensures
        e(0 as real) == 1 as real,
        e(x) > 0 as real,
        e(-x) > 0 as real,
        e(x) * e(-x) == 1 as real,
{
    let o = e(0 as real);
    assert(multiplies(e, 0 as real, 0 as real));
    assert(0 as real + 0 as real == 0 as real);
    assert(o >= 1 as real + 0 as real);
    assert(o == 1 as real) by (nonlinear_arith)
        requires
            o == o * o,
            o >= 1 as real,
    ;
    assert(multiplies(e, x, -x));
    assert(x + (-x) == 0 as real);
    lemma_positive(e, x);
    lemma_positive(e, -x);
}

/// An exponential is a square that is not zero.
proof fn lemma_positive(e: spec_fn(real) -> real, x: real)
    requires
        exponential(e),
        e(0 as real) == 1 as real,
    ensures
        e(x) > 0 as real,
{
    let half = x / 2 as real;
    assert(multiplies(e, half, half));
    assert(half + half == x);
    assert(multiplies(e, x, -x));
    assert(x + (-x) == 0 as real);
    let a = e(half);
    let b = e(x);
    let c = e(-x);
    assert(b > 0 as real) by (nonlinear_arith)
        requires
            b == a * a,
            b * c == 1 as real,
    ;
}

/// The exponential grows.
pub proof fn lemma_exponential_order(e: spec_fn(real) -> real, x: real, y: real)
    requires
        exponential(e),
        x <= y,
    ensures
        e(x) <= e(y),
{
    lemma_exponential(e, x);
    let d = y - x;
    assert(multiplies(e, x, d));
    assert(x + d == y);
    assert(e(d) >= 1 as real + d);
    lemma_mul_order(1 as real, e(d), e(x));
}

/// Close to zero the exponential is close to one.
pub proof fn lemma_exponential_near_one(e: spec_fn(real) -> real, x: real, d: real)
    requires
        exponential(e),
        abs(x) <= d,
        100 as real * d <= 1 as real,
    ensures
        100 as real * abs(e(x) - 1 as real) <= 102 as real * d,
{
    lemma_exponential(e, x);
    let a = e(x);
    let b = e(-x);
    assert(a >= 1 as real + x);
    assert(b >= 1 as real - x);
    // a * (1 - d) <= 1.
    lemma_mul_order(1 as real - d, b, a);
    lemma_mul_sum(a, 1 as real, d);
    lemma_mul_order(d, 1 as real / 100 as real, a);
    assert(99 as real * a <= 100 as real);
    lemma_mul_order(99 as real * a, 100 as real, d);
    lemma_mul_reorder(99 as real, a, d);
}

/// With decay comes no growth: `(1 + h) * e(-h)` is at most one.
pub proof fn lemma_damped(e: spec_fn(real) -> real, h: real)
    requires
        exponential(e),
        h >= 0 as real,
    ensures
        0 as real <= (1 as real + h) * e(-h) <= 1 as real,
        e(-h) <= 1 as real,
{
    lemma_exponential(e, h);
    lemma_mul_order(1 as real + h, e(h), e(-h));
    lemma_mul_nonnegative(1 as real + h, e(-h));
    lemma_mul_nonnegative(h, e(-h));
    lemma_mul_sum(e(-h), 1 as real, h);
}

/// The decay is the exponential of `x`, but for a relative error of at most
/// four roundings.
pub open spec fn nearly_exponential(
    e: spec_fn(real) -> real,
    x: Value,
    decay: Value,
) -> bool {
    let exact = e(number(x));
    &&& decay is Finite
    &&& abs(number(decay) - exact) <= 4 as real * (ulp() * exact)
}

/// An animation length between a thousandth of a second and ten seconds.
pub open spec fn ordinary(length: Value) -> bool {
    length matches Value::Finite { negative, units } && !negative && pow2(139) <= units <= 10
        * pow2(149)
}

/// An animation length between a thousandth of a second and more than an hour.
pub open spec fn lasting(length: Value) -> bool {
    ordinary(length) || (length matches Value::Finite { negative, units } && !negative && pow2(139)
        <= units <= pow2(161))
}

/// A lasting length in seconds.
pub proof fn lemma_lasting(length: Value)
    requires
        lasting(length),
    ensures
        1 as real <= 1024 as real * number(length),
        number(length) <= 4096 as real,
        units(length) > 0,
{
    if ordinary(length) {
        lemma_ordinary(length);
    } else {
        lemma_constants();
        lemma_pow2_pos(139);
        let x = units(length) as real;
        let v = unit();
        lemma_quotient(x, v);
        let l = number(length);
        vstd::arithmetic::power2::lemma2_to64();
        lemma_pow2_adds(139, 10);
        lemma_pow2_adds(12, 149);
        lemma_real_product(pow2(139) as int, 1024);
        lemma_real_product(4096, pow2(149) as int);
        let w = pow2(139) as real;
        assert(1 as real <= 1024 as real * l) by (nonlinear_arith)
            requires
                l * v == x,
                v == w * (1024 as real),
                x >= w,
                w > 0 as real,
        ;
        assert(l <= 4096 as real) by (nonlinear_arith)
            requires
                l * v == x,
                x <= 4096 as real * v,
                v > 0 as real,
        ;
    }
}

/// An ordinary length in seconds.
pub proof fn lemma_ordinary(length: Value)
    requires
        ordinary(length),
    ensures
        1 as real <= 1024 as real * number(length),
        number(length) <= 10 as real,
        units(length) > 0,
{
    lemma_constants();
    lemma_pow2_pos(139);
    let x = units(length) as real;
    let v = unit();
    lemma_quotient(x, v);
    let l = number(length);
    vstd::arithmetic::power2::lemma2_to64();
    lemma_pow2_adds(139, 10);
    lemma_real_product(pow2(139) as int, 1024);
    lemma_real_product(10, pow2(149) as int);
    assert(v == pow2(139) as real * (1024 as real));
    let w = pow2(139) as real;
    assert(1 as real <= 1024 as real * l) by (nonlinear_arith)
        requires
            l * v == x,
            v == w * (1024 as real),
            x >= w,
            w > 0 as real,
    ;
    assert(l <= 10 as real) by (nonlinear_arith)
        requires
            l * v == x,
            x <= 10 as real * v,
            v > 0 as real,
    ;
}

/// The ratio that the angular frequency is made of.
proof fn lemma_frequency_ratio()
    ensures
        Value::ratio(583, 100) is Finite,
        units(Value::ratio(583, 100)) > 0,
        582 as real <= 100 as real * number(Value::ratio(583, 100)) <= 584 as real,
{
    let r = Value::ratio(583, 100);
    lemma_pow2_adds(3, 149);
    vstd::arithmetic::power2::lemma2_to64();
    lemma_ratio_below(583, 100, 8, 149);
    lemma_ratio(583, 100);
    lemma_constants();
    lemma_pow2_pos(149);
    let n = (583 * pow2(149)) as int;
    lemma_rounded_near(n, 100);
    lemma_real_product(583, pow2(149) as int);
    let x = units(r) as real;
    let v = unit();
    let p = pow2(24) as real;
    lemma_quotient(x, v);
    let f = number(r);
    assert(v >= 16777216 as real) by {
        lemma_pow2_strictly_increases(24, 149);
    }
    let d = x * (100 as real) - 583 as real * v;
    let bound = 583 as real * v + (p / 2 as real) * (100 as real);
    assert(p * abs(d) <= bound);
    assert(p == 16777216 as real);
    assert(bound <= 1200 as real * v);
    assert(abs(d) <= v) by (nonlinear_arith)
        requires
            (16777216 as real) * abs(d) <= 1200 as real * v,
            v > 0 as real,
    ;
    assert(d == (100 as real * f - 583 as real) * v) by (nonlinear_arith)
        requires
            d == x * (100 as real) - 583 as real * v,
            f * v == x,
    ;
    assert(-1 as real <= 100 as real * f - 583 as real <= 1 as real) by (nonlinear_arith)
        requires
            d == (100 as real * f - 583 as real) * v,
            -v <= d <= v,
            v > 0 as real,
    ;
    assert(x > 0 as real) by (nonlinear_arith)
        requires
            f * v == x,
            f > 0 as real,
            v > 0 as real,
    ;
}

/// The angular frequency of a spring with a lasting animation length.
pub proof fn lemma_frequency(length: Value)
    requires
        lasting(length),
    ensures
        omega(length) is Finite,
        within(omega(length), 163),
        1000 as real * number(omega(length)) >= 1 as real,
        ordinary(length) ==> 2 as real * number(omega(length)) >= 1 as real,
        58 as real <= 10 as real * (number(omega(length)) * number(length)) <= 59 as real,
{
    let r = Value::ratio(583, 100);
    lemma_frequency_ratio();
    lemma_lasting(length);
    lemma_constants();
    lemma_dust();
    let wv = omega(length);
    lemma_omega_range(length);
    lemma_over_near(r, length);
    let w = number(wv);
    let l = number(length);
    let f = number(r);
    let u = ulp();
    let k = speck();
    lemma_mul_order(u, 1 as real / 1000 as real, f);
    lemma_tiny_speck();
    lemma_mul_order(k, 1 as real / 10_000_000 as real, l);
    assert(58 as real <= 10 as real * (w * l) <= 59 as real);
    // With l <= 4096, w is more than 0.001.
    if 1000 as real * w < 1 as real {
        lemma_mul_order(1000 as real * w, 1 as real, l);
        lemma_mul_reorder(1000 as real, w, l);
    }
    // With l <= 10, w is at least 0.58.
    if ordinary(length) {
        lemma_ordinary(length);
        if 2 as real * w < 1 as real {
            lemma_mul_order(2 as real * w, 1 as real, l);
            lemma_mul_reorder(2 as real, w, l);
        }
    }
}

/// What a product close to zero loses is next to nothing.
proof fn lemma_tiny_speck()
    ensures
        (0 as real) < speck(),
        10_000_000 as real * speck() <= 1 as real,
{
    lemma_constants();
    lemma_dust();
    let u = ulp();
    let k = dust();
    lemma_mul_order(u, 1 as real, k);
}

/// The angular frequency is in range.
proof fn lemma_omega_range(length: Value)
    requires
        lasting(length),
    ensures
        omega(length) is Finite,
        within(omega(length), 163),
{
    reveal(Value::over);
    lemma_pow2_adds(3, 149);
    vstd::arithmetic::power2::lemma2_to64();
    lemma_ratio_below(583, 100, 8, 149);
    lemma_ratio(583, 100);
    let x = units(Value::ratio(583, 100)) as nat;
    let y = units(length) as nat;
    lemma_pow2_pos(139);
    let unit = pow2(149);
    lemma_pow2_adds(152, 149);
    lemma_pow2_adds(162, 139);
    assert(x * unit <= pow2(162) * y) by (nonlinear_arith)
        requires
            x <= pow2(152),
            y >= pow2(139),
            pow2(152) * unit == pow2(162) * pow2(139),
    ;
    lemma_rounded_within((x * unit) as int, y, 162);
    lemma_pow2_strictly_increases(162, 163);
}

/// The angle that a spring turns by in a frame.
pub open spec fn angle(dt: Value, length: Value) -> real {
    number(omega(length)) * number(dt)
}

/// A time that is not negative, and less than the animation length.
pub open spec fn short_of(dt: Value, length: Value) -> bool {
    dt is Finite && units(dt) >= 0 && less(dt, length)
}

/// The angle of a frame, and its decay.
pub proof fn lemma_decay(e: spec_fn(real) -> real, dt: Value, length: Value, decay: Value)
    requires
        exponential(e),
        lasting(length),
        ordinary(length) || within(dt, 153),
        short_of(dt, length),
        nearly_exponential(e, decay_exponent(dt, length), decay),
    ensures
        ({
            let h = angle(dt, length);
            let c = number(decay);
            let exact = e(-h);
            &&& 0 as real <= h
            &&& 10 as real * h <= 59 as real
            &&& within(dt, 153)
            &&& within(decay, 150)
            &&& 0 as real <= c
            &&& 2 as real * c <= 3 as real
            &&& (0 as real) < exact <= 1 as real
            &&& abs(c - exact) <= 16 as real * (ulp() * exact)
        }),
{
    lemma_frequency(length);
    lemma_lasting(length);
    lemma_constants();
    lemma_dust();
    let wv = omega(length);
    let w = number(wv);
    let t = number(dt);
    let l = number(length);
    let h = angle(dt, length);
    let u = ulp();
    let k = speck();
    let v = unit();
    // 0 <= t <= l.
    lemma_quotient(units(dt) as real, v);
    lemma_quotient(units(length) as real, v);
    assert(0 as real <= t <= l) by (nonlinear_arith)
        requires
            t * v == units(dt) as real,
            l * v == units(length) as real,
            0 as real <= units(dt) as real <= units(length) as real,
            v > 0 as real,
    ;
    lemma_mul_order(t, l, w);
    lemma_mul_nonnegative(w, t);
    assert(within(dt, 153)) by {
        vstd::arithmetic::power2::lemma2_to64();
        lemma_pow2_adds(4, 149);
        lemma_pow2_pos(149);
    }
    // The exponent.
    lemma_opposite(wv);
    lemma_times_near(opposite(wv), dt, 163, 153);
    let x = number(decay_exponent(dt, length));
    lemma_mul_sum(t, 0 as real, w);
    assert(0 as real * t == 0 as real);
    assert(number(opposite(wv)) * t == -h);
    let d = x + h;
    lemma_mul_order(h, 6 as real, u);
    lemma_mul_reorder(u, h, h);
    lemma_tiny_speck();
    assert(k <= u) by {
        lemma_mul_order(u, 1 as real, dust());
    }
    assert(abs(d) <= 7 as real * u);
    assert(multiplies(e, -h, d));
    assert(-h + d == x);
    lemma_exponential_near_one(e, d, 7 as real * u);
    lemma_exponential(e, h);
    lemma_damped(e, h);
    let exact = e(-h);
    let f = e(d);
    let near = e(x);
    // |near - exact| <= 8 u exact.
    lemma_mul_sum(exact, f, 1 as real);
    lemma_mul_order(f - 1 as real, 8 as real * u, exact);
    lemma_mul_order(1 as real - f, 8 as real * u, exact);
    lemma_mul_sum(exact, 1 as real, f);
    lemma_mul_reorder(exact, 8 as real, u);
    lemma_mul_reorder(8 as real, u, exact);
    assert(abs(near - exact) <= 8 as real * (u * exact));
    // |c - near| <= 4 u near <= 8 u exact.
    assert(8 as real * (u * exact) <= exact) by {
        lemma_mul_order(8 as real * u, 1 as real, exact);
        lemma_mul_reorder(8 as real, u, exact);
    }
    lemma_mul_order(near, 2 as real * exact, u);
    lemma_mul_reorder(u, 2 as real, exact);
    lemma_mul_order(exact, 1 as real, u);
    lemma_mul_nonnegative(u, exact);
    let c = number(decay);
    assert(abs(c - exact) <= 16 as real * (u * exact));
    assert(16 as real * (u * exact) <= exact) by {
        lemma_mul_order(16 as real * u, 1 as real, exact);
        lemma_mul_reorder(16 as real, u, exact);
    }
    assert(c <= 3 as real / 2 as real);
    vstd::arithmetic::power2::lemma2_to64();
    lemma_number_within(decay, 1);
}

/// A number that is at most `pow2(k)` has at most `pow2(149 + k)` units.
pub proof fn lemma_number_within(v: Value, k: nat)
    requires
        v is Finite,
        abs(number(v)) <= pow2(k) as real,
    ensures
        within(v, 149 + k),
{
    lemma_constants();
    let x = units(v) as real;
    let bound = pow2(k) as real;
    lemma_quotient(x, unit());
    let n = number(v);
    lemma_pow2_adds(149, k);
    lemma_real_product(pow2(149) as int, pow2(k) as int);
    lemma_mul_order(n, bound, unit());
    lemma_mul_order(-n, bound, unit());
    lemma_mul_sum(unit(), 0 as real, n);
    assert(0 as real * unit() == 0 as real);
    assert(-(pow2(149 + k) as real) <= x <= pow2(149 + k) as real);
}

/// A number of at most `pow2(149 + k)` units is at most `pow2(k)`.
pub proof fn lemma_within_number(v: Value, k: nat)
    requires
        within(v, 149 + k),
    ensures
        abs(number(v)) <= pow2(k) as real,
{
    lemma_constants();
    let x = units(v) as real;
    let bound = pow2(k) as real;
    lemma_quotient(x, unit());
    let n = number(v);
    lemma_pow2_adds(149, k);
    lemma_real_product(pow2(149) as int, pow2(k) as int);
    let w = unit();
    assert(w * bound == bound * w) by (nonlinear_arith);
    assert(-(bound * w) <= x <= bound * w);
    assert(n <= bound && -n <= bound) by (nonlinear_arith)
        requires
            n * w == x,
            -(bound * w) <= x <= bound * w,
            w > 0 as real,
    ;
}

} // verus!
