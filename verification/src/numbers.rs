//! Finite values as real numbers, and how near arithmetic on them is to exact
//! arithmetic.

use vstd::arithmetic::power2::{lemma_pow2_adds, lemma_pow2_pos, pow2};
use vstd::prelude::*;

use crate::float::{opposite, Format, Value};
use crate::float_laws::{
    lemma_plus_rounds, lemma_plus_within, lemma_times_rounds, lemma_times_within, rounded, size,
    units, within,
};
use crate::reals::{
    lemma_mul_nonnegative, lemma_mul_order, lemma_mul_reorder, lemma_mul_sum, lemma_quotient,
};
use crate::rounding::{lemma_round_nothing, quantum, round_ratio};
use crate::rounding_laws::{lemma_quantum_bounds, lemma_round_error};

verus! {

/// How many units make one.
pub open spec fn unit() -> real {
    pow2(149) as real
}

/// A finite value as a real number.
pub open spec fn number(v: Value) -> real {
    units(v) as real / unit()
}

/// The size of a real number.
pub open spec fn abs(x: real) -> real {
    if x < 0 as real {
        -x
    } else {
        x
    }
}

/// The relative error of one rounding.
pub open spec fn ulp() -> real {
    1 as real / (pow2(24) as real)
}

/// The absolute error of a product that is close to zero.
pub open spec fn speck() -> real {
    1 as real / (2 as real * unit())
}

/// How far rounding is off, in proportion to the number.
proof fn lemma_round_relative(precision: nat, num: nat, den: nat)
    requires
        precision >= 1,
        den > 0,
    ensures
        pow2(precision) * size(round_ratio(precision, num, den) * den - num) <= num + pow2(
            (precision - 1) as nat,
        ) * den,
        den == 1 ==> pow2(precision) * size(round_ratio(precision, num, den) * den - num) <= num,
{
    let whole = num / den;
    vstd::arithmetic::div_mod::lemma_fundamental_div_mod(num as int, den as int);
    let k = quantum(precision, whole);
    lemma_quantum_bounds(precision, whole);
    let bound = pow2(precision + k);
    assert(num < den * bound) by (nonlinear_arith)
        requires
            num < den * whole + den,
            whole < bound,
            den > 0,
    ;
    lemma_round_error(precision, num, den, k);
    let err = size(round_ratio(precision, num, den) * den - num);
    assert(2 * err <= den * pow2(k));
    vstd::arithmetic::power2::lemma2_to64();
    let low = (precision - 1) as nat;
    lemma_pow2_adds(low, k);
    lemma_pow2_adds(low, 1);
    let half = pow2(low);
    let q = pow2(k);
    assert(pow2(precision) * err <= half * (den * q)) by (nonlinear_arith)
        requires
            2 * err <= den * q,
            pow2(precision) == half * 2,
    ;
    if k > 0 {
        assert(half * (den * q) <= num) by (nonlinear_arith)
            requires
                whole >= half * q,
                den * whole <= num,
        ;
    } else {
        assert(half * (den * q) == half * den) by (nonlinear_arith)
            requires
                q == 1,
        ;
        if den == 1 {
            assert(1 * q == 1);
            assert(err == 0);
            assert(pow2(precision) * 0 == 0) by (nonlinear_arith);
        }
    }
}

/// A product of integers, as a real number.
pub proof fn lemma_real_product(a: int, b: int)
    ensures
        (a * b) as real == a as real * b as real,
{
    assert((a * b) as real == a as real * b as real) by (nonlinear_arith);
}

/// The units are positive, and what rounding loses is small.
pub proof fn lemma_constants()
    ensures
        unit() > 0 as real,
        ulp() > 0 as real,
        ulp() * (16777216 as real) == 1 as real,
        speck() > 0 as real,
        speck() <= ulp() * ulp() * ulp() * ulp() * ulp() * ulp(),
{
    lemma_pow2_pos(149);
    vstd::arithmetic::power2::lemma2_to64();
    lemma_pow2_adds(24, 24);
    lemma_pow2_adds(48, 48);
    lemma_pow2_adds(96, 48);
    lemma_pow2_adds(144, 5);
    let p = pow2(24);
    lemma_real_product(p as int, p as int);
    lemma_real_product(pow2(48) as int, pow2(48) as int);
    lemma_real_product(pow2(96) as int, pow2(48) as int);
    lemma_real_product(pow2(144) as int, 32);
    let r = p as real;
    let q = pow2(144) as real;
    let u = ulp();
    assert(r > 0 as real);
    assert(u * r == 1 as real) by (nonlinear_arith)
        requires
            u == 1 as real / r,
            r > 0 as real,
    ;
    assert(u > 0 as real) by (nonlinear_arith)
        requires
            u * r == 1 as real,
            r > 0 as real,
    ;
    let six = u * u * u * u * u * u;
    assert(q == r * r * r * r * r * r) by (nonlinear_arith)
        requires
            pow2(48) as real == r * r,
            pow2(96) as real == pow2(48) as real * pow2(48) as real,
            q == pow2(96) as real * pow2(48) as real,
    ;
    assert(six * q == 1 as real) by (nonlinear_arith)
        requires
            u * r == 1 as real,
            q == r * r * r * r * r * r,
            six == u * u * u * u * u * u,
    ;
    let v = unit();
    let k = speck();
    assert(k * (2 as real * v) == 1 as real) by (nonlinear_arith)
        requires
            k == 1 as real / (2 as real * v),
            v > 0 as real,
    ;
    assert(v >= q) by (nonlinear_arith)
        requires
            v == q * (32 as real),
            q > 0 as real,
    ;
    assert(k > 0 as real) by (nonlinear_arith)
        requires
            k * (2 as real * v) == 1 as real,
            v > 0 as real,
    ;
    assert(k <= six) by (nonlinear_arith)
        requires
            k * (2 as real * v) == 1 as real,
            six * q == 1 as real,
            v >= q,
            q > 0 as real,
            k > 0 as real,
    ;
}

/// The size of an integer, as a real number.
proof fn lemma_size(n: int)
    ensures
        size(n) as real == abs(n as real),
{
}

/// A rounded ratio is near to it, in either format.
pub proof fn lemma_nearest_near(f: Format, num: int, den: nat)
    requires
        den > 0,
        rounded(f, num, den) is Finite,
    ensures
        ({
            let r = units(rounded(f, num, den)) as real;
            let d = den as real;
            let p = pow2(f.precision()) as real;
            &&& p * abs(r * d - num as real) <= abs(num as real) + (p / 2 as real) * d
            &&& den == 1 ==> p * abs(r * d - num as real) <= abs(num as real)
        }),
{
    let n = size(num);
    let precision = f.precision();
    let low = (precision - 1) as nat;
    lemma_round_relative(precision, n, den);
    let u = units(rounded(f, num, den));
    let m = round_ratio(precision, n, den);
    let err = size(m * den - n);
    assert(size(u * den - num) == err) by {
        if num < 0 {
            assert((-m) * den == -(m * den)) by (nonlinear_arith);
        }
    }
    lemma_size(u * den - num);
    lemma_size(num);
    lemma_real_product(u, den as int);
    lemma_real_product(pow2(precision) as int, err as int);
    lemma_real_product(pow2(low) as int, den as int);
    lemma_pow2_adds(low, 1);
    vstd::arithmetic::power2::lemma2_to64();
    assert(pow2(low) as real == pow2(precision) as real / 2 as real);
}

/// A rounded ratio is near to it.
pub proof fn lemma_rounded_near(num: int, den: nat)
    requires
        den > 0,
        rounded(Format::Single, num, den) is Finite,
    ensures
        ({
            let r = units(rounded(Format::Single, num, den)) as real;
            let d = den as real;
            let p = pow2(24) as real;
            &&& p * abs(r * d - num as real) <= abs(num as real) + (p / 2 as real) * d
            &&& den == 1 ==> p * abs(r * d - num as real) <= abs(num as real)
        }),
{
    lemma_nearest_near(Format::Single, num, den);
}

/// A sum is near to the exact one.
pub proof fn lemma_plus_near(a: Value, b: Value)
    requires
        within(a, 275),
        within(b, 275),
    ensures
        a.plus(b) is Finite,
        abs(number(a.plus(b)) - (number(a) + number(b))) <= ulp() * abs(number(a) + number(b)),
{
    reveal(Value::plus);
    lemma_plus_within(a, b, 275);
    lemma_plus_rounds(Format::Single, a, b);
    let n = units(a) + units(b);
    lemma_rounded_near(n, 1);
    let r = units(a.plus(b)) as real;
    let x = units(a) as real;
    let y = units(b) as real;
    let p = pow2(24) as real;
    let v = unit();
    let u = ulp();
    lemma_constants();
    vstd::arithmetic::power2::lemma2_to64();
    assert(n as real == x + y);
    assert(p * abs(r - (x + y)) <= abs(x + y));
    lemma_scaled(r, x + y, v, p, u);
    assert((x + y) / v == x / v + y / v) by (nonlinear_arith)
        requires
            v > 0 as real,
    ;
}

/// Scaling keeps nearness.
pub proof fn lemma_scaled(r: real, x: real, v: real, p: real, u: real)
    requires
        v > 0 as real,
        p > 0 as real,
        u == 1 as real / p,
        p * abs(r - x) <= abs(x),
    ensures
        abs(r / v - x / v) <= u * abs(x / v),
{
    let a = r / v;
    let b = x / v;
    assert(a * v == r) by (nonlinear_arith)
        requires
            a == r / v,
            v > 0 as real,
    ;
    assert(b * v == x) by (nonlinear_arith)
        requires
            b == x / v,
            v > 0 as real,
    ;
    assert(u * p == 1 as real) by (nonlinear_arith)
        requires
            u == 1 as real / p,
            p > 0 as real,
    ;
    let d = abs(a - b);
    let e = abs(b);
    assert(abs(r - x) == d * v) by (nonlinear_arith)
        requires
            a * v == r,
            b * v == x,
            v > 0 as real,
            d == abs(a - b),
    ;
    assert(abs(x) == e * v) by (nonlinear_arith)
        requires
            b * v == x,
            v > 0 as real,
            e == abs(b),
    ;
    assert(p * d <= e) by (nonlinear_arith)
        requires
            p * (d * v) <= e * v,
            v > 0 as real,
    ;
    assert(d <= u * e) by (nonlinear_arith)
        requires
            p * d <= e,
            u * p == 1 as real,
            p > 0 as real,
    ;
}

/// A difference is near to the exact one.
pub proof fn lemma_minus_near(a: Value, b: Value)
    requires
        within(a, 275),
        within(b, 275),
    ensures
        a.minus(b) is Finite,
        abs(number(a.minus(b)) - (number(a) - number(b))) <= ulp() * abs(number(a) - number(b)),
{
    assert(a.minus(b) == a.plus(opposite(b))) by {
        reveal(Value::plus);
        reveal(Value::minus);
    }
    lemma_opposite(b);
    lemma_plus_near(a, opposite(b));
}

/// Zero, and only zero, is no units.
pub proof fn lemma_no_units(v: Value)
    ensures
        number(v) == 0 as real <==> units(v) == 0,
        units(v) > 0 <==> number(v) > 0 as real,
{
    lemma_constants();
    let x = units(v) as real;
    let w = unit();
    let n = number(v);
    lemma_quotient(x, w);
    assert((n == 0 as real) == (x == 0 as real) && (n > 0 as real) == (x > 0 as real))
        by (nonlinear_arith)
        requires
            n * w == x,
            w > 0 as real,
    ;
}

/// The opposite of a number.
pub proof fn lemma_opposite(a: Value)
    requires
        a is Finite,
    ensures
        number(opposite(a)) == -number(a),
{
    let x = units(a) as real;
    let v = unit();
    lemma_constants();
    assert(units(opposite(a)) as real == -x);
    assert((-x) / v == -(x / v)) by (nonlinear_arith)
        requires
            v > 0 as real,
    ;
}

/// A product is near to the exact one.
pub proof fn lemma_times_near(a: Value, b: Value, d: nat, e: nat)
    requires
        within(a, d),
        within(b, e),
        149 <= d + e < 149 + 277,
    ensures
        a.times(b) is Finite,
        within(a.times(b), (d + e - 149) as nat),
        abs(number(a.times(b)) - number(a) * number(b)) <= ulp() * abs(number(a) * number(b))
            + speck(),
{
    reveal(Value::times);
    lemma_times_within(a, b, d, e);
    lemma_times_rounds(Format::Single, a, b);
    lemma_pow2_pos(149);
    let n = units(a) * units(b);
    lemma_rounded_near(n, pow2(149));
    lemma_real_product(units(a), units(b));
    let r = units(a.times(b)) as real;
    let x = units(a) as real;
    let y = units(b) as real;
    let p = pow2(24) as real;
    let v = unit();
    let u = ulp();
    let k = speck();
    lemma_constants();
    vstd::arithmetic::power2::lemma2_to64();
    let f = r / v;
    let g = x / v;
    let h = y / v;
    assert(f * v == r && g * v == x && h * v == y) by (nonlinear_arith)
        requires
            f == r / v,
            g == x / v,
            h == y / v,
            v > 0 as real,
    ;
    let err = abs(f - g * h);
    let big = abs(g * h);
    assert(abs(r * v - x * y) == err * (v * v)) by (nonlinear_arith)
        requires
            f * v == r,
            g * v == x,
            h * v == y,
            v > 0 as real,
            err == abs(f - g * h),
    ;
    assert(abs(x * y) == big * (v * v)) by (nonlinear_arith)
        requires
            g * v == x,
            h * v == y,
            v > 0 as real,
            big == abs(g * h),
    ;
    assert(u * p == 1 as real && k * (2 as real * v) == 1 as real) by (nonlinear_arith)
        requires
            u == 1 as real / p,
            k == 1 as real / (2 as real * v),
            v > 0 as real,
            p > 0 as real,
    ;
    assert(p * (err * (v * v)) <= big * (v * v) + (p / 2 as real) * v);
    assert(err <= u * big + k) by (nonlinear_arith)
        requires
            p * (err * (v * v)) <= big * (v * v) + (p / 2 as real) * v,
            u * p == 1 as real,
            k * (2 as real * v) == 1 as real,
            v > 0 as real,
            p > 0 as real,
            u > 0 as real,
    ;
}

/// A quotient is near to the exact one.
pub proof fn lemma_over_near(a: Value, b: Value)
    requires
        a is Finite,
        b is Finite,
        !b.is_zero(),
        a.over(b) is Finite,
        units(a) >= 0,
        units(b) > 0,
    ensures
        abs(number(a.over(b)) * number(b) - number(a)) <= ulp() * number(a) + speck() * number(b),
{
    reveal(Value::over);
    let x = units(a);
    let y = units(b) as nat;
    let n = x * pow2(149);
    lemma_pow2_pos(149);
    assert(n >= 0) by (nonlinear_arith)
        requires
            x >= 0,
            n == x * pow2(149),
    ;
    let q = a.over(b);
    assert(units(q) == units(rounded(Format::Single, n, y))) by {
        if x == 0 {
            assert(0 * pow2(149) == 0);
            lemma_round_nothing(24, y);
        }
    }
    assert(rounded(Format::Single, n, y) is Finite);
    lemma_rounded_near(n, y);
    lemma_real_product(x, pow2(149) as int);
    lemma_constants();
    vstd::arithmetic::power2::lemma2_to64();
    let r = units(q) as real;
    let d = y as real;
    let v = unit();
    let p = pow2(24) as real;
    let u = ulp();
    let k = speck();
    let f = number(q);
    let g = number(b);
    let h = number(a);
    lemma_quotient(r, v);
    lemma_quotient(d, v);
    lemma_quotient(x as real, v);
    // p * |r * d - x * v| <= x * v + p / 2 * d, over v * v.
    let err = abs(f * g - h);
    assert(r * d == (f * g) * (v * v)) by (nonlinear_arith)
        requires
            f * v == r,
            g * v == d,
    ;
    assert(x as real * v == h * (v * v)) by (nonlinear_arith)
        requires
            h * v == x as real,
    ;
    let vv = v * v;
    assert(vv > 0 as real) by (nonlinear_arith)
        requires
            vv == v * v,
            v > 0 as real,
    ;
    assert(abs(r * d - x as real * v) == err * vv) by {
        lemma_mul_sum(vv, f * g, h);
        lemma_mul_sum(vv, h, f * g);
        lemma_mul_nonnegative(err, vv);
    }
    assert(abs(n as real) == h * vv);
    assert(p * (err * vv) <= h * vv + (p / 2 as real) * (g * v));
    assert(u * p == 1 as real && k * (2 as real * v) == 1 as real) by (nonlinear_arith)
        requires
            u == 1 as real / p,
            k == 1 as real / (2 as real * v),
            v > 0 as real,
            p > 0 as real,
    ;
    // Times u, and g * v == 2 * k * v * (g * v).
    let left = err * vv;
    lemma_mul_order(p * left, h * vv + (p / 2 as real) * (g * v), u);
    lemma_mul_reorder(u, p, left);
    lemma_mul_sum(u, h * vv, (p / 2 as real) * (g * v));
    lemma_mul_reorder(u, p / 2 as real, g * v);
    assert(u * (p / 2 as real) == 1 as real / 2 as real) by (nonlinear_arith)
        requires
            u * p == 1 as real,
    ;
    lemma_mul_reorder(u, h, vv);
    assert((k * g) * vv == (g * v) / 2 as real) by (nonlinear_arith)
        requires
            k * (2 as real * v) == 1 as real,
            vv == v * v,
    ;
    lemma_mul_sum(vv, u * h, k * g);
    let right = u * h + k * g;
    assert(left <= right * vv);
    assert(err <= right) by (nonlinear_arith)
        requires
            err * vv <= right * vv,
            vv > 0 as real,
    ;
}

} // verus!
