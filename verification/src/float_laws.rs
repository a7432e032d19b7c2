//! How rounded arithmetic keeps order, and how far a result is off.

use vstd::arithmetic::power2::{
    lemma_pow2_adds, lemma_pow2_pos, lemma_pow2_strictly_increases, pow2,
};
use vstd::prelude::*;

use crate::float::{at_most, convert, nearest, opposite, plus, same, signed, times, Format, Value};
use crate::rounding::{lemma_round_nothing, round_ratio};
use crate::rounding_laws::{
    lemma_round_error, lemma_round_exact, lemma_round_monotone, representable, scaled,
};

verus! {

/// A finite number as an integer, in units.
pub open spec fn units(v: Value) -> int {
    match v {
        Value::Finite { negative, units } => signed(negative, units),
        _ => 0,
    }
}

/// The size of an integer.
pub open spec fn size(n: int) -> nat {
    if n < 0 {
        (-n) as nat
    } else {
        n as nat
    }
}

/// The number nearest to `num / den` units, whatever its sign.
pub open spec fn rounded(f: Format, num: int, den: nat) -> Value {
    nearest(f, num < 0, size(num), den)
}

/// Rounding keeps order.
pub proof fn lemma_rounded_order(f: Format, a: int, c: nat, b: int, d: nat)
    requires
        c > 0,
        d > 0,
        a * d <= b * c,
    ensures
        at_most(rounded(f, a, c), rounded(f, b, d)),
{
    if a >= 0 {
        assert(b >= 0) by (nonlinear_arith)
            requires
                a >= 0,
                c > 0,
                a * d <= b * c,
        ;
        lemma_round_monotone(f.precision(), a as nat, c, b as nat, d);
    } else if b < 0 {
        assert((-b) * c <= (-a) * d) by (nonlinear_arith)
            requires
                a * d <= b * c,
        ;
        lemma_round_monotone(f.precision(), (-b) as nat, d, (-a) as nat, c);
    }
}

/// A sum of finite numbers is their exact sum, rounded.
pub proof fn lemma_plus_rounds(f: Format, a: Value, b: Value)
    requires
        a is Finite,
        b is Finite,
    ensures
        same(plus(f, a, b), rounded(f, units(a) + units(b), 1)),
{
    if units(a) + units(b) == 0 {
        lemma_round_nothing(f.precision(), 1);
        lemma_pow2_pos(f.precision() + f.top());
    }
}

/// A product of finite numbers is their exact product, rounded.
pub proof fn lemma_times_rounds(f: Format, a: Value, b: Value)
    requires
        a is Finite,
        b is Finite,
    ensures
        same(times(f, a, b), rounded(f, units(a) * units(b), pow2(f.unit()))),
{
    let x = a->Finite_units;
    let y = b->Finite_units;
    let s = a->Finite_negative;
    let t = b->Finite_negative;
    lemma_pow2_pos(f.unit());
    lemma_pow2_pos(f.precision() + f.top());
    assert(signed(s, x) * signed(t, y) == signed(s != t, x * y)) by (nonlinear_arith);
    if x * y == 0 {
        lemma_round_nothing(f.precision(), pow2(f.unit()));
    }
}

/// A finite number in another format is its exact value, rounded.
pub proof fn lemma_convert_rounds(from: Format, to: Format, v: Value)
    requires
        v is Finite,
    ensures
        same(
            convert(from, to, v),
            rounded(to, units(v) * pow2(to.unit()), pow2(from.unit())),
        ),
{
    let x = v->Finite_units;
    let p = pow2(to.unit());
    lemma_pow2_pos(to.unit());
    lemma_pow2_pos(from.unit());
    lemma_pow2_pos(to.precision() + to.top());
    assert(signed(v->Finite_negative, x) * p == signed(v->Finite_negative, x * p))
        by (nonlinear_arith);
    if x == 0 {
        assert(x * p == 0) by (nonlinear_arith)
            requires
                x == 0,
        ;
        lemma_round_nothing(to.precision(), pow2(from.unit()));
    } else {
        assert(x * p > 0) by (nonlinear_arith)
            requires
                x > 0,
                p > 0,
        ;
    }
}

/// A sum with a finite number grows with its terms.
pub proof fn lemma_plus_order(f: Format, a: Value, b: Value, c: Value, d: Value)
    requires
        a is Finite,
        c is Finite,
        at_most(a, c),
        at_most(b, d),
    ensures
        at_most(plus(f, a, b), plus(f, c, d)),
        at_most(plus(f, b, a), plus(f, d, c)),
{
    if b is Finite {
        lemma_plus_rounds(f, a, b);
        lemma_plus_rounds(f, b, a);
    }
    if d is Finite {
        lemma_plus_rounds(f, c, d);
        lemma_plus_rounds(f, d, c);
    }
    if b is Finite && d is Finite {
        lemma_rounded_order(f, units(a) + units(b), 1, units(c) + units(d), 1);
    }
}

/// A product with a finite number that is not negative grows with the other
/// factor.
pub proof fn lemma_times_order(f: Format, a: Value, b: Value, factor: Value)
    requires
        factor is Finite,
        at_most(a, b),
        at_most(Value::zero(), factor),
        a is Finite && b is Finite || !factor.is_zero(),
    ensures
        at_most(times(f, a, factor), times(f, b, factor)),
        at_most(times(f, factor, a), times(f, factor, b)),
{
    let x = units(a);
    let y = units(b);
    let z = units(factor);
    let unit = pow2(f.unit());
    lemma_pow2_pos(f.unit());
    if a is Finite {
        lemma_times_rounds(f, a, factor);
        lemma_times_rounds(f, factor, a);
    }
    if b is Finite {
        lemma_times_rounds(f, b, factor);
        lemma_times_rounds(f, factor, b);
    }
    if a is Finite && b is Finite {
        assert(x * z == z * x && y * z == z * y) by (nonlinear_arith);
        assert((x * z) * unit <= (y * z) * unit) by (nonlinear_arith)
            requires
                x <= y,
                z >= 0,
                unit > 0,
        ;
        lemma_rounded_order(f, x * z, unit, y * z, unit);
    }
}

/// Conversion keeps order.
pub proof fn lemma_convert_order(from: Format, to: Format, a: Value, b: Value)
    requires
        at_most(a, b),
    ensures
        at_most(convert(from, to, a), convert(from, to, b)),
{
    if a is Finite {
        lemma_convert_rounds(from, to, a);
    }
    if b is Finite {
        lemma_convert_rounds(from, to, b);
    }
    let x = units(a);
    let y = units(b);
    let p = pow2(to.unit());
    let q = pow2(from.unit());
    lemma_pow2_pos(to.unit());
    lemma_pow2_pos(from.unit());
    if a is Finite && b is Finite {
        assert((x * p) * q <= (y * p) * q) by (nonlinear_arith)
            requires
                x <= y,
                p > 0,
                q > 0,
        ;
        lemma_rounded_order(to, x * p, q, y * p, q);
    }
}

/// Finite, and of a size of at most `pow2(e)` units.
pub open spec fn within(v: Value, e: nat) -> bool {
    v matches Value::Finite { units, .. } && units <= pow2(e)
}

/// A power of two is representable.
pub proof fn lemma_power_representable(e: nat)
    ensures
        representable(24, pow2(e)),
{
    lemma_pow2_pos(24);
    assert(scaled(1, e) == pow2(e));
}

/// Rounding stays within a power of two.
pub proof fn lemma_rounded_within(num: int, den: nat, e: nat)
    requires
        den > 0,
        size(num) <= pow2(e) * den,
        e < 277,
    ensures
        within(rounded(Format::Single, num, den), e),
{
    lemma_power_representable(e);
    lemma_pow2_strictly_increases(e, 277);
    let n = size(num);
    assert(n * 1 <= pow2(e) * den);
    lemma_round_monotone(24, n, den, pow2(e), 1);
    assert(pow2(e) * 1 == pow2(e));
    lemma_round_exact(24, pow2(e), 1);
}

/// The size of a sum.
pub proof fn lemma_plus_within(a: Value, b: Value, e: nat)
    requires
        within(a, e),
        within(b, e),
        e < 276,
    ensures
        within(a.plus(b), e + 1),
        within(a.minus(b), e + 1),
{
    reveal(Value::plus);
    reveal(Value::minus);
    vstd::arithmetic::power2::lemma_pow2_unfold(e + 1);
    lemma_plus_rounds(Format::Single, a, b);
    lemma_plus_rounds(Format::Single, a, opposite(b));
    lemma_rounded_within(units(a) + units(b), 1, e + 1);
    lemma_rounded_within(units(a) - units(b), 1, e + 1);
}

/// The size of a product.
pub proof fn lemma_times_within(a: Value, b: Value, d: nat, e: nat)
    requires
        within(a, d),
        within(b, e),
        149 <= d + e < 149 + 277,
    ensures
        within(a.times(b), (d + e - 149) as nat),
{
    reveal(Value::times);
    let r = (d + e - 149) as nat;
    lemma_times_rounds(Format::Single, a, b);
    lemma_pow2_adds(d, e);
    lemma_pow2_adds(r, 149);
    lemma_pow2_pos(149);
    let x = units(a);
    let y = units(b);
    let p = pow2(d);
    let q = pow2(e);
    assert(size(x * y) <= p * q) by (nonlinear_arith)
        requires
            -p <= x <= p,
            -q <= y <= q,
    ;
    lemma_rounded_within(x * y, pow2(149), r);
}

/// How far a sum of two numbers of bounded size is off: at most half a step
/// between neighbours.
pub proof fn lemma_plus_error(a: Value, b: Value, e: nat)
    requires
        within(a, e),
        within(b, e),
        23 <= e < 276,
    ensures
        within(a.plus(b), e + 1),
        within(a.minus(b), e + 1),
        2 * size(units(a.plus(b)) - (units(a) + units(b))) <= pow2((e - 22) as nat),
        2 * size(units(a.minus(b)) - (units(a) - units(b))) <= pow2((e - 22) as nat),
{
    reveal(Value::plus);
    reveal(Value::minus);
    lemma_plus_within(a, b, e);
    lemma_plus_rounds(Format::Single, a, b);
    lemma_plus_rounds(Format::Single, a, opposite(b));
    vstd::arithmetic::power2::lemma_pow2_unfold(e + 1);
    vstd::arithmetic::power2::lemma_pow2_unfold(e + 2);
    lemma_pow2_pos(e);
    lemma_rounded_error(units(a) + units(b), 1, (e - 22) as nat);
    lemma_rounded_error(units(a) - units(b), 1, (e - 22) as nat);
    assert(1 * pow2((e - 22) as nat) == pow2((e - 22) as nat));
}

/// How far rounding is off, where the result is in range.
pub proof fn lemma_rounded_error(num: int, den: nat, k: nat)
    requires
        den > 0,
        size(num) < den * pow2(24 + k),
        k <= 253,
    ensures
        rounded(Format::Single, num, den) is Finite ==> 2 * size(
            units(rounded(Format::Single, num, den)) * den - num,
        ) <= den * pow2(k),
{
    let n = size(num);
    lemma_round_error(24, n, den, k);
    let r = round_ratio(24, n, den);
    assert(signed(num < 0, r) * den == signed(num < 0, r * den)) by (nonlinear_arith);
}

} // verus!
