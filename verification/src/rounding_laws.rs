//! Laws of rounding: a rounded number is one of the format, none of the format
//! is nearer, numbers of the format stay as they are, and order is kept.

use vstd::arithmetic::div_mod::{lemma_fundamental_div_mod, lemma_fundamental_div_mod_converse};
use vstd::arithmetic::power2::{
    lemma_pow2_adds, lemma_pow2_pos, lemma_pow2_strictly_increases, lemma_pow2_unfold, pow2,
};
use vstd::prelude::*;

use crate::rounding::{nearest_even, quantum, round_ratio};

verus! {

/// `n * 2^k`.
pub open spec fn scaled(n: nat, k: nat) -> nat {
    n * pow2(k)
}

/// The magnitude needs no more than `precision` significant bits.
pub open spec fn representable(precision: nat, y: nat) -> bool {
    exists|n: nat, k: nat| n <= pow2(precision) && y == #[trigger] scaled(n, k)
}

/// How far a magnitude is from `num / den`, times `den`.
pub open spec fn distance(y: nat, num: nat, den: nat) -> int {
    let d = y * den - num;
    if d >= 0 {
        d
    } else {
        -d
    }
}

/// The quantum is the least one that the number fits.
pub proof fn lemma_quantum_bounds(precision: nat, whole: nat)
    ensures
        whole < pow2(precision + quantum(precision, whole)),
        quantum(precision, whole) > 0 ==> whole >= pow2(
            (precision + quantum(precision, whole) - 1) as nat,
        ),
    decreases whole,
{
    lemma_pow2_pos(precision);
    if !(whole == 0 || whole < pow2(precision)) {
        let k = quantum(precision, whole / 2);
        lemma_quantum_bounds(precision, whole / 2);
        lemma_pow2_unfold(precision + (1 + k));
        if k > 0 {
            lemma_pow2_unfold((precision + k) as nat);
        }
    }
}

/// Quotient and remainder of the number that is rounded, in half quanta.
proof fn lemma_halves(precision: nat, num: nat, den: nat)
    requires
        den > 0,
    ensures
        ({
            let p = pow2(quantum(precision, num / den));
            let step = den * p;
            let h = (2 * num) as nat / step;
            let r = (2 * num) as nat % step;
            &&& p > 0
            &&& step > 0
            &&& 2 * num == h * step + r
            &&& 0 <= r < step
            &&& h < 2 * pow2(precision)
        }),
{
    let whole = num / den;
    let k = quantum(precision, whole);
    let p = pow2(k);
    let full = pow2(precision);
    let step = den * p;
    lemma_pow2_pos(k);
    assert(step > 0) by (nonlinear_arith)
        requires
            den > 0,
            p > 0,
            step == den * p,
    ;
    lemma_fundamental_div_mod((2 * num) as int, step as int);
    let h = (2 * num) as nat / step;
    let r = (2 * num) as nat % step;
    assert(step * h == h * step) by (nonlinear_arith);
    lemma_quantum_bounds(precision, whole);
    lemma_pow2_adds(precision, k);
    lemma_fundamental_div_mod(num as int, den as int);
    let size = full * p;
    let rest = num % den;
    assert(num < den * size) by (nonlinear_arith)
        requires
            num == den * whole + rest,
            rest < den,
            whole + 1 <= size,
            den > 0,
    ;
    assert(h < 2 * full) by (nonlinear_arith)
        requires
            2 * num == h * step + r,
            r >= 0,
            num < den * (full * p),
            step == den * p,
            step > 0,
    ;
}

/// What is rounded is representable.
pub proof fn lemma_round_representable(precision: nat, num: nat, den: nat)
    requires
        den > 0,
    ensures
        representable(precision, round_ratio(precision, num, den)),
{
    lemma_halves(precision, num, den);
    let k = quantum(precision, num / den);
    let step = den * pow2(k);
    let n = nearest_even((2 * num) as nat / step, (2 * num) as nat % step == 0);
    assert(n <= pow2(precision));
    assert(round_ratio(precision, num, den) == scaled(n, k));
}

/// A representable number is a multiple of its quantum.
proof fn lemma_multiple_of_quantum(precision: nat, y: nat) -> (m: nat)
    requires
        precision >= 1,
        representable(precision, y),
    ensures
        y == m * pow2(quantum(precision, y)),
{
    let (n, k) = choose|n: nat, k: nat| n <= pow2(precision) && y == #[trigger] scaled(n, k);
    let q = quantum(precision, y);
    lemma_quantum_bounds(precision, y);
    lemma_pow2_adds(precision, k);
    let full = pow2(precision);
    let p = pow2(k);
    lemma_pow2_pos(k);
    if q <= k {
        let t = pow2((k - q) as nat);
        lemma_pow2_adds((k - q) as nat, q);
        let u = pow2(q);
        assert(n * p == (n * t) * u) by (nonlinear_arith)
            requires
                p == t * u,
        ;
        n * t
    } else {
        assert(n * p <= full * p) by (nonlinear_arith)
            requires
                n <= full,
        ;
        if q - 1 > k {
            lemma_pow2_strictly_increases(precision + k, (precision + q - 1) as nat);
        }
        assert(y == pow2(precision + k));
        let m = pow2((precision - 1) as nat);
        lemma_pow2_adds((precision - 1) as nat, q);
        assert((precision - 1) as nat + q == precision + k);
        m
    }
}

/// A representable number is rounded to itself.
pub proof fn lemma_round_exact(precision: nat, y: nat, den: nat)
    requires
        precision >= 1,
        den > 0,
        representable(precision, y),
    ensures
        round_ratio(precision, y * den, den) == y,
{
    let m = lemma_multiple_of_quantum(precision, y);
    let q = quantum(precision, y);
    let p = pow2(q);
    lemma_pow2_pos(q);
    let step = den * p;
    assert(step > 0) by (nonlinear_arith)
        requires
            den > 0,
            p > 0,
            step == den * p,
    ;
    lemma_fundamental_div_mod_converse((y * den) as int, den as int, y as int, 0);
    assert(2 * (y * den) == (2 * m) * step + 0) by (nonlinear_arith)
        requires
            y == m * p,
            step == den * p,
    ;
    lemma_fundamental_div_mod_converse((2 * (y * den)) as int, step as int, (2 * m) as int, 0);
    assert(nearest_even((2 * m) as nat, true) == m);
}

/// Quotients keep the order of ratios.
proof fn lemma_quotient_order(a: nat, c: nat, b: nat, d: nat)
    requires
        c > 0,
        d > 0,
        a * d <= b * c,
    ensures
        a / c <= b / d,
        a / c == b / d && b % d == 0 ==> a % c == 0,
{
    lemma_fundamental_div_mod(a as int, c as int);
    lemma_fundamental_div_mod(b as int, d as int);
    let x = a / c;
    let y = b / d;
    let r = a % c;
    let s = b % d;
    assert(x <= y) by (nonlinear_arith)
        requires
            a == c * x + r,
            b == d * y + s,
            r >= 0,
            s < d,
            a * d <= b * c,
            c > 0,
            d > 0,
    ;
    if x == y && s == 0 {
        assert(r == 0) by (nonlinear_arith)
            requires
                a == c * x + r,
                b == d * x,
                r >= 0,
                a * d <= b * c,
                c > 0,
                d > 0,
        ;
    }
}

/// The quantum grows with the number.
proof fn lemma_quantum_order(precision: nat, a: nat, b: nat)
    requires
        a <= b,
    ensures
        quantum(precision, a) <= quantum(precision, b),
{
    lemma_quantum_bounds(precision, a);
    lemma_quantum_bounds(precision, b);
    let j = quantum(precision, a);
    let k = quantum(precision, b);
    if j > k {
        if precision + j - 1 > precision + k {
            lemma_pow2_strictly_increases(precision + k, (precision + j - 1) as nat);
        }
    }
}

/// A rounded number lies between the bounds of its quantum.
proof fn lemma_round_bounds(precision: nat, num: nat, den: nat)
    requires
        precision >= 1,
        den > 0,
    ensures
        ({
            let k = quantum(precision, num / den);
            let r = round_ratio(precision, num, den);
            &&& r <= pow2(precision + k)
            &&& k > 0 ==> r >= pow2((precision + k - 1) as nat)
        }),
{
    lemma_halves(precision, num, den);
    let whole = num / den;
    let k = quantum(precision, whole);
    let p = pow2(k);
    let step = den * p;
    let h = (2 * num) as nat / step;
    let r = (2 * num) as nat % step;
    let n = nearest_even(h, r == 0);
    let full = pow2(precision);
    lemma_pow2_adds(precision, k);
    assert(n * p <= full * p) by (nonlinear_arith)
        requires
            n <= full,
    ;
    if k > 0 {
        lemma_quantum_bounds(precision, whole);
        lemma_pow2_adds((precision - 1) as nat, k);
        assert((precision - 1) as nat + k == (precision + k - 1) as nat);
        lemma_fundamental_div_mod(num as int, den as int);
        let half = pow2((precision - 1) as nat);
        lemma_pow2_unfold(precision);
        assert(num >= den * (half * p)) by (nonlinear_arith)
            requires
                num == den * whole + num % den,
                num % den >= 0,
                whole >= half * p,
        ;
        assert(h >= 2 * half) by (nonlinear_arith)
            requires
                2 * num == h * step + r,
                r < step,
                num >= den * (half * p),
                step == den * p,
                step > 0,
        ;
        assert(n >= half);
        assert(n * p >= half * p) by (nonlinear_arith)
            requires
                n >= half,
        ;
    }
}

/// Rounding keeps the order of ratios.
pub proof fn lemma_round_monotone(precision: nat, a: nat, c: nat, b: nat, d: nat)
    requires
        precision >= 1,
        c > 0,
        d > 0,
        a * d <= b * c,
    ensures
        round_ratio(precision, a, c) <= round_ratio(precision, b, d),
{
    lemma_quotient_order(a, c, b, d);
    lemma_quantum_order(precision, a / c, b / d);
    let j = quantum(precision, a / c);
    let k = quantum(precision, b / d);
    if j < k {
        lemma_round_bounds(precision, a, c);
        lemma_round_bounds(precision, b, d);
        if precision + j < precision + k - 1 {
            lemma_pow2_strictly_increases(precision + j, (precision + k - 1) as nat);
        }
    } else {
        let p = pow2(k);
        lemma_pow2_pos(k);
        lemma_halves(precision, a, c);
        lemma_halves(precision, b, d);
        assert((2 * a) * (d * p) <= (2 * b) * (c * p)) by (nonlinear_arith)
            requires
                a * d <= b * c,
                p > 0,
        ;
        lemma_quotient_order((2 * a) as nat, c * p, (2 * b) as nat, d * p);
        let m = nearest_even((2 * a) as nat / (c * p), (2 * a) as nat % (c * p) == 0);
        let n = nearest_even((2 * b) as nat / (d * p), (2 * b) as nat % (d * p) == 0);
        assert(m <= n);
        assert(m * p <= n * p) by (nonlinear_arith)
            requires
                m <= n,
        ;
    }
}

/// Rounding is off by at most half a quantum.
pub proof fn lemma_round_error(precision: nat, num: nat, den: nat, k: nat)
    requires
        den > 0,
        num < den * pow2(precision + k),
    ensures
        2 * (round_ratio(precision, num, den) * den - num) <= den * pow2(k),
        2 * (num - round_ratio(precision, num, den) * den) <= den * pow2(k),
{
    lemma_halves(precision, num, den);
    let whole = num / den;
    let q = quantum(precision, whole);
    let p = pow2(q);
    let step = den * p;
    let h = (2 * num) as nat / step;
    let r = (2 * num) as nat % step;
    let n = nearest_even(h, r == 0);
    let y = n * p;
    assert(y == round_ratio(precision, num, den));
    let two = (2 * n - h) * step;
    assert(2 * (y * den) == h * step + two) by (nonlinear_arith)
        requires
            y == n * p,
            step == den * p,
            two == (2 * n - h) * step,
    ;
    assert(-step <= two - r <= step) by (nonlinear_arith)
        requires
            two == (2 * n - h) * step,
            0 <= r < step,
            2 * n - h == 0 || (2 * n - h == 1) || (2 * n - h == -1 && r == 0),
    ;
    // The quantum is that of a number below the bound.
    lemma_quantum_bounds(precision, whole);
    if q > k {
        lemma_fundamental_div_mod(num as int, den as int);
        let bound = pow2(precision + k);
        assert(whole < bound) by (nonlinear_arith)
            requires
                num < den * bound,
                num >= den * whole,
        ;
        if precision + q - 1 > precision + k {
            lemma_pow2_strictly_increases(precision + k, (precision + q - 1) as nat);
        }
    }
    if q < k {
        lemma_pow2_strictly_increases(q, k);
    }
    let top = pow2(k);
    assert(step <= den * top) by (nonlinear_arith)
        requires
            step == den * p,
            p <= top,
    ;
}

/// No representable number is nearer to a ratio than what it is rounded to.
pub proof fn lemma_round_nearest(precision: nat, num: nat, den: nat, y: nat)
    requires
        precision >= 1,
        den > 0,
        representable(precision, y),
    ensures
        distance(round_ratio(precision, num, den), num, den) <= distance(y, num, den),
{
    lemma_halves(precision, num, den);
    let whole = num / den;
    let k = quantum(precision, whole);
    let p = pow2(k);
    let step = den * p;
    let h = (2 * num) as nat / step;
    let r = (2 * num) as nat % step;
    let q = h / 2;
    let below = q * p;
    let above = (q + 1) * p;
    let rounded = round_ratio(precision, num, den);
    assert(below * den == q * step && above * den == (q + 1) * step) by (nonlinear_arith)
        requires
            below == q * p,
            above == (q + 1) * p,
            step == den * p,
    ;
    assert((q + 1) * step == q * step + step) by (nonlinear_arith);
    if h % 2 == 0 {
        assert(h * step == 2 * (q * step)) by (nonlinear_arith)
            requires
                h == 2 * q,
        ;
    } else {
        assert(h * step == 2 * (q * step) + step) by (nonlinear_arith)
            requires
                h == 2 * q + 1,
        ;
    }
    assert(rounded == below || rounded == above);
    assert(distance(rounded, num, den) <= distance(below, num, den));
    assert(distance(rounded, num, den) <= distance(above, num, den));
    lemma_no_number_between(precision, num, den, q, y);
    if y <= below {
        assert(y * den <= below * den) by (nonlinear_arith)
            requires
                y <= below,
        ;
    } else {
        assert(y * den >= above * den) by (nonlinear_arith)
            requires
                y >= above,
        ;
    }
}

/// No representable number lies strictly between the two multiples of the
/// quantum next to a ratio.
proof fn lemma_no_number_between(precision: nat, num: nat, den: nat, q: nat, y: nat)
    requires
        precision >= 1,
        den > 0,
        representable(precision, y),
        ({
            let step = den * pow2(quantum(precision, num / den));
            q * step <= num < (q + 1) * step
        }),
    ensures
        ({
            let p = pow2(quantum(precision, num / den));
            y <= q * p || y >= (q + 1) * p
        }),
{
    let whole = num / den;
    let k = quantum(precision, whole);
    let p = pow2(k);
    lemma_pow2_pos(k);
    let step = den * p;
    let (n, j) = choose|n: nat, j: nat| n <= pow2(precision) && y == #[trigger] scaled(n, j);
    let m = if j >= k {
        let t = pow2((j - k) as nat);
        lemma_pow2_adds((j - k) as nat, k);
        let pj = pow2(j);
        assert(n * pj == (n * t) * p) by (nonlinear_arith)
            requires
                pj == t * p,
        ;
        n * t
    } else {
        0
    };
    if j >= k {
        assert(m * p <= q * p || m * p >= (q + 1) * p) by (nonlinear_arith)
            requires
                m <= q || m >= q + 1,
                p > 0,
        ;
    } else {
        // Then y is at most 2^(precision + k - 1), which is at most q * 2^k.
        lemma_quantum_bounds(precision, whole);
        let full = pow2(precision);
        let half = pow2((precision - 1) as nat);
        let pj = pow2(j);
        lemma_pow2_adds(precision, j);
        lemma_pow2_adds((precision - 1) as nat, k);
        assert((precision - 1) as nat + k == (precision + k - 1) as nat);
        assert(n * pj <= full * pj) by (nonlinear_arith)
            requires
                n <= full,
        ;
        if precision + j < precision + k - 1 {
            lemma_pow2_strictly_increases(precision + j, (precision + k - 1) as nat);
        }
        lemma_fundamental_div_mod(num as int, den as int);
        let size = half * p;
        let rest = num % den;
        assert(num >= den * size) by (nonlinear_arith)
            requires
                num == den * whole + rest,
                rest >= 0,
                whole >= size,
                den > 0,
        ;
        assert(den * size == half * step) by (nonlinear_arith)
            requires
                size == half * p,
                step == den * p,
        ;
        assert(half < q + 1) by (nonlinear_arith)
            requires
                half * step < (q + 1) * step,
                step >= 0,
        ;
        assert(half * p <= q * p) by (nonlinear_arith)
            requires
                half <= q,
        ;
    }
}

} // verus!
