//! Rounding to nearest, ties to even, of exact ratios.
//!
//! A binary floating-point format with a significand of `precision` bits holds
//! the naturals `n * 2^k` with `n < 2^precision`, counted in units of its
//! smallest positive number. The functions here say which of those naturals
//! stands for a ratio, and compute it.

use vstd::arithmetic::div_mod::{
    lemma_div_denominator, lemma_fundamental_div_mod, lemma_fundamental_div_mod_converse,
    lemma_mod_breakdown,
};
use vstd::arithmetic::power2::{
    lemma_pow2_adds, lemma_pow2_pos, lemma_pow2_strictly_increases, lemma_pow2_unfold, pow2,
};
use vstd::prelude::*;

verus! {

/// The natural nearest to half of a number, an even one where two are equally
/// near. `twice` is that number rounded down, `exact` tells that nothing was
/// lost in rounding it down.
pub open spec fn nearest_even(twice: nat, exact: bool) -> nat {
    if twice % 2 == 1 && (!exact || (twice / 2) % 2 == 1) {
        twice / 2 + 1
    } else {
        twice / 2
    }
}

/// The least `k` with `whole < 2^(precision + k)`: numbers of that size are
/// rounded to multiples of `2^k`.
pub open spec fn quantum(precision: nat, whole: nat) -> nat
    decreases whole,
{
    if whole == 0 || whole < pow2(precision) {
        0
    } else {
        1 + quantum(precision, whole / 2)
    }
}

/// `num / den` rounded to `precision` significant bits, but never finer than
/// to a natural: to nearest, ties to even.
pub open spec fn round_ratio(precision: nat, num: nat, den: nat) -> nat {
    let k = quantum(precision, num / den);
    let step = den * pow2(k);
    nearest_even((2 * num) as nat / step, (2 * num) as nat % step == 0) * pow2(k)
}

/// `2^e` where `e` is positive, else 1.
pub open spec fn scale_up(e: int) -> nat {
    if e > 0 {
        pow2(e as nat)
    } else {
        1
    }
}

/// `m * 2^e` is `num / den` rounded down to a multiple of `2^e`; `sticky`
/// tells that something was cut off.
pub open spec fn brackets(num: nat, den: nat, m: nat, e: int, sticky: bool) -> bool {
    let a = num * scale_up(-e);
    let c = den * scale_up(e);
    &&& den > 0
    &&& m == a / c
    &&& sticky == (a % c != 0)
}

pub proof fn lemma_scale_up_pos(e: int)
    ensures
        scale_up(e) > 0,
{
    if e > 0 {
        lemma_pow2_pos(e as nat);
    }
}

/// Numbers in `[2^(precision+k-1), 2^(precision+k))` are rounded to multiples
/// of `2^k`, and those below `2^precision` to naturals.
pub proof fn lemma_quantum(precision: nat, whole: nat, k: nat)
    requires
        k == 0 || whole >= pow2((precision + k - 1) as nat),
        whole < pow2(precision + k),
    ensures
        quantum(precision, whole) == k,
    decreases k,
{
    if k > 0 {
        lemma_pow2_pos(precision);
        if k > 1 {
            lemma_pow2_strictly_increases(precision, (precision + k - 1) as nat);
            lemma_pow2_unfold((precision + k - 1) as nat);
        }
        lemma_pow2_unfold(precision + k);
        assert(precision + (k - 1) as nat == (precision + k - 1) as nat);
        lemma_quantum(precision, whole / 2, (k - 1) as nat);
    }
}

/// A common factor changes no quotient, and scales the remainder.
pub proof fn lemma_common_factor(n: nat, d: nat, t: nat)
    requires
        d > 0,
        t > 0,
    ensures
        d * t > 0,
        (n * t) / (d * t) == n / d,
        (n * t) % (d * t) == (n % d) * t,
{
    let q = n / d;
    let r = n % d;
    lemma_fundamental_div_mod(n as int, d as int);
    assert(d * t > 0) by (nonlinear_arith)
        requires
            d > 0,
            t > 0,
    ;
    assert(n * t == q * (d * t) + r * t) by (nonlinear_arith)
        requires
            n == d * q + r,
    ;
    assert(0 <= r * t < d * t) by (nonlinear_arith)
        requires
            0 <= r < d,
            t > 0,
    ;
    lemma_fundamental_div_mod_converse((n * t) as int, (d * t) as int, q as int, (r * t) as int);
}

/// Dividing in two steps: the quotient, and when nothing remains.
pub proof fn lemma_two_steps(a: nat, c: nat, t: nat)
    requires
        c > 0,
        t > 0,
    ensures
        c * t > 0,
        a / (c * t) == (a / c) / t,
        (a % (c * t) == 0) == (a % c == 0 && (a / c) % t == 0),
{
    assert(c * t > 0) by (nonlinear_arith)
        requires
            c > 0,
            t > 0,
    ;
    lemma_div_denominator(a as int, c as int, t as int);
    lemma_mod_breakdown(a as int, c as int, t as int);
    let x = (a / c) % t;
    assert(a % (c * t) == c * x + a % c);
    assert(c * x >= 0 && (c * x == 0) == (x == 0)) by (nonlinear_arith)
        requires
            c > 0,
            x >= 0,
    ;
}

/// What is left of a bracketed ratio after rounding down to half a quantum.
proof fn lemma_twice_below(num: nat, den: nat, m: nat, e: int, sticky: bool, k: nat)
    requires
        brackets(num, den, m, e, sticky),
        e <= k - 1,
    ensures
        ({
            let t = pow2((k - 1 - e) as nat);
            let step = den * pow2(k);
            &&& step > 0
            &&& t > 0
            &&& (2 * num) as nat / step == m / t
            &&& ((2 * num) as nat % step == 0) == (!sticky && m % t == 0)
        }),
{
    let s = (k - 1 - e) as nat;
    let t = pow2(s);
    let up = scale_up(e);
    let down = scale_up(-e);
    let a = num * down;
    let c = den * up;
    lemma_pow2_pos(s);
    lemma_pow2_pos(k);
    lemma_scale_up_pos(e);
    lemma_scale_up_pos(-e);
    assert(c > 0) by (nonlinear_arith)
        requires
            den > 0,
            up > 0,
            c == den * up,
    ;
    lemma_two_steps(a, c, t);
    // 2^k * down == 2 * up * t
    assert(pow2(k) * down == 2 * (up * t)) by {
        lemma_pow2_unfold(s + 1);
        if e > 0 {
            lemma_pow2_adds(e as nat, (s + 1) as nat);
            assert(e as nat + (s + 1) as nat == k);
            let u = pow2(e as nat);
            assert(u * (2 * t) == 2 * (u * t)) by (nonlinear_arith);
        } else if e < 0 {
            lemma_pow2_adds(k, (-e) as nat);
            assert(k + (-e) as nat == s + 1);
        }
    }
    let p = pow2(k);
    let step = den * p;
    assert(step > 0) by (nonlinear_arith)
        requires
            den > 0,
            p > 0,
            step == den * p,
    ;
    lemma_common_factor((2 * num) as nat, step, down);
    assert((2 * num) as nat * down == a * 2) by (nonlinear_arith)
        requires
            a == num * down,
    ;
    assert(step * down == (c * t) * 2) by (nonlinear_arith)
        requires
            step == den * p,
            c == den * up,
            p * down == 2 * (up * t),
    ;
    lemma_common_factor(a, c * t, 2);
    let r1 = (2 * num) as nat % step;
    assert((r1 * down == 0) == (r1 == 0)) by (nonlinear_arith)
        requires
            down > 0,
            r1 >= 0,
    ;
}

/// A ratio that is a multiple of `2^e` needs no rounding to multiples of a
/// smaller power.
proof fn lemma_twice_above(num: nat, den: nat, m: nat, e: int, k: nat)
    requires
        brackets(num, den, m, e, false),
        e > k - 1,
    ensures
        ({
            let step = den * pow2(k);
            &&& step > 0
            &&& (2 * num) as nat / step == m * pow2((e + 1 - k) as nat)
            &&& (2 * num) as nat % step == 0
        }),
{
    let s = (e + 1 - k) as nat;
    let t = pow2(s);
    let p = pow2(k);
    let step = den * p;
    lemma_pow2_pos(k);
    lemma_scale_up_pos(e);
    let up = scale_up(e);
    let c = den * up;
    assert(c > 0) by (nonlinear_arith)
        requires
            den > 0,
            up > 0,
            c == den * up,
    ;
    assert(step > 0) by (nonlinear_arith)
        requires
            den > 0,
            p > 0,
            step == den * p,
    ;
    lemma_fundamental_div_mod((num * 1) as int, c as int);
    assert(num == c * m);
    assert(p * t == 2 * up) by {
        lemma_pow2_adds(k, s);
        assert(k + s == e + 1);
        lemma_pow2_unfold((e + 1) as nat);
        if e == 0 {
            vstd::arithmetic::power2::lemma2_to64();
        }
    }
    assert((2 * num) as nat == (m * t) * step + 0) by (nonlinear_arith)
        requires
            num == c * m,
            c == den * up,
            step == den * p,
            p * t == 2 * up,
    ;
    lemma_fundamental_div_mod_converse((2 * num) as int, step as int, (m * t) as int, 0);
}

/// Size of a ratio, from the size of what brackets it.
proof fn lemma_bracket_size(num: nat, den: nat, m: nat, e: int, sticky: bool, len: nat)
    requires
        brackets(num, den, m, e, sticky),
    ensures
        m < pow2(len) && len + e >= 0 ==> num / den < pow2((len + e) as nat),
        m >= pow2(len) && len + e >= 0 ==> num / den >= pow2((len + e) as nat),
{
    if len + e >= 0 {
        let j = (len + e) as nat;
        let up = scale_up(e);
        let down = scale_up(-e);
        let big = pow2(j);
        let l = pow2(len);
        lemma_scale_up_pos(e);
        lemma_scale_up_pos(-e);
        // l * up == big * down
        assert(l * up == big * down) by {
            if e > 0 {
                lemma_pow2_adds(len, e as nat);
            } else if e < 0 {
                lemma_pow2_adds(j, (-e) as nat);
                assert(j + (-e) as nat == len);
            }
        }
        let a = num * down;
        let c = den * up;
        assert(c > 0) by (nonlinear_arith)
            requires
                den > 0,
                up > 0,
                c == den * up,
        ;
        lemma_fundamental_div_mod(a as int, c as int);
        lemma_fundamental_div_mod(num as int, den as int);
        let w = num / den;
        let r = num % den;
        let ra = a % c;
        if m < l {
            assert(a < c * l) by (nonlinear_arith)
                requires
                    a == c * m + ra,
                    ra < c,
                    m < l,
            ;
            assert(num < den * big) by (nonlinear_arith)
                requires
                    a < c * l,
                    a == num * down,
                    c == den * up,
                    l * up == big * down,
                    down > 0,
            ;
            assert(w < big) by (nonlinear_arith)
                requires
                    num < den * big,
                    num == den * w + r,
                    r >= 0,
                    den > 0,
            ;
        } else {
            assert(a >= c * l) by (nonlinear_arith)
                requires
                    a == c * m + ra,
                    ra >= 0,
                    m >= l,
            ;
            assert(num >= den * big) by (nonlinear_arith)
                requires
                    a >= c * l,
                    a == num * down,
                    c == den * up,
                    l * up == big * down,
                    down > 0,
            ;
            assert(w >= big) by (nonlinear_arith)
                requires
                    num >= den * big,
                    num == den * w + r,
                    r < den,
                    den > 0,
            ;
        }
    }
}

/// `2^n`.
pub fn power(n: u32) -> (r: u128)
    requires
        n <= 126,
    ensures
        r == pow2(n as nat),
{
    let mut r: u128 = 1;
    let mut i: u32 = 0;
    proof {
        vstd::arithmetic::power2::lemma2_to64();
        lemma_power_fits(n as nat);
    }
    while i < n
        invariant
            i <= n <= 126,
            r == pow2(i as nat),
            pow2(n as nat) <= u128::MAX,
        decreases n - i,
    {
        proof {
            lemma_pow2_unfold((i + 1) as nat);
            if i + 1 < n {
                lemma_pow2_strictly_increases((i + 1) as nat, n as nat);
            }
        }
        r = r * 2;
        i = i + 1;
    }
    r
}

/// The powers of two that a 128-bit number holds.
pub proof fn lemma_power_fits(n: nat)
    requires
        n <= 127,
    ensures
        pow2(n) <= 0x8000_0000_0000_0000_0000_0000_0000_0000,
        pow2(127) == 0x8000_0000_0000_0000_0000_0000_0000_0000,
{
    vstd::arithmetic::power2::lemma2_to64();
    lemma_pow2_adds(64, 63);
    lemma_pow2_unfold(64);
    if n < 127 {
        lemma_pow2_strictly_increases(n, 127);
    }
}

/// Number of binary digits of `m`, 0 for 0.
pub fn bit_length(m: u128) -> (len: u32)
    requires
        m < pow2(127),
    ensures
        len <= 127,
        m < pow2(len as nat),
        len > 0 ==> m >= pow2((len - 1) as nat),
{
    let mut rest: u128 = m;
    let mut len: u32 = 0;
    proof {
        vstd::arithmetic::power2::lemma2_to64();
        assert(m as nat / 1 == m);
        lemma_power_fits(127);
    }
    while rest > 0
        invariant
            rest == m as nat / pow2(len as nat),
            len > 0 ==> m >= pow2((len - 1) as nat),
            m < pow2(127),
        decreases rest,
    {
        proof {
            lemma_pow2_pos(len as nat);
            let p = pow2(len as nat);
            lemma_fundamental_div_mod(m as int, p as int);
            assert(m >= p) by (nonlinear_arith)
                requires
                    m == p * rest + m as nat % p,
                    rest >= 1,
                    m as nat % p >= 0,
                    p > 0,
            ;
            if len >= 127 {
                if len > 127 {
                    lemma_pow2_strictly_increases(127, len as nat);
                }
            }
            lemma_pow2_unfold((len + 1) as nat);
            lemma_div_denominator(m as int, p as int, 2);
        }
        rest = rest / 2;
        len = len + 1;
    }
    proof {
        lemma_pow2_pos(len as nat);
        let p = pow2(len as nat);
        lemma_fundamental_div_mod(m as int, p as int);
        assert(m < p) by (nonlinear_arith)
            requires
                m == p * rest + m as nat % p,
                rest == 0,
                m as nat % p < p,
        ;
        if len > 127 {
            if len - 1 > 127 {
                lemma_pow2_strictly_increases(127, (len - 1) as nat);
            }
        }
    }
    len
}

/// Where the binary point falls in `m`, and how many digits stand before it.
proof fn lemma_round_position(precision: nat, m: nat, e: int, sticky: bool, len: nat)
    requires
        precision >= 2,
        len > 0,
        pow2((len - 1) as nat) <= m < pow2(len),
        sticky ==> m >= pow2(precision + 1),
    ensures
        ({
            let top = len + e - precision;
            let k = if top > 0 {
                top
            } else {
                0
            };
            let s = k - 1 - e;
            if s < 0 {
                &&& !sticky
                &&& -s <= precision
                &&& m * pow2((-s) as nat) < pow2(precision + 1)
                &&& k > 0 ==> m * pow2((-s) as nat) >= pow2(precision)
            } else {
                &&& m / pow2(s as nat) < pow2(precision + 1)
                &&& k > 0 ==> m / pow2(s as nat) >= pow2(precision)
            }
        }),
{
    let top = len + e - precision;
    let k = if top > 0 {
        top
    } else {
        0
    };
    let s = k - 1 - e;
    if sticky && len <= precision + 1 {
        if len < precision + 1 {
            lemma_pow2_strictly_increases(len, precision + 1);
        }
    }
    let low = pow2((len - 1) as nat);
    let high = pow2(len);
    if s < 0 {
        let d = (-s) as nat;
        let t = pow2(d);
        lemma_pow2_pos(d);
        lemma_pow2_adds(len, d);
        lemma_pow2_adds((len - 1) as nat, d);
        assert(low * t <= m * t < high * t) by (nonlinear_arith)
            requires
                low <= m < high,
                t > 0,
        ;
        if len + d < precision + 1 {
            lemma_pow2_strictly_increases(len + d, precision + 1);
        }
        if k > 0 {
            assert((len - 1) as nat + d == precision);
        }
    } else {
        let d = s as nat;
        let t = pow2(d);
        lemma_pow2_pos(d);
        let q = m / t;
        lemma_fundamental_div_mod(m as int, t as int);
        let top_power = pow2(precision + 1);
        lemma_pow2_adds(precision + 1, d);
        if len < precision + 1 + d {
            lemma_pow2_strictly_increases(len, precision + 1 + d);
        }
        assert(q < top_power) by (nonlinear_arith)
            requires
                m < top_power * t,
                m == t * q + m % t,
                m % t >= 0,
                t > 0,
        ;
        if k > 0 {
            lemma_pow2_adds(precision, d);
            assert((len - 1) as nat == precision + d);
            let p = pow2(precision);
            assert(q >= p) by (nonlinear_arith)
                requires
                    m >= p * t,
                    m == t * q + m % t,
                    m % t < t,
                    t > 0,
            ;
        }
    }
}

/// The quantum of a ratio, from what brackets it.
proof fn lemma_round_quantum(
    precision: nat,
    num: nat,
    den: nat,
    m: nat,
    e: int,
    sticky: bool,
    len: nat,
)
    requires
        len > 0,
        pow2((len - 1) as nat) <= m < pow2(len),
        brackets(num, den, m, e, sticky),
    ensures
        quantum(precision, num / den) == (if len + e > precision {
            len + e - precision
        } else {
            0
        }),
{
    let whole = num / den;
    if len + e > precision {
        let k = (len + e - precision) as nat;
        lemma_bracket_size(num, den, m, e, sticky, len);
        lemma_bracket_size(num, den, m, e, sticky, (len - 1) as nat);
        assert((len - 1) as nat + e == precision + k - 1);
        lemma_quantum(precision, whole, k);
    } else if len + e >= 0 {
        lemma_bracket_size(num, den, m, e, sticky, len);
        if len + e < precision {
            lemma_pow2_strictly_increases((len + e) as nat, precision);
        }
        lemma_quantum(precision, whole, 0);
    } else {
        let wide = (-e) as nat;
        lemma_pow2_strictly_increases(len, wide);
        lemma_bracket_size(num, den, m, e, sticky, wide);
        lemma_pow2_pos(precision);
        vstd::arithmetic::power2::lemma2_to64();
        lemma_quantum(precision, whole, 0);
    }
}

/// A ratio that is bracketed by 0 and nothing more is 0.
proof fn lemma_round_zero(precision: nat, num: nat, den: nat, e: int)
    requires
        brackets(num, den, 0, e, false),
    ensures
        num == 0,
        quantum(precision, num / den) == 0,
        round_ratio(precision, num, den) == 0,
{
    let up = scale_up(e);
    let down = scale_up(-e);
    lemma_scale_up_pos(e);
    lemma_scale_up_pos(-e);
    let c = den * up;
    assert(c > 0) by (nonlinear_arith)
        requires
            den > 0,
            up > 0,
            c == den * up,
    ;
    lemma_fundamental_div_mod((num * down) as int, c as int);
    assert(num == 0) by (nonlinear_arith)
        requires
            num * down == c * 0 + 0,
            down > 0,
    ;
    lemma_round_nothing(precision, den);
}

/// Zero needs no rounding.
pub proof fn lemma_round_nothing(precision: nat, den: nat)
    requires
        den > 0,
    ensures
        quantum(precision, 0nat / den) == 0,
        round_ratio(precision, 0, den) == 0,
{
    vstd::arithmetic::power2::lemma2_to64();
    lemma_fundamental_div_mod_converse(0, den as int, 0, 0);
    assert(0nat / den == 0);
    assert(den * pow2(0) == den);
    assert((2 * 0nat) as nat == 0);
    assert(0nat % den == 0);
    assert(nearest_even(0, true) == 0);
    assert(0 * pow2(0) == 0);
}

/// Rounds a ratio of which `m * 2^e` and `sticky` are all that is known (see
/// [`brackets`]). The result `(n, k)` stands for `n * 2^k`, with `k` the
/// quantum of the ratio.
pub fn round_bracketed(precision: u32, m: u128, e: i32, sticky: bool) -> (r: (u64, u32))
    requires
        2 <= precision <= 53,
        -8000 <= e <= 8000,
        m < pow2(126),
        sticky ==> m >= pow2((precision + 1) as nat),
    ensures
        r.0 <= pow2(precision as nat),
        r.1 > 0 ==> r.0 >= pow2((precision - 1) as nat),
        r.1 <= 8200,
        forall|num: nat, den: nat| #[trigger]
            brackets(num, den, m as nat, e as int, sticky) ==> {
                &&& r.1 == quantum(precision as nat, num / den)
                &&& r.0 * pow2(r.1 as nat) == round_ratio(precision as nat, num, den)
            },
{
    proof {
        lemma_pow2_strictly_increases(126, 127);
        lemma_pow2_pos((precision + 1) as nat);
        lemma_pow2_pos(precision as nat);
    }
    if m == 0 {
        proof {
            assert forall|num: nat, den: nat| #[trigger]
                brackets(num, den, m as nat, e as int, sticky) implies {
                &&& 0 == quantum(precision as nat, num / den)
                &&& 0 == round_ratio(precision as nat, num, den)
            } by {
                lemma_round_zero(precision as nat, num, den, e as int);
            }
        }
        return (0, 0);
    }
    let len: u32 = bit_length(m);
    proof {
        vstd::arithmetic::power2::lemma2_to64();
    }
    let top: i32 = len as i32 + e - precision as i32;
    let k: i32 = if top > 0 {
        top
    } else {
        0
    };
    let s: i32 = k - 1 - e;
    proof {
        lemma_round_position(precision as nat, m as nat, e as int, sticky, len as nat);
        lemma_power_fits((precision + 1) as nat);
    }
    let twice: u128;
    let exact: bool;
    if s < 0 {
        let t: u128 = power((-s) as u32);
        twice = m * t;
        exact = true;
    } else if s >= 127 {
        twice = 0;
        exact = false;
        proof {
            lemma_pow2_strictly_increases(126, s as nat);
            vstd::arithmetic::div_mod::lemma_small_mod(m as nat, pow2(s as nat));
            vstd::arithmetic::div_mod::lemma_basic_div(m as int, pow2(s as nat) as int);
        }
    } else {
        let t: u128 = power(s as u32);
        proof {
            lemma_pow2_pos(s as nat);
        }
        twice = m / t;
        exact = !sticky && m % t == 0;
    }
    assert forall|num: nat, den: nat| #[trigger]
        brackets(num, den, m as nat, e as int, sticky) implies {
        let step = den * pow2(k as nat);
        &&& k == quantum(precision as nat, num / den)
        &&& twice == (2 * num) as nat / step
        &&& exact == ((2 * num) as nat % step == 0)
    } by {
        lemma_round_quantum(precision as nat, num, den, m as nat, e as int, sticky, len as nat);
        if s < 0 {
            lemma_twice_above(num, den, m as nat, e as int, k as nat);
            assert((e + 1 - k) as nat == (-s) as nat);
        } else {
            lemma_twice_below(num, den, m as nat, e as int, sticky, k as nat);
        }
    }
    let half: u128 = twice / 2;
    let n: u128 = if twice % 2 == 1 && (!exact || half % 2 == 1) {
        half + 1
    } else {
        half
    };
    proof {
        assert(n == nearest_even(twice as nat, exact));
        lemma_pow2_unfold((precision + 1) as nat);
        lemma_pow2_unfold(precision as nat);
        lemma_pow2_strictly_increases(precision as nat, 64);
    }
    (n as u64, k as u32)
}

} // verus!
