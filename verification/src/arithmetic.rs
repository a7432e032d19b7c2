//! Floating-point arithmetic on integers: each operation takes numbers apart,
//! computes an exact or bracketed result, and rounds it once.

use vstd::arithmetic::div_mod::{lemma_fundamental_div_mod, lemma_fundamental_div_mod_converse};
use vstd::arithmetic::power2::{
    lemma_pow2_adds, lemma_pow2_pos, lemma_pow2_strictly_increases, lemma_pow2_unfold, pow2,
};
use vstd::prelude::*;

use crate::float::{
    convert, floor_root, in_range, is_root, natural, nearest, opposite, over, plus, root, times,
    Format, Value,
};
use crate::rounding::{
    brackets, lemma_round_nothing, lemma_scale_up_pos, power, round_bracketed, scale_up,
};

verus! {

/// A number taken apart: `significand * 2^exponent` units.
#[derive(Clone, Copy)]
pub enum Parts {
    Nan,
    Infinite { negative: bool },
    Finite { negative: bool, significand: u64, exponent: u32 },
}

impl Parts {
    /// The number that the parts make up.
    pub open spec fn view(self) -> Value {
        match self {
            Parts::Nan => Value::Nan,
            Parts::Infinite { negative } => Value::Infinite { negative },
            Parts::Finite { negative, significand, exponent } => Value::Finite {
                negative,
                units: significand as nat * pow2(exponent as nat),
            },
        }
    }

    /// The parts fit the format, and the significand is as long as it can be.
    pub open spec fn well_formed(self, f: Format) -> bool {
        match self {
            Parts::Finite { significand, exponent, .. } => {
                &&& significand < pow2(f.precision())
                &&& exponent <= f.top()
                &&& exponent > 0 ==> significand >= pow2((f.precision() - 1) as nat)
            },
            _ => true,
        }
    }
}

impl Format {
    fn bits(self) -> (r: u32)
        ensures
            r == self.precision(),
    {
        match self {
            Format::Single => 24,
            Format::Double => 53,
        }
    }

    fn unit_exponent(self) -> (r: u32)
        ensures
            r == self.unit(),
    {
        match self {
            Format::Single => 149,
            Format::Double => 1074,
        }
    }

    fn top_exponent(self) -> (r: u32)
        ensures
            r == self.top(),
    {
        match self {
            Format::Single => 253,
            Format::Double => 2045,
        }
    }

    /// Parts of a rounded magnitude `n * 2^k`.
    fn assemble(self, negative: bool, n: u64, k: u32) -> (r: Parts)
        requires
            n <= pow2(self.precision()),
            k > 0 ==> n >= pow2((self.precision() - 1) as nat),
            k <= 8200,
        ensures
            r.well_formed(self),
            r.view() == in_range(self, negative, n as nat * pow2(k as nat)),
    {
        let p: u32 = self.bits();
        let full: u128 = power(p);
        let ghost units = n as nat * pow2(k as nat);
        proof {
            lemma_pow2_strictly_increases(p as nat, 64);
            vstd::arithmetic::power2::lemma2_to64();
            lemma_pow2_unfold(p as nat);
            lemma_pow2_pos((p - 1) as nat);
            lemma_pow2_unfold((k + 1) as nat);
        }
        let carry: bool = n as u128 == full;
        let significand: u64 = if carry {
            n / 2
        } else {
            n
        };
        let exponent: u32 = if carry {
            k + 1
        } else {
            k
        };
        proof {
            let x = pow2(k as nat);
            if carry {
                assert((n / 2) as nat * (2 * x) == n as nat * x) by (nonlinear_arith)
                    requires
                        n == 2 * (n / 2),
                ;
            }
            assert(units == significand as nat * pow2(exponent as nat));
            lemma_magnitude_in_range(self, significand as nat, exponent as nat);
        }
        if exponent > self.top_exponent() {
            Parts::Infinite { negative }
        } else {
            Parts::Finite { negative, significand, exponent }
        }
    }
}

/// A magnitude is out of range when its exponent is.
proof fn lemma_magnitude_in_range(f: Format, significand: nat, exponent: nat)
    requires
        significand < pow2(f.precision()),
        exponent > 0 ==> significand >= pow2((f.precision() - 1) as nat),
    ensures
        (significand * pow2(exponent) >= f.limit()) == (exponent > f.top()),
{
    let p = f.precision();
    let x = pow2(exponent);
    let full = pow2(p);
    lemma_pow2_pos(exponent);
    if exponent > f.top() {
        let half = pow2((p - 1) as nat);
        lemma_pow2_adds((p - 1) as nat, exponent);
        assert(significand * x >= half * x) by (nonlinear_arith)
            requires
                significand >= half,
        ;
        if (p - 1) as nat + exponent > p + f.top() {
            lemma_pow2_strictly_increases(p + f.top(), (p - 1) as nat + exponent);
        }
    } else {
        lemma_pow2_adds(p, exponent);
        assert(significand * x < full * x) by (nonlinear_arith)
            requires
                significand < full,
                x > 0,
        ;
        if exponent < f.top() {
            lemma_pow2_strictly_increases(p + exponent, p + f.top());
        }
    }
}

/// Brackets of a ratio, from its quotient and remainder.
proof fn lemma_bracketed(num: nat, den: nat, m: nat, e: int, rest: nat)
    requires
        den > 0,
        num * scale_up(-e) == m * (den * scale_up(e)) + rest,
        rest < den * scale_up(e),
    ensures
        brackets(num, den, m, e, rest != 0),
{
    let c = den * scale_up(e);
    lemma_fundamental_div_mod_converse(
        (num * scale_up(-e)) as int,
        c as int,
        m as int,
        rest as int,
    );
}

/// Two magnitudes brought to the exponent of the greater one, less 64.
proof fn lemma_aligned(m1: nat, k1: nat, m2: nat, k2: nat, small: nat)
    requires
        k1 >= k2,
        k1 - k2 <= 64 ==> small == m2 * pow2((64 - (k1 - k2)) as nat),
        k1 - k2 > 64 ==> small == m2 / pow2((k1 - k2 - 64) as nat),
    ensures
        ({
            let e = k1 - 64;
            let up = scale_up(e);
            let down = scale_up(-e);
            let x2 = m2 * pow2(k2) * down;
            &&& m1 * pow2(k1) * down == m1 * pow2(64) * up
            &&& small * up <= x2 < small * up + up
            &&& (x2 != small * up) == (k1 - k2 > 64 && m2 % pow2((k1 - k2 - 64) as nat) != 0)
        }),
{
    let e = k1 - 64;
    let d = (k1 - k2) as nat;
    let up = scale_up(e);
    let down = scale_up(-e);
    let p1 = pow2(k1);
    let p2 = pow2(k2);
    lemma_scale_up_pos(e);
    lemma_scale_up_pos(-e);
    assert(p1 * down == pow2(64) * up) by {
        if e > 0 {
            lemma_pow2_adds(64, e as nat);
        } else if e < 0 {
            lemma_pow2_adds(k1, (-e) as nat);
        }
    }
    let q = pow2(64);
    assert(m1 * p1 * down == m1 * q * up) by (nonlinear_arith)
        requires
            p1 * down == q * up,
    ;
    if d <= 64 {
        let t = pow2((64 - d) as nat);
        assert(p2 * down == t * up) by {
            if e > 0 {
                lemma_pow2_adds((64 - d) as nat, e as nat);
                assert((64 - d) as nat + e as nat == k2);
            } else if e < 0 {
                lemma_pow2_adds(k2, (-e) as nat);
                assert(k2 + (-e) as nat == (64 - d) as nat);
            } else {
                assert((64 - d) as nat == k2);
            }
        }
        assert(m2 * p2 * down == m2 * t * up) by (nonlinear_arith)
            requires
                p2 * down == t * up,
        ;
    } else {
        let t = pow2((d - 64) as nat);
        lemma_pow2_pos((d - 64) as nat);
        lemma_pow2_pos(k2);
        lemma_pow2_adds(k2, (d - 64) as nat);
        assert(up == p2 * t);
        assert(down == 1);
        lemma_fundamental_div_mod(m2 as int, t as int);
        let r = m2 % t;
        assert(m2 * p2 == small * up + r * p2) by (nonlinear_arith)
            requires
                m2 == t * small + r,
                up == p2 * t,
        ;
        assert(0 <= r * p2 < up && (r * p2 == 0) == (r == 0)) by (nonlinear_arith)
            requires
                0 <= r < t,
                p2 > 0,
                up == p2 * t,
        ;
    }
}

/// `m * 2^(64 - d)` rounded down, and whether something was cut off.
fn lower(m: u64, d: u32) -> (r: (u128, bool))
    requires
        m < pow2(54),
    ensures
        r.0 < pow2(118),
        d <= 64 ==> r.0 == m as nat * pow2((64 - d) as nat),
        d > 64 ==> r.0 == m as nat / pow2((d - 64) as nat) && r.0 <= m,
        r.1 == (d > 64 && m as nat % pow2((d - 64) as nat) != 0),
{
    proof {
        vstd::arithmetic::power2::lemma2_to64();
        lemma_pow2_adds(54, 64);
        lemma_pow2_strictly_increases(54, 64);
        lemma_pow2_strictly_increases(54, 118);
        lemma_pow2_strictly_increases(118, 126);
        crate::rounding::lemma_power_fits(126);
    }
    if d <= 64 {
        proof {
            lemma_pow2_pos((64 - d) as nat);
            if d > 0 {
                lemma_pow2_strictly_increases((64 - d) as nat, 64);
            }
        }
        let t: u128 = power(64 - d);
        assert((m as nat) * (t as nat) < pow2(118)) by (nonlinear_arith)
            requires
                m < pow2(54),
                0 < t <= pow2(64),
                pow2(118) == pow2(54) * pow2(64),
        ;
        (m as u128 * t, false)
    } else if d - 64 >= 64 {
        proof {
            if d - 64 > 64 {
                lemma_pow2_strictly_increases(64, (d - 64) as nat);
            }
            vstd::arithmetic::div_mod::lemma_small_mod(m as nat, pow2((d - 64) as nat));
            vstd::arithmetic::div_mod::lemma_basic_div(m as int, pow2((d - 64) as nat) as int);
        }
        (0, m != 0)
    } else {
        let t: u128 = power(d - 64);
        proof {
            lemma_pow2_pos((d - 64) as nat);
            vstd::arithmetic::div_mod::lemma_div_nonincreasing(m as int, t as int);
        }
        (m as u128 / t, m as u128 % t != 0)
    }
}

impl Format {
    /// A bracketed magnitude, rounded.
    fn rounded(self, negative: bool, m: u128, e: i32, sticky: bool) -> (r: Parts)
        requires
            -8000 <= e <= 8000,
            m < pow2(126),
            sticky ==> m >= pow2((self.precision() + 1) as nat),
        ensures
            r.well_formed(self),
            forall|num: nat, den: nat| #[trigger]
                brackets(num, den, m as nat, e as int, sticky) ==> r.view() == nearest(
                    self,
                    negative,
                    num,
                    den,
                ),
    {
        let (n, k): (u64, u32) = round_bracketed(self.bits(), m, e, sticky);
        self.assemble(negative, n, k)
    }

    /// Sum of two finite numbers, the one with the greater exponent first.
    fn plus_aligned(
        self,
        s1: bool,
        m1: u64,
        k1: u32,
        s2: bool,
        m2: u64,
        k2: u32,
    ) -> (r: Parts)
        requires
            k1 >= k2,
            (Parts::Finite { negative: s1, significand: m1, exponent: k1 }).well_formed(self),
            (Parts::Finite { negative: s2, significand: m2, exponent: k2 }).well_formed(self),
        ensures
            r.well_formed(self),
            r.view() == plus(
                self,
                (Parts::Finite { negative: s1, significand: m1, exponent: k1 }).view(),
                (Parts::Finite { negative: s2, significand: m2, exponent: k2 }).view(),
            ),
    {
        let e: i32 = k1 as i32 - 64;
        let d: u32 = k1 - k2;
        let ghost p = self.precision();
        let ghost x1 = m1 as nat * pow2(k1 as nat);
        let ghost x2 = m2 as nat * pow2(k2 as nat);
        let ghost up = scale_up(e as int);
        let ghost down = scale_up(-(e as int));
        proof {
            vstd::arithmetic::power2::lemma2_to64();
            lemma_pow2_strictly_increases(p, 54);
            lemma_pow2_adds(54, 64);
            lemma_pow2_adds(118, 6);
            lemma_pow2_strictly_increases(124, 126);
            lemma_pow2_strictly_increases(54, 118);
            crate::rounding::lemma_power_fits(126);
        }
        let lift: u128 = power(64);
        assert(m1 as nat * pow2(64) < pow2(118)) by (nonlinear_arith)
            requires
                m1 < pow2(54),
                pow2(118) == pow2(54) * pow2(64),
                pow2(64) > 0,
        ;
        let big: u128 = m1 as u128 * lift;
        let (small, sticky): (u128, bool) = lower(m2, d);
        proof {
            lemma_aligned(m1 as nat, k1 as nat, m2 as nat, k2 as nat, small as nat);
            lemma_scale_up_pos(e as int);
            lemma_scale_up_pos(-(e as int));
            if sticky {
                lemma_pow2_adds((p - 1) as nat, 64);
                lemma_pow2_strictly_increases(p + 1, (p + 62) as nat);
                lemma_pow2_unfold((p + 63) as nat);
                let half = pow2((p - 1) as nat);
                let q = pow2(64);
                assert(m1 as nat * q >= half * q) by (nonlinear_arith)
                    requires
                        m1 >= half,
                ;
                lemma_pow2_strictly_increases(p, p + 1);
            }
        }
        let ghost cut = (x2 * down - small as nat * up) as nat;
        if s1 == s2 {
            let r = self.rounded(s1, big + small, e, sticky);
            proof {
                let m = (big + small) as nat;
                assert((x1 + x2) * down == m * (1 * up) + cut) by (nonlinear_arith)
                    requires
                        x1 * down == big as nat * up,
                        x2 * down == small as nat * up + cut,
                        m == big as nat + small as nat,
                ;
                lemma_bracketed((x1 + x2) as nat, 1, m, e as int, cut);
                if x1 + x2 == 0 {
                    lemma_nearest_zero(self, s1);
                }
            }
            r
        } else if big > small {
            let m: u128 = if sticky {
                big - small - 1
            } else {
                big - small
            };
            let r = self.rounded(s1, m, e, sticky);
            proof {
                let rest: nat = if sticky {
                    (up - cut) as nat
                } else {
                    0
                };
                assert((x1 - x2) * down == m as nat * (1 * up) + rest) by (nonlinear_arith)
                    requires
                        x1 * down == big as nat * up,
                        x2 * down == small as nat * up + cut,
                        sticky ==> m == big - small - 1 && rest == up - cut,
                        !sticky ==> m == big - small && rest == 0 && cut == 0,
                ;
                assert(x1 - x2 > 0) by (nonlinear_arith)
                    requires
                        (x1 - x2) * down == m as nat * (1 * up) + rest,
                        down > 0,
                        up > 0,
                        m as nat > 0,
                        rest >= 0,
                ;
                lemma_bracketed((x1 - x2) as nat, 1, m as nat, e as int, rest);
            }
            r
        } else if big == small {
            proof {
                assert(x1 == x2) by (nonlinear_arith)
                    requires
                        x1 * down == big as nat * up,
                        x2 * down == small as nat * up,
                        big == small,
                        down > 0,
                ;
                lemma_pow2_pos(0);
                lemma_pow2_pos(p);
            }
            Parts::Finite { negative: false, significand: 0, exponent: 0 }
        } else {
            let m: u128 = small - big;
            let r = self.rounded(s2, m, e, false);
            proof {
                assert((x2 - x1) * down == m as nat * (1 * up) + 0) by (nonlinear_arith)
                    requires
                        x1 * down == big as nat * up,
                        x2 * down == small as nat * up,
                        m == small - big,
                ;
                assert(x2 - x1 > 0) by (nonlinear_arith)
                    requires
                        (x2 - x1) * down == m as nat * (1 * up) + 0,
                        down > 0,
                        up > 0,
                        m as nat > 0,
                ;
                lemma_bracketed((x2 - x1) as nat, 1, m as nat, e as int, 0);
            }
            r
        }
    }
}

/// Zero needs no rounding.
proof fn lemma_nearest_zero(f: Format, negative: bool)
    ensures
        nearest(f, negative, 0, 1) == (Value::Finite { negative, units: 0 }),
{
    lemma_pow2_pos(f.precision() + f.top());
    lemma_round_nothing(f.precision(), 1);
}

/// Significands and their products fit.
proof fn lemma_significand_sizes(f: Format, m1: nat, m2: nat)
    requires
        m1 < pow2(f.precision()),
        m2 < pow2(f.precision()),
    ensures
        m1 * m2 < pow2(106),
        pow2(106) < pow2(126),
        pow2(126) <= u128::MAX,
        m1 < pow2(53),
        m2 < pow2(53),
        pow2(53) <= u64::MAX,
{
    vstd::arithmetic::power2::lemma2_to64();
    if f.precision() < 53 {
        lemma_pow2_strictly_increases(f.precision(), 53);
    }
    lemma_pow2_adds(53, 53);
    lemma_pow2_strictly_increases(106, 126);
    lemma_pow2_strictly_increases(53, 64);
    crate::rounding::lemma_power_fits(126);
    let q = pow2(53);
    assert(m1 * m2 < q * q) by (nonlinear_arith)
        requires
            m1 < q,
            m2 < q,
            m1 >= 0,
            m2 >= 0,
    ;
}

/// A product of powers of two brackets `m` exactly.
proof fn lemma_exact_bracket(num: nat, m: nat, a: nat, b: nat)
    requires
        num == m * pow2(a),
    ensures
        brackets(num, pow2(b), m, a - b, false),
{
    let e = a - b;
    let up = scale_up(e);
    let down = scale_up(-e);
    let pa = pow2(a);
    let pb = pow2(b);
    lemma_pow2_pos(b);
    lemma_scale_up_pos(e);
    assert(pa * down == pb * up) by {
        if e > 0 {
            lemma_pow2_adds(b, e as nat);
        } else if e < 0 {
            lemma_pow2_adds(a, (-e) as nat);
        }
    }
    assert(num * down == m * (pb * up) + 0) by (nonlinear_arith)
        requires
            num == m * pa,
            pa * down == pb * up,
    ;
    assert(pb * up > 0) by (nonlinear_arith)
        requires
            pb > 0,
            up > 0,
    ;
    lemma_bracketed(num, pb, m, e, 0);
}

impl Format {
    /// Product of two finite numbers.
    fn times_finite(self, negative: bool, m1: u64, k1: u32, m2: u64, k2: u32) -> (r: Parts)
        requires
            m1 < pow2(self.precision()),
            m2 < pow2(self.precision()),
            k1 <= self.top(),
            k2 <= self.top(),
        ensures
            r.well_formed(self),
            r.view() == nearest(
                self,
                negative,
                (m1 as nat * pow2(k1 as nat)) * (m2 as nat * pow2(k2 as nat)),
                pow2(self.unit()),
            ),
    {
        proof {
            lemma_significand_sizes(self, m1 as nat, m2 as nat);
        }
        let m: u128 = m1 as u128 * m2 as u128;
        let e: i32 = (k1 + k2) as i32 - self.unit_exponent() as i32;
        let r = self.rounded(negative, m, e, false);
        proof {
            let p1 = pow2(k1 as nat);
            let p2 = pow2(k2 as nat);
            lemma_pow2_adds(k1 as nat, k2 as nat);
            let num = (m1 as nat * p1) * (m2 as nat * p2);
            assert(num == m as nat * (p1 * p2)) by (nonlinear_arith)
                requires
                    num == (m1 as nat * p1) * (m2 as nat * p2),
                    m == m1 as nat * m2 as nat,
            ;
            lemma_exact_bracket(num, m as nat, (k1 + k2) as nat, self.unit());
        }
        r
    }

    /// Quotient of two finite numbers of the shorter format, of which the
    /// second is not zero.
    fn over_finite(self, negative: bool, m1: u64, k1: u32, m2: u64, k2: u32) -> (r: Parts)
        requires
            self == Format::Single,
            m1 < pow2(self.precision()),
            0 < m2 < pow2(self.precision()),
            k1 <= self.top(),
            k2 <= self.top(),
        ensures
            r.well_formed(self),
            r.view() == nearest(
                self,
                negative,
                (m1 as nat * pow2(k1 as nat)) * pow2(self.unit()),
                m2 as nat * pow2(k2 as nat),
            ),
    {
        if m1 == 0 {
            proof {
                let p1 = pow2(k1 as nat);
                let p2 = pow2(k2 as nat);
                lemma_pow2_pos(k2 as nat);
                assert(m2 as nat * p2 > 0) by (nonlinear_arith)
                    requires
                        m2 > 0,
                        p2 > 0,
                ;
                let pu = pow2(self.unit());
                assert((0nat * p1) * pu == 0) by (nonlinear_arith);
                assert(0nat * pow2(0) == 0);
                lemma_round_nothing(self.precision(), m2 as nat * p2);
                lemma_pow2_pos(self.precision() + self.top());
                lemma_pow2_pos(self.precision());
            }
            return Parts::Finite { negative, significand: 0, exponent: 0 };
        }
        let lift: u128 = power(64);
        proof {
            vstd::arithmetic::power2::lemma2_to64();
            lemma_pow2_adds(24, 64);
            lemma_pow2_strictly_increases(88, 126);
            crate::rounding::lemma_power_fits(126);
            vstd::arithmetic::power2::lemma2_to64_rest();
        }
        assert((m1 as nat) * (lift as nat) < pow2(88)) by (nonlinear_arith)
            requires
                m1 < pow2(24),
                lift == pow2(64),
                pow2(88) == pow2(24) * pow2(64),
                pow2(64) > 0,
        ;
        let dividend: u128 = m1 as u128 * lift;
        let m: u128 = dividend / m2 as u128;
        let rest: u128 = dividend % m2 as u128;
        let e: i32 = k1 as i32 - k2 as i32 + self.unit_exponent() as i32 - 64;
        proof {
            lemma_fundamental_div_mod(dividend as int, m2 as int);
            assert(m >= pow2(40)) by (nonlinear_arith)
                requires
                    dividend == m2 * m + rest,
                    rest < m2,
                    m2 < pow2(24),
                    dividend >= pow2(64),
                    pow2(64) == 0x1_0000_0000_0000_0000,
                    pow2(24) == 0x100_0000,
                    pow2(40) == 0x100_0000_0000,
            ;
            vstd::arithmetic::div_mod::lemma_div_nonincreasing(dividend as int, m2 as int);
            lemma_pow2_strictly_increases(25, 40);
        }
        let r = self.rounded(negative, m, e, rest != 0);
        proof {
            let u = self.unit();
            let up = scale_up(e as int);
            let down = scale_up(-(e as int));
            lemma_scale_up_pos(e as int);
            let p1 = pow2(k1 as nat);
            let p2 = pow2(k2 as nat);
            let q = pow2(64);
            let pu = pow2(u);
            lemma_pow2_pos(k2 as nat);
            // 2^k1 * 2^unit * down == 2^64 * 2^k2 * up
            assert(p1 * pu * down == q * p2 * up) by {
                lemma_pow2_adds(k1 as nat, u);
                lemma_pow2_adds(64, k2 as nat);
                if e > 0 {
                    lemma_pow2_adds((64 + k2) as nat, e as nat);
                } else if e < 0 {
                    lemma_pow2_adds((k1 + u) as nat, (-e) as nat);
                }
            }
            let num = (m1 as nat * p1) * pu;
            let den = m2 as nat * p2;
            let scale = p2 * up;
            assert(den > 0) by (nonlinear_arith)
                requires
                    m2 > 0,
                    p2 > 0,
                    den == m2 as nat * p2,
            ;
            let left = rest as nat * scale;
            assert(num * down == (m1 as nat * q) * scale) by (nonlinear_arith)
                requires
                    num == (m1 as nat * p1) * pu,
                    p1 * pu * down == q * p2 * up,
                    scale == p2 * up,
            ;
            let whole = m1 as nat * q;
            assert(whole * scale == (m2 as nat * m as nat) * scale + left) by (nonlinear_arith)
                requires
                    whole == m2 as nat * m as nat + rest as nat,
                    left == rest as nat * scale,
            ;
            assert((m2 as nat * m as nat) * scale == m as nat * (den * up)) by (nonlinear_arith)
                requires
                    den == m2 as nat * p2,
                    scale == p2 * up,
            ;
            assert(left < den * up && (left != 0) == (rest != 0)) by (nonlinear_arith)
                requires
                    rest < m2,
                    p2 > 0,
                    up > 0,
                    den == m2 as nat * p2,
                    scale == p2 * up,
                    left == rest as nat * scale,
            ;
            lemma_bracketed(num, den, m as nat, e as int, left);
        }
        r
    }
}

/// Every natural has a root, rounded down.
pub proof fn lemma_root_exists(n: nat)
    ensures
        is_root(n, floor_root(n)),
    decreases n,
{
    if n == 0 {
        assert(0nat * 0nat == 0 && (0nat + 1) * (0nat + 1) == 1) by (nonlinear_arith);
        assert(is_root(0, 0));
    } else {
        lemma_root_exists((n - 1) as nat);
        let r = floor_root((n - 1) as nat);
        assert((r + 2) * (r + 2) > (r + 1) * (r + 1)) by (nonlinear_arith);
        if n < (r + 1) * (r + 1) {
            assert(is_root(n, r));
        } else {
            assert(is_root(n, r + 1));
        }
    }
}

/// Squares keep the order.
pub proof fn lemma_square_order(a: nat, b: nat)
    ensures
        (a < b) == (a * a < b * b),
        (a == b) == (a * a == b * b),
{
    assert(a < b ==> a * a < b * b) by (nonlinear_arith);
    assert(b < a ==> b * b < a * a) by (nonlinear_arith);
}

/// The square root of `n`, rounded down.
fn integer_root(n: u128) -> (r: u128)
    requires
        n < pow2(88),
    ensures
        is_root(n as nat, r as nat),
        r < pow2(44),
{
    let mut r: u128 = 0;
    let mut j: u32 = 44;
    let mut step: u128 = power(44);
    proof {
        lemma_pow2_adds(44, 44);
        vstd::arithmetic::power2::lemma2_to64();
        vstd::arithmetic::power2::lemma2_to64_rest();
    }
    while j > 0
        invariant
            j <= 44,
            step == pow2(j as nat),
            r * r <= n < (r + step) * (r + step),
            r + step <= pow2(44),
            pow2(44) == 0x1000_0000_0000,
        decreases j,
    {
        proof {
            lemma_pow2_unfold(j as nat);
            lemma_pow2_pos((j - 1) as nat);
        }
        let half: u128 = step / 2;
        let c: u128 = r + half;
        assert(c * c <= 0x1000_0000_0000 * 0x1000_0000_0000) by (nonlinear_arith)
            requires
                0 <= c <= 0x1000_0000_0000,
        ;
        if c * c <= n {
            r = c;
        }
        step = half;
        j = j - 1;
    }
    proof {
        vstd::arithmetic::power2::lemma2_to64();
    }
    r
}

/// The root of a scaled number lies next to the scaled root.
proof fn lemma_scaled_root(n: nat, r: nat, a: nat)
    requires
        is_root(n, r),
        a > 0,
    ensures
        ({
            let square = (4 * (n * (a * a))) as nat;
            let h = floor_root(square);
            let lost: nat = if h * h == square {
                0
            } else {
                1
            };
            let num = (2 * h + lost) as nat;
            &&& r * (4 * a) <= num < r * (4 * a) + 4 * a
            &&& (num == r * (4 * a)) == (r * r == n)
        }),
{
    let square = (4 * (n * (a * a))) as nat;
    let h = floor_root(square);
    lemma_root_exists(square);
    let low = (2 * (r * a)) as nat;
    let high = (2 * ((r + 1) * a)) as nat;
    assert(low * low == 4 * ((r * r) * (a * a))) by (nonlinear_arith)
        requires
            low == 2 * (r * a),
    ;
    assert(high * high == 4 * (((r + 1) * (r + 1)) * (a * a))) by (nonlinear_arith)
        requires
            high == 2 * ((r + 1) * a),
    ;
    let aa = a * a;
    let rr = r * r;
    let next = (r + 1) * (r + 1);
    assert(aa > 0) by (nonlinear_arith)
        requires
            a > 0,
            aa == a * a,
    ;
    assert(rr * aa <= n * aa < next * aa && (rr * aa == n * aa) == (rr == n)) by (nonlinear_arith)
        requires
            rr <= n < next,
            aa > 0,
    ;
    lemma_square_order(low, h + 1);
    lemma_square_order(h, high);
    lemma_square_order(low, h);
    assert(high == low + 2 * a) by (nonlinear_arith)
        requires
            low == 2 * (r * a),
            high == 2 * ((r + 1) * a),
    ;
    assert(r * (4 * a) == 2 * low) by (nonlinear_arith)
        requires
            low == 2 * (r * a),
    ;
}

impl Format {
    /// Square root of a positive finite number of the shorter format.
    fn root_finite(self, m: u64, k: u32) -> (r: Parts)
        requires
            self == Format::Single,
            0 < m < pow2(self.precision()),
            k <= self.top(),
        ensures
            r.well_formed(self),
            r.view() == root(
                self,
                Value::Finite { negative: false, units: m as nat * pow2(k as nat) },
            ),
    {
        let g: u32 = k + self.unit_exponent();
        let t: u32 = if g % 2 == 0 {
            60
        } else {
            61
        };
        let lift: u128 = power(t);
        proof {
            lemma_pow2_adds(24, 61);
            lemma_pow2_strictly_increases(60, 61);
            lemma_pow2_strictly_increases(85, 88);
            lemma_pow2_strictly_increases(88, 126);
            lemma_pow2_strictly_increases(44, 126);
            lemma_pow2_strictly_increases(25, 30);
            lemma_pow2_strictly_increases(50, 60);
            lemma_pow2_adds(30, 30);
            crate::rounding::lemma_power_fits(126);
            lemma_pow2_pos(t as nat);
        }
        assert((m as nat) * (lift as nat) < pow2(85)) by (nonlinear_arith)
            requires
                m < pow2(24),
                lift <= pow2(61),
                pow2(85) == pow2(24) * pow2(61),
                lift > 0,
        ;
        let n: u128 = m as u128 * lift;
        let q: u128 = integer_root(n);
        let e: i32 = ((g - t) / 2) as i32;
        proof {
            let x = pow2(30);
            assert(n >= lift) by (nonlinear_arith)
                requires
                    n == m as nat * lift as nat,
                    m >= 1,
            ;
            assert(q + 1 > x) by {
                lemma_square_order(x, (q + 1) as nat);
            }
            lemma_pow2_pos(30);
        }
        assert(q * q <= n);
        let r = self.rounded(false, q, e, q * q != n);
        proof {
            let a = pow2(e as nat);
            lemma_pow2_pos(e as nat);
            let p = pow2(k as nat);
            let u = pow2(self.unit());
            let units = m as nat * p;
            lemma_scaled_root(n as nat, q as nat, a);
            lemma_pow2_pos(k as nat);
            lemma_pow2_adds(k as nat, self.unit());
            lemma_pow2_adds(e as nat, e as nat);
            lemma_pow2_adds(t as nat, (e + e) as nat);
            assert(g == t + (e + e));
            assert(units * u == n as nat * (a * a)) by (nonlinear_arith)
                requires
                    units == m as nat * p,
                    n == m as nat * lift as nat,
                    p * u == lift as nat * (a * a),
            ;
            assert(units > 0) by (nonlinear_arith)
                requires
                    units == m as nat * p,
                    m > 0,
                    p > 0,
            ;
            let square = (4 * (units * u)) as nat;
            let h = floor_root(square);
            let lost: nat = if h * h == square {
                0
            } else {
                1
            };
            let num = (2 * h + lost) as nat;
            lemma_bracketed(num, 4, q as nat, e as int, (num - q as nat * (4 * a)) as nat);
        }
        r
    }
}

/// The sum does not depend on the order of the terms.
proof fn lemma_plus_commutes(f: Format, a: Value, b: Value)
    ensures
        plus(f, a, b) == plus(f, b, a),
{
}

/// A finite number is zero where its significand is.
proof fn lemma_zero_significand(significand: nat, exponent: nat)
    ensures
        (significand * pow2(exponent) == 0) == (significand == 0),
{
    let p = pow2(exponent);
    lemma_pow2_pos(exponent);
    assert((significand * p == 0) == (significand == 0)) by (nonlinear_arith)
        requires
            p > 0,
    ;
}

impl Parts {
    /// The same number with the other sign.
    pub fn negated(self) -> (r: Parts)
        ensures
            r.view() == opposite(self.view()),
            forall|f: Format| self.well_formed(f) ==> #[trigger] r.well_formed(f),
    {
        match self {
            Parts::Nan => Parts::Nan,
            Parts::Infinite { negative } => Parts::Infinite { negative: !negative },
            Parts::Finite { negative, significand, exponent } => Parts::Finite {
                negative: !negative,
                significand,
                exponent,
            },
        }
    }
}

impl Format {
    /// Sum, rounded.
    pub fn sum(self, a: Parts, b: Parts) -> (r: Parts)
        requires
            a.well_formed(self),
            b.well_formed(self),
        ensures
            r.well_formed(self),
            r.view() == plus(self, a.view(), b.view()),
    {
        match (a, b) {
            (Parts::Nan, _) => Parts::Nan,
            (_, Parts::Nan) => Parts::Nan,
            (Parts::Infinite { negative: s }, Parts::Infinite { negative: t }) => if s == t {
                a
            } else {
                Parts::Nan
            },
            (Parts::Infinite { .. }, Parts::Finite { .. }) => a,
            (Parts::Finite { .. }, Parts::Infinite { .. }) => b,
            (
                Parts::Finite { negative: s, significand: m, exponent: k },
                Parts::Finite { negative: t, significand: n, exponent: j },
            ) => if k >= j {
                self.plus_aligned(s, m, k, t, n, j)
            } else {
                proof {
                    lemma_plus_commutes(self, a.view(), b.view());
                }
                self.plus_aligned(t, n, j, s, m, k)
            },
        }
    }

    /// Product, rounded.
    pub fn product(self, a: Parts, b: Parts) -> (r: Parts)
        requires
            a.well_formed(self),
            b.well_formed(self),
        ensures
            r.well_formed(self),
            r.view() == times(self, a.view(), b.view()),
    {
        match (a, b) {
            (Parts::Nan, _) => Parts::Nan,
            (_, Parts::Nan) => Parts::Nan,
            (Parts::Infinite { negative: s }, Parts::Infinite { negative: t }) => Parts::Infinite {
                negative: s != t,
            },
            (
                Parts::Infinite { negative: s },
                Parts::Finite { negative: t, significand: n, exponent: j },
            ) => {
                proof {
                    lemma_zero_significand(n as nat, j as nat);
                }
                if n == 0 {
                    Parts::Nan
                } else {
                    Parts::Infinite { negative: s != t }
                }
            },
            (
                Parts::Finite { negative: s, significand: m, exponent: k },
                Parts::Infinite { negative: t },
            ) => {
                proof {
                    lemma_zero_significand(m as nat, k as nat);
                }
                if m == 0 {
                    Parts::Nan
                } else {
                    Parts::Infinite { negative: s != t }
                }
            },
            (
                Parts::Finite { negative: s, significand: m, exponent: k },
                Parts::Finite { negative: t, significand: n, exponent: j },
            ) => self.times_finite(s != t, m, k, n, j),
        }
    }

    /// Quotient, rounded; for the shorter format.
    pub fn quotient(self, a: Parts, b: Parts) -> (r: Parts)
        requires
            self == Format::Single,
            a.well_formed(self),
            b.well_formed(self),
        ensures
            r.well_formed(self),
            r.view() == over(self, a.view(), b.view()),
    {
        match (a, b) {
            (Parts::Nan, _) => Parts::Nan,
            (_, Parts::Nan) => Parts::Nan,
            (Parts::Infinite { .. }, Parts::Infinite { .. }) => Parts::Nan,
            (
                Parts::Infinite { negative: s },
                Parts::Finite { negative: t, .. },
            ) => Parts::Infinite { negative: s != t },
            (Parts::Finite { negative: s, .. }, Parts::Infinite { negative: t }) => {
                proof {
                    lemma_pow2_pos(self.precision());
                    lemma_zero_significand(0, 0);
                }
                Parts::Finite { negative: s != t, significand: 0, exponent: 0 }
            },
            (
                Parts::Finite { negative: s, significand: m, exponent: k },
                Parts::Finite { negative: t, significand: n, exponent: j },
            ) => {
                proof {
                    lemma_zero_significand(m as nat, k as nat);
                    lemma_zero_significand(n as nat, j as nat);
                }
                if n != 0 {
                    self.over_finite(s != t, m, k, n, j)
                } else if m != 0 {
                    Parts::Infinite { negative: s != t }
                } else {
                    Parts::Nan
                }
            },
        }
    }

    /// Square root, rounded; for the shorter format.
    pub fn square_root(self, a: Parts) -> (r: Parts)
        requires
            self == Format::Single,
            a.well_formed(self),
        ensures
            r.well_formed(self),
            r.view() == root(self, a.view()),
    {
        match a {
            Parts::Nan => Parts::Nan,
            Parts::Infinite { negative } => if negative {
                Parts::Nan
            } else {
                a
            },
            Parts::Finite { negative, significand, exponent } => {
                proof {
                    lemma_zero_significand(significand as nat, exponent as nat);
                }
                if significand == 0 {
                    a
                } else if negative {
                    Parts::Nan
                } else {
                    self.root_finite(significand, exponent)
                }
            },
        }
    }

    /// The number nearest to `n`.
    pub fn from_natural(self, n: u64) -> (r: Parts)
        ensures
            r.well_formed(self),
            r.view() == natural(self, n as nat),
    {
        proof {
            vstd::arithmetic::power2::lemma2_to64();
            lemma_pow2_strictly_increases(64, 126);
        }
        let r = self.rounded(false, n as u128, self.unit_exponent() as i32, false);
        proof {
            lemma_exact_bracket(n as nat * pow2(self.unit()), n as nat, self.unit(), 0);
        }
        r
    }

    /// A number of this format in another one.
    pub fn converted(self, to: Format, a: Parts) -> (r: Parts)
        requires
            a.well_formed(self),
        ensures
            r.well_formed(to),
            r.view() == convert(self, to, a.view()),
    {
        match a {
            Parts::Nan => Parts::Nan,
            Parts::Infinite { negative } => Parts::Infinite { negative },
            Parts::Finite { negative, significand, exponent } => {
                proof {
                    lemma_significand_sizes(self, significand as nat, significand as nat);
                    lemma_pow2_strictly_increases(53, 126);
                }
                let e: i32 = exponent as i32 + to.unit_exponent() as i32
                    - self.unit_exponent() as i32;
                let r = to.rounded(negative, significand as u128, e, false);
                proof {
                    let m = significand as nat;
                    let p = pow2(exponent as nat);
                    let u = pow2(to.unit());
                    lemma_pow2_adds(exponent as nat, to.unit());
                    assert((m * p) * u == m * (p * u)) by (nonlinear_arith);
                    lemma_exact_bracket(
                        (m * p) * u,
                        m,
                        exponent as nat + to.unit(),
                        self.unit(),
                    );
                }
                r
            },
        }
    }
}

} // verus!
