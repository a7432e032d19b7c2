//! Single-precision numbers, held by their 32-bit encoding.

use vstd::arithmetic::power2::{
    lemma_pow2_pos, lemma_pow2_strictly_increases, lemma_pow2_unfold, pow2,
};
use vstd::prelude::*;

use crate::arithmetic::Parts;
use crate::float::{
    at_most, clamped, greater, less, lesser, magnitude, minus, natural, opposite, over, plus, root,
    same, times, Format, Value,
};

verus! {

/// A single-precision number. `bits` is its encoding: a sign bit, eight bits
/// of exponent, 23 bits of fraction.
#[derive(Clone, Copy, Debug)]
pub struct Single {
    pub bits: u32,
}

/// The encoding without its sign bit.
pub open spec fn magnitude_bits(bits: u32) -> nat {
    if bits >= 0x8000_0000 {
        (bits - 0x8000_0000) as nat
    } else {
        bits as nat
    }
}

/// The finite magnitude that an exponent field and a fraction encode, in units.
pub open spec fn encoded_units(rest: nat) -> nat {
    let field = rest / 0x80_0000;
    let fraction = rest % 0x80_0000;
    if field == 0 {
        fraction
    } else {
        (0x80_0000 + fraction) as nat * pow2((field - 1) as nat)
    }
}

/// The number that 32 bits encode.
pub open spec fn decoded(bits: u32) -> Value {
    let negative = bits >= 0x8000_0000;
    let rest = magnitude_bits(bits);
    if rest > 0x7f80_0000 {
        Value::Nan
    } else if rest == 0x7f80_0000 {
        Value::Infinite { negative }
    } else {
        Value::Finite { negative, units: encoded_units(rest) }
    }
}

/// Single-precision operations on values.
impl Value {
    #[verifier::opaque]
    pub open spec fn plus(self, other: Value) -> Value {
        plus(Format::Single, self, other)
    }

    #[verifier::opaque]
    pub open spec fn minus(self, other: Value) -> Value {
        minus(Format::Single, self, other)
    }

    #[verifier::opaque]
    pub open spec fn times(self, other: Value) -> Value {
        times(Format::Single, self, other)
    }

    #[verifier::opaque]
    pub open spec fn over(self, other: Value) -> Value {
        over(Format::Single, self, other)
    }

    #[verifier::opaque]
    pub open spec fn root(self) -> Value {
        root(Format::Single, self)
    }

    /// Positive zero.
    pub open spec fn zero() -> Value {
        Value::Finite { negative: false, units: 0 }
    }

    /// The number nearest to a natural.
    #[verifier::opaque]
    pub open spec fn of(n: nat) -> Value {
        natural(Format::Single, n)
    }

    /// The number nearest to a decimal fraction such as 1 / 10.
    pub open spec fn ratio(n: nat, d: nat) -> Value {
        Value::of(n).over(Value::of(d))
    }

    /// The number is a zero, of either sign.
    pub open spec fn is_zero(self) -> bool {
        same(self, Value::zero())
    }
}

/// Larger encodings stand for larger magnitudes.
proof fn lemma_encoding_order(a: nat, b: nat)
    requires
        a < b < 0x7f80_0000,
    ensures
        encoded_units(a) < encoded_units(b),
{
    vstd::arithmetic::power2::lemma2_to64();
    let fa = a / 0x80_0000;
    let fb = b / 0x80_0000;
    let xa = a % 0x80_0000;
    let xb = b % 0x80_0000;
    if fa == 0 {
        if fb > 0 {
            let p = pow2((fb - 1) as nat);
            lemma_pow2_pos((fb - 1) as nat);
            assert((0x80_0000 + xb) as nat * p >= 0x80_0000) by (nonlinear_arith)
                requires
                    p >= 1,
                    xb >= 0,
            ;
        }
    } else {
        let p = pow2((fa - 1) as nat);
        lemma_pow2_pos((fa - 1) as nat);
        if fa == fb {
            assert((0x80_0000 + xa) as nat * p < (0x80_0000 + xb) as nat * p) by (nonlinear_arith)
                requires
                    xa < xb,
                    p >= 1,
            ;
        } else {
            let q = pow2((fb - 1) as nat);
            lemma_pow2_unfold(fa);
            if fa < fb - 1 {
                lemma_pow2_strictly_increases(fa, (fb - 1) as nat);
            }
            assert((0x80_0000 + xa) as nat * p < (0x80_0000 + xb) as nat * q) by (nonlinear_arith)
                requires
                    xa < 0x80_0000,
                    xb >= 0,
                    q >= 2 * p,
                    p >= 1,
            ;
        }
    }
}

impl Single {
    /// The number that the encoding stands for.
    pub open spec fn view(&self) -> Value {
        decoded(self.bits)
    }

    /// The number with the given encoding.
    pub fn from_bits(bits: u32) -> (r: Single)
        ensures
            r.bits == bits,
    {
        Single { bits }
    }

    /// The encoding of the number.
    pub fn to_bits(self) -> (r: u32)
        ensures
            r == self.bits,
    {
        self.bits
    }

    pub(crate) fn unpack(self) -> (r: Parts)
        ensures
            r.well_formed(Format::Single),
            r.view() == self@,
    {
        let negative: bool = self.bits >= 0x8000_0000;
        let rest: u32 = if negative {
            self.bits - 0x8000_0000
        } else {
            self.bits
        };
        proof {
            vstd::arithmetic::power2::lemma2_to64();
        }
        if rest > 0x7f80_0000 {
            Parts::Nan
        } else if rest == 0x7f80_0000 {
            Parts::Infinite { negative }
        } else {
            let field: u32 = rest / 0x80_0000;
            let fraction: u32 = rest % 0x80_0000;
            if field == 0 {
                Parts::Finite { negative, significand: fraction as u64, exponent: 0 }
            } else {
                Parts::Finite {
                    negative,
                    significand: (0x80_0000 + fraction) as u64,
                    exponent: field - 1,
                }
            }
        }
    }

    pub(crate) fn pack(parts: Parts) -> (r: Single)
        requires
            parts.well_formed(Format::Single),
        ensures
            r@ == parts.view(),
    {
        proof {
            vstd::arithmetic::power2::lemma2_to64();
        }
        match parts {
            Parts::Nan => Single { bits: 0x7fc0_0000 },
            Parts::Infinite { negative } => Single {
                bits: if negative {
                    0xff80_0000
                } else {
                    0x7f80_0000
                },
            },
            Parts::Finite { negative, significand, exponent } => {
                let rest: u32 = exponent * 0x80_0000 + significand as u32;
                proof {
                    if significand >= 0x80_0000 {
                        assert(rest as nat / 0x80_0000 == exponent + 1);
                        assert(rest as nat % 0x80_0000 == significand - 0x80_0000);
                    } else {
                        assert(rest as nat / 0x80_0000 == 0);
                        assert(significand as nat * pow2(0) == significand);
                    }
                }
                Single {
                    bits: if negative {
                        0x8000_0000 + rest
                    } else {
                        rest
                    },
                }
            },
        }
    }

    /// Positive zero.
    pub fn zero() -> (r: Single)
        ensures
            r@ == Value::zero(),
            r.bits == 0,
    {
        Single { bits: 0 }
    }

    /// The number nearest to `n`.
    pub fn natural(n: u64) -> (r: Single)
        ensures
            r@ == Value::of(n as nat),
    {
        proof {
            reveal(Value::of);
        }
        Single::pack(Format::Single.from_natural(n))
    }

    /// The number nearest to `n / d`, where both are numbers themselves.
    pub fn ratio(n: u64, d: u64) -> (r: Single)
        ensures
            r@ == Value::ratio(n as nat, d as nat),
    {
        Single::natural(n).over(Single::natural(d))
    }

    /// Sum.
    pub fn plus(self, other: Single) -> (r: Single)
        ensures
            r@ == self@.plus(other@),
    {
        proof {
            reveal(Value::plus);
        }
        Single::pack(Format::Single.sum(self.unpack(), other.unpack()))
    }

    /// Difference.
    pub fn minus(self, other: Single) -> (r: Single)
        ensures
            r@ == self@.minus(other@),
    {
        proof {
            reveal(Value::minus);
        }
        Single::pack(Format::Single.sum(self.unpack(), other.unpack().negated()))
    }

    /// Product.
    pub fn times(self, other: Single) -> (r: Single)
        ensures
            r@ == self@.times(other@),
    {
        proof {
            reveal(Value::times);
        }
        Single::pack(Format::Single.product(self.unpack(), other.unpack()))
    }

    /// Quotient.
    pub fn over(self, other: Single) -> (r: Single)
        ensures
            r@ == self@.over(other@),
    {
        proof {
            reveal(Value::over);
        }
        Single::pack(Format::Single.quotient(self.unpack(), other.unpack()))
    }

    /// Square root.
    pub fn sqrt(self) -> (r: Single)
        ensures
            r@ == self@.root(),
    {
        proof {
            reveal(Value::root);
        }
        Single::pack(Format::Single.square_root(self.unpack()))
    }

    /// The same number with the other sign.
    pub fn negated(self) -> (r: Single)
        ensures
            r@ == opposite(self@),
    {
        if self.bits >= 0x8000_0000 {
            Single { bits: self.bits - 0x8000_0000 }
        } else {
            Single { bits: self.bits + 0x8000_0000 }
        }
    }

    /// The number without its sign.
    pub fn abs(self) -> (r: Single)
        ensures
            r@ == magnitude(self@),
    {
        if self.bits >= 0x8000_0000 {
            Single { bits: self.bits - 0x8000_0000 }
        } else {
            self
        }
    }

    /// Whether the encoding is that of a NaN.
    pub fn is_nan(self) -> (r: bool)
        ensures
            r == (self@ is Nan),
    {
        let rest: u32 = if self.bits >= 0x8000_0000 {
            self.bits - 0x8000_0000
        } else {
            self.bits
        };
        rest > 0x7f80_0000
    }

    /// An integer that orders the numbers that are not NaN.
    fn rank(self) -> (r: i64)
        ensures
            r == (if self.bits >= 0x8000_0000 {
                -(magnitude_bits(self.bits) as int)
            } else {
                magnitude_bits(self.bits) as int
            }),
    {
        if self.bits >= 0x8000_0000 {
            -((self.bits - 0x8000_0000) as i64)
        } else {
            self.bits as i64
        }
    }

    /// `self < other`; false where either is NaN.
    pub fn less(self, other: Single) -> (r: bool)
        ensures
            r == less(self@, other@),
    {
        let r = !self.is_nan() && !other.is_nan() && self.rank() < other.rank();
        proof {
            self.lemma_rank(other);
        }
        r
    }

    /// `self == other` as numbers.
    pub fn same(self, other: Single) -> (r: bool)
        ensures
            r == same(self@, other@),
    {
        let r = !self.is_nan() && !other.is_nan() && self.rank() == other.rank();
        proof {
            self.lemma_rank(other);
        }
        r
    }

    /// `self <= other`; false where either is NaN.
    pub fn at_most(self, other: Single) -> (r: bool)
        ensures
            r == at_most(self@, other@),
    {
        self.less(other) || self.same(other)
    }

    /// The order of two encodings is the order of the numbers.
    proof fn lemma_rank(self, other: Single)
        ensures
            ({
                let a = magnitude_bits(self.bits);
                let b = magnitude_bits(other.bits);
                let x = if self.bits >= 0x8000_0000 {
                    -(a as int)
                } else {
                    a as int
                };
                let y = if other.bits >= 0x8000_0000 {
                    -(b as int)
                } else {
                    b as int
                };
                let ordered = a <= 0x7f80_0000 && b <= 0x7f80_0000;
                &&& less(self@, other@) == (ordered && x < y)
                &&& same(self@, other@) == (ordered && x == y)
            }),
    {
        let a = magnitude_bits(self.bits);
        let b = magnitude_bits(other.bits);
        assert(encoded_units(0) == 0);
        if a < 0x7f80_0000 && b < 0x7f80_0000 {
            if a < b {
                lemma_encoding_order(a, b);
            } else if b < a {
                lemma_encoding_order(b, a);
            }
            if 0 < a {
                lemma_encoding_order(0, a);
            }
            if 0 < b {
                lemma_encoding_order(0, b);
            }
        }
    }

    /// The lesser of two numbers, or the one that is not NaN.
    pub fn min(self, other: Single) -> (r: Single)
        ensures
            r@ == lesser(self@, other@),
    {
        if self.is_nan() {
            other
        } else if other.is_nan() || self.at_most(other) {
            self
        } else {
            other
        }
    }

    /// The greater of two numbers, or the one that is not NaN.
    pub fn max(self, other: Single) -> (r: Single)
        ensures
            r@ == greater(self@, other@),
    {
        if self.is_nan() {
            other
        } else if other.is_nan() || other.at_most(self) {
            self
        } else {
            other
        }
    }

    /// The number, or the bound that it is beyond; NaN stays NaN.
    pub fn clamp(self, low: Single, high: Single) -> (r: Single)
        requires
            at_most(low@, high@),
        ensures
            r@ == clamped(self@, low@, high@),
    {
        if self.less(low) {
            low
        } else if high.less(self) {
            high
        } else {
            self
        }
    }
}

impl Default for Single {
    fn default() -> (r: Single)
        ensures
            r@ == Value::zero(),
            r.bits == 0,
    {
        Single::zero()
    }
}

impl PartialEq for Single {
    fn eq(&self, other: &Single) -> (r: bool) {
        self.same(*other)
    }
}

impl vstd::std_specs::cmp::PartialEqSpecImpl for Single {
    open spec fn obeys_eq_spec() -> bool {
        true
    }

    open spec fn eq_spec(&self, other: &Single) -> bool {
        same(self@, other@)
    }
}

} // verus!
