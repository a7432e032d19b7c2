//! Double-precision numbers, held by their 64-bit encoding. Scroll positions
//! are kept in them.

use vstd::arithmetic::power2::pow2;
use vstd::prelude::*;

use crate::arithmetic::Parts;
use crate::float::{convert, minus, natural, times, Format, Value};
use crate::single::Single;

verus! {

/// A double-precision number. `bits` is its encoding: a sign bit, eleven bits
/// of exponent, 52 bits of fraction.
#[derive(Clone, Copy, Debug)]
pub struct Double {
    pub bits: u64,
}

/// The number that 64 bits encode.
pub open spec fn decoded(bits: u64) -> Value {
    let negative = bits >= 0x8000_0000_0000_0000;
    let rest = if negative {
        (bits - 0x8000_0000_0000_0000) as nat
    } else {
        bits as nat
    };
    let field = rest / 0x10_0000_0000_0000;
    let fraction = rest % 0x10_0000_0000_0000;
    if rest > 0x7ff0_0000_0000_0000 {
        Value::Nan
    } else if rest == 0x7ff0_0000_0000_0000 {
        Value::Infinite { negative }
    } else if field == 0 {
        Value::Finite { negative, units: fraction }
    } else {
        Value::Finite {
            negative,
            units: (0x10_0000_0000_0000 + fraction) as nat * pow2((field - 1) as nat),
        }
    }
}

/// The powers of two that bound a significand.
proof fn lemma_significand_powers()
    ensures
        pow2(0) == 1,
        pow2(52) == 0x10_0000_0000_0000,
        pow2(53) == 0x20_0000_0000_0000,
{
    vstd::arithmetic::power2::lemma2_to64();
    vstd::arithmetic::power2::lemma2_to64_rest();
}

impl Double {
    /// The number that the encoding stands for.
    pub open spec fn view(&self) -> Value {
        decoded(self.bits)
    }

    /// The number with the given encoding.
    pub fn from_bits(bits: u64) -> (r: Double)
        ensures
            r.bits == bits,
    {
        Double { bits }
    }

    /// The encoding of the number.
    pub fn to_bits(self) -> (r: u64)
        ensures
            r == self.bits,
    {
        self.bits
    }

    fn unpack(self) -> (r: Parts)
        ensures
            r.well_formed(Format::Double),
            r.view() == self@,
    {
        let negative: bool = self.bits >= 0x8000_0000_0000_0000;
        let rest: u64 = if negative {
            self.bits - 0x8000_0000_0000_0000
        } else {
            self.bits
        };
        proof {
            lemma_significand_powers();
        }
        if rest > 0x7ff0_0000_0000_0000 {
            Parts::Nan
        } else if rest == 0x7ff0_0000_0000_0000 {
            Parts::Infinite { negative }
        } else {
            let field: u64 = rest / 0x10_0000_0000_0000;
            let fraction: u64 = rest % 0x10_0000_0000_0000;
            if field == 0 {
                Parts::Finite { negative, significand: fraction, exponent: 0 }
            } else {
                Parts::Finite {
                    negative,
                    significand: 0x10_0000_0000_0000 + fraction,
                    exponent: (field - 1) as u32,
                }
            }
        }
    }

    fn pack(parts: Parts) -> (r: Double)
        requires
            parts.well_formed(Format::Double),
        ensures
            r@ == parts.view(),
    {
        proof {
            lemma_significand_powers();
        }
        match parts {
            Parts::Nan => Double { bits: 0x7ff8_0000_0000_0000 },
            Parts::Infinite { negative } => Double {
                bits: if negative {
                    0xfff0_0000_0000_0000
                } else {
                    0x7ff0_0000_0000_0000
                },
            },
            Parts::Finite { negative, significand, exponent } => {
                let rest: u64 = exponent as u64 * 0x10_0000_0000_0000 + significand;
                proof {
                    if significand >= 0x10_0000_0000_0000 {
                        assert(rest as nat / 0x10_0000_0000_0000 == exponent + 1);
                        assert(rest as nat % 0x10_0000_0000_0000 == significand
                            - 0x10_0000_0000_0000);
                    } else {
                        assert(rest as nat / 0x10_0000_0000_0000 == 0);
                        assert(significand as nat * pow2(0) == significand);
                    }
                }
                Double {
                    bits: if negative {
                        0x8000_0000_0000_0000 + rest
                    } else {
                        rest
                    },
                }
            },
        }
    }

    /// The number nearest to `n`.
    pub fn natural(n: u64) -> (r: Double)
        ensures
            r@ == natural(Format::Double, n as nat),
    {
        Double::pack(Format::Double.from_natural(n))
    }

    /// A single-precision number, widened.
    pub fn from_single(x: Single) -> (r: Double)
        ensures
            r@ == convert(Format::Single, Format::Double, x@),
    {
        Double::pack(Format::Single.converted(Format::Double, x.unpack()))
    }

    /// The nearest single-precision number.
    pub fn to_single(self) -> (r: Single)
        ensures
            r@ == convert(Format::Double, Format::Single, self@),
    {
        Single::pack(Format::Double.converted(Format::Single, self.unpack()))
    }

    /// Difference.
    pub fn minus(self, other: Double) -> (r: Double)
        ensures
            r@ == minus(Format::Double, self@, other@),
    {
        Double::pack(Format::Double.sum(self.unpack(), other.unpack().negated()))
    }

    /// Product.
    pub fn times(self, other: Double) -> (r: Double)
        ensures
            r@ == times(Format::Double, self@, other@),
    {
        Double::pack(Format::Double.product(self.unpack(), other.unpack()))
    }
}

} // verus!
