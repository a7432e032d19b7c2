//! What binary floating-point arithmetic is: the numbers of a format, their
//! order, and the basic operations, each rounded to nearest, ties to even.

use vstd::arithmetic::power2::pow2;
use vstd::prelude::*;

use crate::rounding::round_ratio;

verus! {

/// A binary interchange format.
#[derive(Clone, Copy, PartialEq, Eq, Structural)]
pub enum Format {
    /// 32 bits: 24 significant bits, numbers in units of `2^-149`.
    Single,
    /// 64 bits: 53 significant bits, numbers in units of `2^-1074`.
    Double,
}

impl Format {
    /// Number of significant bits.
    pub open spec fn precision(self) -> nat {
        match self {
            Format::Single => 24,
            Format::Double => 53,
        }
    }

    /// The smallest positive number is `2^-unit`; magnitudes are counted in it.
    pub open spec fn unit(self) -> nat {
        match self {
            Format::Single => 149,
            Format::Double => 1074,
        }
    }

    /// Largest exponent of two that a significand is scaled by.
    pub open spec fn top(self) -> nat {
        match self {
            Format::Single => 253,
            Format::Double => 2045,
        }
    }

    /// Magnitudes from here on are infinite.
    pub open spec fn limit(self) -> nat {
        pow2(self.precision() + self.top())
    }
}

/// What a floating-point number stands for. The payload of a NaN is left out.
pub enum Value {
    Nan,
    Infinite { negative: bool },
    /// `units` times the unit of the format; a zero has a sign too.
    Finite { negative: bool, units: nat },
}

/// A finite number as an integer, in units.
pub open spec fn signed(negative: bool, units: nat) -> int {
    if negative {
        -(units as int)
    } else {
        units as int
    }
}

/// A rounded magnitude with its sign: infinite where it is out of range.
pub open spec fn in_range(f: Format, negative: bool, units: nat) -> Value {
    if units >= f.limit() {
        Value::Infinite { negative }
    } else {
        Value::Finite { negative, units }
    }
}

/// The number nearest to `num / den` units.
pub open spec fn nearest(f: Format, negative: bool, num: nat, den: nat) -> Value {
    in_range(f, negative, round_ratio(f.precision(), num, den))
}

/// The same number with the other sign.
pub open spec fn opposite(v: Value) -> Value {
    match v {
        Value::Nan => Value::Nan,
        Value::Infinite { negative } => Value::Infinite { negative: !negative },
        Value::Finite { negative, units } => Value::Finite { negative: !negative, units },
    }
}

/// The number without its sign.
pub open spec fn magnitude(v: Value) -> Value {
    match v {
        Value::Nan => Value::Nan,
        Value::Infinite { .. } => Value::Infinite { negative: false },
        Value::Finite { units, .. } => Value::Finite { negative: false, units },
    }
}

/// Sum. A sum of zero is positive unless both terms are negative.
pub open spec fn plus(f: Format, a: Value, b: Value) -> Value {
    match (a, b) {
        (Value::Nan, _) => Value::Nan,
        (_, Value::Nan) => Value::Nan,
        (Value::Infinite { negative: s }, Value::Infinite { negative: t }) => if s == t {
            a
        } else {
            Value::Nan
        },
        (Value::Infinite { .. }, _) => a,
        (_, Value::Infinite { .. }) => b,
        (
            Value::Finite { negative: s, units: x },
            Value::Finite { negative: t, units: y },
        ) => {
            let sum = signed(s, x) + signed(t, y);
            if sum == 0 {
                Value::Finite { negative: s && t, units: 0 }
            } else if sum > 0 {
                nearest(f, false, sum as nat, 1)
            } else {
                nearest(f, true, (-sum) as nat, 1)
            }
        },
    }
}

/// Difference.
pub open spec fn minus(f: Format, a: Value, b: Value) -> Value {
    plus(f, a, opposite(b))
}

/// Product.
pub open spec fn times(f: Format, a: Value, b: Value) -> Value {
    match (a, b) {
        (Value::Nan, _) => Value::Nan,
        (_, Value::Nan) => Value::Nan,
        (Value::Infinite { negative: s }, Value::Infinite { negative: t }) => Value::Infinite {
            negative: s != t,
        },
        (Value::Infinite { negative: s }, Value::Finite { negative: t, units }) => if units == 0 {
            Value::Nan
        } else {
            Value::Infinite { negative: s != t }
        },
        (Value::Finite { negative: s, units }, Value::Infinite { negative: t }) => if units == 0 {
            Value::Nan
        } else {
            Value::Infinite { negative: s != t }
        },
        (
            Value::Finite { negative: s, units: x },
            Value::Finite { negative: t, units: y },
        ) => nearest(f, s != t, x * y, pow2(f.unit())),
    }
}

/// Quotient.
pub open spec fn over(f: Format, a: Value, b: Value) -> Value {
    match (a, b) {
        (Value::Nan, _) => Value::Nan,
        (_, Value::Nan) => Value::Nan,
        (Value::Infinite { .. }, Value::Infinite { .. }) => Value::Nan,
        (Value::Infinite { negative: s }, Value::Finite { negative: t, .. }) => Value::Infinite {
            negative: s != t,
        },
        (Value::Finite { negative: s, .. }, Value::Infinite { negative: t }) => Value::Finite {
            negative: s != t,
            units: 0,
        },
        (
            Value::Finite { negative: s, units: x },
            Value::Finite { negative: t, units: y },
        ) => if y != 0 {
            nearest(f, s != t, x * pow2(f.unit()), y)
        } else if x != 0 {
            Value::Infinite { negative: s != t }
        } else {
            Value::Nan
        },
    }
}

/// The number nearest to a natural.
pub open spec fn natural(f: Format, n: nat) -> Value {
    nearest(f, false, n * pow2(f.unit()), 1)
}

/// `r` is the square root of `n`, rounded down.
pub open spec fn is_root(n: nat, r: nat) -> bool {
    r * r <= n < (r + 1) * (r + 1)
}

/// The square root of `n`, rounded down.
pub open spec fn floor_root(n: nat) -> nat {
    choose|r: nat| is_root(n, r)
}

/// Square root. It is taken down to half a unit first, with a quarter put in
/// where that loses something: no number and no midpoint of two neighbouring
/// numbers lies in between, so the result is the number nearest to the root.
pub open spec fn root(f: Format, a: Value) -> Value {
    match a {
        Value::Nan => Value::Nan,
        Value::Infinite { negative } => if negative {
            Value::Nan
        } else {
            a
        },
        Value::Finite { negative, units } => if units == 0 {
            a
        } else if negative {
            Value::Nan
        } else {
            let square = (4 * (units * pow2(f.unit()))) as nat;
            let halves = floor_root(square);
            let lost: nat = if halves * halves == square {
                0
            } else {
                1
            };
            nearest(f, false, (2 * halves + lost) as nat, 4)
        },
    }
}

/// A number of one format in another.
pub open spec fn convert(from: Format, to: Format, v: Value) -> Value {
    match v {
        Value::Finite { negative, units } => nearest(
            to,
            negative,
            units * pow2(to.unit()),
            pow2(from.unit()),
        ),
        _ => v,
    }
}

/// `a < b`; false where either is NaN.
pub open spec fn less(a: Value, b: Value) -> bool {
    match (a, b) {
        (Value::Nan, _) => false,
        (_, Value::Nan) => false,
        (Value::Infinite { negative: s }, Value::Infinite { negative: t }) => s && !t,
        (Value::Infinite { negative: s }, Value::Finite { .. }) => s,
        (Value::Finite { .. }, Value::Infinite { negative: t }) => !t,
        (
            Value::Finite { negative: s, units: x },
            Value::Finite { negative: t, units: y },
        ) => signed(s, x) < signed(t, y),
    }
}

/// `a == b` as numbers: the two zeros are equal, a NaN equals nothing.
pub open spec fn same(a: Value, b: Value) -> bool {
    match (a, b) {
        (Value::Infinite { negative: s }, Value::Infinite { negative: t }) => s == t,
        (
            Value::Finite { negative: s, units: x },
            Value::Finite { negative: t, units: y },
        ) => signed(s, x) == signed(t, y),
        _ => false,
    }
}

/// `a <= b`; false where either is NaN.
pub open spec fn at_most(a: Value, b: Value) -> bool {
    less(a, b) || same(a, b)
}

/// The lesser of two numbers, or the one that is not NaN.
pub open spec fn lesser(a: Value, b: Value) -> Value {
    if a is Nan {
        b
    } else if b is Nan || at_most(a, b) {
        a
    } else {
        b
    }
}

/// The greater of two numbers, or the one that is not NaN.
pub open spec fn greater(a: Value, b: Value) -> Value {
    if a is Nan {
        b
    } else if b is Nan || at_most(b, a) {
        a
    } else {
        b
    }
}

/// `v`, or the bound that it is beyond; NaN stays NaN.
pub open spec fn clamped(v: Value, low: Value, high: Value) -> Value {
    if less(v, low) {
        low
    } else if less(high, v) {
        high
    } else {
        v
    }
}

} // verus!
