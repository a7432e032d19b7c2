//! What holds of the spring.

use vstd::arithmetic::power2::{lemma_pow2_pos, pow2};
use vstd::prelude::*;

use crate::float::{opposite, same, Value};
use crate::rounding::lemma_round_nothing;
use crate::spring::{omega, SpringValue};

verus! {

/// The second number is the opposite of the first, or both are NaN. Zeros may
/// have either sign.
pub open spec fn mirrors(a: Value, b: Value) -> bool {
    (a is Nan && b is Nan) || same(b, opposite(a))
}

/// Sums of opposite numbers are opposite.
proof fn lemma_plus_mirrors(a: Value, b: Value, c: Value, d: Value)
    requires
        mirrors(a, b),
        mirrors(c, d),
    ensures
        mirrors(a.plus(c), b.plus(d)),
        mirrors(a.minus(c), b.minus(d)),
{
    reveal(Value::plus);
    reveal(Value::minus);
}

/// Products of opposite numbers with one number are opposite.
proof fn lemma_times_mirrors(a: Value, b: Value, w: Value)
    requires
        mirrors(a, b),
    ensures
        mirrors(a.times(w), b.times(w)),
        mirrors(w.times(a), w.times(b)),
{
    reveal(Value::times);
    lemma_pow2_pos(149);
    if let (
        Value::Finite { negative: s, units: x },
        Value::Finite { negative: t, units: y },
    ) = (a, w) {
        lemma_pow2_pos(277);
        assert(x == b->Finite_units);
        assert(x * y == y * x) by (nonlinear_arith);
        if x == 0 {
            assert(x * y == 0) by (nonlinear_arith)
                requires
                    x == 0,
            ;
            lemma_round_nothing(24, pow2(149));
        }
    }
}

/// The springs are opposite, in position and in velocity.
pub open spec fn opposite_springs(s: SpringValue, t: SpringValue) -> bool {
    mirrors(s.position, t.position) && mirrors(s.velocity, t.velocity)
}

/// Opposite springs stay opposite, and both come to rest in the same frame.
pub proof fn opposite_springs_stay_opposite(
    s: SpringValue,
    t: SpringValue,
    dt: Value,
    length: Value,
    decay: Value,
)
    requires
        opposite_springs(s, t),
    ensures
        opposite_springs(s.advanced(dt, length, decay), t.advanced(dt, length, decay)),
        t.animating(dt, length, decay) == s.animating(dt, length, decay),
        t.moves(dt, length) == s.moves(dt, length),
{
    let w = omega(length);
    lemma_times_mirrors(s.position, t.position, w);
    lemma_plus_mirrors(s.position.times(w), t.position.times(w), s.velocity, t.velocity);
    let b = s.position.times(w).plus(s.velocity);
    let d = t.position.times(w).plus(t.velocity);
    lemma_times_mirrors(b, d, dt);
    lemma_plus_mirrors(s.position, t.position, b.times(dt), d.times(dt));
    lemma_times_mirrors(s.position.plus(b.times(dt)), t.position.plus(d.times(dt)), decay);
    lemma_times_mirrors(opposite(s.position), opposite(t.position), w);
    lemma_times_mirrors(b.times(dt), d.times(dt), w);
    let p = opposite(s.position).times(w);
    let q = opposite(t.position).times(w);
    lemma_plus_mirrors(p, q, b.times(dt).times(w), d.times(dt).times(w));
    lemma_plus_mirrors(
        p.minus(b.times(dt).times(w)),
        q.minus(d.times(dt).times(w)),
        b,
        d,
    );
    lemma_times_mirrors(
        p.minus(b.times(dt).times(w)).plus(b),
        q.minus(d.times(dt).times(w)).plus(d),
        decay,
    );
}

} // verus!
