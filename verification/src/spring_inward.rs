//! A spring that moves toward its target does not grow from one frame to the
//! next.

use vstd::arithmetic::power2::lemma_pow2_pos;
use vstd::prelude::*;

use crate::exponential::{
    angle, exponential, lemma_damped, lemma_decay, lemma_frequency, nearly_exponential, ordinary,
    short_of,
};
use crate::float::{at_most, opposite, Format, Value};
use crate::float_laws::{
    lemma_plus_order, lemma_plus_rounds, lemma_rounded_order, lemma_times_order, units,
};
use crate::laws::lemma_times_of_format;
use crate::numbers::{abs, lemma_constants, lemma_no_units, number, ulp};
use crate::reals::{
    lemma_mul_nonnegative, lemma_mul_order, lemma_mul_reorder, lemma_mul_sum, lemma_quotient,
};
use crate::rounding_laws::{lemma_round_exact, scaled};
use crate::spring::{decay_exponent, omega, SpringValue};
use crate::spring_error::{
    dust, lemma_dust, lemma_frame_steps, lemma_tiny, nearly, swing, FrameSteps,
};
use crate::spring_flow::{bounded, lemma_below_tolerance};
use crate::stillness::{lemma_plus_zero, lemma_times_zero};

verus! {

/// A rounded result is at most what its exact argument may be, and what
/// rounding adds.
proof fn lemma_upper(f: real, x: real, m: real, u: real, k: real)
    requires
        abs(f - x) <= u * abs(x) + k,
        x <= m,
        m >= 0 as real,
        0 as real <= u <= 1 as real,
    ensures
        f <= m + u * m + k,
{
    if x >= 0 as real {
        lemma_mul_order(x, m, u);
    } else {
        lemma_mul_order(u, 1 as real, -x);
        lemma_mul_nonnegative(u, m);
    }
}

/// A frame of a spring that moves toward its target, in plain numbers.
proof fn lemma_inward_numbers(s: FrameSteps, p: real, y: real, h: real, c: real)
    requires
        nearly(s, p, y, h, c),
        p >= 0 as real,
        y <= 0 as real,
        0 as real <= h <= 6 as real,
        0 as real <= c,
        2 as real * c <= 3 as real,
    ensures
        s.position <= c * ((1 as real + h) * p) + 9 as real * (ulp() * (c * ((1 as real + h) * p)))
            + 40 as real * dust(),
{
    lemma_constants();
    lemma_dust();
    let u = ulp();
    let k = dust();
    let up = u * p;
    let hp = h * p;
    let uhp = u * hp;
    lemma_mul_nonnegative(u, p);
    lemma_mul_nonnegative(h, p);
    lemma_mul_nonnegative(u, hp);
    lemma_mul_nonnegative(h, k);
    lemma_mul_order(h, 6 as real, k);
    lemma_tiny(p);
    lemma_tiny(up);
    lemma_tiny(hp);
    lemma_tiny(uhp);
    lemma_tiny(k);
    // Stretch and lift.
    lemma_upper(s.stretch, p, p, u, k);
    let m1 = p + up + k;
    lemma_upper(s.lift, s.stretch + y, m1, u, 0 as real);
    lemma_mul_sum(u, p + up, k);
    lemma_mul_sum(u, p, up);
    let m2 = p + 3 as real * up + 2 as real * k;
    assert(s.lift <= m2);
    // Drift.
    lemma_mul_order(s.lift, m2, h);
    let hm = h * m2;
    assert(hm == hp + 3 as real * uhp + 2 as real * (h * k)) by {
        lemma_mul_sum(h, p + 3 as real * up, 2 as real * k);
        lemma_mul_sum(h, p, 3 as real * up);
        lemma_mul_reorder(h, 3 as real, up);
        lemma_mul_reorder(h, 2 as real, k);
        lemma_mul_reorder(h, u, p);
    }
    lemma_upper(s.drift, h * s.lift, hm, u, k);
    lemma_mul_sum(u, hp + 3 as real * uhp, 2 as real * (h * k));
    lemma_mul_sum(u, hp, 3 as real * uhp);
    lemma_mul_reorder(u, 3 as real, uhp);
    lemma_mul_reorder(u, 2 as real, h * k);
    lemma_tiny(h * k);
    let m3 = hp + 5 as real * uhp + 14 as real * k;
    assert(s.drift <= m3);
    // Sum.
    let m4 = p + m3;
    lemma_upper(s.sum, p + s.drift, m4, u, 0 as real);
    lemma_mul_sum(u, p, m3);
    lemma_mul_sum(u, hp + 5 as real * uhp, 14 as real * k);
    lemma_mul_sum(u, hp, 5 as real * uhp);
    lemma_mul_reorder(u, 5 as real, uhp);
    lemma_mul_reorder(u, 14 as real, k);
    let q = (1 as real + h) * p;
    lemma_mul_sum(p, 1 as real, h);
    assert(q == p + hp);
    lemma_mul_sum(u, p, hp);
    let m5 = q + 7 as real * (u * q) + 15 as real * k;
    assert(s.sum <= m5);
    // Position.
    lemma_mul_order(s.sum, m5, c);
    lemma_mul_nonnegative(u, q);
    lemma_mul_nonnegative(c, m5);
    lemma_upper(s.position, s.sum * c, c * m5, u, k);
    lemma_mul_reorder(s.sum, c, c);
    let cq = c * q;
    let ucq = u * cq;
    lemma_mul_nonnegative(c, q);
    lemma_mul_nonnegative(u, cq);
    assert(c * m5 == cq + 7 as real * ucq + 15 as real * (c * k)) by {
        lemma_mul_sum(c, q + 7 as real * (u * q), 15 as real * k);
        lemma_mul_sum(c, q, 7 as real * (u * q));
        lemma_mul_reorder(c, 7 as real, u * q);
        lemma_mul_reorder(c, 15 as real, k);
        lemma_mul_reorder(c, u, q);
    }
    lemma_mul_order(2 as real * c, 3 as real, k);
    lemma_mul_reorder(2 as real, c, k);
    lemma_mul_nonnegative(c, k);
    lemma_mul_sum(u, cq + 7 as real * ucq, 15 as real * (c * k));
    lemma_mul_sum(u, cq, 7 as real * ucq);
    lemma_mul_reorder(u, 7 as real, ucq);
    lemma_mul_reorder(u, 15 as real, c * k);
    lemma_tiny(ucq);
    lemma_tiny(c * k);
}

/// A spring on one side of its target that does not move away from it.
pub open spec fn inward(s: SpringValue) -> bool {
    &&& s.position is Finite
    &&& s.velocity is Finite
    &&& units(s.position) >= 0
    &&& units(s.velocity) <= 0
}

/// A number less itself, or less more than itself, is not positive.
proof fn lemma_not_above(a: Value, b: Value)
    requires
        a is Finite,
        b is Finite,
        units(a) + units(b) <= 0,
        a.plus(b) is Finite,
    ensures
        units(a.plus(b)) <= 0,
{
    reveal(Value::plus);
    lemma_plus_rounds(Format::Single, a, b);
}

/// A sum below zero is rounded to less than zero.
proof fn lemma_sum_sign(a: Value, b: Value)
    requires
        a is Finite,
        b is Finite,
        a.plus(b) is Finite,
        units(a.plus(b)) >= 0,
    ensures
        units(a) + units(b) >= 0,
{
    reveal(Value::plus);
    lemma_plus_rounds(Format::Single, a, b);
    let n = units(a) + units(b);
    if n < 0 {
        lemma_rounded_order(Format::Single, n, 1, -1, 1);
        vstd::arithmetic::power2::lemma2_to64();
        assert(scaled(1, 0) == 1);
        lemma_pow2_pos(24);
        lemma_round_exact(24, 1, 1);
        vstd::arithmetic::power2::lemma_pow2_strictly_increases(0, 277);
    }
}

/// A spring that moves toward its target, and is still on its side after a
/// frame, still does.
proof fn lemma_stays_inward(s: SpringValue, dt: Value, length: Value, decay: Value)
    requires
        inward(s),
        dt is Finite,
        units(dt) >= 0,
        decay is Finite,
        units(decay) >= 0,
        omega(length) is Finite,
        units(omega(length)) >= 0,
        ({
            let w = omega(length);
            let next = s.swung(dt, length, decay);
            let b = s.position.times(w).plus(s.velocity);
            let drift = b.times(dt);
            &&& next.position is Finite
            &&& next.velocity is Finite
            &&& s.position.times(w) is Finite
            &&& b is Finite
            &&& drift is Finite
            &&& s.position.plus(drift) is Finite
            &&& drift.times(w) is Finite
            &&& opposite(s.position).times(w).minus(drift.times(w)) is Finite
            &&& opposite(s.position).times(w) == opposite(s.position.times(w))
            &&& units(next.position) > 0
        }),
    ensures
        units(s.swung(dt, length, decay).velocity) <= 0,
{
    let f = Format::Single;
    let zero = Value::zero();
    let w = omega(length);
    let next = s.swung(dt, length, decay);
    let m1 = s.position.times(w);
    let b = m1.plus(s.velocity);
    let m2 = b.times(dt);
    let m3 = m2.times(w);
    let sum = s.position.plus(m2);
    let n1 = opposite(m1);
    let d1 = n1.minus(m3);
    let d2 = d1.plus(b);
    lemma_times_of_format(s.position, w);
    assert(d1 == n1.plus(opposite(m3))) by {
        reveal(Value::plus);
        reveal(Value::minus);
    }
    // b is at most m1.
    assert(units(b) <= units(m1)) by {
        lemma_plus_zero(m1, zero);
        assert(at_most(b, m1.plus(zero))) by {
            reveal(Value::plus);
            lemma_plus_order(f, m1, s.velocity, m1, zero);
        }
    }
    assert(units(m1) >= 0) by {
        lemma_times_zero(w, zero);
        reveal(Value::times);
        lemma_times_order(f, zero, s.position, w);
    }
    if units(b) >= 0 {
        assert(units(m2) >= 0) by {
            lemma_times_zero(dt, zero);
            reveal(Value::times);
            lemma_times_order(f, zero, b, dt);
        }
        assert(units(m3) >= 0) by {
            lemma_times_zero(w, zero);
            reveal(Value::times);
            lemma_times_order(f, zero, m2, w);
        }
        // d1 is at most -m1.
        assert(units(d1) <= units(n1)) by {
            lemma_plus_zero(n1, zero);
            reveal(Value::plus);
            lemma_plus_order(f, n1, opposite(m3), n1, zero);
        }
    } else {
        assert(units(m2) <= 0) by {
            lemma_times_zero(dt, zero);
            reveal(Value::times);
            lemma_times_order(f, b, zero, dt);
        }
        // The spring has not passed its target.
        assert(units(sum) >= 0) by {
            if units(sum) < 0 {
                lemma_times_zero(decay, zero);
                reveal(Value::times);
                lemma_times_order(f, sum, zero, decay);
            }
        }
        lemma_sum_sign(s.position, m2);
        // So the pull back is no more than the pull.
        assert(units(opposite(m3)) <= units(m1)) by {
            reveal(Value::times);
            lemma_times_order(f, opposite(m2), s.position, w);
            assert(opposite(m2).times(w) == opposite(m3));
        }
        lemma_not_above(n1, opposite(m3));
    }
    assert(d2 is Finite ==> units(d2) <= 0) by {
        if d2 is Finite {
            lemma_not_above(d1, b);
        }
    }
    assert(d2 !is Nan && (d2 is Infinite ==> d2->Infinite_negative)) by {
        reveal(Value::plus);
        lemma_plus_rounds(f, d1, b);
    }
    reveal(Value::times);
    if d2 is Finite {
        lemma_times_zero(decay, zero);
        lemma_times_order(f, d2, zero, decay);
    }
}

/// A spring that moves toward its target, or rests on one side of it, does not
/// grow in a frame, up to the rounding of that frame: 32 parts in `pow2(24)`.
/// If it is on the same side after it, it moves toward the target still, so
/// that the same holds of the next frame. `e` is the exponential function,
/// which the decay is near to.
pub proof fn inward_spring_never_grows(
    e: spec_fn(real) -> real,
    s: SpringValue,
    dt: Value,
    length: Value,
    decay: Value,
)
    requires
        exponential(e),
        ordinary(length),
        short_of(dt, length),
        nearly_exponential(e, decay_exponent(dt, length), decay),
        bounded(s),
        inward(s),
    ensures
        ({
            let next = s.advanced(dt, length, decay);
            &&& next.position is Finite
            &&& 524288 as real * number(next.position) <= 524289 as real * number(s.position)
            &&& units(next.position) >= 0 ==> inward(next)
        }),
{
    let next = s.swung(dt, length, decay);
    let p = number(s.position);
    let y = swing(s, length);
    let h = angle(dt, length);
    let c = number(decay);
    let u = ulp();
    let k = dust();
    lemma_constants();
    lemma_dust();
    lemma_decay(e, dt, length, decay);
    lemma_frequency(length);
    lemma_no_units(s.position);
    lemma_no_units(s.velocity);
    lemma_no_units(decay);
    lemma_no_units(omega(length));
    lemma_no_units(next.position);
    lemma_no_units(Value::zero());
    let w = number(omega(length));
    lemma_quotient(number(s.velocity), w);
    assert(y <= 0 as real) by {
        if y > 0 as real {
            assert(y * w > 0 as real) by (nonlinear_arith)
                requires
                    y > 0 as real,
                    w > 0 as real,
            ;
        }
    }
    let steps = lemma_frame_steps(s, dt, length, decay);
    lemma_inward_numbers(steps, p, y, h, c);
    // c * (1 + h) is at most 1 + 16 u.
    let g = 1 as real + h;
    let exact = e(-h);
    lemma_damped(e, h);
    let f = exact * g;
    lemma_mul_reorder(g, exact, exact);
    lemma_mul_nonnegative(u, exact);
    lemma_mul_order(c, exact + 16 as real * (u * exact), g);
    lemma_mul_sum(g, exact, 16 as real * (u * exact));
    lemma_mul_reorder(16 as real, u * exact, g);
    lemma_mul_reorder(u, exact, g);
    lemma_mul_order(f, 1 as real, u);
    let cg = c * g;
    assert(cg <= 1 as real + 16 as real * u);
    lemma_mul_order(cg, 1 as real + 16 as real * u, p);
    lemma_mul_sum(p, 1 as real, 16 as real * u);
    lemma_mul_reorder(16 as real, u, p);
    lemma_mul_reorder(c, g, p);
    let q = cg * p;
    let up = u * p;
    lemma_mul_nonnegative(u, p);
    assert(q <= p + 16 as real * up);
    lemma_mul_order(q, p + 16 as real * up, u);
    lemma_mul_sum(u, p, 16 as real * up);
    lemma_mul_reorder(u, 16 as real, up);
    lemma_tiny(up);
    assert(number(next.position) <= p + 26 as real * up + 40 as real * k);
    assert(16777216 as real * up == p) by {
        lemma_mul_reorder(16777216 as real, u, p);
    }
    lemma_below_tolerance(next.position);
    if s.moves(dt, length) && s.animating(dt, length, decay) {
        if number(next.position) >= 0 as real {
            // The offset is no speck of dust.
            assert(1024 as real * number(next.position) >= 10 as real);
            assert(1000 as real * p >= 1 as real);
            lemma_mul_order(1 as real / 1000 as real, p, u);
            assert(40 as real * k <= up);
            lemma_stays_inward(s, dt, length, decay);
        } else {
            lemma_mul_nonnegative(524289 as real, p);
        }
    } else {
        lemma_mul_nonnegative(524289 as real, p);
    }
}

} // verus!
