//! How long the corners take for a jump, in numbers of its travel.

use vstd::arithmetic::power2::{
    lemma_pow2_adds, lemma_pow2_pos, lemma_pow2_strictly_increases, pow2,
};
use vstd::prelude::*;

use crate::animation::{
    displacement, short_jump, travel, travel_of, AnimationValue, Axis, CornerValue, CursorKey,
    DecayValues, Timing,
};
use crate::arithmetic::lemma_root_exists;
use crate::cursor_laws::lemma_ratio_near;
use crate::exponential::lemma_number_within;
use crate::float::{at_most, floor_root, greater, less, magnitude, Format, Value};
use crate::float_laws::{
    lemma_plus_rounds, lemma_plus_within, lemma_rounded_within, rounded, size, units, within,
};
use crate::frame_laws::moved_in_buffer;
use crate::geometry::PointValue;
use crate::label_laws::{lemma_half, lemma_small};
use crate::laws::{lemma_leading_share, of_format, short_naturals_are_exact};
use crate::mirror_laws::{lemma_grid_sum, on_grid, steps};
use crate::numbers::{
    abs, lemma_constants, lemma_minus_near, lemma_nearest_near, lemma_no_units, lemma_opposite,
    lemma_plus_near, lemma_real_product, lemma_times_near, number, ulp, unit,
};
use crate::reals::{
    lemma_mul_nonnegative, lemma_mul_order, lemma_mul_reorder, lemma_mul_sum, lemma_quotient,
};
use crate::rounding_laws::{lemma_round_exact, representable, scaled};
use crate::spring_error::{dust, lemma_dust, lemma_tiny};
use crate::spring_flow::lemma_mul_size;

verus! {

/// A square root squared is near to the number.
proof fn lemma_root_near(a: Value)
    requires
        within(a, 250),
        units(a) > 0,
    ensures
        a.root() is Finite,
        number(a.root()) >= 0 as real,
        abs(number(a.root()) * number(a.root()) - number(a)) <= 4 as real * (ulp() * number(a)),
{
    reveal(Value::root);
    lemma_constants();
    let n = units(a) as nat;
    let v_nat = pow2(149);
    lemma_pow2_pos(149);
    let square = (4 * (n * v_nat)) as nat;
    let h = floor_root(square);
    lemma_root_exists(square);
    let lost: nat = if h * h == square {
        0
    } else {
        1
    };
    let num = (2 * h + lost) as nat;
    // The root is large, and in range.
    lemma_pow2_adds(75, 75);
    lemma_pow2_adds(149, 1);
    vstd::arithmetic::power2::lemma2_to64();
    let low = pow2(75);
    lemma_pow2_pos(75);
    assert(n * v_nat >= v_nat) by (nonlinear_arith)
        requires
            n >= 1,
    ;
    assert(h >= low) by (nonlinear_arith)
        requires
            (h + 1) * (h + 1) > square,
            square >= 4 * v_nat,
            2 * v_nat == low * low,
            low >= 1,
    ;
    lemma_pow2_adds(250, 149);
    lemma_pow2_adds(200, 200);
    lemma_pow2_adds(399, 1);
    let top = pow2(201);
    lemma_pow2_adds(201, 201);
    lemma_pow2_adds(400, 2);
    lemma_pow2_pos(399);
    lemma_pow2_pos(201);
    assert(n * v_nat <= pow2(399)) by (nonlinear_arith)
        requires
            n <= pow2(250),
            pow2(250) * v_nat == pow2(399),
    ;
    assert(h < top) by (nonlinear_arith)
        requires
            h * h <= square,
            square <= 4 * pow2(399),
            pow2(400) == pow2(399) * 2,
            top * top == pow2(400) * 4,
            pow2(399) > 0,
            top > 0,
    ;
    lemma_pow2_pos(399);
    lemma_rounded_within(num as int, 4, 201);
    lemma_nearest_near(Format::Single, num as int, 4);
    let r = a.root();
    assert(r == rounded(Format::Single, num as int, 4));
    let rr = units(r) as real;
    let hh = h as real;
    let nn = num as real;
    let p = pow2(24) as real;
    let u = ulp();
    // |4 rr - nn| <= u nn + 2.
    let gap = abs(rr * (4 as real) - nn);
    assert(p * gap <= nn + (p / 2 as real) * (4 as real));
    assert(p == 16777216 as real);
    lemma_mul_order(p * gap, nn + 2 as real * p, u);
    lemma_mul_reorder(u, p, gap);
    lemma_mul_sum(u, nn, 2 as real * p);
    lemma_mul_reorder(u, 2 as real, p);
    assert(gap <= u * nn + 2 as real);
    let uh = u * hh;
    lemma_mul_sum(u, 2 as real * hh, lost as real);
    lemma_mul_reorder(u, 2 as real, hh);
    lemma_tiny(1 as real);
    assert(u * nn <= 2 as real * uh + 1 as real) by {
        assert(nn == 2 as real * hh + lost as real);
        lemma_mul_order(lost as real, 1 as real, u);
    }
    // 1 is next to nothing beside uh.
    assert(hh >= low as real);
    lemma_pow2_adds(24, 51);
    lemma_real_product(pow2(24) as int, pow2(51) as int);
    vstd::arithmetic::power2::lemma2_to64_rest();
    lemma_mul_order(low as real, hh, u);
    lemma_mul_reorder(u, p, pow2(51) as real);
    assert(uh >= pow2(51) as real);
    assert(uh >= 1_000_000 as real);
    // So rr is near to hh / 2.
    let half = hh / 2 as real;
    let d = rr - half;
    assert(1000 as real * abs(d) <= 501 as real * uh);
    lemma_tiny(hh);
    // rr * rr - half * half == d * (rr + half).
    let sum = rr + half;
    assert(rr * rr - half * half == d * sum) by {
        lemma_mul_sum(sum, rr, half);
        lemma_mul_sum(rr, rr, half);
        lemma_mul_sum(half, rr, half);
        lemma_mul_reorder(rr, half, half);
    }
    assert(abs(sum) <= (1001 as real / 1000 as real) * hh);
    lemma_mul_size(
        d,
        sum,
        (501 as real / 1000 as real) * uh,
        (1001 as real / 1000 as real) * hh,
    );
    let uhh = uh * hh;
    lemma_mul_nonnegative(uh, hh);
    assert(((501 as real / 1000 as real) * uh) * ((1001 as real / 1000 as real) * hh) == (
    501 as real / 1000 as real) * ((1001 as real / 1000 as real) * uhh)) by {
        lemma_mul_reorder(501 as real / 1000 as real, uh, (1001 as real / 1000 as real) * hh);
        lemma_mul_reorder(uh, 1001 as real / 1000 as real, hh);
    }
    assert(abs(rr * rr - half * half) <= (503 as real / 1000 as real) * uhh);
    // The square, over four.
    let ss = square as real / 4 as real;
    lemma_real_product(h as int, h as int);
    lemma_real_product((h + 1) as int, (h + 1) as int);
    assert(half * half == (hh * hh) / 4 as real) by {
        lemma_mul_reorder(half, hh, 1 as real / 2 as real);
        assert(half == hh * (1 as real / 2 as real));
        lemma_mul_reorder(hh, hh, 1 as real / 2 as real);
        lemma_mul_reorder(half, 1 as real / 2 as real, hh);
        assert(half * half == half * (hh * (1 as real / 2 as real)));
        assert(half * hh == (hh * hh) / 2 as real) by {
            lemma_mul_reorder(hh, 1 as real / 2 as real, hh);
            lemma_mul_reorder(1 as real / 2 as real, hh, hh);
        }
        lemma_mul_reorder(half, hh, 1 as real / 2 as real);
    }
    let h2 = hh * hh;
    assert((h + 1) as real == hh + 1 as real);
    lemma_mul_sum(hh + 1 as real, hh, 1 as real);
    lemma_mul_sum(hh, hh, 1 as real);
    assert(h2 <= square as real <= h2 + 2 as real * hh + 1 as real);
    lemma_mul_reorder(u, hh, hh);
    assert(uhh == u * h2);
    lemma_mul_order(1_000_000 as real, uh, hh);
    assert(1000 as real * (2 as real * hh + 1 as real) <= uhh);
    assert(abs(rr * rr - ss) <= (504 as real / 1000 as real) * uhh);
    lemma_mul_order(h2, square as real, u);
    assert(abs(rr * rr - ss) <= 4 as real * (u * ss)) by {
        let us = u * square as real;
        lemma_mul_reorder(u, square as real, 1 as real / 4 as real);
        assert(u * ss == us / 4 as real) by {
            assert(ss == square as real * (1 as real / 4 as real));
        }
    }
    // In numbers.
    let v = unit();
    lemma_real_product(n as int, v_nat as int);
    assert(ss == units(a) as real * v) by {
        assert(square as real == 4 as real * ((n * v_nat) as real));
    }
    lemma_quotient(rr, v);
    lemma_quotient(units(a) as real, v);
    let f = number(r);
    let g = number(a);
    let vv = v * v;
    assert(rr * rr == (f * f) * vv) by {
        lemma_mul_reorder(f * v, f, v);
        lemma_mul_reorder(f, v, f);
        lemma_mul_reorder(v, f, f);
        lemma_mul_reorder(f, f, v);
        lemma_mul_reorder(f * f, v, v);
    }
    assert(ss == g * vv) by {
        lemma_mul_reorder(g, v, v);
    }
    assert(vv > 0 as real) by (nonlinear_arith)
        requires
            vv == v * v,
            v > 0 as real,
    ;
    let err = abs(f * f - g);
    assert(abs(rr * rr - ss) == err * vv) by {
        lemma_mul_sum(vv, f * f, g);
        lemma_mul_sum(vv, g, f * f);
        lemma_mul_nonnegative(err, vv);
    }
    lemma_mul_reorder(u, g, vv);
    let right = 4 as real * (u * g);
    lemma_mul_reorder(4 as real, u * g, vv);
    assert(err * vv <= right * vv);
    assert(err <= right) by {
        if err > right {
            assert(right * vv < err * vv) by (nonlinear_arith)
                requires
                    right < err,
                    vv > 0 as real,
            ;
        }
    }
    lemma_no_units(r);
}

/// The square of the travel, as it is computed.
proof fn lemma_travel_square(x: Value, y: Value)
    requires
        within(x, 190),
        within(y, 190),
    ensures
        ({
            let sum = x.times(x).plus(y.times(y));
            let exact = number(x) * number(x) + number(y) * number(y);
            &&& sum is Finite
            &&& within(sum, 250)
            &&& number(sum) >= 0 as real
            &&& exact >= 0 as real
            &&& abs(number(sum) - exact) <= 3 as real * (ulp() * exact) + 3 as real * dust()
        }),
{
    lemma_constants();
    lemma_dust();
    let u = ulp();
    let k = dust();
    lemma_times_near(x, x, 190, 190);
    lemma_times_near(y, y, 190, 190);
    lemma_pow2_strictly_increases(231, 249);
    lemma_pow2_strictly_increases(249, 275);
    let a = x.times(x);
    let b = y.times(y);
    lemma_plus_near(a, b);
    lemma_plus_within(a, b, 249);
    let p = number(x) * number(x);
    let q = number(y) * number(y);
    lemma_square_sign(number(x));
    lemma_square_sign(number(y));
    lemma_mul_nonnegative(u, p);
    lemma_mul_nonnegative(u, q);
    lemma_tiny(p);
    lemma_tiny(q);
    lemma_tiny(k);
    let s = number(a) + number(b);
    let e = p + q;
    lemma_mul_sum(u, p, q);
    assert(abs(s - e) <= u * e + 2 as real * k);
    assert(abs(s) <= 2 as real * e + 2 as real * k);
    lemma_tiny(u * e);
    lemma_mul_order(abs(s), e + u * e + 2 as real * k, u);
    lemma_mul_sum(u, e + u * e, 2 as real * k);
    lemma_mul_sum(u, e, u * e);
    lemma_mul_reorder(u, 2 as real, k);
    // The products, and so the sum, are not negative.
    assert(units(a) >= 0 && units(b) >= 0) by {
        reveal(Value::times);
    }
    lemma_no_units(a.plus(b));
    assert(units(a.plus(b)) >= 0) by {
        reveal(Value::plus);
        lemma_plus_rounds(Format::Single, a, b);
    }
}

/// A square is not negative.
proof fn lemma_square_sign(x: real)
    ensures
        x * x >= 0 as real,
{
    if x >= 0 as real {
        lemma_mul_nonnegative(x, x);
    } else {
        lemma_mul_nonnegative(-x, -x);
        lemma_mul_sum(-x, 0 as real, x);
        lemma_mul_sum(x, 0 as real, x);
        assert(0 as real * x == 0 as real && (-x) * (0 as real) == 0 as real);
        assert(x * (0 as real) == 0 as real);
        lemma_mul_reorder(x, -x, x);
    }
}

/// The larger of two numbers.
pub open spec fn larger(a: real, b: real) -> real {
    if a < b {
        b
    } else {
        a
    }
}

/// The travel is clearly at least 2.001 widths, or is half a height or more.
pub open spec fn clearly_long(x: real, y: real, width: real, height: real) -> bool {
    let reach = 2001 as real * width / 1000 as real;
    ||| 100_000 as real * (x * x + y * y) >= 100_001 as real * (reach * reach)
    ||| 2 as real * abs(y) >= height
}

/// The travel is clearly less than 2.001 widths, and less than half a height.
pub open spec fn clearly_short(x: real, y: real, width: real, height: real) -> bool {
    let reach = 2001 as real * width / 1000 as real;
    &&& 100_001 as real * (x * x + y * y) <= 100_000 as real * (reach * reach)
    &&& 2 as real * abs(y) < height
}

/// A length times a ratio that is at most three, nearly.
proof fn lemma_times_ratio(w: Value, n: nat, d: nat)
    requires
        within(w, 190),
        number(w) >= 1 as real,
        n <= 4096,
        0 < d <= 4096,
        n <= 3 * d,
        10 * n >= d,
    ensures
        w.times(Value::ratio(n, d)) is Finite,
        abs(d as real * number(w.times(Value::ratio(n, d))) - n as real * number(w)) <= 8 as real
            * (ulp() * (n as real * number(w))),
{
    lemma_constants();
    lemma_dust();
    vstd::arithmetic::power2::lemma2_to64();
    vstd::arithmetic::power2::lemma2_to64_rest();
    lemma_ratio_near(n, d);
    let u = ulp();
    let k = dust();
    let r = Value::ratio(n, d);
    let x = number(w);
    let q = number(r);
    let nn = n as real;
    let dd = d as real;
    // q is at most four.
    let un = u * nn;
    lemma_mul_nonnegative(u, nn);
    lemma_tiny(nn);
    lemma_mul_order(dd, 4096 as real, k);
    lemma_mul_reorder(k, dd, dd);
    assert(q <= 4 as real) by {
        if q > 4 as real {
            lemma_mul_order(4 as real, q, dd);
        }
    }
    lemma_number_within(r, 2);
    lemma_times_near(w, r, 190, 151);
    lemma_tiny(k);
    let z = number(w.times(r));
    let xq = x * q;
    lemma_mul_nonnegative(x, q);
    // |dd z - dd x q| <= u dd x q + dd k.
    lemma_mul_sum(dd, z, xq);
    lemma_mul_sum(dd, xq, z);
    lemma_mul_order(z - xq, u * xq + k, dd);
    lemma_mul_order(xq - z, u * xq + k, dd);
    lemma_mul_sum(dd, u * xq, k);
    lemma_mul_reorder(dd, u, xq);
    lemma_mul_reorder(dd, x, q);
    let dq = q * dd;
    lemma_mul_reorder(q, dd, dd);
    let xdq = x * dq;
    assert(dd * xq == xdq);
    // xdq is near to x nn.
    let err = 4 as real * un + k * dd;
    lemma_mul_sum(x, dq, nn);
    lemma_mul_sum(x, nn, dq);
    lemma_mul_order(dq - nn, err, x);
    lemma_mul_order(nn - dq, err, x);
    lemma_mul_sum(x, 4 as real * un, k * dd);
    lemma_mul_reorder(x, 4 as real, un);
    lemma_mul_reorder(x, u, nn);
    let xn = x * nn;
    lemma_mul_reorder(x, nn, nn);
    let uxn = u * xn;
    lemma_mul_nonnegative(x, nn);
    lemma_mul_nonnegative(u, xn);
    lemma_tiny(xn);
    lemma_tiny(uxn);
    // The dust.
    lemma_mul_order(1 as real, nn, x);
    lemma_mul_order(1 as real, xn, u);
    lemma_mul_order(k * dd, 4096 as real * k, x);
    lemma_mul_reorder(x, 4096 as real, k);
    lemma_mul_order(1_000_000 as real * k, u, x);
    lemma_mul_reorder(1_000_000 as real, k, x);
    lemma_mul_reorder(x, k, k);
    lemma_mul_nonnegative(u, x);
    lemma_mul_order(1 as real, nn, u * x);
    lemma_mul_reorder(u, x, nn);
    lemma_mul_reorder(nn, u * x, x);
    assert(abs(xdq - xn) <= 5 as real * uxn);
    lemma_mul_order(xdq, 2 as real * xn, u);
    lemma_mul_reorder(u, 2 as real, xn);
    assert(abs(dd * z - xdq) <= 3 as real * uxn);
}

/// Squares of numbers that are not negative are ordered as the numbers.
proof fn lemma_squares(a: real, b: real)
    requires
        a >= 0 as real,
        b >= 0 as real,
        a * a < b * b,
    ensures
        a < b,
{
    if a >= b {
        lemma_mul_order(b, a, a);
        lemma_mul_order(b, a, b);
    }
}

/// The square of what is within eight relative errors.
proof fn lemma_near_square(z: real, r: real)
    requires
        r >= 0 as real,
        abs(z - r) <= 8 as real * (ulp() * r),
    ensures
        z >= 0 as real,
        abs(z * z - r * r) <= 17 as real * (ulp() * (r * r)),
{
    lemma_constants();
    let u = ulp();
    let ur = u * r;
    lemma_mul_nonnegative(u, r);
    lemma_tiny(r);
    let d = z - r;
    let sum = z + r;
    assert(z * z - r * r == d * sum) by {
        lemma_mul_sum(sum, z, r);
        lemma_mul_sum(z, z, r);
        lemma_mul_sum(r, z, r);
        lemma_mul_reorder(z, r, r);
    }
    lemma_mul_size(d, sum, 8 as real * ur, (201 as real / 100 as real) * r);
    lemma_square_sign(r);
    let rr = r * r;
    assert((8 as real * ur) * ((201 as real / 100 as real) * r) == (1608 as real / 100 as real) * (u
        * rr)) by {
        lemma_mul_reorder(8 as real, ur, (201 as real / 100 as real) * r);
        lemma_mul_reorder(ur, 201 as real / 100 as real, r);
        lemma_mul_reorder(u, r, r);
    }
    lemma_mul_nonnegative(u, rr);
}

/// The length of the travel, squared.
proof fn lemma_length_square(x: Value, y: Value)
    requires
        within(x, 190),
        within(y, 190),
    ensures
        ({
            let length = x.times(x).plus(y.times(y)).root();
            let exact = number(x) * number(x) + number(y) * number(y);
            &&& length is Finite
            &&& number(length) >= 0 as real
            &&& exact >= 0 as real
            &&& abs(number(length) * number(length) - exact) <= 8 as real * (ulp() * exact)
                + 8 as real * dust()
        }),
{
    lemma_constants();
    lemma_dust();
    let u = ulp();
    let k = dust();
    lemma_travel_square(x, y);
    let sum = x.times(x).plus(y.times(y));
    let exact = number(x) * number(x) + number(y) * number(y);
    let s = number(sum);
    let ue = u * exact;
    lemma_mul_nonnegative(u, exact);
    lemma_tiny(exact);
    lemma_tiny(ue);
    lemma_tiny(k);
    lemma_no_units(sum);
    if units(sum) > 0 {
        lemma_root_near(sum);
        lemma_mul_order(s, exact + 3 as real * ue + 3 as real * k, u);
        lemma_mul_sum(u, exact + 3 as real * ue, 3 as real * k);
        lemma_mul_sum(u, exact, 3 as real * ue);
        lemma_mul_reorder(u, 3 as real, ue);
        lemma_mul_reorder(u, 3 as real, k);
    } else {
        reveal(Value::root);
        lemma_no_units(sum.root());
        assert(0 as real * (0 as real) == 0 as real);
    }
}

/// Half of the number is exact.
pub open spec fn halves(v: Value) -> bool {
    let half = v.times(Value::ratio(1, 2));
    half is Finite && 2 as real * number(half) == number(v)
}

/// Half of a number with few bits is exact.
proof fn lemma_halves(v: Value, n: nat, k: nat)
    requires
        v == (Value::Finite { negative: false, units: n * pow2(k) }),
        n <= pow2(24),
        1 <= k <= 149,
    ensures
        halves(v),
{
    reveal(Value::times);
    lemma_half();
    let low = (k - 1) as nat;
    let p = pow2(low);
    lemma_pow2_pos(low);
    lemma_pow2_adds(low, 1);
    lemma_pow2_adds(148, 1);
    vstd::arithmetic::power2::lemma2_to64();
    let y = n * p;
    let x = n * pow2(k);
    let one = pow2(149);
    let half = pow2(148);
    lemma_pow2_pos(149);
    assert(x == 2 * y) by (nonlinear_arith)
        requires
            x == n * pow2(k),
            pow2(k) == p * 2,
            y == n * p,
    ;
    assert(x * half == y * one) by (nonlinear_arith)
        requires
            x == 2 * y,
            one == half * 2,
    ;
    assert(y == scaled(n, low));
    assert(representable(24, y));
    lemma_round_exact(24, y, one);
    lemma_pow2_adds(24, low);
    lemma_pow2_strictly_increases(24 + low, 277);
    assert(y <= pow2(24) * p) by (nonlinear_arith)
        requires
            y == n * p,
            n <= pow2(24),
    ;
    lemma_number_sum(y as int, y as int);
}

/// Whether a jump is short, in numbers of its travel and of the size of the
/// cursor.
proof fn lemma_short_in_numbers(destination: Seq<PointValue>, travel: PointValue)
    requires
        within(travel.x, 190),
        within(travel.y, 190),
        ({
            let width = greater(magnitude(destination[1].x.minus(destination[0].x)), Value::of(1));
            let height = greater(magnitude(destination[2].y.minus(destination[1].y)), Value::of(1));
            &&& within(width, 190)
            &&& within(height, 190)
            &&& number(width) >= 1 as real
            &&& number(height) >= 1 as real
            &&& halves(height)
        }),
    ensures
        ({
            let width = number(
                greater(magnitude(destination[1].x.minus(destination[0].x)), Value::of(1)),
            );
            let height = number(
                greater(magnitude(destination[2].y.minus(destination[1].y)), Value::of(1)),
            );
            let x = number(travel.x);
            let y = number(travel.y);
            &&& clearly_long(x, y, width, height) ==> !short_jump(destination, travel)
            &&& clearly_short(x, y, width, height) ==> short_jump(destination, travel)
        }),
{
    lemma_constants();
    lemma_dust();
    let u = ulp();
    let k = dust();
    let width = greater(magnitude(destination[1].x.minus(destination[0].x)), Value::of(1));
    let height = greater(magnitude(destination[2].y.minus(destination[1].y)), Value::of(1));
    let w = number(width);
    let h = number(height);
    let x = number(travel.x);
    let y = number(travel.y);
    lemma_length_square(travel.x, travel.y);
    lemma_times_ratio(width, 2001, 1000);
    let length = travel.x.times(travel.x).plus(travel.y.times(travel.y)).root();
    let bound = width.times(Value::ratio(2001, 1000));
    let limit = height.times(Value::ratio(1, 2));
    let r = number(length);
    let z = number(bound);
    let q = number(limit);
    let reach = 2001 as real * w / 1000 as real;
    assert(u * (2001 as real * w) == 1000 as real * (u * reach)) by {
        lemma_mul_reorder(u, 1000 as real, reach);
        assert(2001 as real * w == 1000 as real * reach);
    }
    assert(abs(z - reach) <= 8 as real * (u * reach));
    lemma_near_square(z, reach);
    let rr = reach * reach;
    let t = x * x + y * y;
    lemma_mul_order(2 as real, reach, reach);
    lemma_tiny(rr);
    lemma_tiny(t);
    lemma_tiny(1 as real);
    assert(10_000_000 as real * (u * rr) <= rr && 10_000_000 as real * (u * t) <= t) by {
        lemma_mul_order(10_000_000 as real * u, 1 as real, rr);
        lemma_mul_reorder(10_000_000 as real, u, rr);
        lemma_mul_order(10_000_000 as real * u, 1 as real, t);
        lemma_mul_reorder(10_000_000 as real, u, t);
    }
    assert(10_000_000 as real * k <= 1 as real);
    lemma_compare(length, bound);
    if 100_000 as real * t >= 100_001 as real * rr {
        assert(z * z < r * r);
        lemma_squares(z, r);
    }
    if 100_001 as real * t <= 100_000 as real * rr {
        assert(r * r < z * z);
        lemma_squares(r, z);
    }
    // Half a height.
    assert(2 as real * q == h);
    let m = magnitude(travel.y);
    assert(m is Finite && number(m) == abs(y)) by {
        lemma_magnitude(travel.y);
    }
    lemma_compare(m, limit);
}

/// The size of a number.
proof fn lemma_magnitude(a: Value)
    requires
        a is Finite,
    ensures
        magnitude(a) is Finite,
        number(magnitude(a)) == abs(number(a)),
{
    lemma_opposite(a);
    lemma_no_units(a);
    lemma_no_units(magnitude(a));
}

/// Finite values are ordered as their numbers.
pub proof fn lemma_compare(a: Value, b: Value)
    requires
        a is Finite,
        b is Finite,
    ensures
        less(a, b) <==> number(a) < number(b),
        at_most(a, b) <==> number(a) <= number(b),
{
    lemma_constants();
    let v = unit();
    let x = number(a);
    let y = number(b);
    lemma_quotient(units(a) as real, v);
    lemma_quotient(units(b) as real, v);
    assert((x * v < y * v) == (x < y)) by (nonlinear_arith)
        requires
            v > 0 as real,
    ;
    assert((x * v == y * v) == (x == y)) by (nonlinear_arith)
        requires
            v > 0 as real,
    ;
}

/// All that a jump is made of is a whole number of steps of `pow2(k)` units, and
/// not too many of them, so that nothing is rounded. With steps of one pixel,
/// `k` is 149.
pub open spec fn jump_on_grid(
    state: AnimationValue,
    from: Seq<PointValue>,
    destination: Seq<PointValue>,
    k: nat,
) -> bool {
    &&& 2 <= k <= 149
    &&& forall|i: int|
        0 <= i < 4 ==> {
            &&& on_grid((#[trigger] state.corners[i]).spring_x.position, k, 1_000_000)
            &&& on_grid(state.corners[i].spring_y.position, k, 1_000_000)
            &&& on_grid(from[i].x, k, 1_000_000)
            &&& on_grid(from[i].y, k, 1_000_000)
            &&& on_grid(destination[i].x, k, 1_000_000)
            &&& on_grid(destination[i].y, k, 1_000_000)
        }
}

/// How far corner `i` has to go across, in pixels.
pub open spec fn way_across(
    state: AnimationValue,
    from: Seq<PointValue>,
    destination: Seq<PointValue>,
    i: int,
) -> real {
    number(state.corners[i].spring_x.position) + number(destination[i].x) - number(from[i].x)
}

/// How far corner `i` has to go down, in pixels.
pub open spec fn way_down(
    state: AnimationValue,
    from: Seq<PointValue>,
    destination: Seq<PointValue>,
    i: int,
) -> real {
    number(state.corners[i].spring_y.position) + number(destination[i].y) - number(from[i].y)
}

/// How far the corners have to go across, on average.
pub open spec fn mean_across(
    state: AnimationValue,
    from: Seq<PointValue>,
    destination: Seq<PointValue>,
) -> real {
    (way_across(state, from, destination, 0) + way_across(state, from, destination, 1)
        + way_across(state, from, destination, 2) + way_across(state, from, destination, 3))
        / 4 as real
}

/// How far the corners have to go down, on average.
pub open spec fn mean_down(
    state: AnimationValue,
    from: Seq<PointValue>,
    destination: Seq<PointValue>,
) -> real {
    (way_down(state, from, destination, 0) + way_down(state, from, destination, 1) + way_down(
        state,
        from,
        destination,
        2,
    ) + way_down(state, from, destination, 3)) / 4 as real
}

/// The offsets of the first `n` corners, in units, summed up.
spec fn offsets(corners: Seq<CornerValue>, n: nat) -> (int, int)
    decreases n,
{
    if n == 0 {
        (0, 0)
    } else {
        let rest = offsets(corners, (n - 1) as nat);
        (
            rest.0 + units(corners[n - 1].spring_x.position),
            rest.1 + units(corners[n - 1].spring_y.position),
        )
    }
}

/// Where nothing is rounded, the way that a corner has to go is its offset.
proof fn lemma_way(to: Value, offset: Value, k: nat)
    requires
        on_grid(to, k, 1_000_000),
        on_grid(offset, k, 3_000_000),
        k <= 149,
    ensures
        on_grid(to.minus(to.minus(offset)), k, 3_000_000),
        units(to.minus(to.minus(offset))) == units(offset),
{
    vstd::arithmetic::power2::lemma2_to64();
    lemma_grid_sum(to, offset, k, 1_000_000, 3_000_000);
    lemma_grid_sum(to, to.minus(offset), k, 1_000_000, 4_000_000);
    let way = to.minus(to.minus(offset));
    let c = choose|c: int| #[trigger] steps(offset, k, c) && size(c) <= 3_000_000;
    assert(steps(way, k, c));
}

/// The travel, summed up.
proof fn lemma_travel_units(
    corners: Seq<CornerValue>,
    destination: Seq<PointValue>,
    k: nat,
    n: nat,
)
    requires
        k <= 149,
        n <= 4,
        forall|i: int|
            0 <= i < 4 ==> {
                &&& on_grid((#[trigger] corners[i]).spring_x.position, k, 3_000_000)
                &&& on_grid(corners[i].spring_y.position, k, 3_000_000)
                &&& on_grid(destination[i].x, k, 1_000_000)
                &&& on_grid(destination[i].y, k, 1_000_000)
            },
    ensures
        ({
            let sum = travel_of(corners, destination, n);
            &&& on_grid(sum.x, k, n * 3_000_000)
            &&& on_grid(sum.y, k, n * 3_000_000)
            &&& units(sum.x) == offsets(corners, n).0
            &&& units(sum.y) == offsets(corners, n).1
        }),
    decreases n,
{
    vstd::arithmetic::power2::lemma2_to64();
    if n == 0 {
        assert(0 * pow2(k) == 0) by (nonlinear_arith);
        assert(steps(Value::zero(), k, 0));
    } else {
        let m = (n - 1) as nat;
        let i = n - 1;
        lemma_travel_units(corners, destination, k, m);
        let c = corners[i];
        lemma_way(destination[i].x, c.spring_x.position, k);
        lemma_way(destination[i].y, c.spring_y.position, k);
        let step = displacement(corners, destination, i);
        let sum = travel_of(corners, destination, m);
        lemma_grid_sum(sum.x, step.x, k, m * 3_000_000, 3_000_000);
        lemma_grid_sum(sum.y, step.y, k, m * 3_000_000, 3_000_000);
    }
}

/// A quarter of a number on the grid is exact.
proof fn lemma_quarter(v: Value, k: nat)
    requires
        on_grid(v, k, 12_000_000),
        2 <= k <= 149,
    ensures
        v.over(Value::of(4)) is Finite,
        4 * units(v.over(Value::of(4))) == units(v),
        within(v.over(Value::of(4)), 190),
{
    reveal(Value::over);
    vstd::arithmetic::power2::lemma2_to64();
    assert(4 * pow2(0) == 4);
    short_naturals_are_exact(4, 4, 0);
    let c = choose|c: int| #[trigger] steps(v, k, c) && size(c) <= 12_000_000;
    let n = size(c);
    let low = (k - 2) as nat;
    let p = pow2(low);
    lemma_pow2_pos(low);
    lemma_pow2_adds(low, 2);
    let unit_nat = pow2(149);
    lemma_pow2_pos(149);
    let y = n * p;
    let x = v->Finite_units;
    assert(x == n * pow2(k)) by (nonlinear_arith)
        requires
            units(v) == c * pow2(k),
            n == size(c),
            x == size(units(v)),
            pow2(k) > 0,
    ;
    lemma_pow2_pos(k);
    let den = 4 * unit_nat;
    assert(x * unit_nat == y * den) by (nonlinear_arith)
        requires
            x == n * pow2(k),
            pow2(k) == p * 4,
            y == n * p,
            den == 4 * unit_nat,
    ;
    assert(y == scaled(n, low));
    assert(representable(24, y));
    lemma_round_exact(24, y, den);
    lemma_pow2_adds(24, low);
    lemma_pow2_strictly_increases(24 + low, 190);
    lemma_pow2_strictly_increases(190, 277);
    assert(y <= pow2(24) * p) by (nonlinear_arith)
        requires
            y == n * p,
            n <= pow2(24),
    ;
    assert(x == 4 * y) by (nonlinear_arith)
        requires
            x == n * pow2(k),
            pow2(k) == p * 4,
            y == n * p,
    ;
}

/// Numbers add up as units do.
pub proof fn lemma_number_sum(a: int, b: int)
    ensures
        (a + b) as real / unit() == a as real / unit() + b as real / unit(),
        (a - b) as real / unit() == a as real / unit() - b as real / unit(),
        (4 * a) as real / unit() == 4 as real * (a as real / unit()),
{
    lemma_constants();
    let v = unit();
    let x = a as real;
    let y = b as real;
    assert((x + y) / v == x / v + y / v && (x - y) / v == x / v - y / v && (4 as real * x) / v
        == 4 as real * (x / v)) by (nonlinear_arith)
        requires
            v > 0 as real,
    ;
}

/// The average travel of a jump is computed exactly where nothing is rounded.
proof fn lemma_mean_travel(
    state: AnimationValue,
    from: Seq<PointValue>,
    destination: Seq<PointValue>,
    k: nat,
)
    requires
        jump_on_grid(state, from, destination, k),
    ensures
        ({
            let t = travel(state.moved(from, destination).corners, destination);
            &&& within(t.x, 190)
            &&& within(t.y, 190)
            &&& number(t.x) == mean_across(state, from, destination)
            &&& number(t.y) == mean_down(state, from, destination)
        }),
{
    vstd::arithmetic::power2::lemma2_to64();
    let moved = state.moved(from, destination).corners;
    assert forall|i: int| 0 <= i < 4 implies {
        &&& on_grid((#[trigger] moved[i]).spring_x.position, k, 3_000_000)
        &&& on_grid(moved[i].spring_y.position, k, 3_000_000)
        &&& on_grid(destination[i].x, k, 1_000_000)
        &&& on_grid(destination[i].y, k, 1_000_000)
        &&& number(moved[i].spring_x.position) == way_across(state, from, destination, i)
        &&& number(moved[i].spring_y.position) == way_down(state, from, destination, i)
    } by {
        let c = state.corners[i];
        assert(on_grid(c.spring_x.position, k, 1_000_000));
        lemma_grid_sum(destination[i].x, from[i].x, k, 1_000_000, 1_000_000);
        lemma_grid_sum(destination[i].y, from[i].y, k, 1_000_000, 1_000_000);
        let dx = destination[i].x.minus(from[i].x);
        let dy = destination[i].y.minus(from[i].y);
        lemma_grid_sum(c.spring_x.position, dx, k, 1_000_000, 2_000_000);
        lemma_grid_sum(c.spring_y.position, dy, k, 1_000_000, 2_000_000);
        lemma_number_sum(units(destination[i].x), units(from[i].x));
        lemma_number_sum(units(destination[i].y), units(from[i].y));
        lemma_number_sum(units(c.spring_x.position), units(dx));
        lemma_number_sum(units(c.spring_y.position), units(dy));
    }
    lemma_travel_units(moved, destination, k, 4);
    let sum = travel_of(moved, destination, 4);
    lemma_quarter(sum.x, k);
    lemma_quarter(sum.y, k);
    let t = travel(moved, destination);
    reveal_with_fuel(offsets, 5);
    let a = units(moved[0].spring_x.position);
    let b = units(moved[1].spring_x.position);
    let c = units(moved[2].spring_x.position);
    let d = units(moved[3].spring_x.position);
    lemma_number_sum(a, b);
    lemma_number_sum(a + b, c);
    lemma_number_sum(a + b + c, d);
    lemma_number_sum(units(t.x), 0);
    let e = units(moved[0].spring_y.position);
    let f = units(moved[1].spring_y.position);
    let g = units(moved[2].spring_y.position);
    let h = units(moved[3].spring_y.position);
    lemma_number_sum(e, f);
    lemma_number_sum(e + f, g);
    lemma_number_sum(e + f + g, h);
    lemma_number_sum(units(t.y), 0);
}

/// The distance of two coordinates on the grid, or one if it is less.
proof fn lemma_side(a: Value, b: Value, k: nat)
    requires
        on_grid(a, k, 1_000_000),
        on_grid(b, k, 1_000_000),
        1 <= k <= 149,
    ensures
        ({
            let side = greater(magnitude(a.minus(b)), Value::of(1));
            &&& within(side, 190)
            &&& number(side) == larger(abs(number(a) - number(b)), 1 as real)
            &&& halves(side)
        }),
{
    vstd::arithmetic::power2::lemma2_to64();
    lemma_grid_sum(a, b, k, 1_000_000, 1_000_000);
    let d = a.minus(b);
    lemma_number_sum(units(a), units(b));
    lemma_magnitude(d);
    lemma_small(1);
    lemma_compare(Value::of(1), magnitude(d));
    lemma_pow2_strictly_increases(151, 190);
    let c = choose|c: int| #[trigger] steps(d, k, c) && size(c) <= 2_000_000;
    let p = pow2(k);
    lemma_pow2_pos(k);
    lemma_pow2_adds(24, k);
    lemma_pow2_strictly_increases(24 + k, 190);
    assert(size(c * p) <= pow2(24) * p) by (nonlinear_arith)
        requires
            size(c) <= pow2(24),
            p > 0,
    ;
    let n = size(c);
    assert(size(c * p) == n * p) by (nonlinear_arith)
        requires
            n == size(c),
            p > 0,
    ;
    lemma_halves(magnitude(d), n, k);
    assert(1 * pow2(0) == 1);
    short_naturals_are_exact(1, 1, 0);
    lemma_halves(Value::of(1), 1, 149);
}

/// The corner is on the edge that faces the travel, of which the longer axis
/// counts: corners are numbered clockwise from the top left.
pub open spec fn faces(x: real, y: real, i: int) -> bool {
    if abs(x) >= abs(y) {
        if x >= 0 as real {
            i == 1 || i == 2
        } else {
            i == 0 || i == 3
        }
    } else if y >= 0 as real {
        i == 2 || i == 3
    } else {
        i == 0 || i == 1
    }
}

/// What a jump is timed by: the average way that its corners have to go, and the
/// size of the cursor where it goes to, which counts as no less than a pixel. A
/// jump of at least 2.001 widths, or of at least half a height up or down, gives
/// the leading length to the two corners that face the travel, along the axis
/// that it goes on, and the full length to all else. One of less than that gives
/// the short length to all. Only next to 2.001 widths, to one part in a hundred
/// thousand, does rounding decide.
pub proof fn jumps_are_timed_by_their_travel(
    state: AnimationValue,
    key: CursorKey,
    destination: Seq<PointValue>,
    now: u64,
    timing: Timing,
    decays: DecayValues,
    from: Seq<PointValue>,
    k: nat,
)
    requires
        moved_in_buffer(state, key),
        state.last_destination == Some(from),
        jump_on_grid(state, from, destination, k),
    ensures
        ({
            let next = state.next(key, destination, now, timing, decays);
            let x = mean_across(state, from, destination);
            let y = mean_down(state, from, destination);
            let width = larger(abs(number(destination[1].x) - number(destination[0].x)), 1 as real);
            let height = larger(
                abs(number(destination[2].y) - number(destination[1].y)),
                1 as real,
            );
            &&& clearly_long(x, y, width, height) ==> {
                &&& forall|i: int|
                    0 <= i < 4 ==> (#[trigger] next.corners[i]).animation_length == if faces(
                        x,
                        y,
                        i,
                    ) {
                        timing.leading()
                    } else {
                        timing.animation_length
                    }
                &&& next.cross_length == timing.animation_length
                &&& next.axis == if abs(x) >= abs(y) {
                    Axis::Horizontal
                } else {
                    Axis::Vertical
                }
            }
            &&& clearly_short(x, y, width, height) ==> {
                &&& forall|i: int|
                    0 <= i < 4 ==> (#[trigger] next.corners[i]).animation_length == timing.quick()
                &&& next.cross_length == timing.quick()
            }
        }),
{
    let moved = state.moved(from, destination);
    let t = travel(moved.corners, destination);
    lemma_mean_travel(state, from, destination, k);
    assert(on_grid(state.corners[0].spring_x.position, k, 1_000_000));
    assert(on_grid(state.corners[1].spring_x.position, k, 1_000_000));
    assert(on_grid(state.corners[2].spring_x.position, k, 1_000_000));
    lemma_side(destination[1].x, destination[0].x, k);
    lemma_side(destination[2].y, destination[1].y, k);
    lemma_short_in_numbers(destination, t);
    // The direction.
    lemma_magnitude(t.x);
    lemma_magnitude(t.y);
    lemma_compare(magnitude(t.y), magnitude(t.x));
    lemma_no_units(Value::zero());
    lemma_compare(Value::zero(), t.x);
    lemma_compare(Value::zero(), t.y);
    let anchored = state.anchored(key, destination, timing);
    let next = state.next(key, destination, now, timing, decays);
    assert forall|i: int| 0 <= i < 4 implies (#[trigger] next.corners[i]).animation_length
        == anchored.corners[i].animation_length by {}
}

/// The leading edge takes the share of the full length that the trail size
/// leaves: none of it with a size of one or more, all of it with none or less.
pub proof fn leading_length_is_what_the_trail_leaves(timing: Timing)
    requires
        of_format(Format::Single, timing.animation_length),
        of_format(Format::Single, timing.trail_size),
        within(timing.animation_length, 190),
        within(timing.trail_size, 190),
        units(timing.animation_length) >= 0,
    ensures
        ({
            let length = number(timing.animation_length);
            let rest = 1 as real - number(timing.trail_size);
            let share = if rest < 0 as real {
                0 as real
            } else if rest > 1 as real {
                1 as real
            } else {
                rest
            };
            &&& timing.leading() is Finite
            &&& abs(number(timing.leading()) - length * share) <= 3 as real * (ulp() * length)
                + dust()
        }),
{
    lemma_constants();
    lemma_dust();
    let u = ulp();
    let t = number(timing.trail_size);
    let one = Value::of(1);
    lemma_small(1);
    lemma_pow2_strictly_increases(190, 275);
    lemma_pow2_strictly_increases(151, 275);
    lemma_minus_near(one, timing.trail_size);
    let r = one.minus(timing.trail_size);
    let share = lemma_leading_share(timing);
    lemma_no_units(Value::zero());
    lemma_compare(r, Value::zero());
    lemma_compare(one, r);
    let length = number(timing.animation_length);
    lemma_no_units(timing.animation_length);
    let rest = 1 as real - t;
    let exact = if rest < 0 as real {
        0 as real
    } else if rest > 1 as real {
        1 as real
    } else {
        rest
    };
    let s = number(share);
    assert(abs(s - exact) <= u) by {
        lemma_tiny(1 as real);
        if rest > 2 as real {
            lemma_tiny(rest);
        } else if rest < 0 as real {
            lemma_tiny(-rest);
        } else if rest > 1 as real {
            lemma_tiny(rest);
            lemma_mul_order(1 as real, rest, u);
            lemma_mul_order(u, 1 as real, rest - 1 as real);
            lemma_mul_sum(u, rest - 1 as real, 1 as real);
            lemma_mul_reorder(u, rest - 1 as real, u);
        } else {
            lemma_mul_order(rest, 1 as real, u);
        }
    }
    vstd::arithmetic::power2::lemma2_to64();
    lemma_tiny(1 as real);
    lemma_number_within(share, 1);
    lemma_times_near(timing.animation_length, share, 190, 150);
    lemma_mul_size(length, s - exact, length, u);
    lemma_mul_sum(length, s, exact);
    lemma_mul_reorder(length, u, u);
    lemma_tiny(1 as real);
    lemma_mul_size(length, s, length, 1001 as real / 1000 as real);
    lemma_mul_order(abs(length * s), (1001 as real / 1000 as real) * length, u);
    lemma_mul_reorder(u, 1001 as real / 1000 as real, length);
    lemma_mul_reorder(length, 1001 as real / 1000 as real, length);
    lemma_mul_nonnegative(u, length);
    lemma_tiny(dust());
}

/// A short jump takes the lesser of the two lengths.
pub proof fn short_jumps_take_the_lesser_length(timing: Timing)
    requires
        timing.animation_length is Finite,
        timing.short_animation_length is Finite,
    ensures
        ({
            let length = number(timing.animation_length);
            let short = number(timing.short_animation_length);
            &&& timing.quick() == timing.animation_length || timing.quick()
                == timing.short_animation_length
            &&& number(timing.quick()) <= length
            &&& number(timing.quick()) <= short
        }),
{
    lemma_compare(timing.animation_length, timing.short_animation_length);
}

} // verus!
