//! How far labels move when the text is scrolled.

use vstd::arithmetic::power2::{
    lemma_pow2_adds, lemma_pow2_pos, lemma_pow2_strictly_increases, pow2,
};
use vstd::prelude::*;

use crate::exponential::lemma_number_within;
use crate::float::{convert, minus, natural, opposite, times, Format, Value};
use crate::float_laws::{
    lemma_convert_rounds, lemma_plus_rounds, lemma_rounded_within, lemma_times_rounds, rounded,
    size, units,
};
use crate::geometry::PointValue;
use crate::jump::{
    badge_padding, badge_width, labels_painted, match_width, measured, visible_labels, JumpLabel,
    JumpView, LabelPaint, Measures,
};
use crate::jump_laws::{
    labels_are_placed_by_their_measures, labels_on_screen_are_painted, lemma_row_is_finite,
    lemma_widened, measure_alike, placed_alike, same_look, same_rows,
};
use crate::laws::{lemma_one, lemma_single_of_format};
use crate::numbers::{
    abs, lemma_constants, lemma_nearest_near, lemma_opposite, lemma_plus_near, lemma_real_product,
    lemma_scaled, number, speck, ulp, unit,
};
use crate::reals::{
    lemma_mul_nonnegative, lemma_mul_order, lemma_mul_reorder, lemma_mul_sum, lemma_quotient,
};
use crate::rounding_laws::{lemma_round_exact, lemma_round_monotone, representable, scaled};
use crate::single::Single;
use crate::spring_error::{dust, lemma_chain, lemma_dust, lemma_tiny};
use crate::spring_flow::lemma_mul_size;

verus! {

/// How many units of the wide format make one.
pub open spec fn wide_unit() -> real {
    pow2(1074) as real
}

/// A finite value of the wide format as a real number.
pub open spec fn wide_number(v: Value) -> real {
    units(v) as real / wide_unit()
}

/// The relative error of one rounding in the wide format.
spec fn wide_ulp() -> real {
    1 as real / (pow2(53) as real)
}

/// The absolute error of a wide product that is close to zero.
spec fn wide_speck() -> real {
    1 as real / (2 as real * wide_unit())
}

/// The wide units are positive, and what wide rounding loses is next to
/// nothing.
proof fn lemma_wide_constants()
    ensures
        wide_unit() > 0 as real,
        wide_ulp() > 0 as real,
        1000 as real * wide_ulp() <= ulp(),
        wide_ulp() * (pow2(53) as real) == 1 as real,
        wide_speck() > 0 as real,
        wide_speck() * (2 as real * wide_unit()) == 1 as real,
        wide_speck() <= speck(),
        1000 as real * speck() <= ulp(),
{
    lemma_constants();
    lemma_dust();
    lemma_pow2_pos(1074);
    lemma_pow2_pos(53);
    vstd::arithmetic::power2::lemma2_to64();
    lemma_pow2_adds(24, 29);
    lemma_pow2_adds(149, 925);
    lemma_pow2_pos(925);
    let p = pow2(53) as real;
    let v = wide_ulp();
    lemma_quotient(1 as real, p);
    lemma_real_product(pow2(24) as int, pow2(29) as int);
    let u = ulp();
    let a = pow2(24) as real;
    let b = pow2(29) as real;
    assert(b == 536870912 as real);
    assert(v * b == u) by {
        // v * a * b == 1 == u * a.
        lemma_mul_reorder(v, a, b);
        lemma_mul_reorder(v, b, a);
        lemma_mul_reorder(a, b, b);
        let x = v * b;
        assert(x * a == u * a);
        assert(x == u) by (nonlinear_arith)
            requires
                x * a == u * a,
                a > 0 as real,
        ;
    }
    assert(v > 0 as real) by (nonlinear_arith)
        requires
            v * p == 1 as real,
            p > 0 as real,
    ;
    let w = 2 as real * wide_unit();
    lemma_quotient(1 as real, w);
    let k = wide_speck();
    assert(k > 0 as real) by (nonlinear_arith)
        requires
            k * w == 1 as real,
            w > 0 as real,
    ;
    let n = 2 as real * unit();
    lemma_quotient(1 as real, n);
    let s = speck();
    lemma_real_product(pow2(149) as int, pow2(925) as int);
    assert(pow2(925) as real >= 1 as real);
    lemma_mul_order(1 as real, pow2(925) as real, unit());
    assert(w >= n);
    assert(k <= s) by (nonlinear_arith)
        requires
            k * w == 1 as real,
            s * n == 1 as real,
            w >= n,
            n > 0 as real,
            k > 0 as real,
    ;
    lemma_tiny(dust());
    lemma_tiny(1 as real);
    assert(dust() <= 1 as real);
    lemma_mul_order(dust(), 1 as real / 1000 as real, u);
}

/// What rounding loses, over a scale.
proof fn lemma_unscaled(
    r: real,
    n: real,
    d: real,
    s: real,
    x: real,
    f: real,
    p: real,
    u: real,
    k: real,
)
    requires
        d > 0 as real,
        s > 0 as real,
        p > 0 as real,
        u * p == 1 as real,
        u > 0 as real,
        k * (2 as real * s) == 1 as real,
        f * s == r,
        x * (d * s) == n,
        p * abs(r * d - n) <= abs(n) + (p / 2 as real) * d,
    ensures
        abs(f - x) <= u * abs(x) + k,
{
    let g = d * s;
    assert(g > 0 as real) by (nonlinear_arith)
        requires
            g == d * s,
            d > 0 as real,
            s > 0 as real,
    ;
    assert(r * d == f * g) by {
        lemma_mul_reorder(f, s, d);
        lemma_mul_reorder(s, d, d);
    }
    let err = abs(f - x);
    let big = abs(x);
    assert(abs(r * d - n) == err * g) by {
        lemma_mul_sum(g, f, x);
        lemma_mul_sum(g, x, f);
        lemma_mul_nonnegative(err, g);
    }
    assert(abs(n) == big * g) by {
        if x >= 0 as real {
            lemma_mul_nonnegative(x, g);
        } else {
            lemma_mul_nonnegative(-x, g);
            lemma_mul_sum(g, 0 as real, x);
            assert(0 as real * g == 0 as real);
        }
    }
    let pk = p * k;
    assert(pk * g == (p / 2 as real) * d) by {
        // k * s is half.
        lemma_mul_reorder(k, 2 as real, s);
        assert(k * s == 1 as real / 2 as real);
        lemma_mul_reorder(p, k, g);
        lemma_mul_reorder(k, d, s);
        lemma_mul_reorder(d, k * s, k);
        let half = 1 as real / 2 as real;
        assert(k * g == d * half);
        lemma_mul_reorder(p, d, half);
        lemma_mul_reorder(p, half, d);
        lemma_mul_reorder(d, half, half);
        assert(p * half == p / 2 as real);
    }
    lemma_mul_sum(g, big, pk);
    let left = p * err;
    lemma_mul_reorder(p, err, g);
    assert(left * g <= (big + pk) * g);
    assert(left <= big + pk) by {
        if left > big + pk {
            assert((big + pk) * g < left * g) by (nonlinear_arith)
                requires
                    big + pk < left,
                    g > 0 as real,
            ;
        }
    }
    lemma_mul_order(left, big + pk, u);
    lemma_mul_sum(u, big, pk);
    lemma_mul_reorder(u, p, err);
    lemma_mul_reorder(u, p, k);
}

/// Wide rounding of what is in range gives a finite number.
proof fn lemma_wide_finite(num: int, den: nat, e: nat)
    requires
        den > 0,
        size(num) <= pow2(e) * den,
        e < 2098,
    ensures
        rounded(Format::Double, num, den) is Finite,
{
    lemma_pow2_pos(53);
    assert(scaled(1, e) == pow2(e));
    assert(representable(53, pow2(e)));
    lemma_pow2_strictly_increases(e, 2098);
    let n = size(num);
    assert(n * 1 <= pow2(e) * den);
    lemma_round_monotone(53, n, den, pow2(e), 1);
    assert(pow2(e) * 1 == pow2(e));
    lemma_round_exact(53, pow2(e), 1);
}

/// A number that is at most `pow2(k)` has at most `pow2(1074 + k)` units.
proof fn lemma_wide_units(n: int, x: real, k: nat)
    requires
        x * wide_unit() == n as real,
        abs(x) <= pow2(k) as real,
    ensures
        size(n) <= pow2(1074 + k),
{
    lemma_wide_constants();
    let w = wide_unit();
    let bound = pow2(k) as real;
    lemma_pow2_adds(1074, k);
    lemma_real_product(pow2(1074) as int, pow2(k) as int);
    lemma_mul_order(x, bound, w);
    lemma_mul_order(-x, bound, w);
    lemma_mul_sum(w, 0 as real, x);
    assert(0 as real * w == 0 as real);
    assert(-(pow2(1074 + k) as real) <= n as real <= pow2(1074 + k) as real);
}

/// A wide difference is near to the exact one.
proof fn lemma_wide_minus(a: Value, b: Value)
    requires
        a is Finite,
        b is Finite,
        abs(wide_number(a) - wide_number(b)) <= pow2(100) as real,
    ensures
        ({
            let d = minus(Format::Double, a, b);
            &&& d is Finite
            &&& abs(wide_number(d) - (wide_number(a) - wide_number(b))) <= wide_ulp() * abs(
                wide_number(a) - wide_number(b),
            )
        }),
{
    lemma_wide_constants();
    let w = wide_unit();
    let d = minus(Format::Double, a, b);
    let n = units(a) - units(b);
    let x = wide_number(a) - wide_number(b);
    lemma_quotient(units(a) as real, w);
    lemma_quotient(units(b) as real, w);
    lemma_mul_sum(w, wide_number(a), wide_number(b));
    assert(n as real == units(a) as real - units(b) as real);
    lemma_wide_units(n, x, 100);
    lemma_plus_rounds(Format::Double, a, opposite(b));
    lemma_wide_finite(n, 1, 1174);
    lemma_nearest_near(Format::Double, n, 1);
    let r = units(d) as real;
    let p = pow2(53) as real;
    lemma_pow2_pos(53);
    assert(r * (1 as real) == r);
    lemma_scaled(r, n as real, w, p, wide_ulp());
    lemma_quotient(n as real, w);
    let y = n as real / w;
    assert(y == x) by (nonlinear_arith)
        requires
            y * w == x * w,
            w > 0 as real,
    ;
}

/// A wide product is near to the exact one.
proof fn lemma_wide_times(a: Value, b: Value)
    requires
        a is Finite,
        b is Finite,
        abs(wide_number(a)) <= pow2(100) as real,
        abs(wide_number(b)) <= pow2(100) as real,
    ensures
        ({
            let d = times(Format::Double, a, b);
            let x = wide_number(a) * wide_number(b);
            &&& d is Finite
            &&& abs(wide_number(d) - x) <= wide_ulp() * abs(x) + wide_speck()
        }),
{
    lemma_wide_constants();
    let w = wide_unit();
    let d = times(Format::Double, a, b);
    let n = units(a) * units(b);
    let f = wide_number(a);
    let g = wide_number(b);
    lemma_quotient(units(a) as real, w);
    lemma_quotient(units(b) as real, w);
    lemma_wide_units(units(a), f, 100);
    lemma_wide_units(units(b), g, 100);
    lemma_times_rounds(Format::Double, a, b);
    let p = pow2(1174);
    lemma_pow2_adds(1174, 1174);
    lemma_pow2_adds(1274, 1074);
    lemma_pow2_pos(1074);
    let i = units(a);
    let j = units(b);
    assert(size(i * j) <= p * p) by (nonlinear_arith)
        requires
            -p <= i <= p,
            -p <= j <= p,
    ;
    lemma_wide_finite(n, pow2(1074), 1274);
    lemma_nearest_near(Format::Double, n, pow2(1074));
    lemma_real_product(i, j);
    let r = units(d) as real;
    lemma_quotient(r, w);
    lemma_pow2_pos(53);
    assert((f * g) * (w * w) == n as real) by {
        lemma_mul_reorder(f * g, w, w);
        lemma_mul_reorder(f, g, w);
        lemma_mul_reorder(f, j as real, w);
        lemma_mul_reorder(j as real, w, w);
        lemma_mul_reorder(f, w, j as real);
    }
    lemma_unscaled(
        r,
        n as real,
        w,
        w,
        f * g,
        wide_number(d),
        pow2(53) as real,
        wide_ulp(),
        wide_speck(),
    );
}

/// A wide number, narrowed, is near to it.
proof fn lemma_narrowed(d: Value)
    requires
        d is Finite,
        abs(wide_number(d)) <= pow2(100) as real,
    ensures
        ({
            let s = convert(Format::Double, Format::Single, d);
            &&& s is Finite
            &&& abs(number(s) - wide_number(d)) <= ulp() * abs(wide_number(d)) + speck()
        }),
{
    lemma_wide_constants();
    lemma_constants();
    let w = wide_unit();
    let v = unit();
    let s = convert(Format::Double, Format::Single, d);
    let x = wide_number(d);
    lemma_quotient(units(d) as real, w);
    lemma_wide_units(units(d), x, 100);
    lemma_convert_rounds(Format::Double, Format::Single, d);
    let n = units(d) * pow2(149);
    lemma_pow2_pos(149);
    lemma_pow2_pos(1074);
    lemma_pow2_adds(1174, 149);
    lemma_pow2_adds(249, 1074);
    let i = units(d);
    let p = pow2(1174);
    let q = pow2(149);
    assert(size(i * q) <= p * q) by (nonlinear_arith)
        requires
            -p <= i <= p,
            q > 0,
    ;
    lemma_rounded_within(n, pow2(1074), 249);
    lemma_nearest_near(Format::Single, n, pow2(1074));
    lemma_real_product(units(d), pow2(149) as int);
    let r = units(s) as real;
    lemma_quotient(r, v);
    lemma_quotient(1 as real, 2 as real * v);
    vstd::arithmetic::power2::lemma2_to64();
    assert(x * (w * v) == n as real) by {
        lemma_mul_reorder(x, w, v);
    }
    lemma_unscaled(
        r,
        n as real,
        w,
        v,
        x,
        number(s),
        pow2(24) as real,
        ulp(),
        speck(),
    );
}

/// A widened number is the same number.
proof fn lemma_widened_number(x: Single)
    requires
        x@ is Finite,
    ensures
        convert(Format::Single, Format::Double, x@) is Finite,
        wide_number(convert(Format::Single, Format::Double, x@)) == number(x@),
{
    lemma_wide_constants();
    lemma_constants();
    lemma_single_of_format(x);
    lemma_widened(x@);
    let wide = convert(Format::Single, Format::Double, x@);
    let lift = pow2(925) as real;
    lemma_real_product(units(x@), pow2(925) as int);
    lemma_pow2_adds(149, 925);
    lemma_real_product(pow2(149) as int, pow2(925) as int);
    lemma_pow2_pos(925);
    let n = units(x@) as real;
    let v = unit();
    let w = wide_unit();
    let f = number(x@);
    let g = wide_number(wide);
    lemma_quotient(n, v);
    lemma_quotient(n * lift, w);
    assert(f * w == n * lift) by {
        lemma_mul_reorder(f, v, lift);
    }
    assert(f == g) by (nonlinear_arith)
        requires
            f * w == g * w,
            w > 0 as real,
    ;
}

/// How many lines a row is below the scroll position, and how far a place in a
/// line is to the right of it.
pub open spec fn lines_down(view: JumpView, row: u32) -> real {
    row as int as real - wide_number(view.scroll_row@)
}

/// How far a place in a line is to the right of the scroll position.
pub open spec fn pixels_right(view: JumpView, x: Value) -> real {
    number(x) - wide_number(view.scroll_x@)
}

/// The top of a row is so many line heights down, up to rounding.
pub proof fn lemma_top_near(view: JumpView, row: u32, g: real)
    requires
        view.scroll_row@ is Finite,
        view.line_height@ is Finite,
        abs(lines_down(view, row)) <= pow2(90) as real,
        abs(number(view.line_height@)) <= pow2(90) as real,
        abs(lines_down(view, row) * number(view.line_height@)) <= g,
        1 as real <= g <= pow2(90) as real,
    ensures
        view.row_top(row) is Finite,
        abs(number(view.row_top(row)) - lines_down(view, row) * number(view.line_height@))
            <= 2 as real * (ulp() * g),
{
    lemma_wide_constants();
    lemma_constants();
    let v = wide_ulp();
    let u = ulp();
    let w = wide_unit();
    let line = natural(Format::Double, row as nat);
    let rows = minus(Format::Double, line, view.scroll_row@);
    let wide = convert(Format::Single, Format::Double, view.line_height@);
    let product = times(Format::Double, rows, wide);
    let h = number(view.line_height@);
    let r = lines_down(view, row);
    lemma_row_is_finite(row);
    lemma_pow2_strictly_increases(90, 100);
    lemma_pow2_strictly_increases(90, 91);
    lemma_pow2_strictly_increases(91, 100);
    lemma_pow2_adds(90, 1);
    lemma_pow2_pos(90);
    vstd::arithmetic::power2::lemma2_to64();
    assert(wide_number(line) == row as int as real) by {
        lemma_real_product(row as int, pow2(1074) as int);
        let x = units(line) as real;
        lemma_quotient(x, w);
        let a = wide_number(line);
        let b = row as int as real;
        assert(a == b) by (nonlinear_arith)
            requires
                a * w == b * w,
                w > 0 as real,
        ;
    }
    lemma_wide_minus(line, view.scroll_row@);
    let r1 = wide_number(rows);
    lemma_mul_order(v, 1 as real, abs(r));
    assert(abs(r1) <= pow2(91) as real);
    lemma_widened_number(view.line_height);
    lemma_wide_times(rows, wide);
    let p = wide_number(product);
    let exact = r * h;
    // r1 * h is near to r * h.
    lemma_mul_size(r1 - r, h, v * abs(r), abs(h));
    lemma_mul_sum(h, r1, r);
    lemma_mul_reorder(v, abs(r), abs(h));
    assert(abs(r) * abs(h) == abs(exact)) by {
        lemma_abs_product(r, h);
    }
    lemma_mul_order(abs(exact), g, v);
    let vg = v * g;
    let ug = u * g;
    lemma_mul_nonnegative(v, g);
    lemma_mul_order(1000 as real * v, u, g);
    lemma_mul_reorder(1000 as real, v, g);
    lemma_mul_order(1 as real, g, u);
    assert(abs(r1 * h - exact) <= vg);
    lemma_chain(p, r1 * h, exact, vg, g, v, wide_speck());
    lemma_mul_sum(v, g, vg);
    lemma_mul_order(v, 1 as real, vg);
    assert(abs(p - exact) <= 3 as real * vg + wide_speck());
    lemma_tiny(g);
    lemma_tiny(1 as real);
    assert(abs(p) <= 2 as real * g);
    assert(abs(p) <= pow2(91) as real);
    lemma_narrowed(product);
    let e = 3 as real * vg + wide_speck();
    lemma_chain(number(view.row_top(row)), p, exact, e, g, u, speck());
    lemma_mul_sum(u, g, e);
    lemma_mul_order(u, 1 as real, e);
}

/// The size of a product.
proof fn lemma_abs_product(a: real, b: real)
    ensures
        abs(a) * abs(b) == abs(a * b),
{
    let x = abs(a);
    let y = abs(b);
    lemma_mul_nonnegative(x, y);
    lemma_mul_sum(b, 0 as real, a);
    lemma_mul_sum(a, 0 as real, b);
    assert(0 as real * b == 0 as real && a * (0 as real) == 0 as real);
    lemma_mul_sum(-b, 0 as real, a);
    lemma_mul_sum(-a, 0 as real, b);
    assert(0 as real * (-b) == 0 as real && (-a) * (0 as real) == 0 as real);
}

/// A place in a line is so far right on screen, up to rounding.
pub proof fn lemma_left_near(view: JumpView, x: Single, g: real)
    requires
        view.scroll_x@ is Finite,
        x@ is Finite,
        abs(pixels_right(view, x@)) <= g,
        1 as real <= g <= pow2(90) as real,
    ensures
        view.screen_x(x@) is Finite,
        abs(number(view.screen_x(x@)) - pixels_right(view, x@)) <= 2 as real * (ulp() * g),
{
    lemma_wide_constants();
    lemma_constants();
    let v = wide_ulp();
    let u = ulp();
    let wide = convert(Format::Single, Format::Double, x@);
    let d = minus(Format::Double, wide, view.scroll_x@);
    let exact = pixels_right(view, x@);
    lemma_pow2_strictly_increases(90, 91);
    lemma_pow2_strictly_increases(91, 100);
    lemma_pow2_adds(90, 1);
    lemma_pow2_pos(90);
    vstd::arithmetic::power2::lemma2_to64();
    lemma_widened_number(x);
    lemma_wide_minus(wide, view.scroll_x@);
    lemma_mul_order(abs(exact), g, v);
    let vg = v * g;
    lemma_mul_nonnegative(v, g);
    lemma_mul_order(1000 as real * v, u, g);
    lemma_mul_reorder(1000 as real, v, g);
    lemma_mul_order(1 as real, g, u);
    lemma_mul_order(v, 1 as real, g);
    lemma_narrowed(d);
    lemma_chain(number(view.screen_x(x@)), wide_number(d), exact, vg, g, u, speck());
    lemma_mul_sum(u, g, vg);
    lemma_mul_order(u, 1 as real, vg);
}

/// A sum of numbers that are near to others is near to the sum of those; all
/// errors are counted in `c` and `d` parts of the relative error of `g`.
pub proof fn lemma_sum(a: Value, b: Value, x: real, y: real, c: real, d: real, m: real, g: real)
    requires
        a is Finite,
        b is Finite,
        abs(number(a) - x) <= c * (ulp() * g),
        abs(number(b) - y) <= d * (ulp() * g),
        abs(x) + abs(y) <= m * g,
        0 as real <= c <= 100 as real,
        0 as real <= d <= 100 as real,
        0 as real <= m <= 100 as real,
        1 as real <= g <= pow2(90) as real,
    ensures
        a.plus(b) is Finite,
        abs(number(a.plus(b)) - (x + y)) <= (c + d + m + 1 as real / 10 as real) * (ulp() * g),
{
    lemma_constants();
    let u = ulp();
    let ug = u * g;
    lemma_mul_nonnegative(u, g);
    lemma_tiny(g);
    let e = c * ug + d * ug;
    lemma_mul_order(c, 100 as real, ug);
    lemma_mul_order(d, 100 as real, ug);
    lemma_mul_order(m, 100 as real, g);
    lemma_pow2_adds(90, 10);
    lemma_real_product(pow2(90) as int, pow2(10) as int);
    vstd::arithmetic::power2::lemma2_to64();
    assert(pow2(100) as real == pow2(90) as real * (1024 as real));
    lemma_number_within(a, 100);
    lemma_number_within(b, 100);
    lemma_pow2_strictly_increases(249, 275);
    lemma_plus_near(a, b);
    lemma_chain(number(a.plus(b)), number(a) + number(b), x + y, e, m * g, u, 0 as real);
    lemma_mul_sum(u, m * g, e);
    lemma_mul_reorder(u, m, g);
    assert(e <= 200 as real * ug);
    lemma_mul_order(e, 200 as real * ug, u);
    lemma_mul_reorder(u, 200 as real, ug);
    lemma_mul_order(10000 as real * u, 1 as real, ug);
    lemma_mul_reorder(10000 as real, u, ug);
    lemma_mul_sum(ug, c, d);
    lemma_mul_sum(ug, c + d, m);
    lemma_mul_sum(ug, c + d + m, 1 as real / 10 as real);
}

/// The same for a difference.
pub proof fn lemma_difference(
    a: Value,
    b: Value,
    x: real,
    y: real,
    c: real,
    d: real,
    m: real,
    g: real,
)
    requires
        a is Finite,
        b is Finite,
        abs(number(a) - x) <= c * (ulp() * g),
        abs(number(b) - y) <= d * (ulp() * g),
        abs(x) + abs(y) <= m * g,
        0 as real <= c <= 100 as real,
        0 as real <= d <= 100 as real,
        0 as real <= m <= 100 as real,
        1 as real <= g <= pow2(90) as real,
    ensures
        a.minus(b) is Finite,
        abs(number(a.minus(b)) - (x - y)) <= (c + d + m + 1 as real / 10 as real) * (ulp() * g),
{
    assert(a.minus(b) == a.plus(opposite(b))) by {
        reveal(Value::plus);
        reveal(Value::minus);
    }
    lemma_opposite(b);
    lemma_sum(a, opposite(b), x, -y, c, d, m, g);
}

/// All that a label is placed by is at most `g` pixels, and `g` is no giant
/// number.
pub open spec fn scroll_in_bounds(view: JumpView, row: u32, by: Measures, g: real) -> bool {
    let half = Value::ratio(1, 2);
    &&& 1 as real <= g <= pow2(90) as real
    &&& view.scroll_row@ is Finite
    &&& view.scroll_x@ is Finite
    &&& view.line_height@ is Finite
    &&& by.start_x@ is Finite
    &&& abs(lines_down(view, row)) <= pow2(90) as real
    &&& abs(number(view.line_height@)) <= pow2(90) as real
    &&& abs(lines_down(view, row) * number(view.line_height@)) <= g
    &&& abs(pixels_right(view, by.start_x@)) <= g
    &&& in_pixels(view.content_origin@.x, g)
    &&& in_pixels(view.content_origin@.y, g)
    &&& in_pixels(match_width(by.start_x@, by.end_x@), g)
    &&& in_pixels(badge_width(by.width@).times(half), g)
    &&& in_pixels(view.badge_height().times(half), g)
    &&& in_pixels(badge_padding(), g)
    &&& in_pixels(view.text_drop(), g)
}

/// A finite number of at most `g`.
pub open spec fn in_pixels(v: Value, g: real) -> bool {
    v is Finite && abs(number(v)) <= g
}

/// The point is near to the given place.
pub open spec fn near_place(p: PointValue, x: real, y: real, error: real) -> bool {
    &&& p.x is Finite
    &&& p.y is Finite
    &&& abs(number(p.x) - x) <= error
    &&& abs(number(p.y) - y) <= error
}

/// One is a number.
pub proof fn lemma_one_number()
    ensures
        Value::of(1) is Finite,
        number(Value::of(1)) == 1 as real,
{
    lemma_one();
    lemma_constants();
    let v = unit();
    lemma_quotient(v, v);
    let n = v / v;
    assert(n == 1 as real) by (nonlinear_arith)
        requires
            n * v == v,
            v > 0 as real,
    ;
}

/// Where a label is painted, up to rounding.
pub proof fn lemma_label_near(view: JumpView, row: u32, by: Measures, g: real)
    requires
        scroll_in_bounds(view, row, by, g),
    ensures
        ({
            let half = Value::ratio(1, 2);
            let x = number(view.content_origin@.x) + pixels_right(view, by.start_x@);
            let y = number(view.content_origin@.y) + lines_down(view, row) * number(
                view.line_height@,
            );
            let left = number(match_width(by.start_x@, by.end_x@)) - number(
                badge_width(by.width@).times(half),
            );
            let up = number(view.badge_height().times(half));
            let error = ulp() * g;
            let outline = view.outline(row, by.start_x@, by.end_x@);
            let badge = view.badge(row, by.start_x@, by.end_x@, by.width@);
            let text = view.text_origin(row, by.start_x@, by.end_x@, by.width@);
            &&& near_place(outline.origin, x - 1 as real, y + 1 as real, 8 as real * error)
            &&& near_place(badge.origin, x + left, y - up, 12 as real * error)
            &&& near_place(
                text,
                x + left + number(badge_padding()),
                y - up + number(view.text_drop()),
                20 as real * error,
            )
        }),
{
    let half = Value::ratio(1, 2);
    let u = ulp();
    let ug = u * g;
    lemma_constants();
    lemma_mul_nonnegative(u, g);
    lemma_one_number();
    let one = Value::of(1);
    let origin = view.content_origin@;
    let ox = number(origin.x);
    let oy = number(origin.y);
    let top = view.row_top(row);
    let left = view.screen_x(by.start_x@);
    let h = number(view.line_height@);
    let y = lines_down(view, row) * h;
    let x = pixels_right(view, by.start_x@);
    lemma_top_near(view, row, g);
    lemma_left_near(view, by.start_x, g);
    let none = 0 as real;
    assert(none * ug == none);
    let tenth = 1 as real / 10 as real;
    // Outline.
    let c = 2 as real;
    lemma_sum(top, one, y, 1 as real, c, none, 2 as real, g);
    lemma_difference(left, one, x, 1 as real, c, none, 2 as real, g);
    let d = c + none + 2 as real + tenth;
    lemma_sum(origin.y, top.plus(one), oy, y + 1 as real, none, d, 3 as real, g);
    lemma_sum(origin.x, left.minus(one), ox, x - 1 as real, none, d, 3 as real, g);
    let o = none + d + 3 as real + tenth;
    lemma_mul_order(o, 8 as real, ug);
    // Badge.
    let width = match_width(by.start_x@, by.end_x@);
    let back = badge_width(by.width@).times(half);
    let up = view.badge_height().times(half);
    let w = number(width);
    let b = number(back);
    let t = number(up);
    lemma_difference(top, up, y, t, c, none, 2 as real, g);
    lemma_sum(origin.y, top.minus(up), oy, y - t, none, d, 3 as real, g);
    lemma_sum(left, width, x, w, c, none, 2 as real, g);
    lemma_difference(left.plus(width), back, x + w, b, d, none, 3 as real, g);
    let f = d + none + 3 as real + tenth;
    lemma_sum(
        origin.x,
        left.plus(width).minus(back),
        ox,
        x + w - b,
        none,
        f,
        4 as real,
        g,
    );
    let k = none + f + 4 as real + tenth;
    lemma_mul_order(o, 12 as real, ug);
    lemma_mul_order(k, 12 as real, ug);
    // Text.
    let badge = view.badge(row, by.start_x@, by.end_x@, by.width@).origin;
    let pad = badge_padding();
    let drop = view.text_drop();
    lemma_sum(badge.y, drop, oy + (y - t), number(drop), o, none, 4 as real, g);
    lemma_sum(badge.x, pad, ox + (x + w - b), number(pad), k, none, 5 as real, g);
    lemma_mul_order(o + none + 4 as real + tenth, 20 as real, ug);
    lemma_mul_order(k + none + 5 as real + tenth, 20 as real, ug);
}

/// The second point is off from the first by `(x, y)`, up to an error.
pub open spec fn moved_by(p: PointValue, q: PointValue, x: real, y: real, error: real) -> bool {
    &&& abs((number(q.x) - number(p.x)) - x) <= error
    &&& abs((number(q.y) - number(p.y)) - y) <= error
}

/// The views differ in the scroll position alone.
pub open spec fn scrolled(a: JumpView, b: JumpView) -> bool {
    b.line_height@ == a.line_height@ && b.content_origin@ == a.content_origin@
}

/// How far a scroll moves labels to the right: against it.
pub open spec fn scrolled_right(a: JumpView, b: JumpView) -> real {
    wide_number(a.scroll_x@) - wide_number(b.scroll_x@)
}

/// How far a scroll moves labels down: against it, by its lines.
pub open spec fn scrolled_down(a: JumpView, b: JumpView) -> real {
    (wide_number(a.scroll_row@) - wide_number(b.scroll_row@)) * number(a.line_height@)
}

/// Labels scroll with the text: scrolled by `r` lines down and `s` pixels to
/// the right, the outline, the badge and the text of a label move by `-s`
/// pixels across and `-r` line heights down, up to rounding: at most 16, 24 and
/// 40 relative errors, of `pow2(-24)`, of a bound on the coordinates.
pub proof fn label_scrolls_with_the_text(
    a: JumpView,
    b: JumpView,
    row: u32,
    by: Measures,
    g: real,
)
    requires
        scrolled(a, b),
        scroll_in_bounds(a, row, by, g),
        scroll_in_bounds(b, row, by, g),
    ensures
        ({
            let x = scrolled_right(a, b);
            let y = scrolled_down(a, b);
            let error = ulp() * g;
            let outline = a.outline(row, by.start_x@, by.end_x@).origin;
            let outline_there = b.outline(row, by.start_x@, by.end_x@).origin;
            let badge = a.badge(row, by.start_x@, by.end_x@, by.width@).origin;
            let badge_there = b.badge(row, by.start_x@, by.end_x@, by.width@).origin;
            let text = a.text_origin(row, by.start_x@, by.end_x@, by.width@);
            let text_there = b.text_origin(row, by.start_x@, by.end_x@, by.width@);
            &&& moved_by(outline, outline_there, x, y, 16 as real * error)
            &&& moved_by(badge, badge_there, x, y, 24 as real * error)
            &&& moved_by(text, text_there, x, y, 40 as real * error)
        }),
{
    lemma_label_near(a, row, by, g);
    lemma_label_near(b, row, by, g);
    let h = number(a.line_height@);
    lemma_mul_sum(h, lines_down(b, row), lines_down(a, row));
    lemma_mul_sum(h, wide_number(a.scroll_row@), wide_number(b.scroll_row@));
    assert(lines_down(b, row) - lines_down(a, row) == wide_number(a.scroll_row@) - wide_number(
        b.scroll_row@,
    ));
}

/// Of two calls that differ in the scroll position alone, the second paints the
/// same labels in the same order, with the same sizes and colours, and moves
/// the outline, the badge and the text of each against the scroll, by its
/// pixels and its lines, up to rounding.
pub proof fn all_labels_scroll_with_the_text<
    X: Fn(usize, usize) -> Single,
    W: Fn(usize) -> Single,
    Y: Fn(usize, usize) -> Single,
    V: Fn(usize) -> Single,
>(
    labels: Seq<JumpLabel>,
    a: JumpView,
    b: JumpView,
    x_for_index: X,
    text_width: W,
    x_there: Y,
    width_there: V,
    p: Seq<LabelPaint>,
    q: Seq<LabelPaint>,
    g: real,
)
    requires
        same_rows(a, b),
        scrolled(a, b),
        measure_alike(x_for_index, text_width, x_there, width_there),
        labels_painted(p, labels, a, x_for_index, text_width),
        labels_painted(q, labels, b, x_there, width_there),
        forall|i: usize, by: Measures|
            i < labels.len() && #[trigger] measured(
                labels[i as int],
                i,
                a,
                x_for_index,
                text_width,
                by,
            ) ==> scroll_in_bounds(a, labels[i as int].position.row, by, g) && scroll_in_bounds(
                b,
                labels[i as int].position.row,
                by,
                g,
            ),
    ensures
        p.len() == q.len(),
        forall|k: int|
            0 <= k < p.len() ==> {
                let x = scrolled_right(a, b);
                let y = scrolled_down(a, b);
                let error = ulp() * g;
                &&& (#[trigger] p[k]).label == q[k].label
                &&& moved_by(
                    p[k].outline@.origin,
                    q[k].outline@.origin,
                    x,
                    y,
                    16 as real * error,
                )
                &&& moved_by(p[k].badge@.origin, q[k].badge@.origin, x, y, 24 as real * error)
                &&& moved_by(p[k].text_origin@, q[k].text_origin@, x, y, 40 as real * error)
                &&& same_look(p[k], q[k])
            },
{
    labels_are_placed_by_their_measures(
        labels,
        a,
        b,
        x_for_index,
        text_width,
        x_there,
        width_there,
        p,
        q,
    );
    let x = scrolled_right(a, b);
    let y = scrolled_down(a, b);
    let error = ulp() * g;
    assert forall|k: int| 0 <= k < p.len() implies {
        &&& (#[trigger] p[k]).label == q[k].label
        &&& moved_by(p[k].outline@.origin, q[k].outline@.origin, x, y, 16 as real * error)
        &&& moved_by(p[k].badge@.origin, q[k].badge@.origin, x, y, 24 as real * error)
        &&& moved_by(p[k].text_origin@, q[k].text_origin@, x, y, 40 as real * error)
        &&& same_look(p[k], q[k])
    } by {
        let i = p[k].label;
        let label = labels[i as int];
        labels_on_screen_are_painted(labels, a);
        let shown = visible_labels(labels, a);
        assert(shown.contains(shown[k]));
        let by = choose|by: Measures|
            #[trigger] measured(label, i, a, x_for_index, text_width, by) && placed_alike(
                p[k],
                q[k],
                label.position.row,
                a,
                b,
                by,
            );
        label_scrolls_with_the_text(a, b, label.position.row, by, g);
    }
}

} // verus!
