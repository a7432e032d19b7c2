//! Which labels are painted, and where.

use vstd::arithmetic::power2::{
    lemma_pow2_adds, lemma_pow2_pos, lemma_pow2_strictly_increases, pow2,
};
use vstd::prelude::*;

use crate::cursor_laws::lemma_ratio_near;
use crate::exponential::lemma_number_within;
use crate::float::Value;
use crate::float_laws::{lemma_power_representable, within};
use crate::geometry::PointValue;
use crate::jump::{
    badge_padding, badge_width, labels_painted, match_width, measured, overlay_opacity, placed,
    visible_labels, JumpLabel, JumpView, LabelPaint, Measures, PaintQuadValue, ThemeColor,
};
use crate::jump_laws::{labels_on_screen_are_painted, match_width_is_distance};
use crate::laws::{lemma_ratio, short_naturals_are_exact};
use crate::numbers::{
    abs, lemma_constants, lemma_no_units, lemma_plus_near, lemma_real_product, lemma_times_near,
    number, ulp, unit,
};
use crate::reals::{
    lemma_mul_nonnegative, lemma_mul_order, lemma_mul_reorder, lemma_mul_sum, lemma_quotient,
};
use crate::rounding_laws::lemma_round_exact;
use crate::scroll_laws::{
    in_pixels, lemma_difference, lemma_label_near, lemma_sum, lines_down, pixels_right,
    scroll_in_bounds, wide_number,
};
use crate::single::Single;
use crate::spring_error::{dust, lemma_dust, lemma_tiny};
use crate::spring_flow::lemma_mul_size;

verus! {

/// A label is painted if and only if its row is on screen, whatever its column,
/// its text and the length of its match; no label is painted twice, and labels
/// are painted in their order.
pub proof fn labels_on_visible_rows_are_painted<
    X: Fn(usize, usize) -> Single,
    W: Fn(usize) -> Single,
>(
    paints: Seq<LabelPaint>,
    labels: Seq<JumpLabel>,
    view: JumpView,
    x_for_index: X,
    text_width: W,
)
    requires
        labels_painted(paints, labels, view, x_for_index, text_width),
    ensures
        forall|i: int|
            0 <= i < labels.len() ==> {
                let row = (#[trigger] labels[i]).position.row;
                (exists|k: int| 0 <= k < paints.len() && (#[trigger] paints[k]).label == i)
                    <==> view.start_row <= row && row < view.end_row
            },
        forall|k: int|
            0 <= k < paints.len() ==> (#[trigger] paints[k]).label < labels.len(),
        forall|a: int, b: int|
            0 <= a < b < paints.len() ==> (#[trigger] paints[a]).label < (
            #[trigger] paints[b]).label,
{
    labels_on_screen_are_painted(labels, view);
    let shown = visible_labels(labels, view);
    assert forall|i: int| 0 <= i < labels.len() implies {
        let row = (#[trigger] labels[i]).position.row;
        (exists|k: int| 0 <= k < paints.len() && (#[trigger] paints[k]).label == i)
            <==> view.start_row <= row && row < view.end_row
    } by {
        let row = labels[i].position.row;
        if view.start_row <= row && row < view.end_row {
            assert(shown.contains(i));
            let k = choose|k: int| 0 <= k < shown.len() && shown[k] == i;
            assert(paints[k].label == i);
        }
        if exists|k: int| 0 <= k < paints.len() && (#[trigger] paints[k]).label == i {
            let k = choose|k: int| 0 <= k < paints.len() && (#[trigger] paints[k]).label == i;
            assert(shown[k] == i);
            assert(shown.contains(i));
        }
    }
    assert forall|k: int| 0 <= k < paints.len() implies (#[trigger] paints[k]).label
        < labels.len() by {
        assert(shown.contains(shown[k]));
    }
}

/// The overlay is faded out by four tenths.
pub proof fn overlay_is_faded_by_four_tenths()
    ensures
        overlay_opacity() is Finite,
        abs(10 as real * number(overlay_opacity()) - 4 as real) <= 17 as real * ulp(),
{
    vstd::arithmetic::power2::lemma2_to64();
    vstd::arithmetic::power2::lemma2_to64_rest();
    lemma_constants();
    lemma_dust();
    lemma_ratio_near(4, 10);
    lemma_mul_reorder(number(overlay_opacity()), 10 as real, 1 as real);
    lemma_mul_reorder(ulp(), 4 as real, 1 as real);
    lemma_mul_reorder(dust(), 10 as real, 1 as real);
}

/// The number is near to `x`.
pub open spec fn near(v: Value, x: real, error: real) -> bool {
    v is Finite && abs(number(v) - x) <= error
}

/// Where the content is scrolled to, across, in pixels.
pub open spec fn content_left(view: JumpView) -> real {
    number(view.content_origin@.x) - wide_number(view.scroll_x@)
}

/// Where the top of a row is, in pixels.
pub open spec fn content_top(view: JumpView, row: u32) -> real {
    number(view.content_origin@.y) + (row as int as real - wide_number(view.scroll_row@)) * number(
        view.line_height@,
    )
}

/// The outline is one pixel thick. It runs a pixel outside the match to the left
/// and right, and a pixel inside the line above and below.
pub open spec fn outline_drawn(
    outline: PaintQuadValue,
    view: JumpView,
    row: u32,
    start_x: Single,
    end_x: Single,
    error: real,
) -> bool {
    let left = content_left(view) + number(start_x@);
    let right = content_left(view) + number(end_x@);
    &&& near(outline.origin.x, left - 1 as real, error)
    &&& near(outline.origin.y, content_top(view, row) + 1 as real, error)
    &&& near(outline.width, right - left + 2 as real, error)
    &&& near(outline.height, number(view.line_height@) - 2 as real, error)
    &&& near(outline.border_width, 1 as real, error)
    &&& near(outline.corner_radius, 2 as real, error)
    &&& outline.background == ThemeColor::Transparent
    &&& outline.border_color == ThemeColor::Text
}

/// The badge is three pixels wider than the text on either side and 65% of a
/// line high, and its middle is the top right corner of the match.
pub open spec fn badge_drawn(
    badge: PaintQuadValue,
    view: JumpView,
    row: u32,
    end_x: Single,
    text_width: Single,
    error: real,
) -> bool {
    let middle_x = number(badge.origin.x) + number(badge.width) / 2 as real;
    let middle_y = number(badge.origin.y) + number(badge.height) / 2 as real;
    &&& near(badge.width, number(text_width@) + 6 as real, error)
    &&& near(badge.height, 65 as real * number(view.line_height@) / 100 as real, error)
    &&& near(badge.border_width, 0 as real, error)
    &&& near(badge.corner_radius, 2 as real, error)
    &&& badge.background == ThemeColor::TextAccent
    &&& badge.border_color == ThemeColor::Transparent
    &&& badge.origin.x is Finite
    &&& badge.origin.y is Finite
    &&& abs(middle_x - (content_left(view) + number(end_x@))) <= error
    &&& abs(middle_y - content_top(view, row)) <= error
}

/// The line of text is in the middle of the badge.
pub open spec fn text_drawn(
    text: PointValue,
    badge: PaintQuadValue,
    view: JumpView,
    error: real,
) -> bool {
    let middle_y = number(badge.origin.y) + number(badge.height) / 2 as real;
    &&& near(text.x, number(badge.origin.x) + 3 as real, error)
    &&& near(text.y, middle_y - number(view.line_height@) / 2 as real, error)
}

/// A label is drawn where its match is.
pub open spec fn drawn_at_its_match(
    paint: LabelPaint,
    view: JumpView,
    row: u32,
    start_x: Single,
    end_x: Single,
    text_width: Single,
    error: real,
) -> bool {
    &&& outline_drawn(paint.outline@, view, row, start_x, end_x, error)
    &&& badge_drawn(paint.badge@, view, row, end_x, text_width, error)
    &&& text_drawn(paint.text_origin@, paint.badge@, view, error)
    &&& paint.text_color == ThemeColor::EditorBackground
}

/// All that a label is placed by is at most `g` pixels, and `g` is no giant
/// number.
pub open spec fn measures_in_bounds(
    view: JumpView,
    row: u32,
    start_x: Single,
    end_x: Single,
    text_width: Single,
    g: real,
) -> bool {
    &&& 1 as real <= g <= pow2(80) as real
    &&& in_pixels(view.content_origin@.x, g)
    &&& in_pixels(view.content_origin@.y, g)
    &&& in_pixels(view.line_height@, g)
    &&& in_pixels(start_x@, g)
    &&& in_pixels(end_x@, g)
    &&& in_pixels(text_width@, g)
    &&& view.scroll_row@ is Finite
    &&& view.scroll_x@ is Finite
    &&& abs(lines_down(view, row)) <= pow2(80) as real
    &&& abs(lines_down(view, row) * number(view.line_height@)) <= g
    &&& abs(pixels_right(view, start_x@)) <= g
}

/// A half is a half.
pub proof fn lemma_half()
    ensures
        Value::ratio(1, 2) == (Value::Finite { negative: false, units: pow2(148) }),
        within(Value::ratio(1, 2), 148),
        number(Value::ratio(1, 2)) == 1 as real / 2 as real,
{
    lemma_ratio(1, 2);
    lemma_pow2_adds(148, 1);
    vstd::arithmetic::power2::lemma2_to64();
    lemma_power_representable(148);
    lemma_round_exact(24, pow2(148), 2);
    assert(pow2(148) * 2 == 1 * pow2(149));
    lemma_pow2_strictly_increases(148, 277);
    lemma_constants();
    let v = unit();
    let x = pow2(148) as real;
    assert(v == 2 as real * x);
    lemma_quotient(x, v);
    let n = x / v;
    assert(n == 1 as real / 2 as real) by (nonlinear_arith)
        requires
            n * v == x,
            v == 2 as real * x,
            v > 0 as real,
    ;
}

/// A small natural number is itself.
pub proof fn lemma_small(n: nat)
    requires
        n <= 4,
    ensures
        within(Value::of(n), 151),
        number(Value::of(n)) == n as real,
{
    vstd::arithmetic::power2::lemma2_to64();
    assert(n * pow2(0) == n);
    short_naturals_are_exact(n, n, 0);
    lemma_constants();
    let v = unit();
    let x = n as real;
    lemma_real_product(n as int, pow2(149) as int);
    lemma_quotient(x * v, v);
    let q = (x * v) / v;
    assert(q == x) by (nonlinear_arith)
        requires
            q * v == x * v,
            v > 0 as real,
    ;
    lemma_pow2_adds(2, 149);
    let unit_nat = pow2(149);
    assert(n * unit_nat <= 4 * unit_nat) by (nonlinear_arith)
        requires
            n <= 4,
    ;
}

/// A number of pixels, times a small factor.
proof fn lemma_part(a: Value, b: Value, y: real, d: real, m: real, g: real)
    requires
        in_pixels(a, m * g),
        within(b, 151),
        abs(number(b) - y) <= d * ulp(),
        0 as real <= y <= 3 as real,
        0 as real <= d <= 10 as real,
        1 as real <= m <= 20 as real,
        1 as real <= g <= pow2(80) as real,
    ensures
        a.times(b) is Finite,
        abs(number(a.times(b)) - number(a) * y) <= (d * m + 4 as real * m) * (ulp() * g),
{
    lemma_constants();
    lemma_dust();
    let u = ulp();
    let ug = u * g;
    let x = number(a);
    let mg = m * g;
    lemma_mul_nonnegative(u, g);
    lemma_mul_order(m, 20 as real, g);
    lemma_mul_order(1 as real, g, u);
    lemma_pow2_adds(80, 5);
    lemma_real_product(pow2(80) as int, pow2(5) as int);
    vstd::arithmetic::power2::lemma2_to64();
    lemma_number_within(a, 85);
    lemma_times_near(a, b, 234, 151);
    let z = number(b);
    lemma_mul_size(x, z - y, mg, d * u);
    lemma_mul_sum(x, z, y);
    lemma_mul_reorder(mg, d, u);
    // mg * (d * u) == (d * m) * ug.
    assert(mg * (d * u) == (d * m) * ug) by {
        lemma_mul_reorder(m, g, u);
        lemma_mul_reorder(g, u, u);
        lemma_mul_reorder(d, m, ug);
        lemma_mul_reorder(mg, u, d);
        lemma_mul_reorder(d, mg, u);
    }
    lemma_mul_order(d, 10 as real, u);
    assert(abs(z) <= 7 as real / 2 as real) by {
        lemma_tiny(1 as real);
        assert(d * u <= 10 as real * u);
    }
    lemma_mul_size(x, z, mg, 7 as real / 2 as real);
    lemma_mul_order(abs(x * z), mg * (7 as real / 2 as real), u);
    lemma_mul_reorder(u, mg, 7 as real / 2 as real);
    lemma_mul_reorder(u, m, g);
    let mug = m * ug;
    assert(u * abs(x * z) <= mug * (7 as real / 2 as real));
    lemma_mul_order(1 as real, m, ug);
    lemma_tiny(dust());
    lemma_mul_sum(ug, d * m, 4 as real * m);
    lemma_mul_reorder(4 as real, m, ug);
    lemma_mul_order(dust(), 1 as real / 10 as real, u);
}

/// The ratio of the height of a badge to that of a line.
proof fn lemma_badge_ratio()
    ensures
        within(Value::ratio(65, 100), 151),
        abs(number(Value::ratio(65, 100)) - 65 as real / 100 as real) <= 3 as real * ulp(),
{
    lemma_constants();
    lemma_dust();
    vstd::arithmetic::power2::lemma2_to64();
    vstd::arithmetic::power2::lemma2_to64_rest();
    lemma_ratio_near(65, 100);
    let r = number(Value::ratio(65, 100));
    lemma_mul_reorder(r, 100 as real, 1 as real);
    lemma_mul_reorder(ulp(), 65 as real, 1 as real);
    lemma_mul_reorder(dust(), 100 as real, 1 as real);
    lemma_tiny(1 as real);
    lemma_number_within(Value::ratio(65, 100), 2);
}

/// The sizes that a label is made of.
proof fn lemma_label_sizes(view: JumpView, row: u32, by: Measures, g: real)
    requires
        measures_in_bounds(view, row, by.start_x, by.end_x, by.width, g),
    ensures
        ({
            let ug = ulp() * g;
            let h = number(view.line_height@);
            let mw = match_width(by.start_x@, by.end_x@);
            let both = Value::of(1).times(Value::of(2));
            let w = badge_width(by.width@);
            let bh = view.badge_height();
            let half = Value::ratio(1, 2);
            &&& near(mw, number(by.end_x@) - number(by.start_x@), 3 as real * ug)
            &&& near(
                mw.plus(both),
                number(by.end_x@) - number(by.start_x@) + 2 as real,
                12 as real * ug,
            )
            &&& near(view.line_height@.minus(both), h - 2 as real, 12 as real * ug)
            &&& near(w, number(by.width@) + 6 as real, 20 as real * ug)
            &&& near(bh, 65 as real * h / 100 as real, 7 as real * ug)
            &&& near(w.times(half), number(w) / 2 as real, 32 as real * ug)
            &&& near(bh.times(half), number(bh) / 2 as real, 4 as real * ug)
            &&& near(view.text_drop(), (number(bh) - h) / 2 as real, 16 as real * ug)
            &&& abs(number(w)) <= 8 as real * g
            &&& abs(number(bh)) <= g
            &&& in_pixels(badge_padding(), 5 as real * g)
        }),
{
    lemma_constants();
    lemma_dust();
    let u = ulp();
    let ug = u * g;
    lemma_mul_nonnegative(u, g);
    lemma_mul_order(1 as real, g, u);
    lemma_tiny(g);
    lemma_tiny(1 as real);
    let none = 0 as real;
    let tenth = 1 as real / 10 as real;
    assert(none * ug == none);
    lemma_pow2_adds(80, 10);
    lemma_real_product(pow2(80) as int, pow2(10) as int);
    lemma_pow2_pos(80);
    vstd::arithmetic::power2::lemma2_to64();
    assert(pow2(80) as real <= pow2(90) as real);
    let half = Value::ratio(1, 2);
    lemma_half();
    lemma_pow2_strictly_increases(148, 151);
    lemma_small(1);
    lemma_small(2);
    lemma_small(3);
    let one = Value::of(1);
    let two = Value::of(2);
    let three = Value::of(3);
    let h = number(view.line_height@);
    let sx = number(by.start_x@);
    let ex = number(by.end_x@);
    let tw = number(by.width@);
    // The match.
    let mw = match_width(by.start_x@, by.end_x@);
    match_width_is_distance(by.start_x, by.end_x);
    lemma_difference(by.end_x@, by.start_x@, ex, sx, none, none, 2 as real, g);
    let c = none + none + 2 as real + tenth;
    lemma_mul_order(c, 3 as real, ug);
    // Twice the inset, twice the padding.
    lemma_part(one, two, 2 as real, none, 1 as real, g);
    let both = one.times(two);
    assert(none * (1 as real) + 4 as real * (1 as real) == 4 as real);
    assert(abs(number(both) - 2 as real) <= 4 as real * ug);
    lemma_part(three, two, 2 as real, none, 3 as real, g);
    let sides = three.times(two);
    assert(none * (3 as real) + 4 as real * (3 as real) == 12 as real);
    assert(number(three) * (2 as real) == 6 as real);
    assert(abs(number(sides) - 6 as real) <= 12 as real * ug);
    // Sizes.
    lemma_sum(mw, both, ex - sx, 2 as real, c, 4 as real, 4 as real, g);
    lemma_mul_order(c + 4 as real + 4 as real + tenth, 12 as real, ug);
    lemma_difference(view.line_height@, both, h, 2 as real, none, 4 as real, 3 as real, g);
    lemma_mul_order(none + 4 as real + 3 as real + tenth, 12 as real, ug);
    lemma_sum(by.width@, sides, tw, 6 as real, none, 12 as real, 7 as real, g);
    let w = badge_width(by.width@);
    lemma_mul_order(none + 12 as real + 7 as real + tenth, 20 as real, ug);
    assert(abs(number(w)) <= 8 as real * g);
    lemma_badge_ratio();
    lemma_part(
        view.line_height@,
        Value::ratio(65, 100),
        65 as real / 100 as real,
        3 as real,
        1 as real,
        g,
    );
    let bh = view.badge_height();
    assert(3 as real * (1 as real) + 4 as real * (1 as real) == 7 as real);
    assert(h * (65 as real / 100 as real) == 65 as real * h / 100 as real);
    assert(abs(number(bh) - 65 as real * h / 100 as real) <= 7 as real * ug);
    assert(abs(number(bh)) <= g);
    // Halves.
    lemma_part(w, half, 1 as real / 2 as real, none, 8 as real, g);
    lemma_part(bh, half, 1 as real / 2 as real, none, 1 as real, g);
    assert(none * (8 as real) + 4 as real * (8 as real) == 32 as real);
    assert(number(w) * (1 as real / 2 as real) == number(w) / 2 as real);
    assert(number(bh) * (1 as real / 2 as real) == number(bh) / 2 as real);
    // The drop of the text.
    let nb = number(bh);
    lemma_difference(bh, view.line_height@, nb, h, none, none, 2 as real, g);
    lemma_mul_order(c, 3 as real, ug);
    let diff = bh.minus(view.line_height@);
    assert(abs(number(diff)) <= 3 as real * g);
    lemma_part(diff, half, 1 as real / 2 as real, none, 3 as real, g);
    assert(number(diff) * (1 as real / 2 as real) == number(diff) / 2 as real);
}

/// The bounds that the places of a label are computed within.
proof fn lemma_bounds(view: JumpView, row: u32, by: Measures, g: real)
    requires
        measures_in_bounds(view, row, by.start_x, by.end_x, by.width, g),
    ensures
        scroll_in_bounds(view, row, by, 5 as real * g),
        ulp() * (5 as real * g) == 5 as real * (ulp() * g),
        5 as real * g <= pow2(90) as real,
{
    lemma_constants();
    lemma_tiny(g);
    lemma_label_sizes(view, row, by, g);
    lemma_pow2_adds(80, 10);
    lemma_real_product(pow2(80) as int, pow2(10) as int);
    vstd::arithmetic::power2::lemma2_to64();
    lemma_pow2_pos(80);
    assert(pow2(90) as real == 1024 as real * pow2(80) as real);
    lemma_mul_reorder(ulp(), 5 as real, g);
}

/// The outline of a label.
proof fn lemma_outline_drawn(view: JumpView, row: u32, by: Measures, g: real)
    requires
        measures_in_bounds(view, row, by.start_x, by.end_x, by.width, g),
    ensures
        outline_drawn(
            view.outline(row, by.start_x@, by.end_x@),
            view,
            row,
            by.start_x,
            by.end_x,
            128 as real * (ulp() * g),
        ),
{
    lemma_constants();
    lemma_mul_nonnegative(ulp(), g);
    lemma_bounds(view, row, by, g);
    lemma_label_sizes(view, row, by, g);
    lemma_label_near(view, row, by, 5 as real * g);
    lemma_small(1);
    lemma_small(2);
}

/// The middle of what starts half its size before a place is that place.
proof fn lemma_middle(b: real, x: real, m: real, half: real, w: real, d: real, q: real)
    requires
        abs(b - (x + (m - half))) <= 60 as real * q,
        abs(half - w / 2 as real) <= 32 as real * q,
        abs(m - d) <= 3 as real * q,
        q >= 0 as real,
    ensures
        abs((b + w / 2 as real) - (x + d)) <= 128 as real * q,
{
}

/// A sum of bounded numbers, nearly.
proof fn lemma_bounded_place(b: real, o: real, x: real, m: real, half: real, q: real, g: real)
    requires
        abs(b - ((o + x) + (m - half))) <= 60 as real * q,
        abs(o) <= g,
        abs(x) <= g,
        abs(m) <= 5 as real * g,
        abs(half) <= 5 as real * g,
        100 as real * q <= g,
    ensures
        abs(b) <= 20 as real * g,
{
}

/// Where the badge of a label starts.
proof fn lemma_badge_origin(view: JumpView, row: u32, by: Measures, g: real)
    requires
        measures_in_bounds(view, row, by.start_x, by.end_x, by.width, g),
    ensures
        ({
            let half = Value::ratio(1, 2);
            let x = number(view.content_origin@.x) + pixels_right(view, by.start_x@);
            let y = number(view.content_origin@.y) + lines_down(view, row) * number(
                view.line_height@,
            );
            let left = number(match_width(by.start_x@, by.end_x@)) - number(
                badge_width(by.width@).times(half),
            );
            let up = number(view.badge_height().times(half));
            let badge = view.badge(row, by.start_x@, by.end_x@, by.width@).origin;
            &&& near(badge.x, x + left, 60 as real * (ulp() * g))
            &&& near(badge.y, y - up, 60 as real * (ulp() * g))
        }),
{
    lemma_bounds(view, row, by, g);
    lemma_label_near(view, row, by, 5 as real * g);
}

/// The badge of a label.
proof fn lemma_badge_drawn(view: JumpView, row: u32, by: Measures, g: real)
    requires
        measures_in_bounds(view, row, by.start_x, by.end_x, by.width, g),
    ensures
        badge_drawn(
            view.badge(row, by.start_x@, by.end_x@, by.width@),
            view,
            row,
            by.end_x,
            by.width,
            128 as real * (ulp() * g),
        ),
        abs(number(view.badge(row, by.start_x@, by.end_x@, by.width@).origin.x)) <= 20 as real * g,
        abs(number(view.badge(row, by.start_x@, by.end_x@, by.width@).origin.y)) <= 20 as real * g,
{
    let half = Value::ratio(1, 2);
    let q = ulp() * g;
    let badge = view.badge(row, by.start_x@, by.end_x@, by.width@);
    let ox = number(view.content_origin@.x);
    let oy = number(view.content_origin@.y);
    let x = pixels_right(view, by.start_x@);
    let y = lines_down(view, row) * number(view.line_height@);
    let m = number(match_width(by.start_x@, by.end_x@));
    let hw = number(badge_width(by.width@).times(half));
    let up = number(view.badge_height().times(half));
    let d = number(by.end_x@) - number(by.start_x@);
    lemma_constants();
    lemma_mul_nonnegative(ulp(), g);
    lemma_tiny(g);
    lemma_badge_origin(view, row, by, g);
    lemma_label_sizes(view, row, by, g);
    lemma_middle(number(badge.origin.x), ox + x, m, hw, number(badge.width), d, q);
    lemma_middle(
        number(badge.origin.y),
        oy + y,
        0 as real,
        up,
        number(badge.height),
        0 as real,
        q,
    );
    lemma_bounded_place(number(badge.origin.x), ox, x, m, hw, q, g);
    lemma_bounded_place(number(badge.origin.y), oy, y, 0 as real, up, q, g);
    lemma_small(2);
    lemma_no_units(Value::zero());
    assert((ox + x) + d == content_left(view) + number(by.end_x@));
}

/// The text of a label.
proof fn lemma_text_drawn(view: JumpView, row: u32, by: Measures, g: real)
    requires
        measures_in_bounds(view, row, by.start_x, by.end_x, by.width, g),
    ensures
        text_drawn(
            view.text_origin(row, by.start_x@, by.end_x@, by.width@),
            view.badge(row, by.start_x@, by.end_x@, by.width@),
            view,
            128 as real * (ulp() * g),
        ),
{
    let u = ulp();
    let ug = u * g;
    lemma_constants();
    lemma_mul_nonnegative(u, g);
    lemma_tiny(g);
    lemma_label_sizes(view, row, by, g);
    lemma_badge_drawn(view, row, by, g);
    let badge = view.badge(row, by.start_x@, by.end_x@, by.width@).origin;
    let drop = view.text_drop();
    lemma_pow2_adds(80, 10);
    lemma_real_product(pow2(80) as int, pow2(10) as int);
    vstd::arithmetic::power2::lemma2_to64();
    lemma_pow2_pos(80);
    assert(pow2(90) as real == 1024 as real * pow2(80) as real);
    lemma_small(3);
    lemma_number_within(badge.x, 90);
    lemma_number_within(badge.y, 90);
    lemma_number_within(drop, 90);
    lemma_pow2_strictly_increases(239, 275);
    lemma_pow2_strictly_increases(151, 275);
    lemma_plus_near(badge.x, badge_padding());
    lemma_plus_near(badge.y, drop);
    lemma_mul_order(abs(number(badge.x) + 3 as real), 24 as real * g, u);
    lemma_mul_reorder(u, 24 as real, g);
    lemma_mul_order(abs(number(badge.y) + number(drop)), 24 as real * g, u);
}

/// A label is drawn where its match is, to within 128 relative errors, of
/// `pow2(-24)`, of a bound on the coordinates.
pub proof fn label_is_drawn_at_its_match(
    paint: LabelPaint,
    view: JumpView,
    row: u32,
    by: Measures,
    g: real,
)
    requires
        placed(paint, row, view, by),
        measures_in_bounds(view, row, by.start_x, by.end_x, by.width, g),
    ensures
        drawn_at_its_match(
            paint,
            view,
            row,
            by.start_x,
            by.end_x,
            by.width,
            128 as real * (ulp() * g),
        ),
{
    lemma_outline_drawn(view, row, by, g);
    lemma_badge_drawn(view, row, by, g);
    lemma_text_drawn(view, row, by, g);
}

/// Every label that is painted was measured in its own line, from the column
/// where its match starts to the one where it ends, and is drawn there.
pub proof fn labels_are_drawn_at_their_matches<
    X: Fn(usize, usize) -> Single,
    W: Fn(usize) -> Single,
>(
    paints: Seq<LabelPaint>,
    labels: Seq<JumpLabel>,
    view: JumpView,
    x_for_index: X,
    text_width: W,
    g: real,
    k: int,
)
    requires
        labels_painted(paints, labels, view, x_for_index, text_width),
        0 <= k < paints.len(),
    ensures
        ({
            let i = paints[k].label;
            let label = labels[i as int];
            let line = (label.position.row - view.start_row) as usize;
            let start = label.position.column as usize;
            let end = (label.position.column + label.match_length) as usize;
            exists|start_x: Single, end_x: Single, width: Single|
                {
                    &&& #[trigger] call_ensures(x_for_index, (line, start), start_x)
                    &&& #[trigger] call_ensures(x_for_index, (line, end), end_x)
                    &&& #[trigger] call_ensures(text_width, (i,), width)
                    &&& measures_in_bounds(
                        view,
                        label.position.row,
                        start_x,
                        end_x,
                        width,
                        g,
                    ) ==> drawn_at_its_match(
                        paints[k],
                        view,
                        label.position.row,
                        start_x,
                        end_x,
                        width,
                        128 as real * (ulp() * g),
                    )
                }
        }),
{
    let i = paints[k].label;
    let shown = visible_labels(labels, view);
    assert(i == shown[k]);
    let label = labels[i as int];
    let by = choose|by: Measures|
        #[trigger] measured(label, i, view, x_for_index, text_width, by) && placed(
            paints[k],
            label.position.row,
            view,
            by,
        );
    assert(measured(label, i, view, x_for_index, text_width, by));
    if measures_in_bounds(view, label.position.row, by.start_x, by.end_x, by.width, g) {
        label_is_drawn_at_its_match(paints[k], view, label.position.row, by, g);
    }
    let line = (label.position.row - view.start_row) as usize;
    let start = label.position.column as usize;
    let end = (label.position.column + label.match_length) as usize;
    assert(call_ensures(x_for_index, (line, start), by.start_x));
    assert(call_ensures(x_for_index, (line, end), by.end_x));
    assert(call_ensures(text_width, (i,), by.width));
}

} // verus!
