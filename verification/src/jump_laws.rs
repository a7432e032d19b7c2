//! What holds of jump labels.

use vstd::arithmetic::power2::{
    lemma_pow2_adds, lemma_pow2_pos, lemma_pow2_strictly_increases, pow2,
};
use vstd::prelude::*;

use crate::float::{at_most, convert, less, minus, natural, opposite, signed, times, Format, Value};
use crate::float_laws::{
    lemma_convert_order, lemma_convert_rounds, lemma_plus_error, lemma_plus_order,
    lemma_plus_rounds, lemma_plus_within, lemma_times_order, lemma_times_rounds, lemma_times_within,
    rounded, size, units, within,
};
use crate::geometry::PointValue;
use crate::jump::{
    badge_padding, badge_width, labels_painted, match_width, measured, on_screen, placed,
    visible_labels, JumpLabel, JumpView, LabelPaint, Measures, PaintQuadValue,
};
use crate::laws::{
    fits, lemma_minus_of_format, lemma_one, lemma_ratio, lemma_ratio_below, lemma_single_of_format,
    of_format, short_naturals_are_exact,
};
use crate::rounding::lemma_round_nothing;
use crate::rounding_laws::{lemma_round_exact, representable, scaled};
use crate::single::Single;

verus! {

/// The labels that are painted are those on screen, each once and in order.
pub proof fn labels_on_screen_are_painted(labels: Seq<JumpLabel>, view: JumpView)
    ensures
        ({
            let shown = visible_labels(labels, view);
            &&& forall|i: int|
                #![trigger shown.contains(i)]
                shown.contains(i) <==> 0 <= i < labels.len() && on_screen(labels[i], view)
            &&& forall|a: int, b: int| 0 <= a < b < shown.len() ==> shown[a] < shown[b]
        }),
    decreases labels.len(),
{
    let shown = visible_labels(labels, view);
    if labels.len() > 0 {
        let front = labels.drop_last();
        let rest = visible_labels(front, view);
        let last = labels.len() - 1;
        labels_on_screen_are_painted(front, view);
        assert forall|a: int| 0 <= a < rest.len() implies (#[trigger] rest[a]) < last by {
            assert(rest.contains(rest[a]));
        }
        assert forall|i: int|
            #![trigger shown.contains(i)]
            shown.contains(i) <==> 0 <= i < labels.len() && on_screen(labels[i], view) by {
            if on_screen(labels.last(), view) {
                assert(shown == rest.push(last));
                if i == last {
                    assert(shown[rest.len() as int] == last);
                } else {
                    if rest.contains(i) {
                        let a = choose|a: int| 0 <= a < rest.len() && rest[a] == i;
                        assert(shown[a] == i);
                    }
                    if shown.contains(i) {
                        let a = choose|a: int| 0 <= a < shown.len() && shown[a] == i;
                        assert(rest[a] == i);
                    }
                    if 0 <= i < last {
                        assert(front[i] == labels[i]);
                    }
                }
            } else {
                assert(shown == rest);
                if 0 <= i < last {
                    assert(front[i] == labels[i]);
                }
            }
        }
    }
}

/// Widening a number loses nothing: narrowed again, it is the same.
pub proof fn widening_loses_nothing(v: Value)
    requires
        of_format(Format::Single, v),
    ensures
        convert(
            Format::Double,
            Format::Single,
            convert(Format::Single, Format::Double, v),
        ) == v,
{
    if let Value::Finite { negative, units } = v {
        let (n, k) = choose|n: nat, k: nat| n <= pow2(24) && units == #[trigger] scaled(n, k);
        let lift = pow2(925);
        let single = pow2(149);
        let double = pow2(1074);
        lemma_pow2_adds(925, 149);
        lemma_pow2_pos(149);
        lemma_pow2_pos(1074);
        let wide = units * lift;
        lemma_pow2_adds(k, 925);
        let p = pow2(k);
        assert(wide == n * (p * lift)) by (nonlinear_arith)
            requires
                wide == units * lift,
                units == n * p,
        ;
        assert(wide == scaled(n, k + 925));
        lemma_pow2_strictly_increases(24, 53);
        assert(representable(53, wide));
        assert(wide * single == units * double) by (nonlinear_arith)
            requires
                wide == units * lift,
                double == lift * single,
        ;
        lemma_round_exact(53, wide, single);
        let limit = pow2(277);
        lemma_pow2_adds(277, 925);
        lemma_pow2_strictly_increases(1202, 2098);
        lemma_pow2_pos(925);
        assert(wide < limit * lift) by (nonlinear_arith)
            requires
                wide == units * lift,
                units < limit,
                lift > 0,
        ;
        lemma_round_exact(24, units, double);
    }
}

/// The width of a match on screen is the distance of its ends.
pub proof fn match_width_is_distance(start_x: Single, end_x: Single)
    ensures
        match_width(start_x@, end_x@) == end_x@.minus(start_x@),
{
    lemma_single_of_format(start_x);
    lemma_single_of_format(end_x);
    lemma_minus_of_format(end_x@, start_x@);
    widening_loses_nothing(end_x@.minus(start_x@));
}

/// The views differ in the content origin alone.
pub open spec fn moved_view(a: JumpView, b: JumpView) -> bool {
    &&& b.line_height@ == a.line_height@
    &&& b.scroll_row@ == a.scroll_row@
    &&& b.scroll_x@ == a.scroll_x@
}

/// `q` is off from `p` by the same distance as `to` from `from`, but for a
/// rounding error.
pub open spec fn moved_alike(
    p: PointValue,
    q: PointValue,
    from: PointValue,
    to: PointValue,
    error: nat,
) -> bool {
    &&& size((units(q.x) - units(p.x)) - (units(to.x) - units(from.x))) <= error
    &&& size((units(q.y) - units(p.y)) - (units(to.y) - units(from.y))) <= error
}

/// Both coordinates are finite and of bounded size.
pub open spec fn point_within(p: PointValue, e: nat) -> bool {
    within(p.x, e) && within(p.y, e)
}

/// Two points, shifted alike, stay as far apart as they were.
proof fn lemma_shifted_alike(from: PointValue, to: PointValue, x: Value, y: Value, e: nat)
    requires
        point_within(from, e),
        point_within(to, e),
        within(x, e),
        within(y, e),
        23 <= e < 276,
    ensures
        point_within(from.shifted(x, y), e + 1),
        point_within(to.shifted(x, y), e + 1),
        moved_alike(from.shifted(x, y), to.shifted(x, y), from, to, pow2((e - 22) as nat)),
{
    lemma_plus_error(from.x, x, e);
    lemma_plus_error(from.y, y, e);
    lemma_plus_error(to.x, x, e);
    lemma_plus_error(to.y, y, e);
}

/// Labels move with the content origin: the outline, the badge and the text of
/// a label all move as far as the content origin does, up to rounding, and
/// keep their sizes. `e` bounds the coordinates: they are at most `pow2(e)`
/// units of `pow2(-149)`.
pub proof fn labels_move_with_the_content_origin(
    a: JumpView,
    b: JumpView,
    row: u32,
    start_x: Value,
    end_x: Value,
    text_width: Value,
    e: nat,
)
    requires
        moved_view(a, b),
        point_within(a.content_origin@, e),
        point_within(b.content_origin@, e),
        point_within(a.outline_offset(row, start_x), e),
        point_within(a.badge_offset(row, start_x, end_x, text_width), e),
        within(badge_padding(), e),
        within(a.text_drop(), e),
        23 <= e < 275,
    ensures
        ({
            let from = a.content_origin@;
            let to = b.content_origin@;
            let outline = a.outline(row, start_x, end_x);
            let badge = a.badge(row, start_x, end_x, text_width);
            let outline_there = b.outline(row, start_x, end_x);
            let badge_there = b.badge(row, start_x, end_x, text_width);
            let text = a.text_origin(row, start_x, end_x, text_width);
            let text_there = b.text_origin(row, start_x, end_x, text_width);
            let error = pow2((e - 22) as nat);
            &&& moved_alike(outline.origin, outline_there.origin, from, to, error)
            &&& moved_alike(badge.origin, badge_there.origin, from, to, error)
            &&& moved_alike(text, text_there, from, to, 3 * error)
            &&& outline_there.width == outline.width
            &&& outline_there.height == outline.height
            &&& badge_there.width == badge.width
            &&& badge_there.height == badge.height
        }),
{
    let from = a.content_origin@;
    let to = b.content_origin@;
    let by = a.outline_offset(row, start_x);
    let badge_by = a.badge_offset(row, start_x, end_x, text_width);
    assert(b.outline_offset(row, start_x) == by);
    assert(b.badge_offset(row, start_x, end_x, text_width) == badge_by);
    lemma_shifted_alike(from, to, by.x, by.y, e);
    lemma_shifted_alike(from, to, badge_by.x, badge_by.y, e);
    lemma_pow2_strictly_increases(e, e + 1);
    vstd::arithmetic::power2::lemma_pow2_unfold((e - 21) as nat);
    lemma_shifted_alike(
        from.shifted(badge_by.x, badge_by.y),
        to.shifted(badge_by.x, badge_by.y),
        badge_padding(),
        a.text_drop(),
        e + 1,
    );
}

/// Two scroll positions of one view; the second is further down and to the
/// right, or at the same place.
pub open spec fn scrolled_view(a: JumpView, b: JumpView) -> bool {
    &&& b.line_height@ == a.line_height@
    &&& b.content_origin@ == a.content_origin@
    &&& at_most(a.scroll_row@, b.scroll_row@)
    &&& at_most(a.scroll_x@, b.scroll_x@)
}

/// A positive number is positive in the wider format.
proof fn lemma_widening_keeps_sign(v: Value)
    requires
        of_format(Format::Single, v),
        less(Value::zero(), v),
        v is Finite,
    ensures
        convert(Format::Single, Format::Double, v) is Finite,
        less(Value::zero(), convert(Format::Single, Format::Double, v)),
{
    widening_loses_nothing(v);
    let wide = convert(Format::Single, Format::Double, v);
    if wide.is_zero() {
        lemma_convert_rounds(Format::Double, Format::Single, wide);
        lemma_pow2_pos(1074);
        lemma_pow2_pos(149);
        lemma_pow2_pos(277);
        let z = wide->Finite_units;
        assert(z * pow2(149) == 0) by (nonlinear_arith)
            requires
                z == 0,
        ;
        lemma_round_nothing(24, pow2(1074));
    }
}

/// The measures of a badge are finite, where those of the line and the text are
/// no giant numbers.
proof fn lemma_badge_measures(view: JumpView, start_x: Single, end_x: Single, text_width: Single)
    requires
        within(view.line_height@, 240),
        within(start_x@, 240),
        within(end_x@, 240),
        within(text_width@, 240),
    ensures
        match_width(start_x@, end_x@) is Finite,
        badge_width(text_width@).times(Value::ratio(1, 2)) is Finite,
        view.badge_height().times(Value::ratio(1, 2)) is Finite,
        view.text_drop() is Finite,
{
    let half = Value::ratio(1, 2);
    lemma_ratio_below(1, 2, 1, 149);
    lemma_ratio_below(65, 100, 1, 149);
    assert(1 * pow2(149) == pow2(149));
    lemma_ratio(1, 2);
    lemma_ratio(65, 100);
    match_width_is_distance(start_x, end_x);
    lemma_plus_within(end_x@, start_x@, 240);
    vstd::arithmetic::power2::lemma2_to64();
    assert(3 * pow2(0) == 3 && 2 * pow2(0) == 2);
    short_naturals_are_exact(3, 3, 0);
    short_naturals_are_exact(2, 2, 0);
    lemma_pow2_adds(2, 149);
    lemma_pow2_adds(1, 149);
    lemma_pow2_pos(149);
    lemma_times_within(badge_padding(), Value::of(2), 151, 150);
    lemma_pow2_strictly_increases(152, 240);
    lemma_plus_within(text_width@, badge_padding().times(Value::of(2)), 240);
    lemma_times_within(badge_width(text_width@), half, 241, 149);
    lemma_times_within(view.line_height@, Value::ratio(65, 100), 240, 149);
    lemma_times_within(view.badge_height(), half, 240, 149);
    lemma_plus_within(view.badge_height(), view.line_height@, 240);
    lemma_times_within(view.badge_height().minus(view.line_height@), half, 241, 149);
}

/// Labels never move with the scroll position: scrolled down or to the right,
/// the outline, the badge and the text of a label move up or to the left, or
/// stay, and keep their sizes. Measures are at most `pow2(91)` pixels.
pub proof fn labels_move_against_the_scroll_position(
    a: JumpView,
    b: JumpView,
    row: u32,
    start_x: Single,
    end_x: Single,
    text_width: Single,
)
    requires
        scrolled_view(a, b),
        less(Value::zero(), a.line_height@),
        within(a.line_height@, 240),
        point_within(a.content_origin@, 240),
        within(start_x@, 240),
        within(end_x@, 240),
        within(text_width@, 240),
    ensures
        ({
            let outline = a.outline(row, start_x@, end_x@);
            let badge = a.badge(row, start_x@, end_x@, text_width@);
            let text = a.text_origin(row, start_x@, end_x@, text_width@);
            let outline_there = b.outline(row, start_x@, end_x@);
            let badge_there = b.badge(row, start_x@, end_x@, text_width@);
            let text_there = b.text_origin(row, start_x@, end_x@, text_width@);
            &&& at_most(outline_there.origin.x, outline.origin.x)
            &&& at_most(outline_there.origin.y, outline.origin.y)
            &&& at_most(badge_there.origin.x, badge.origin.x)
            &&& at_most(badge_there.origin.y, badge.origin.y)
            &&& at_most(text_there.x, text.x)
            &&& at_most(text_there.y, text.y)
            &&& outline_there.width == outline.width
            &&& outline_there.height == outline.height
            &&& badge_there.width == badge.width
            &&& badge_there.height == badge.height
        }),
{
    lemma_badge_measures(a, start_x, end_x, text_width);
    lemma_single_of_format(start_x);
    lemma_widened(start_x@);
    reveal(Value::plus);
    reveal(Value::minus);
    let single = Format::Single;
    let double = Format::Double;
    let half = Value::ratio(1, 2);
    let one = Value::of(1);
    let origin = a.content_origin@;
    lemma_one();
    lemma_padding();
    // Left ends.
    let wide = convert(single, double, start_x@);
    lemma_plus_order(double, wide, opposite(b.scroll_x@), wide, opposite(a.scroll_x@));
    lemma_convert_order(
        double,
        single,
        minus(double, wide, b.scroll_x@),
        minus(double, wide, a.scroll_x@),
    );
    let x = a.screen_x(start_x@);
    let x_there = b.screen_x(start_x@);
    let inset = opposite(one);
    lemma_plus_order(single, inset, x_there, inset, x);
    lemma_plus_order(single, origin.x, x_there.minus(one), origin.x, x.minus(one));
    let width = match_width(start_x@, end_x@);
    lemma_plus_order(single, width, x_there, width, x);
    let back = opposite(badge_width(text_width@).times(half));
    lemma_plus_order(single, back, x_there.plus(width), back, x.plus(width));
    let badge_by = a.badge_offset(row, start_x@, end_x@, text_width@);
    let badge_by_there = b.badge_offset(row, start_x@, end_x@, text_width@);
    lemma_plus_order(single, origin.x, badge_by_there.x, origin.x, badge_by.x);
    let padding = badge_padding();
    lemma_plus_order(
        single,
        padding,
        origin.x.plus(badge_by_there.x),
        padding,
        origin.x.plus(badge_by.x),
    );
    // Tops.
    let line = natural(double, row as nat);
    lemma_row_is_finite(row);
    lemma_plus_order(double, line, opposite(b.scroll_row@), line, opposite(a.scroll_row@));
    lemma_single_of_format(a.line_height);
    lemma_widening_keeps_sign(a.line_height@);
    let height = convert(single, double, a.line_height@);
    let rows = minus(double, line, a.scroll_row@);
    let rows_there = minus(double, line, b.scroll_row@);
    lemma_times_order(double, rows_there, rows, height);
    lemma_convert_order(
        double,
        single,
        times(double, rows_there, height),
        times(double, rows, height),
    );
    let y = a.row_top(row);
    let y_there = b.row_top(row);
    lemma_plus_order(single, one, y_there, one, y);
    lemma_plus_order(single, origin.y, y_there.plus(one), origin.y, y.plus(one));
    let up = opposite(a.badge_height().times(half));
    lemma_plus_order(single, up, y_there, up, y);
    lemma_plus_order(single, origin.y, badge_by_there.y, origin.y, badge_by.y);
    lemma_plus_order(
        single,
        a.text_drop(),
        origin.y.plus(badge_by_there.y),
        a.text_drop(),
        origin.y.plus(badge_by.y),
    );
}

/// The padding is a finite number.
proof fn lemma_padding()
    ensures
        badge_padding() is Finite,
{
    vstd::arithmetic::power2::lemma2_to64();
    assert(3 * pow2(0) == 3);
    short_naturals_are_exact(3, 3, 0);
}

/// A row is exact in double precision.
pub proof fn lemma_row_is_finite(row: u32)
    ensures
        natural(Format::Double, row as nat) == (Value::Finite {
            negative: false,
            units: row as nat * pow2(1074),
        }),
{
    let n = row as nat;
    let unit = pow2(1074);
    vstd::arithmetic::power2::lemma2_to64();
    vstd::arithmetic::power2::lemma2_to64_rest();
    lemma_pow2_pos(1074);
    assert(n <= pow2(53));
    assert(scaled(n, 1074) == n * unit);
    lemma_round_exact(53, n * unit, 1);
    assert(n * unit * 1 == n * unit);
    lemma_pow2_adds(32, 1074);
    lemma_pow2_strictly_increases(1106, 2098);
    assert(n * unit < pow2(32) * unit) by (nonlinear_arith)
        requires
            n < pow2(32),
            unit > 0,
    ;
}

/// An integer number of units that the double-precision format holds.
pub open spec fn fits_double(units: int) -> bool {
    representable(53, size(units)) && size(units) < Format::Double.limit()
}

/// What fits is not rounded.
proof fn lemma_rounded_fitting(f: Format, units_there: int, den: nat)
    requires
        den > 0,
        representable(f.precision(), size(units_there)),
        size(units_there) < f.limit(),
    ensures
        units(rounded(f, units_there * den, den)) == units_there,
        rounded(f, units_there * den, den) is Finite,
{
    let n = size(units_there);
    assert(size(units_there * den) == n * den) by (nonlinear_arith)
        requires
            n == size(units_there),
            den > 0,
    ;
    assert((units_there * den < 0) == (units_there < 0)) by (nonlinear_arith)
        requires
            den > 0,
    ;
    lemma_round_exact(f.precision(), n, den);
}

/// Where nothing is rounded, the top of a row is as many line heights below the
/// top of the screen as the row is below the scroll position. So a scroll moves
/// the row up by its own length. The scroll position is counted in units of
/// `pow2(-1074)`, the line height and the top of the row in such of
/// `pow2(-149)`.
pub proof fn rows_scroll_by_lines(view: JumpView, row: u32, top: int)
    requires
        view.scroll_row@ is Finite,
        view.line_height@ is Finite,
        ({
            let rows = row * pow2(1074) - units(view.scroll_row@);
            &&& fits_double(rows)
            &&& fits_double(top * pow2(925))
            &&& fits(top)
            &&& top * pow2(1074) == rows * units(view.line_height@)
        }),
    ensures
        view.row_top(row) is Finite,
        units(view.row_top(row)) == top,
{
    let double = Format::Double;
    let single = Format::Single;
    let line = natural(double, row as nat);
    let rows = row * pow2(1074) - units(view.scroll_row@);
    let height = view.line_height@;
    let lift = pow2(925);
    lemma_row_is_finite(row);
    lemma_plus_rounds(double, line, opposite(view.scroll_row@));
    lemma_rounded_fitting(double, rows, 1);
    let difference = minus(double, line, view.scroll_row@);
    assert(units(difference) == rows);
    lemma_single_of_format(view.line_height);
    lemma_widened(height);
    let wide = convert(single, double, height);
    lemma_times_rounds(double, difference, wide);
    lemma_pow2_adds(925, 149);
    lemma_pow2_pos(925);
    lemma_pow2_pos(149);
    lemma_pow2_pos(1074);
    let h = units(height);
    let unit = pow2(1074);
    assert(rows * (h * lift) == (top * lift) * unit) by (nonlinear_arith)
        requires
            top * unit == rows * h,
    ;
    lemma_rounded_fitting(double, top * lift, unit);
    let product = times(double, difference, wide);
    assert(units(product) == top * lift);
    lemma_convert_rounds(double, single, product);
    let small = pow2(149);
    assert((top * lift) * small == top * unit) by (nonlinear_arith)
        requires
            unit == lift * small,
    ;
    lemma_rounded_fitting(single, top, unit);
}

/// Where nothing is rounded, a position in a line is off from its place on
/// screen by the scroll position.
pub proof fn lines_scroll_sideways(view: JumpView, x: Single, left: int)
    requires
        view.scroll_x@ is Finite,
        x@ is Finite,
        fits(left),
        fits_double(left * pow2(925)),
        left * pow2(925) == units(x@) * pow2(925) - units(view.scroll_x@),
    ensures
        view.screen_x(x@) is Finite,
        units(view.screen_x(x@)) == left,
{
    let double = Format::Double;
    let single = Format::Single;
    let lift = pow2(925);
    let unit = pow2(1074);
    let small = pow2(149);
    lemma_pow2_adds(925, 149);
    lemma_pow2_pos(1074);
    lemma_single_of_format(x);
    lemma_widened(x@);
    let wide = convert(single, double, x@);
    lemma_plus_rounds(double, wide, opposite(view.scroll_x@));
    lemma_rounded_fitting(double, left * lift, 1);
    let difference = minus(double, wide, view.scroll_x@);
    assert(units(difference) == left * lift);
    lemma_convert_rounds(double, single, difference);
    assert((left * lift) * small == left * unit) by (nonlinear_arith)
        requires
            unit == lift * small,
    ;
    lemma_rounded_fitting(single, left, unit);
}

/// A widened number has the same value, in smaller units.
pub proof fn lemma_widened(v: Value)
    requires
        of_format(Format::Single, v),
        v is Finite,
    ensures
        convert(Format::Single, Format::Double, v) is Finite,
        units(convert(Format::Single, Format::Double, v)) == units(v) * pow2(925),
{
    let n = v->Finite_units;
    let lift = pow2(925);
    let small = pow2(149);
    let wide = n * lift;
    let (m, k) = choose|m: nat, k: nat| m <= pow2(24) && n == #[trigger] scaled(m, k);
    lemma_pow2_adds(925, 149);
    lemma_pow2_pos(149);
    lemma_pow2_pos(925);
    lemma_pow2_adds(k, 925);
    let p = pow2(k);
    assert(wide == m * (p * lift)) by (nonlinear_arith)
        requires
            wide == n * lift,
            n == m * p,
    ;
    assert(wide == scaled(m, k + 925));
    lemma_pow2_strictly_increases(24, 53);
    assert(representable(53, wide));
    assert(wide * small == n * pow2(1074)) by (nonlinear_arith)
        requires
            wide == n * lift,
            pow2(1074) == lift * small,
    ;
    lemma_round_exact(53, wide, small);
    let limit = pow2(277);
    lemma_pow2_adds(277, 925);
    lemma_pow2_strictly_increases(1202, 2098);
    assert(wide < limit * lift) by (nonlinear_arith)
        requires
            wide == n * lift,
            n < limit,
            lift > 0,
    ;
    assert(signed(v->Finite_negative, n) * lift == signed(
        v->Finite_negative,
        n * lift,
    )) by (nonlinear_arith);
}

/// Two ways of measuring give the same measures.
pub open spec fn measure_alike<
    X: Fn(usize, usize) -> Single,
    W: Fn(usize) -> Single,
    Y: Fn(usize, usize) -> Single,
    V: Fn(usize) -> Single,
>(x_for_index: X, text_width: W, x_there: Y, width_there: V) -> bool {
    &&& forall|line: usize, index: usize, a: Single, b: Single|
        #[trigger] call_ensures(x_for_index, (line, index), a) && #[trigger] call_ensures(
            x_there,
            (line, index),
            b,
        ) ==> a@ == b@
    &&& forall|label: usize, a: Single, b: Single|
        #[trigger] call_ensures(text_width, (label,), a) && #[trigger] call_ensures(
            width_there,
            (label,),
            b,
        ) ==> a@ == b@
}

/// The same rows are on screen.
pub open spec fn same_rows(a: JumpView, b: JumpView) -> bool {
    a.start_row == b.start_row && a.end_row == b.end_row
}

/// Views of the same rows show the same labels.
proof fn lemma_same_labels(labels: Seq<JumpLabel>, a: JumpView, b: JumpView)
    requires
        same_rows(a, b),
    ensures
        visible_labels(labels, a) == visible_labels(labels, b),
    decreases labels.len(),
{
    if labels.len() > 0 {
        lemma_same_labels(labels.drop_last(), a, b);
    }
}

/// One label, painted twice, by the same measures.
pub open spec fn placed_alike(
    p: LabelPaint,
    q: LabelPaint,
    row: u32,
    a: JumpView,
    b: JumpView,
    by: Measures,
) -> bool {
    placed(p, row, a, by) && placed(q, row, b, by)
}

/// Two calls on the same labels and rows, with the same measures, paint the
/// same labels in the same order, each by the same measures.
pub proof fn labels_are_placed_by_their_measures<
    X: Fn(usize, usize) -> Single,
    W: Fn(usize) -> Single,
    Y: Fn(usize, usize) -> Single,
    V: Fn(usize) -> Single,
>(
    labels: Seq<JumpLabel>,
    a: JumpView,
    b: JumpView,
    x_for_index: X,
    text_width: W,
    x_there: Y,
    width_there: V,
    p: Seq<LabelPaint>,
    q: Seq<LabelPaint>,
)
    requires
        same_rows(a, b),
        measure_alike(x_for_index, text_width, x_there, width_there),
        labels_painted(p, labels, a, x_for_index, text_width),
        labels_painted(q, labels, b, x_there, width_there),
    ensures
        p.len() == q.len(),
        forall|k: int|
            0 <= k < p.len() ==> {
                let label = labels[(#[trigger] p[k]).label as int];
                &&& p[k].label == q[k].label
                &&& exists|by: Measures|
                    #[trigger] measured(label, p[k].label, a, x_for_index, text_width, by)
                        && placed_alike(p[k], q[k], label.position.row, a, b, by)
            },
{
    lemma_same_labels(labels, a, b);
    let shown = visible_labels(labels, a);
    assert forall|k: int| 0 <= k < p.len() implies {
        let label = labels[(#[trigger] p[k]).label as int];
        &&& p[k].label == q[k].label
        &&& exists|by: Measures|
            #[trigger] measured(label, p[k].label, a, x_for_index, text_width, by)
                && placed_alike(p[k], q[k], label.position.row, a, b, by)
    } by {
        let label = labels[shown[k]];
        assert(p[k].label == shown[k] && q[k].label == shown[k]);
        let by = choose|by: Measures|
            #[trigger] measured(label, p[k].label, a, x_for_index, text_width, by) && placed(
                p[k],
                label.position.row,
                a,
                by,
            );
        let there = choose|by: Measures|
            #[trigger] measured(label, q[k].label, b, x_there, width_there, by) && placed(
                q[k],
                label.position.row,
                b,
                by,
            );
        assert(by.start_x@ == there.start_x@);
        assert(by.end_x@ == there.end_x@);
        assert(by.width@ == there.width@);
        assert(placed_alike(p[k], q[k], label.position.row, a, b, by));
    }
}

/// Painting changes nothing that it depends on: two calls on the same labels
/// and view, with the same measures, paint the same.
pub proof fn painting_twice_paints_the_same<
    X: Fn(usize, usize) -> Single,
    W: Fn(usize) -> Single,
    Y: Fn(usize, usize) -> Single,
    V: Fn(usize) -> Single,
>(
    labels: Seq<JumpLabel>,
    view: JumpView,
    x_for_index: X,
    text_width: W,
    x_there: Y,
    width_there: V,
    p: Seq<LabelPaint>,
    q: Seq<LabelPaint>,
)
    requires
        measure_alike(x_for_index, text_width, x_there, width_there),
        labels_painted(p, labels, view, x_for_index, text_width),
        labels_painted(q, labels, view, x_there, width_there),
    ensures
        p.len() == q.len(),
        forall|k: int|
            0 <= k < p.len() ==> {
                &&& (#[trigger] p[k]).label == q[k].label
                &&& p[k].outline@ == q[k].outline@
                &&& p[k].badge@ == q[k].badge@
                &&& p[k].text_origin@ == q[k].text_origin@
                &&& p[k].text_color == q[k].text_color
            },
{
    labels_are_placed_by_their_measures(
        labels,
        view,
        view,
        x_for_index,
        text_width,
        x_there,
        width_there,
        p,
        q,
    );
}

/// All coordinates that a label is made of are of bounded size.
pub open spec fn origin_in_bounds(
    a: JumpView,
    b: JumpView,
    row: u32,
    by: Measures,
    e: nat,
) -> bool {
    &&& point_within(a.content_origin@, e)
    &&& point_within(b.content_origin@, e)
    &&& point_within(a.outline_offset(row, by.start_x@), e)
    &&& point_within(a.badge_offset(row, by.start_x@, by.end_x@, by.width@), e)
    &&& within(badge_padding(), e)
    &&& within(a.text_drop(), e)
}

/// Of two calls that differ in the content origin alone, the second paints the
/// same labels in the same order, with the same sizes and colours, and moves
/// the outline, the badge and the text of each as far as the content origin,
/// up to rounding.
pub proof fn all_labels_move_with_the_content_origin<
    X: Fn(usize, usize) -> Single,
    W: Fn(usize) -> Single,
    Y: Fn(usize, usize) -> Single,
    V: Fn(usize) -> Single,
>(
    labels: Seq<JumpLabel>,
    a: JumpView,
    b: JumpView,
    x_for_index: X,
    text_width: W,
    x_there: Y,
    width_there: V,
    p: Seq<LabelPaint>,
    q: Seq<LabelPaint>,
    e: nat,
)
    requires
        same_rows(a, b),
        moved_view(a, b),
        measure_alike(x_for_index, text_width, x_there, width_there),
        labels_painted(p, labels, a, x_for_index, text_width),
        labels_painted(q, labels, b, x_there, width_there),
        forall|i: usize, by: Measures|
            i < labels.len() && #[trigger] measured(
                labels[i as int],
                i,
                a,
                x_for_index,
                text_width,
                by,
            ) ==> origin_in_bounds(a, b, labels[i as int].position.row, by, e),
        23 <= e < 275,
    ensures
        p.len() == q.len(),
        forall|k: int|
            0 <= k < p.len() ==> {
                let from = a.content_origin@;
                let to = b.content_origin@;
                let error = pow2((e - 22) as nat);
                &&& (#[trigger] p[k]).label == q[k].label
                &&& moved_alike(p[k].outline@.origin, q[k].outline@.origin, from, to, error)
                &&& moved_alike(p[k].badge@.origin, q[k].badge@.origin, from, to, error)
                &&& moved_alike(p[k].text_origin@, q[k].text_origin@, from, to, 3 * error)
                &&& same_look(p[k], q[k])
            },
{
    labels_are_placed_by_their_measures(
        labels,
        a,
        b,
        x_for_index,
        text_width,
        x_there,
        width_there,
        p,
        q,
    );
    let from = a.content_origin@;
    let to = b.content_origin@;
    let error = pow2((e - 22) as nat);
    assert forall|k: int| 0 <= k < p.len() implies {
        &&& (#[trigger] p[k]).label == q[k].label
        &&& moved_alike(p[k].outline@.origin, q[k].outline@.origin, from, to, error)
        &&& moved_alike(p[k].badge@.origin, q[k].badge@.origin, from, to, error)
        &&& moved_alike(p[k].text_origin@, q[k].text_origin@, from, to, 3 * error)
        &&& same_look(p[k], q[k])
    } by {
        let i = p[k].label;
        let label = labels[i as int];
        labels_on_screen_are_painted(labels, a);
        let shown = visible_labels(labels, a);
        assert(shown.contains(shown[k]));
        let by = choose|by: Measures|
            #[trigger] measured(label, i, a, x_for_index, text_width, by) && placed_alike(
                p[k],
                q[k],
                label.position.row,
                a,
                b,
                by,
            );
        labels_move_with_the_content_origin(
            a,
            b,
            label.position.row,
            by.start_x@,
            by.end_x@,
            by.width@,
            e,
        );
    }
}

/// Two paints are alike but for their places.
pub open spec fn same_look(p: LabelPaint, q: LabelPaint) -> bool {
    let (a, b) = (p.outline@, q.outline@);
    let (c, d) = (p.badge@, q.badge@);
    &&& b == (PaintQuadValue { origin: b.origin, ..a })
    &&& d == (PaintQuadValue { origin: d.origin, ..c })
    &&& p.text_color == q.text_color
}

} // verus!
