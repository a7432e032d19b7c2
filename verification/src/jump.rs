//! Jump labels: an outline around each match on screen, and a badge with the
//! keys to type at its top right corner.

use vstd::prelude::*;

use crate::double::Double;
use crate::float::{convert, minus, natural, times, Format, Value};
use crate::geometry::{Point, PointValue};
use crate::single::Single;

verus! {

/// A row and a column as displayed.
#[derive(Clone, Copy, Debug, PartialEq, Eq)]
pub struct DisplayPoint {
    pub row: u32,
    pub column: u32,
}

/// A label for a match: where the match starts, what to type, how long the
/// match is.
#[derive(Debug, Clone, PartialEq)]
pub struct JumpLabel {
    pub position: DisplayPoint,
    pub label: String,
    pub match_length: usize,
}

/// The part of the editor that is on screen.
#[derive(Clone, Copy, Debug)]
pub struct JumpView {
    /// First row on screen.
    pub start_row: u32,
    /// First row below the screen.
    pub end_row: u32,
    pub line_height: Single,
    /// Vertical scroll position, in rows.
    pub scroll_row: Double,
    /// Horizontal scroll position, in pixels.
    pub scroll_x: Double,
    /// Where the text starts.
    pub content_origin: Point,
}

/// A colour of the theme.
#[derive(Clone, Copy, Debug, PartialEq, Eq, Structural)]
pub enum ThemeColor {
    Transparent,
    Text,
    TextAccent,
    EditorBackground,
}

/// A rectangle with rounded corners and a border.
#[derive(Clone, Copy, Debug)]
pub struct PaintQuad {
    pub origin: Point,
    pub width: Single,
    pub height: Single,
    pub corner_radius: Single,
    pub border_width: Single,
    pub background: ThemeColor,
    pub border_color: ThemeColor,
}

/// A rectangle, as numbers.
pub struct PaintQuadValue {
    pub origin: PointValue,
    pub width: Value,
    pub height: Value,
    pub corner_radius: Value,
    pub border_width: Value,
    pub background: ThemeColor,
    pub border_color: ThemeColor,
}

/// How one label is painted: the outline of the match, the badge, and the text
/// on the badge.
#[derive(Clone, Copy, Debug)]
pub struct LabelPaint {
    /// Index of the label.
    pub label: usize,
    pub outline: PaintQuad,
    pub badge: PaintQuad,
    pub text_origin: Point,
    pub text_color: ThemeColor,
}

/// How much the overlay behind the labels is faded out, from 0 to 1.
pub open spec fn overlay_opacity() -> Value {
    Value::ratio(4, 10)
}

/// How much the overlay behind the labels is faded out, from 0 to 1.
pub fn jump_toggle_overlay_opacity() -> (r: Single)
    ensures
        r@ == overlay_opacity(),
{
    Single::ratio(4, 10)
}

impl PaintQuad {
    pub open spec fn view(&self) -> PaintQuadValue {
        PaintQuadValue {
            origin: self.origin@,
            width: self.width@,
            height: self.height@,
            corner_radius: self.corner_radius@,
            border_width: self.border_width@,
            background: self.background,
            border_color: self.border_color,
        }
    }
}

/// The label's row is on screen.
pub open spec fn on_screen(label: JumpLabel, view: JumpView) -> bool {
    view.start_row <= label.position.row < view.end_row
}

/// Indices of the labels on screen, in order.
pub open spec fn visible_labels(labels: Seq<JumpLabel>, view: JumpView) -> Seq<int>
    decreases labels.len(),
{
    if labels.len() == 0 {
        Seq::empty()
    } else if on_screen(labels.last(), view) {
        visible_labels(labels.drop_last(), view).push(labels.len() - 1)
    } else {
        visible_labels(labels.drop_last(), view)
    }
}

impl JumpView {
    /// Top of a row, in pixels below the top of the screen.
    pub open spec fn row_top(self, row: u32) -> Value {
        let rows = minus(
            Format::Double,
            natural(Format::Double, row as nat),
            self.scroll_row@,
        );
        let height = convert(Format::Single, Format::Double, self.line_height@);
        convert(Format::Double, Format::Single, times(Format::Double, rows, height))
    }

    /// A horizontal position in the line, scrolled.
    pub open spec fn screen_x(self, x: Value) -> Value {
        let wide = convert(Format::Single, Format::Double, x);
        convert(Format::Double, Format::Single, minus(Format::Double, wide, self.scroll_x@))
    }

    /// Where an outline is, from the content origin.
    pub open spec fn outline_offset(self, row: u32, start_x: Value) -> PointValue {
        let inset = Value::of(1);
        PointValue {
            x: self.screen_x(start_x).minus(inset),
            y: self.row_top(row).plus(inset),
        }
    }

    /// Outline of a match: inset by a pixel, one pixel wide, in the colour of
    /// the text.
    pub open spec fn outline(self, row: u32, start_x: Value, end_x: Value) -> PaintQuadValue {
        let inset = Value::of(1);
        let both = inset.times(Value::of(2));
        let by = self.outline_offset(row, start_x);
        PaintQuadValue {
            origin: self.content_origin@.shifted(by.x, by.y),
            width: match_width(start_x, end_x).plus(both),
            height: self.line_height@.minus(both),
            corner_radius: Value::of(2),
            border_width: Value::of(1),
            background: ThemeColor::Transparent,
            border_color: ThemeColor::Text,
        }
    }

    /// Where a badge is, from the content origin: centred on the top right
    /// corner of the match.
    pub open spec fn badge_offset(
        self,
        row: u32,
        start_x: Value,
        end_x: Value,
        text_width: Value,
    ) -> PointValue {
        let half = Value::ratio(1, 2);
        PointValue {
            x: self.screen_x(start_x).plus(match_width(start_x, end_x)).minus(
                badge_width(text_width).times(half),
            ),
            y: self.row_top(row).minus(self.badge_height().times(half)),
        }
    }

    /// The badge: centred on the top right corner of the match, so that it
    /// sticks up into the line above.
    pub open spec fn badge(
        self,
        row: u32,
        start_x: Value,
        end_x: Value,
        text_width: Value,
    ) -> PaintQuadValue {
        let by = self.badge_offset(row, start_x, end_x, text_width);
        PaintQuadValue {
            origin: self.content_origin@.shifted(by.x, by.y),
            width: badge_width(text_width),
            height: self.badge_height(),
            corner_radius: Value::of(2),
            border_width: Value::zero(),
            background: ThemeColor::TextAccent,
            border_color: ThemeColor::Transparent,
        }
    }

    /// Height of a badge: 65% of a line.
    pub open spec fn badge_height(self) -> Value {
        self.line_height@.times(Value::ratio(65, 100))
    }

    /// Where the text of a badge starts, from the top of the badge: the line
    /// of text is centred in it.
    pub open spec fn text_drop(self) -> Value {
        self.badge_height().minus(self.line_height@).times(Value::ratio(1, 2))
    }

    /// Where the text of a badge starts.
    pub open spec fn text_origin(
        self,
        row: u32,
        start_x: Value,
        end_x: Value,
        text_width: Value,
    ) -> PointValue {
        self.badge(row, start_x, end_x, text_width).origin.shifted(
            badge_padding(),
            self.text_drop(),
        )
    }

    /// Width of a match on screen.
    fn width_of_match(start_x: Single, end_x: Single) -> (r: Single)
        ensures
            r@ == match_width(start_x@, end_x@),
    {
        Double::from_single(end_x.minus(start_x)).to_single()
    }

    /// Whether the label's row is on screen.
    pub fn shows(&self, label: &JumpLabel) -> (r: bool)
        ensures
            r == on_screen(*label, *self),
            r == (self.start_row <= label.position.row && label.position.row < self.end_row),
    {
        !(label.position.row < self.start_row || label.position.row >= self.end_row)
    }

    /// How the label of a match is painted: `start_x` and `end_x` are where the
    /// match starts and ends in its line, `text_width` is the width of the text
    /// of the label.
    pub fn place_label(
        &self,
        label: usize,
        row: u32,
        start_x: Single,
        end_x: Single,
        text_width: Single,
    ) -> (r: LabelPaint)
        ensures
            r.label == label,
            r.outline@ == self.outline(row, start_x@, end_x@),
            r.badge@ == self.badge(row, start_x@, end_x@, text_width@),
            r.text_origin@ == self.text_origin(row, start_x@, end_x@, text_width@),
            r.text_color == ThemeColor::EditorBackground,
    {
        let y: Single = Double::natural(row as u64).minus(self.scroll_row).times(
            Double::from_single(self.line_height),
        ).to_single();
        let x: Single = Double::from_single(start_x).minus(self.scroll_x).to_single();
        let width: Single = JumpView::width_of_match(start_x, end_x);
        let inset: Single = Single::natural(1);
        let both: Single = inset.times(Single::natural(2));
        let outline = PaintQuad {
            origin: self.content_origin.shifted(x.minus(inset), y.plus(inset)),
            width: width.plus(both),
            height: self.line_height.minus(both),
            corner_radius: Single::natural(2),
            border_width: Single::natural(1),
            background: ThemeColor::Transparent,
            border_color: ThemeColor::Text,
        };
        let padding: Single = Single::natural(3);
        let half: Single = Single::ratio(1, 2);
        let badge_width: Single = text_width.plus(padding.times(Single::natural(2)));
        let badge_height: Single = self.line_height.times(Single::ratio(65, 100));
        let badge_origin: Point = self.content_origin.shifted(
            x.plus(width).minus(badge_width.times(half)),
            y.minus(badge_height.times(half)),
        );
        let badge = PaintQuad {
            origin: badge_origin,
            width: badge_width,
            height: badge_height,
            corner_radius: Single::natural(2),
            border_width: Single::zero(),
            background: ThemeColor::TextAccent,
            border_color: ThemeColor::Transparent,
        };
        let text_origin: Point = badge_origin.shifted(
            padding,
            badge_height.minus(self.line_height).times(half),
        );
        LabelPaint { label, outline, badge, text_origin, text_color: ThemeColor::EditorBackground }
    }
}

/// Width of a match on screen.
pub open spec fn match_width(start_x: Value, end_x: Value) -> Value {
    convert(
        Format::Double,
        Format::Single,
        convert(Format::Single, Format::Double, end_x.minus(start_x)),
    )
}

/// Space between a label's text and the sides of its badge.
pub open spec fn badge_padding() -> Value {
    Value::of(3)
}

/// Width of a badge: that of its text, and the space on either side.
pub open spec fn badge_width(text_width: Value) -> Value {
    text_width.plus(badge_padding().times(Value::of(2)))
}

/// What a label is placed by: the horizontal positions of the start and the end
/// of the match in its line, and the width of the text of the label.
pub struct Measures {
    pub start_x: Single,
    pub end_x: Single,
    pub width: Single,
}

/// `x_for_index` and `text_width` gave the measures for label `i`.
pub open spec fn measured<X: Fn(usize, usize) -> Single, W: Fn(usize) -> Single>(
    label: JumpLabel,
    i: usize,
    view: JumpView,
    x_for_index: X,
    text_width: W,
    by: Measures,
) -> bool {
    let line = (label.position.row - view.start_row) as usize;
    let start = label.position.column as usize;
    let end = (label.position.column + label.match_length) as usize;
    &&& call_ensures(x_for_index, (line, start), by.start_x)
    &&& call_ensures(x_for_index, (line, end), by.end_x)
    &&& call_ensures(text_width, (i,), by.width)
}

/// The label is placed by the measures.
pub open spec fn placed(paint: LabelPaint, row: u32, view: JumpView, by: Measures) -> bool {
    &&& paint.outline@ == view.outline(row, by.start_x@, by.end_x@)
    &&& paint.badge@ == view.badge(row, by.start_x@, by.end_x@, by.width@)
    &&& paint.text_origin@ == view.text_origin(row, by.start_x@, by.end_x@, by.width@)
    &&& paint.text_color == ThemeColor::EditorBackground
}

/// The label is painted by the measures that `x_for_index` and `text_width`
/// gave for it.
pub open spec fn painted_as<X: Fn(usize, usize) -> Single, W: Fn(usize) -> Single>(
    paint: LabelPaint,
    label: JumpLabel,
    view: JumpView,
    x_for_index: X,
    text_width: W,
) -> bool {
    exists|by: Measures|
        #[trigger] measured(label, paint.label, view, x_for_index, text_width, by) && placed(
            paint,
            label.position.row,
            view,
            by,
        )
}

/// The labels on screen are painted, each once and in order.
pub open spec fn labels_painted<X: Fn(usize, usize) -> Single, W: Fn(usize) -> Single>(
    paints: Seq<LabelPaint>,
    labels: Seq<JumpLabel>,
    view: JumpView,
    x_for_index: X,
    text_width: W,
) -> bool {
    let shown = visible_labels(labels, view);
    &&& paints.len() == shown.len()
    &&& forall|k: int|
        0 <= k < paints.len() ==> {
            &&& (#[trigger] paints[k]).label == shown[k]
            &&& painted_as(paints[k], labels[shown[k]], view, x_for_index, text_width)
        }
}

/// The label on screen can be measured.
pub open spec fn measurable<X: Fn(usize, usize) -> Single, W: Fn(usize) -> Single>(
    i: int,
    label: JumpLabel,
    view: JumpView,
    x_for_index: X,
    text_width: W,
) -> bool {
    let line = (label.position.row - view.start_row) as usize;
    let start = label.position.column as usize;
    let end = (label.position.column + label.match_length) as usize;
    &&& label.position.column + label.match_length <= usize::MAX
    &&& call_requires(x_for_index, (line, start))
    &&& call_requires(x_for_index, (line, end))
    &&& call_requires(text_width, (i as usize,))
}

/// How the jump labels are painted: `None` where there are none, else the
/// labels on screen, in order, over a faded overlay. `x_for_index` gives the
/// horizontal position of an index in a line on screen, lines counted from the
/// first one; `text_width` gives the width of the text of a label by its index.
pub fn paint_jump_labels<X: Fn(usize, usize) -> Single, W: Fn(usize) -> Single>(
    jump_labels: &Vec<JumpLabel>,
    view: &JumpView,
    x_for_index: &X,
    text_width: &W,
) -> (r: Option<Vec<LabelPaint>>)
    requires
        forall|i: int|
            0 <= i < jump_labels.len() && on_screen(#[trigger] jump_labels[i], *view)
                ==> measurable(i, jump_labels[i], *view, *x_for_index, *text_width),
    ensures
        r is None == (jump_labels.len() == 0),
        r matches Some(paints) ==> labels_painted(
            paints@,
            jump_labels@,
            *view,
            *x_for_index,
            *text_width,
        ),
{
    if jump_labels.len() == 0 {
        return None;
    }
    let mut paints: Vec<LabelPaint> = Vec::new();
    let mut i: usize = 0;
    while i < jump_labels.len()
        invariant
            i <= jump_labels.len(),
            forall|j: int|
                0 <= j < jump_labels.len() && on_screen(#[trigger] jump_labels[j], *view)
                    ==> measurable(j, jump_labels[j], *view, *x_for_index, *text_width),
            paints.len() == visible_labels(jump_labels@.take(i as int), *view).len(),
            forall|k: int|
                0 <= k < paints.len() ==> {
                    let shown = visible_labels(jump_labels@.take(i as int), *view);
                    &&& (#[trigger] paints[k]).label == shown[k]
                    &&& 0 <= shown[k] < i
                    &&& painted_as(
                        paints[k],
                        jump_labels[shown[k]],
                        *view,
                        *x_for_index,
                        *text_width,
                    )
                },
        decreases jump_labels.len() - i,
    {
        let jump_label = &jump_labels[i];
        proof {
            let next = jump_labels@.take(i + 1);
            assert(next.drop_last() =~= jump_labels@.take(i as int));
            assert(next.last() == jump_labels[i as int]);
        }
        if view.shows(jump_label) {
            let row: u32 = jump_label.position.row;
            let line: usize = (row - view.start_row) as usize;
            let start: usize = jump_label.position.column as usize;
            let start_x: Single = x_for_index(line, start);
            let end_x: Single = x_for_index(line, start + jump_label.match_length);
            let width: Single = text_width(i);
            let paint = view.place_label(i, row, start_x, end_x, width);
            assert(measured(
                *jump_label,
                i,
                *view,
                *x_for_index,
                *text_width,
                Measures { start_x, end_x, width },
            ));
            assert(painted_as(paint, *jump_label, *view, *x_for_index, *text_width));
            paints.push(paint);
        }
        i = i + 1;
    }
    assert(jump_labels@.take(i as int) =~= jump_labels@);
    Some(paints)
}

} // verus!
