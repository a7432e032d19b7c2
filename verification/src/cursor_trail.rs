//! Smooth cursor animation.
//!
//! The cursor is drawn as a quadrilateral. When the caret jumps, each corner
//! animates toward its new destination on critically damped springs. Corners
//! on the edge that faces the direction of travel take less time than the
//! others, which stretches the cursor into a comet-like shape on the way.

use vstd::prelude::*;

use crate::animation::{decayed_by, timing_of, AnimationValue, CursorAnimationState, Decays, Timing};
use crate::float::Value;
use crate::geometry::{quad_value, rectangle, rectangle_quad, Point, PointValue, Quad};
use crate::single::Single;

verus! {

/// The part of the editor settings that concerns the trail.
#[derive(Clone, Copy, Debug)]
pub struct EditorSettingsContent {
    pub cursor_trail: Option<bool>,
    pub cursor_trail_animation_ms: Option<u64>,
    pub cursor_trail_short_animation_ms: Option<u64>,
    pub cursor_trail_size: Option<Single>,
}

/// Settings as the user gave them.
#[derive(Clone, Copy, Debug)]
pub struct SettingsContent {
    pub editor: EditorSettingsContent,
}

/// Whether the cursor has a trail, how long it takes in seconds, and how long
/// it gets.
#[derive(Clone, Copy, Debug)]
pub struct CursorTrailSettings {
    pub enabled: bool,
    pub animation_length: Single,
    pub short_animation_length: Single,
    pub trail_size: Single,
}

/// Milliseconds in seconds.
pub open spec fn milliseconds(ms: nat) -> Value {
    Value::of(ms).over(Value::of(1000))
}

/// A setting, or its default.
pub open spec fn setting<T>(value: Option<T>, default: T) -> T {
    match value {
        Some(v) => v,
        None => default,
    }
}

impl CursorTrailSettings {
    /// Settings with the defaults filled in: no trail, 150 ms for a jump, 40 ms
    /// for a short one, a trail size of 0.8.
    pub fn from_settings(content: &SettingsContent) -> (r: CursorTrailSettings)
        ensures
            r.enabled == setting(content.editor.cursor_trail, false),
            r.animation_length@ == milliseconds(
                setting(content.editor.cursor_trail_animation_ms, 150) as nat,
            ),
            r.short_animation_length@ == milliseconds(
                setting(content.editor.cursor_trail_short_animation_ms, 40) as nat,
            ),
            r.trail_size@ == match content.editor.cursor_trail_size {
                Some(size) => size@,
                None => Value::ratio(8, 10),
            },
    {
        let editor = &content.editor;
        let thousand: Single = Single::natural(1000);
        CursorTrailSettings {
            enabled: editor.cursor_trail.unwrap_or(false),
            animation_length: Single::natural(
                editor.cursor_trail_animation_ms.unwrap_or(150),
            ).over(thousand),
            short_animation_length: Single::natural(
                editor.cursor_trail_short_animation_ms.unwrap_or(40),
            ).over(thousand),
            trail_size: match editor.cursor_trail_size {
                Some(size) => size,
                None => Single::ratio(8, 10),
            },
        }
    }

    /// The numbers that the animation goes by.
    pub open spec fn timing(self) -> Timing {
        timing_of(self.animation_length, self.short_animation_length, self.trail_size)
    }
}

/// How the cursor is drawn.
#[derive(Clone, Copy, Debug, PartialEq, Eq, Structural)]
pub enum CursorShape {
    /// A thin vertical bar.
    Bar,
    /// A filled block.
    Block,
    /// A line under the character.
    Underline,
    /// The outline of a block.
    Hollow,
}

/// The rectangle that a cursor occupies: bars and underlines are 2 pixels
/// thick, an underline stands at the bottom of its line.
pub open spec fn cursor_rectangle(
    shape: CursorShape,
    origin: PointValue,
    block_width: Value,
    line_height: Value,
) -> Seq<PointValue> {
    match shape {
        CursorShape::Bar => rectangle(origin, Value::of(2), line_height),
        CursorShape::Underline => rectangle(
            PointValue { x: origin.x, y: origin.y.plus(line_height).minus(Value::of(2)) },
            block_width,
            Value::of(2),
        ),
        CursorShape::Block | CursorShape::Hollow => rectangle(origin, block_width, line_height),
    }
}

/// The rectangle that a cursor occupies.
pub fn cursor_quad(
    shape: CursorShape,
    origin: Point,
    block_width: Single,
    line_height: Single,
) -> (r: Quad)
    ensures
        quad_value(r) == cursor_rectangle(shape, origin@, block_width@, line_height@),
{
    let thickness: Single = Single::natural(2);
    match shape {
        CursorShape::Bar => rectangle_quad(origin, thickness, line_height),
        CursorShape::Underline => rectangle_quad(
            Point::new(origin.x, origin.y.plus(line_height).minus(thickness)),
            block_width,
            thickness,
        ),
        CursorShape::Block | CursorShape::Hollow => rectangle_quad(
            origin,
            block_width,
            line_height,
        ),
    }
}

/// What an editor keeps for the trail of its newest cursor.
pub struct Editor {
    pub cursor_animation: CursorAnimationState,
    /// Another frame is scheduled.
    pub cursor_animation_frame: bool,
}

/// Time between two frames of the animation.
pub const FRAME_INTERVAL_MS: u64 = 16;

/// A frame of the trail.
#[derive(Clone, Copy, Debug)]
pub struct CursorFrame {
    /// Where the corners of the cursor are drawn.
    pub animated_corners: Quad,
    /// The caller has to schedule another frame after [`FRAME_INTERVAL_MS`].
    pub schedule_frame: bool,
}

/// Only the newest cursor of an editor has a trail, and only where trails are
/// enabled. A hollow cursor is an outline: a filled trail would look wrong.
pub open spec fn has_trail(enabled: bool, is_newest: bool, shape: CursorShape) -> bool {
    enabled && is_newest && shape != CursorShape::Hollow
}

impl Default for Editor {
    fn default() -> (r: Editor)
        ensures
            r.cursor_animation@ == AnimationValue::fresh(),
            !r.cursor_animation_frame,
    {
        Editor { cursor_animation: CursorAnimationState::default(), cursor_animation_frame: false }
    }
}

impl Editor {
    /// The scheduled frame is due: the editor is to be drawn again.
    pub fn finish_animation_frame(&mut self)
        ensures
            !final(self).cursor_animation_frame,
            final(self).cursor_animation == old(self).cursor_animation,
    {
        self.cursor_animation_frame = false;
    }
}

/// Drives the trail animation for one cursor. Returns `Some` if the cursor is
/// to be drawn with the animated corners, and asks for another frame when it
/// is still moving and none is scheduled. `now` is in nanoseconds; `exp` is the
/// exponential function.
pub fn step_for_cursor<E: Fn(Single) -> Single>(
    editor: &mut Editor,
    is_newest: bool,
    shape: CursorShape,
    settings: &CursorTrailSettings,
    row: u32,
    column: u32,
    cursor_origin_abs: Point,
    block_width: Single,
    line_height: Single,
    now: u64,
    exp: &E,
) -> (r: Option<CursorFrame>)
    requires
        forall|x: Single| call_requires(exp, (x,)),
    ensures
        r is Some == has_trail(settings.enabled, is_newest, shape),
        r is Some <==> settings.enabled && is_newest && (shape == CursorShape::Bar || shape
            == CursorShape::Block || shape == CursorShape::Underline),
        r is None ==> *final(editor) == *old(editor),
        r matches Some(frame) ==> {
            let before = old(editor).cursor_animation@;
            let key = (row, column);
            let to = cursor_rectangle(shape, cursor_origin_abs@, block_width@, line_height@);
            let timing = settings.timing();
            let exponents = before.exponents(key, to, now, timing);
            exists|decays: Decays|
                {
                    let animating = before.animating(key, to, now, timing, decays@);
                    let pending = old(editor).cursor_animation_frame;
                    &&& #[trigger] decayed_by(*exp, exponents, decays)
                    &&& final(editor).cursor_animation@ == before.next(
                        key,
                        to,
                        now,
                        timing,
                        decays@,
                    )
                    &&& quad_value(frame.animated_corners) == before.painted(
                        key,
                        to,
                        now,
                        timing,
                        decays@,
                    )
                    &&& frame.schedule_frame == (animating && !pending)
                    &&& final(editor).cursor_animation_frame == (animating || pending)
                }
        },
{
    if !settings.enabled || !is_newest {
        return None;
    }
    if matches!(shape, CursorShape::Hollow) {
        return None;
    }
    let destination: Quad = cursor_quad(shape, cursor_origin_abs, block_width, line_height);
    let (painted, animating): (Quad, bool) = editor.cursor_animation.step(
        (row, column),
        destination,
        now,
        settings.animation_length,
        settings.short_animation_length,
        settings.trail_size,
        exp,
    );
    let schedule: bool = animating && !editor.cursor_animation_frame;
    if schedule {
        editor.cursor_animation_frame = true;
    }
    Some(CursorFrame { animated_corners: painted, schedule_frame: schedule })
}

/// One step in drawing a path.
#[derive(Clone, Copy, Debug)]
pub enum PathStep {
    MoveTo(Point),
    LineTo(Point),
}

/// The outline of the deformable cursor, to be filled: once around its four
/// corners and back to the first.
pub fn paint_animated_quad(corners: Quad) -> (path: Vec<PathStep>)
    ensures
        path@ == seq![
            PathStep::MoveTo(corners[0]),
            PathStep::LineTo(corners[1]),
            PathStep::LineTo(corners[2]),
            PathStep::LineTo(corners[3]),
            PathStep::LineTo(corners[0]),
        ],
{
    let mut path: Vec<PathStep> = Vec::new();
    path.push(PathStep::MoveTo(corners[0]));
    path.push(PathStep::LineTo(corners[1]));
    path.push(PathStep::LineTo(corners[2]));
    path.push(PathStep::LineTo(corners[3]));
    path.push(PathStep::LineTo(corners[0]));
    path
}

} // verus!
