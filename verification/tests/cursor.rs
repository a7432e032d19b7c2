use editor::cursor_trail::{
    cursor_quad, paint_animated_quad, step_for_cursor, CursorShape, CursorTrailSettings, Editor,
    EditorSettingsContent, PathStep, SettingsContent, FRAME_INTERVAL_MS,
};
use editor::geometry::{Point, Quad};
use editor::single::Single;

fn px(x: f32) -> Single {
    Single::from_bits(x.to_bits())
}

fn pf(x: Single) -> f32 {
    f32::from_bits(x.to_bits())
}

fn exp(x: Single) -> Single {
    px(pf(x).exp())
}

fn point(x: f32, y: f32) -> Point {
    Point::new(px(x), px(y))
}

fn plain(q: &Quad) -> [(f32, f32); 4] {
    [
        (pf(q[0].x), pf(q[0].y)),
        (pf(q[1].x), pf(q[1].y)),
        (pf(q[2].x), pf(q[2].y)),
        (pf(q[3].x), pf(q[3].y)),
    ]
}

fn settings(enabled: bool) -> CursorTrailSettings {
    CursorTrailSettings {
        enabled,
        animation_length: px(0.15),
        short_animation_length: px(0.04),
        trail_size: px(0.8),
    }
}

fn step(
    editor: &mut Editor,
    newest: bool,
    shape: CursorShape,
    enabled: bool,
    row: u32,
    y: f32,
    now: u64,
) -> Option<([(f32, f32); 4], bool)> {
    step_for_cursor(
        editor,
        newest,
        shape,
        &settings(enabled),
        row,
        3,
        point(24.0, y),
        px(8.0),
        px(16.0),
        now,
        &exp,
    )
    .map(|frame| (plain(&frame.animated_corners), frame.schedule_frame))
}

#[test]
fn default_settings() {
    let content = SettingsContent {
        editor: EditorSettingsContent {
            cursor_trail: None,
            cursor_trail_animation_ms: None,
            cursor_trail_short_animation_ms: None,
            cursor_trail_size: None,
        },
    };
    let settings = CursorTrailSettings::from_settings(&content);
    assert!(!settings.enabled);
    assert_eq!(pf(settings.animation_length), 150.0 / 1000.0);
    assert_eq!(pf(settings.short_animation_length), 40.0 / 1000.0);
    assert_eq!(pf(settings.trail_size), 0.8);
}

#[test]
fn given_settings() {
    let content = SettingsContent {
        editor: EditorSettingsContent {
            cursor_trail: Some(true),
            cursor_trail_animation_ms: Some(333),
            cursor_trail_short_animation_ms: Some(0),
            cursor_trail_size: Some(px(0.3)),
        },
    };
    let settings = CursorTrailSettings::from_settings(&content);
    assert!(settings.enabled);
    assert_eq!(pf(settings.animation_length), 333.0f32 / 1000.0);
    assert_eq!(pf(settings.short_animation_length), 0.0);
    assert_eq!(pf(settings.trail_size), 0.3);
}

#[test]
fn shapes_have_their_rectangles() {
    let of = |shape: CursorShape| plain(&cursor_quad(shape, point(24.0, 32.0), px(8.0), px(16.0)));
    let block = [(24.0, 32.0), (32.0, 32.0), (32.0, 48.0), (24.0, 48.0)];
    assert_eq!(of(CursorShape::Block), block);
    assert_eq!(of(CursorShape::Hollow), block);
    assert_eq!(
        of(CursorShape::Bar),
        [(24.0, 32.0), (26.0, 32.0), (26.0, 48.0), (24.0, 48.0)]
    );
    assert_eq!(
        of(CursorShape::Underline),
        [(24.0, 46.0), (32.0, 46.0), (32.0, 48.0), (24.0, 48.0)]
    );
}

#[test]
fn only_the_newest_enabled_solid_cursor_has_a_trail() {
    let mut editor = Editor::default();
    assert!(step(&mut editor, true, CursorShape::Block, false, 0, 32.0, 0).is_none());
    assert!(step(&mut editor, false, CursorShape::Block, true, 0, 32.0, 0).is_none());
    assert!(step(&mut editor, true, CursorShape::Hollow, true, 0, 32.0, 0).is_none());
    assert!(!editor.cursor_animation_frame);
    // Nothing was seen so far: the first frame snaps.
    let (corners, schedule) = step(&mut editor, true, CursorShape::Bar, true, 9, 32.0, 0).unwrap();
    assert_eq!(
        corners,
        [(24.0, 32.0), (26.0, 32.0), (26.0, 48.0), (24.0, 48.0)]
    );
    assert!(!schedule);
}

#[test]
fn one_frame_is_scheduled_at_a_time() {
    let mut editor = Editor::default();
    let frame = FRAME_INTERVAL_MS * 1_000_000;
    assert_eq!(FRAME_INTERVAL_MS, 16);
    step(&mut editor, true, CursorShape::Block, true, 0, 32.0, 0);
    let (_, schedule) =
        step(&mut editor, true, CursorShape::Block, true, 40, 672.0, frame).unwrap();
    assert!(schedule);
    assert!(editor.cursor_animation_frame);
    let (_, schedule) =
        step(&mut editor, true, CursorShape::Block, true, 40, 672.0, frame + 1).unwrap();
    assert!(!schedule);
    assert!(editor.cursor_animation_frame);
    editor.finish_animation_frame();
    assert!(!editor.cursor_animation_frame);
    let (_, schedule) =
        step(&mut editor, true, CursorShape::Block, true, 40, 672.0, 2 * frame).unwrap();
    assert!(schedule);
    editor.finish_animation_frame();
    let (corners, schedule) =
        step(&mut editor, true, CursorShape::Block, true, 40, 672.0, 40 * frame).unwrap();
    assert!(!schedule);
    assert!(!editor.cursor_animation_frame);
    assert_eq!(
        corners,
        [(24.0, 672.0), (32.0, 672.0), (32.0, 688.0), (24.0, 688.0)]
    );
}

#[test]
fn outline_of_the_cursor_is_closed() {
    let quad = [
        point(0.0, 1.0),
        point(2.0, 3.0),
        point(4.0, 5.0),
        point(6.0, 7.0),
    ];
    let path = paint_animated_quad(quad);
    assert_eq!(path.len(), 5);
    assert!(matches!(path[0], PathStep::MoveTo(p) if p == quad[0]));
    assert!(matches!(path[1], PathStep::LineTo(p) if p == quad[1]));
    assert!(matches!(path[2], PathStep::LineTo(p) if p == quad[2]));
    assert!(matches!(path[3], PathStep::LineTo(p) if p == quad[3]));
    assert!(matches!(path[4], PathStep::LineTo(p) if p == quad[0]));
}
