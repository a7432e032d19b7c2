use editor::double::Double;
use editor::geometry::Point;
use editor::jump::{
    jump_toggle_overlay_opacity, paint_jump_labels, DisplayPoint, JumpLabel, JumpView, PaintQuad,
    ThemeColor,
};
use editor::single::Single;

fn px(x: f32) -> Single {
    Single::from_bits(x.to_bits())
}

fn pf(x: Single) -> f32 {
    f32::from_bits(x.to_bits())
}

fn wide(x: f64) -> Double {
    Double::from_bits(x.to_bits())
}

fn label(row: u32, column: u32, text: &str, match_length: usize) -> JumpLabel {
    JumpLabel {
        position: DisplayPoint { row, column },
        label: text.to_string(),
        match_length,
    }
}

fn view(line_height: f32, scroll_row: f64, scroll_x: f64) -> JumpView {
    JumpView {
        start_row: 10,
        end_row: 20,
        line_height: px(line_height),
        scroll_row: wide(scroll_row),
        scroll_x: wide(scroll_x),
        content_origin: Point::new(px(50.0), px(30.0)),
    }
}

fn bounds(q: &PaintQuad) -> (f32, f32, f32, f32) {
    (pf(q.origin.x), pf(q.origin.y), pf(q.width), pf(q.height))
}

#[test]
fn no_labels_paint_nothing() {
    let none: Vec<JumpLabel> = Vec::new();
    let painted = paint_jump_labels(
        &none,
        &view(20.0, 10.0, 0.0),
        &|_line: usize, _index: usize| px(0.0),
        &|_label: usize| px(0.0),
    );
    assert!(painted.is_none());
}

#[test]
fn labels_off_screen_are_left_out() {
    let labels = vec![
        label(9, 0, "a", 1),
        label(10, 0, "b", 1),
        label(25, 0, "c", 1),
        label(19, 0, "d", 1),
        label(20, 0, "e", 1),
        label(10, 4, "f", 1),
    ];
    let painted = paint_jump_labels(
        &labels,
        &view(20.0, 10.0, 0.0),
        &|_line: usize, index: usize| px(index as f32),
        &|_label: usize| px(0.0),
    )
    .unwrap();
    let shown: Vec<usize> = painted.iter().map(|p| p.label).collect();
    assert_eq!(shown, vec![1, 3, 5]);
    let off = vec![label(3, 0, "a", 1)];
    let painted = paint_jump_labels(
        &off,
        &view(20.0, 10.0, 0.0),
        &|_line: usize, index: usize| px(index as f32),
        &|_label: usize| px(0.0),
    );
    assert_eq!(painted.unwrap().len(), 0);
}

#[test]
fn measures_are_asked_for_the_match() {
    let labels = vec![label(12, 7, "xy", 3)];
    let asked = std::cell::RefCell::new(Vec::new());
    let texts = std::cell::RefCell::new(Vec::new());
    paint_jump_labels(
        &labels,
        &view(20.0, 10.0, 0.0),
        &|line: usize, index: usize| {
            asked.borrow_mut().push((line, index));
            px(index as f32)
        },
        &|label: usize| {
            texts.borrow_mut().push(label);
            px(12.0)
        },
    );
    assert_eq!(*asked.borrow(), vec![(2, 7), (2, 10)]);
    assert_eq!(*texts.borrow(), vec![0]);
}

#[test]
fn label_on_round_numbers() {
    let labels = vec![label(12, 7, "xy", 3)];
    let painted = paint_jump_labels(
        &labels,
        &view(20.0, 10.5, 16.0),
        &|_line: usize, index: usize| px(index as f32 * 8.0),
        &|_label: usize| px(12.0),
    )
    .unwrap();
    let paint = &painted[0];
    // The row is 1.5 lines below the top, the match runs from 56 to 80.
    assert_eq!(bounds(&paint.outline), (89.0, 61.0, 26.0, 18.0));
    assert_eq!(pf(paint.outline.corner_radius), 2.0);
    assert_eq!(pf(paint.outline.border_width), 1.0);
    assert_eq!(paint.outline.background, ThemeColor::Transparent);
    assert_eq!(paint.outline.border_color, ThemeColor::Text);
    assert_eq!(bounds(&paint.badge), (105.0, 53.5, 18.0, 13.0));
    assert_eq!(pf(paint.badge.corner_radius), 2.0);
    assert_eq!(pf(paint.badge.border_width), 0.0);
    assert_eq!(paint.badge.background, ThemeColor::TextAccent);
    assert_eq!(paint.badge.border_color, ThemeColor::Transparent);
    assert_eq!(pf(paint.text_origin.x), 108.0);
    assert_eq!(pf(paint.text_origin.y), 50.0);
    assert_eq!(paint.text_color, ThemeColor::EditorBackground);
}

#[test]
fn placement_agrees_with_machine_arithmetic() {
    let mut seed: u64 = 0x7777_1234_abcd_0001;
    let mut random = || {
        seed ^= seed << 13;
        seed ^= seed >> 7;
        seed ^= seed << 17;
        seed
    };
    for _ in 0..2_000 {
        let line_height = (random() % 4000) as f32 / 77.0;
        let scroll_row = (random() % 100_000) as f64 / 333.0;
        let scroll_x = (random() % 100_000) as f64 / 71.0;
        let row = (random() % 10) as u32 + 10;
        let x0 = (random() % 100_000) as f32 / 13.0;
        let x1 = x0 + (random() % 1000) as f32 / 7.0;
        let text = (random() % 1000) as f32 / 9.0;
        let origin: (f32, f32) = (50.0, 30.0);
        let y = ((row as f64 - scroll_row) * line_height as f64) as f32;
        let x = (x0 as f64 - scroll_x) as f32;
        let width = (x1 - x0) as f64 as f32;
        let badge_width = text + 3.0 * 2.0;
        let badge_height = line_height * 0.65;
        let badge = (
            origin.0 + (x + width - badge_width * 0.5),
            origin.1 + (y - badge_height * 0.5),
        );
        let paint =
            view(line_height, scroll_row, scroll_x).place_label(4, row, px(x0), px(x1), px(text));
        assert_eq!(paint.label, 4);
        assert_eq!(
            bounds(&paint.outline),
            (
                origin.0 + (x - 1.0),
                origin.1 + (y + 1.0),
                width + 1.0 * 2.0,
                line_height - 1.0 * 2.0
            )
        );
        assert_eq!(
            bounds(&paint.badge),
            (badge.0, badge.1, badge_width, badge_height)
        );
        assert_eq!(pf(paint.text_origin.x), badge.0 + 3.0);
        assert_eq!(
            pf(paint.text_origin.y),
            badge.1 + (badge_height - line_height) * 0.5
        );
    }
}

#[test]
fn overlay_is_faded() {
    assert_eq!(pf(jump_toggle_overlay_opacity()), 0.4);
}

#[test]
fn labels_compare_by_their_parts() {
    let one = label(1, 2, "ab", 3);
    assert_eq!(one, one.clone());
    assert_ne!(one, label(1, 2, "ac", 3));
    assert_ne!(one, label(1, 3, "ab", 3));
    assert_ne!(one, label(1, 2, "ab", 4));
}

fn places(view: &JumpView, row: u32) -> [(f32, f32); 3] {
    let paint = view.place_label(0, row, px(40.0), px(72.0), px(14.0));
    let outline = bounds(&paint.outline);
    let badge = bounds(&paint.badge);
    [
        (outline.0, outline.1),
        (badge.0, badge.1),
        (pf(paint.text_origin.x), pf(paint.text_origin.y)),
    ]
}

#[test]
fn labels_move_with_the_content_origin() {
    let here = view(20.0, 10.0, 0.0);
    let there = JumpView {
        content_origin: Point::new(px(57.0), px(27.5)),
        ..view(20.0, 10.0, 0.0)
    };
    for (a, b) in places(&here, 13).iter().zip(places(&there, 13)) {
        assert_eq!((b.0 - a.0, b.1 - a.1), (7.0, -2.5));
    }
}

#[test]
fn labels_move_against_the_scroll_position() {
    let here = view(20.0, 10.0, 0.0);
    let there = view(20.0, 11.5, 24.0);
    for (a, b) in places(&here, 13).iter().zip(places(&there, 13)) {
        assert_eq!((b.0 - a.0, b.1 - a.1), (-24.0, -30.0));
    }
    let mut last = places(&here, 13);
    for scroll in 1..400 {
        let next = places(&view(18.37, scroll as f64 / 7.0, scroll as f64 / 3.0), 13);
        if scroll > 1 {
            for (a, b) in last.iter().zip(next) {
                assert!(b.0 <= a.0 && b.1 <= a.1);
            }
        }
        last = next;
    }
}

#[test]
fn painting_twice_paints_the_same() {
    let labels = vec![label(11, 2, "a", 3), label(30, 0, "b", 1), label(14, 5, "c", 2)];
    let view = view(18.25, 10.5, 3.75);
    let x = |line: usize, index: usize| px(line as f32 * 0.5 + index as f32 * 7.2);
    let width = |label: usize| px(6.5 + label as f32);
    let one = paint_jump_labels(&labels, &view, &x, &width).unwrap();
    let two = paint_jump_labels(&labels, &view, &x, &width).unwrap();
    assert_eq!(one.len(), 2);
    assert_eq!(two.len(), 2);
    for (a, b) in one.iter().zip(&two) {
        assert_eq!(a.label, b.label);
        assert_eq!(bounds(&a.outline), bounds(&b.outline));
        assert_eq!(bounds(&a.badge), bounds(&b.badge));
        assert_eq!(a.text_origin, b.text_origin);
    }
    assert_eq!(labels[0], label(11, 2, "a", 3));
}

#[test]
fn labels_scroll_by_lines_and_pixels() {
    let height = 18.37f32;
    let start = view(height, 3.25, 17.125);
    for step in 1..300 {
        let (rows, right) = (step as f64 / 13.0, step as f64 / 3.0);
        let there = view(height, 3.25 + rows, 17.125 + right);
        for (a, b) in places(&start, 13).iter().zip(places(&there, 13)) {
            assert!((b.0 - a.0 + right as f32).abs() < 0.001);
            assert!((b.1 - a.1 + rows as f32 * height).abs() < 0.001);
        }
    }
}
