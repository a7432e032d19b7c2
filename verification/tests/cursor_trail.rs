use editor::animation::CursorAnimationState;
use editor::geometry::{Point, Quad};
use editor::single::Single;

const MILLISECOND: u64 = 1_000_000;

fn px(x: f32) -> Single {
    Single::from_bits(x.to_bits())
}

fn pf(x: Single) -> f32 {
    f32::from_bits(x.to_bits())
}

fn point(x: Single, y: Single) -> Point {
    Point::new(x, y)
}

fn exp(x: Single) -> Single {
    px(pf(x).exp())
}

fn rect(x: f32, y: f32, w: f32, h: f32) -> Quad {
    [
        point(px(x), px(y)),
        point(px(x + w), px(y)),
        point(px(x + w), px(y + h)),
        point(px(x), px(y + h)),
    ]
}

fn step(
    state: &mut CursorAnimationState,
    key: (u32, u32),
    destination: Quad,
    now: u64,
) -> (Quad, bool) {
    state.step(key, destination, now, px(0.15), px(0.04), px(0.8), &exp)
}

#[test]
fn first_observation_is_snap() {
    let mut state = CursorAnimationState::default();
    let dest = rect(10.0, 10.0, 8.0, 16.0);
    let (painted, animating) = step(&mut state, (0, 0), dest, 7 * MILLISECOND);
    assert!(!animating);
    assert_eq!(painted, dest);
}

#[test]
fn scroll_only_snaps() {
    let mut state = CursorAnimationState::default();
    let t0: u64 = 5_000 * MILLISECOND;
    step(&mut state, (0, 0), rect(10.0, 10.0, 8.0, 16.0), t0);
    let (painted, animating) = step(
        &mut state,
        (0, 0),
        rect(10.0, 50.0, 8.0, 16.0),
        t0 + 16 * MILLISECOND,
    );
    assert!(!animating);
    assert_eq!(painted[0], point(px(10.0), px(50.0)));
}

#[test]
fn buffer_jump_animates() {
    let mut state = CursorAnimationState::default();
    let t0: u64 = 5_000 * MILLISECOND;
    step(&mut state, (0, 0), rect(10.0, 10.0, 8.0, 16.0), t0);
    let (painted, animating) = step(
        &mut state,
        (42, 0),
        rect(400.0, 400.0, 8.0, 16.0),
        t0 + 16 * MILLISECOND,
    );
    assert!(animating);
    // The painted corners should be between old and new destination, not at new.
    assert!(pf(painted[0].x) < 400.0);
    assert!(pf(painted[0].y) < 400.0);
}

#[test]
fn animation_settles() {
    let mut state = CursorAnimationState::default();
    let t0: u64 = 5_000 * MILLISECOND;
    step(&mut state, (0, 0), rect(10.0, 10.0, 8.0, 16.0), t0);
    step(
        &mut state,
        (42, 0),
        rect(400.0, 400.0, 8.0, 16.0),
        t0 + 16 * MILLISECOND,
    );
    // After a long time, the spring should be quiescent and painted = dest.
    let (painted, animating) = step(
        &mut state,
        (42, 0),
        rect(400.0, 400.0, 8.0, 16.0),
        t0 + 1000 * MILLISECOND,
    );
    assert!(!animating);
    assert_eq!(painted, rect(400.0, 400.0, 8.0, 16.0));
}
