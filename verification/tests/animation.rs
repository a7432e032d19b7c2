use editor::animation::{as_seconds, Axis, Corner, CursorAnimationState, Decays, Direction};
use editor::geometry::{same_quad, Point, Quad};
use editor::single::Single;
use editor::spring::Spring;

const MILLISECOND: u64 = 1_000_000;

fn px(x: f32) -> Single {
    Single::from_bits(x.to_bits())
}

fn pf(x: Single) -> f32 {
    f32::from_bits(x.to_bits())
}

fn exp(x: Single) -> Single {
    px(pf(x).exp())
}

fn quad(corners: [(f32, f32); 4]) -> Quad {
    [
        Point::new(px(corners[0].0), px(corners[0].1)),
        Point::new(px(corners[1].0), px(corners[1].1)),
        Point::new(px(corners[2].0), px(corners[2].1)),
        Point::new(px(corners[3].0), px(corners[3].1)),
    ]
}

fn rect(x: f32, y: f32, w: f32, h: f32) -> [(f32, f32); 4] {
    [(x, y), (x + w, y), (x + w, y + h), (x, y + h)]
}

fn plain(q: &Quad) -> [(f32, f32); 4] {
    [
        (pf(q[0].x), pf(q[0].y)),
        (pf(q[1].x), pf(q[1].y)),
        (pf(q[2].x), pf(q[2].y)),
        (pf(q[3].x), pf(q[3].y)),
    ]
}

/// The animation in machine arithmetic.
#[derive(Clone, Copy, Default)]
struct Offset {
    position: f32,
    velocity: f32,
}

impl Offset {
    fn update(&mut self, dt: f32, length: f32) -> bool {
        if length <= dt {
            *self = Offset::default();
            return false;
        }
        if self.position == 0.0 && self.velocity == 0.0 {
            return false;
        }
        let omega = 5.83 / length;
        let a = self.position;
        let b = self.position * omega + self.velocity;
        let c = (-omega * dt).exp();
        self.position = (a + b * dt) * c;
        self.velocity = c * (-a * omega - b * dt * omega + b);
        if self.position.abs() < 0.01 {
            *self = Offset::default();
            return false;
        }
        true
    }
}

#[derive(Default)]
struct Machine {
    corners: [(Offset, Offset, f32); 4],
    vertical: bool,
    cross: f32,
    key: Option<(u32, u32)>,
    destination: Option<[(f32, f32); 4]>,
    frame: Option<u64>,
}

impl Machine {
    fn step(
        &mut self,
        key: (u32, u32),
        to: [(f32, f32); 4],
        now: u64,
        length: f32,
        short: f32,
        trail: f32,
    ) -> ([(f32, f32); 4], bool) {
        let elapsed = match self.frame {
            Some(at) => std::time::Duration::from_nanos(now.saturating_sub(at)).as_secs_f32(),
            None => 0.0,
        };
        let jumps = self.key != Some(key);
        match (jumps, self.destination) {
            (true, Some(from)) => {
                for i in 0..4 {
                    self.corners[i].0.position += to[i].0 - from[i].0;
                    self.corners[i].1.position += to[i].1 - from[i].1;
                }
                self.set_lengths(to, length, short, trail);
            }
            (true, None) => self.snap(),
            (false, Some(from)) => {
                if from != to {
                    self.snap();
                }
            }
            (false, None) => {}
        }
        let mut painted = to;
        let mut animating = false;
        let usable = |set: f32| if set > 0.0 { set } else { length };
        let cross = self.cross;
        let leading = |set: f32| {
            if set == 0.0 && set < cross && elapsed > 0.0 {
                0.0
            } else {
                usable(set)
            }
        };
        let time = |len: f32| {
            if !jumps && len <= elapsed {
                elapsed
            } else {
                elapsed.min(0.1)
            }
        };
        for i in 0..4 {
            let along = leading(self.corners[i].2);
            let across = usable(cross);
            let (x, y) = if self.vertical {
                (across, along)
            } else {
                (along, across)
            };
            animating |= self.corners[i].0.update(time(x), x);
            animating |= self.corners[i].1.update(time(y), y);
            painted[i] = (
                to[i].0 - self.corners[i].0.position,
                to[i].1 - self.corners[i].1.position,
            );
        }
        self.key = Some(key);
        self.destination = Some(to);
        self.frame = Some(now);
        (painted, animating)
    }

    fn snap(&mut self) {
        for corner in self.corners.iter_mut() {
            corner.0 = Offset::default();
            corner.1 = Offset::default();
        }
    }

    fn set_lengths(&mut self, to: [(f32, f32); 4], length: f32, short: f32, trail: f32) {
        let width = (to[1].0 - to[0].0).abs().max(1.0);
        let height = (to[2].1 - to[1].1).abs().max(1.0);
        let mut x: f32 = 0.0;
        let mut y: f32 = 0.0;
        for i in 0..4 {
            let visual = (
                to[i].0 - self.corners[i].0.position,
                to[i].1 - self.corners[i].1.position,
            );
            x += to[i].0 - visual.0;
            y += to[i].1 - visual.1;
        }
        x /= 4.0;
        y /= 4.0;
        self.vertical = !(x.abs() >= y.abs());
        let travelled = (x * x + y * y).sqrt();
        if travelled < width * 2.001 && y.abs() < height * 0.5 {
            for corner in self.corners.iter_mut() {
                corner.2 = length.min(short);
            }
            self.cross = length.min(short);
            return;
        }
        let leading = length * (1.0 - trail).clamp(0.0, 1.0);
        let leads = if x.abs() >= y.abs() {
            if x >= 0.0 {
                [false, true, true, false]
            } else {
                [true, false, false, true]
            }
        } else if y >= 0.0 {
            [false, false, true, true]
        } else {
            [true, true, false, false]
        };
        for i in 0..4 {
            self.corners[i].2 = if leads[i] { leading } else { length };
        }
        self.cross = length;
    }
}

fn random(state: &mut u64) -> u64 {
    *state ^= *state << 13;
    *state ^= *state >> 7;
    *state ^= *state << 17;
    *state
}

fn same_bits(a: &[(f32, f32); 4], b: &[(f32, f32); 4]) -> bool {
    let one = |x: f32, y: f32| x.to_bits() == y.to_bits() || (x.is_nan() && y.is_nan());
    (0..4).all(|i| one(a[i].0, b[i].0) && one(a[i].1, b[i].1))
}

#[test]
fn random_sessions_agree_with_machine_arithmetic() {
    let mut seed: u64 = 0x5151_2323_9797_0101;
    for _ in 0..300 {
        let mut state = CursorAnimationState::default();
        let mut machine = Machine::default();
        let mut now: u64 = random(&mut seed) % 1_000_000_000_000;
        let mut key = (0u32, 0u32);
        let mut origin = (10.0f32, 10.0f32);
        let length = (random(&mut seed) % 400) as f32 / 1000.0;
        let short = (random(&mut seed) % 100) as f32 / 1000.0;
        let trail = (random(&mut seed) % 130) as f32 / 100.0 - 0.1;
        for _ in 0..60 {
            match random(&mut seed) % 6 {
                0 => {
                    key.0 = (random(&mut seed) % 50) as u32;
                    origin.1 = (random(&mut seed) % 9000) as f32 / 7.0;
                    origin.0 = (random(&mut seed) % 9000) as f32 / 11.0;
                }
                1 => {
                    key.1 = (random(&mut seed) % 80) as u32;
                    origin.0 = key.1 as f32 * 8.4;
                }
                2 => origin.1 += (random(&mut seed) % 40) as f32 - 20.0,
                _ => {}
            }
            now = match random(&mut seed) % 12 {
                0 => now.saturating_sub(5 * MILLISECOND),
                1 => now + random(&mut seed) % (2_000 * MILLISECOND),
                _ => now + random(&mut seed) % (30 * MILLISECOND),
            };
            let to = rect(origin.0, origin.1, 8.4, 18.0);
            let (painted, animating) =
                state.step(key, quad(to), now, px(length), px(short), px(trail), &exp);
            let (expected, moving) = machine.step(key, to, now, length, short, trail);
            assert_eq!(animating, moving);
            assert!(same_bits(&plain(&painted), &expected));
        }
    }
}

#[test]
fn odd_numbers_agree_with_machine_arithmetic() {
    let odd = [
        0.0,
        -0.0,
        f32::NAN,
        f32::INFINITY,
        f32::NEG_INFINITY,
        f32::MAX,
        f32::MIN_POSITIVE,
        -1.5,
        0.15,
    ];
    for length in odd {
        for trail in odd {
            for place in odd {
                let mut state = CursorAnimationState::default();
                let mut machine = Machine::default();
                let stops = [rect(1.0, 2.0, 8.0, 16.0), rect(place, 40.0, 8.0, 16.0)];
                for frame in 0..6u64 {
                    let to = stops[(frame / 2 % 2) as usize];
                    let key = (frame as u32 / 2, 0);
                    let now = frame * 17 * MILLISECOND;
                    let (painted, animating) =
                        state.step(key, quad(to), now, px(length), px(0.04), px(trail), &exp);
                    let (expected, moving) = machine.step(key, to, now, length, 0.04, trail);
                    assert_eq!(animating, moving);
                    assert!(same_bits(&plain(&painted), &expected));
                }
            }
        }
    }
}

#[test]
fn seconds_agree_with_durations() {
    let mut seed: u64 = 99;
    for shift in 0..64 {
        for _ in 0..50 {
            let nanos = random(&mut seed) >> shift;
            let expected = std::time::Duration::from_nanos(nanos).as_secs_f32();
            assert_eq!(as_seconds(nanos).to_bits(), expected.to_bits());
        }
    }
    assert_eq!(as_seconds(16 * MILLISECOND).to_bits(), 0.016f32.to_bits());
    assert_eq!(as_seconds(0).to_bits(), 0);
}

#[test]
fn spring_settles_when_its_time_is_over() {
    let mut spring = Spring { position: px(100.0), velocity: px(-3.0) };
    assert!(!spring.update(px(0.15), px(0.15), &exp));
    assert_eq!(spring.position.to_bits(), 0);
    assert_eq!(spring.velocity.to_bits(), 0);
}

#[test]
fn spring_at_rest_stays() {
    let mut spring = Spring { position: px(-0.0), velocity: px(0.0) };
    assert!(!spring.update(px(0.016), px(0.15), &exp));
    assert_eq!(spring.position.to_bits(), (-0.0f32).to_bits());
    assert_eq!(spring.velocity.to_bits(), 0);
}

#[test]
fn spring_swings() {
    let mut spring = Spring { position: px(390.0), velocity: px(0.0) };
    assert!(spring.update(px(0.016), px(0.15), &exp));
    let omega = 5.83f32 / 0.15;
    let b = 390.0 * omega;
    let c = (-omega * 0.016).exp();
    assert_eq!(pf(spring.position), (390.0 + b * 0.016) * c);
    assert_eq!(
        pf(spring.velocity),
        c * (-390.0 * omega - b * 0.016 * omega + b)
    );
}

#[test]
fn spring_stops_within_tolerance() {
    let mut spring = Spring { position: px(0.0101), velocity: px(0.0) };
    assert!(!spring.update(px(0.05), px(0.1), &exp));
    assert_eq!(spring.position.to_bits(), 0);
    let mut spring = Spring { position: px(0.0101), velocity: px(0.0) };
    assert!(spring.update(px(0.0), px(0.1), &exp));
    assert_eq!(pf(spring.position), 0.0101);
}

#[test]
fn decay_is_taken_as_given() {
    let mut spring = Spring { position: px(8.0), velocity: px(0.0) };
    let omega = 5.83f32 / 0.5;
    let b = 8.0 * omega;
    assert!(spring.advance(px(0.125), px(0.5), px(0.5)));
    assert_eq!(pf(spring.position), (8.0 + b * 0.125) * 0.5);
    assert_eq!(pf(spring.velocity), 0.5 * (-8.0 * omega - b * 0.125 * omega + b));
    assert_eq!(pf(Spring::decay_exponent(px(0.125), px(0.5))), -omega * 0.125);
    // An angular frequency of one.
    let mut spring = Spring { position: px(8.0), velocity: px(-4.0) };
    assert!(spring.advance(px(2.0), px(5.83), px(0.5)));
    assert_eq!((pf(spring.position), pf(spring.velocity)), (8.0, -6.0));
}

fn still() -> Decays {
    Decays { along: [px(1.0); 4], across: px(1.0) }
}

#[test]
fn frame_with_known_decays() {
    let mut state = CursorAnimationState::default();
    let from = quad(rect(0.0, 0.0, 8.0, 16.0));
    let to = quad(rect(64.0, 32.0, 8.0, 16.0));
    // Animation lengths are so long that angular frequencies are a quarter and
    // a half.
    let (long, short, trail) = (px(23.32), px(5.0), px(0.5));
    state.step_decayed((0, 0), from, 0, long, short, trail, &still());
    let (painted, animating) = state.step_decayed((2, 8), to, 0, long, short, trail, &still());
    // No time has passed: the cursor is where it was.
    assert!(animating);
    assert_eq!(painted, from);
    let decays = Decays {
        along: [px(0.5), px(0.25), px(0.25), px(0.5)],
        across: px(0.125),
    };
    let (painted, animating) =
        state.step_decayed((2, 8), to, 62_500_000, long, short, trail, &decays);
    assert!(animating);
    // Trailing corners: offset (64 + 16 / 16) / 2 = 32.5.
    // Leading corners: offset (64 + 32 / 16) / 4 = 16.5.
    // All of them, across: offset (32 + 8 / 16) / 8 = 4.0625.
    assert_eq!(
        plain(&painted),
        [(31.5, 27.9375), (55.5, 27.9375), (55.5, 43.9375), (31.5, 43.9375)]
    );
}

#[test]
fn jump_after_a_long_pause_is_animated() {
    let mut state = CursorAnimationState::default();
    let from = quad(rect(10.0, 10.0, 8.0, 16.0));
    let to = quad(rect(400.0, 400.0, 8.0, 16.0));
    state.step((0, 0), from, 0, px(0.15), px(0.04), px(0.8), &exp);
    let (painted, animating) =
        state.step((42, 0), to, 60_000 * MILLISECOND, px(0.15), px(0.04), px(0.8), &exp);
    assert!(animating);
    // The leading edge takes 30 ms, less than the longest frame.
    assert_eq!(painted[1].x, to[1].x);
    assert_eq!(painted[2].x, to[2].x);
    assert!(pf(painted[0].x) < 400.0);
    assert!(pf(painted[3].x) < 400.0);
    assert!(pf(painted[1].y) < 400.0);
}

#[test]
fn pause_within_the_animation_counts_as_the_longest_frame() {
    let from = quad(rect(10.0, 10.0, 8.0, 16.0));
    let to = quad(rect(400.0, 400.0, 8.0, 16.0));
    let mut one = CursorAnimationState::default();
    let mut other = CursorAnimationState::default();
    one.step((0, 0), from, 0, px(2.0), px(0.04), px(0.5), &exp);
    other.step((0, 0), from, 0, px(2.0), px(0.04), px(0.5), &exp);
    one.step((42, 0), to, 0, px(2.0), px(0.04), px(0.5), &exp);
    other.step((42, 0), to, 0, px(2.0), px(0.04), px(0.5), &exp);
    let (a, _) = one.step((42, 0), to, 100 * MILLISECOND, px(2.0), px(0.04), px(0.5), &exp);
    let (b, _) = other.step((42, 0), to, 900 * MILLISECOND, px(2.0), px(0.04), px(0.5), &exp);
    assert_eq!(a, b);
}

#[test]
fn clock_that_goes_back_stops_time() {
    let mut state = CursorAnimationState::default();
    let from = quad(rect(10.0, 10.0, 8.0, 16.0));
    let to = quad(rect(400.0, 400.0, 8.0, 16.0));
    state.step((0, 0), from, 500 * MILLISECOND, px(0.15), px(0.04), px(0.8), &exp);
    let (painted, animating) =
        state.step((42, 0), to, 100 * MILLISECOND, px(0.15), px(0.04), px(0.8), &exp);
    assert!(animating);
    assert_eq!(painted, from);
}

#[test]
fn short_jump_takes_the_short_time() {
    // Half a cell, one cell and two cells; more than that, or another line, is
    // no short jump.
    for (x, y, short) in [
        (14.0, 10.0, true),
        (18.0, 10.0, true),
        (2.0, 10.0, true),
        (26.0, 10.0, true),
        (26.5, 10.0, false),
        (34.0, 10.0, false),
        (10.0, 26.0, false),
    ] {
        let mut state = CursorAnimationState::default();
        let from = quad(rect(10.0, 10.0, 8.0, 16.0));
        let to = quad(rect(x, y, 8.0, 16.0));
        state.step((0, 0), from, 0, px(0.15), px(0.04), px(0.8), &exp);
        let (_, animating) = state.step((0, 1), to, 0, px(0.15), px(0.04), px(0.8), &exp);
        assert!(animating);
        let (painted, animating) =
            state.step((0, 1), to, 40 * MILLISECOND, px(0.15), px(0.04), px(0.8), &exp);
        assert_eq!(animating, !short);
        assert_eq!(painted == to, short);
    }
}

#[test]
fn short_time_of_nothing_is_no_time_set() {
    // With no short time, a short jump takes the full time.
    let mut state = CursorAnimationState::default();
    let from = quad(rect(10.0, 10.0, 8.0, 16.0));
    let to = quad(rect(18.0, 10.0, 8.0, 16.0));
    state.step((0, 0), from, 0, px(0.15), px(0.0), px(0.8), &exp);
    let (painted, animating) =
        state.step((0, 1), to, 16 * MILLISECOND, px(0.15), px(0.0), px(0.8), &exp);
    assert!(animating);
    let p = plain(&painted);
    let mut spring = Spring { position: px(8.0), velocity: px(0.0) };
    assert!(spring.update(px(0.016), px(0.15), &exp));
    for (i, x) in [(0, 18.0), (1, 26.0), (2, 26.0), (3, 18.0)] {
        assert_eq!(p[i].0, x - pf(spring.position));
    }
    let (_, animating) =
        state.step((0, 1), to, 100 * MILLISECOND, px(0.15), px(0.0), px(0.8), &exp);
    assert!(animating);
    let (painted, animating) =
        state.step((0, 1), to, 300 * MILLISECOND, px(0.15), px(0.0), px(0.8), &exp);
    assert!(!animating);
    assert_eq!(painted, to);
}

#[test]
fn full_trail_waits_for_time_to_pass() {
    for trail in [1.0f32, 1.5, 40.0] {
        let mut state = CursorAnimationState::default();
        let from = quad(rect(0.0, 0.0, 8.0, 16.0));
        let to = quad(rect(400.0, 0.0, 8.0, 16.0));
        state.step((0, 0), from, 0, px(0.15), px(0.04), px(trail), &exp);
        let (painted, animating) =
            state.step((0, 50), to, 0, px(0.15), px(0.04), px(trail), &exp);
        // No time has passed: the cursor is where it was.
        assert!(animating);
        assert_eq!(painted, from);
        let (painted, animating) =
            state.step((0, 50), to, MILLISECOND, px(0.15), px(0.04), px(trail), &exp);
        assert!(animating);
        assert_eq!(painted[1], to[1]);
        assert_eq!(painted[2], to[2]);
        assert!(pf(painted[0].x) < 10.0);
    }
}

#[test]
fn corners_travel_by_their_average() {
    // Twelve pixels are one and a half cells on average, and six in all.
    let mut state = CursorAnimationState::default();
    let from = quad(rect(0.0, 0.0, 8.0, 16.0));
    let to = quad(rect(12.0, 0.0, 8.0, 16.0));
    state.step((0, 0), from, 0, px(1.0), px(0.5), px(0.75), &exp);
    state.step((0, 1), to, 0, px(1.0), px(0.5), px(0.75), &exp);
    let (painted, animating) =
        state.step((0, 1), to, 500 * MILLISECOND, px(1.0), px(0.5), px(0.75), &exp);
    assert!(!animating);
    assert_eq!(painted, to);
}

#[test]
fn reset_forgets_the_animation() {
    let mut state = CursorAnimationState::default();
    let from = quad(rect(10.0, 10.0, 8.0, 16.0));
    let to = quad(rect(400.0, 400.0, 8.0, 16.0));
    state.step((0, 0), from, 0, px(0.15), px(0.04), px(0.8), &exp);
    state.step((42, 0), to, 5 * MILLISECOND, px(0.15), px(0.04), px(0.8), &exp);
    state.reset();
    let (painted, animating) =
        state.step((7, 0), from, 9 * MILLISECOND, px(0.15), px(0.04), px(0.8), &exp);
    assert!(!animating);
    assert_eq!(painted, from);
}

#[test]
fn jump_keeps_the_cursor_in_place() {
    let mut state = CursorAnimationState::default();
    let from = quad(rect(10.0, 10.0, 8.0, 16.0));
    state.step((0, 0), from, 0, px(0.15), px(0.04), px(0.8), &exp);
    let still = still();
    for (row, (x, y)) in [(100.0, 30.0), (3.0, 700.0), (2048.0, 1.0)].iter().enumerate() {
        let to = quad(rect(*x, *y, 8.0, 16.0));
        let (painted, _) =
            state.step_decayed((row as u32 + 1, 0), to, 0, px(0.15), px(0.04), px(0.8), &still);
        assert_eq!(painted, from);
    }
}

#[test]
fn jump_along_a_line_keeps_the_rectangle() {
    let mut state = CursorAnimationState::default();
    let from = quad(rect(10.0, 10.0, 8.0, 16.0));
    let to = quad(rect(410.0, 10.0, 8.0, 16.0));
    state.step((0, 0), from, 0, px(0.15), px(0.04), px(0.8), &exp);
    let (painted, animating) =
        state.step((0, 50), to, 16 * MILLISECOND, px(0.15), px(0.04), px(0.8), &exp);
    assert!(animating);
    let p = plain(&painted);
    assert_eq!((p[0].1, p[1].1, p[2].1, p[3].1), (10.0, 10.0, 26.0, 26.0));
    assert_eq!(p[0].0, p[3].0);
    assert_eq!(p[1].0, p[2].0);
    // The right edge leads: the cursor is stretched.
    assert!(p[1].0 - p[0].0 > 8.0);
}

#[test]
fn directions_and_their_edges() {
    let of = |x: f32, y: f32| Direction::of(px(x), px(y));
    assert_eq!(of(5.0, 3.0), Direction::Right);
    assert_eq!(of(3.0, 3.0), Direction::Right);
    assert_eq!(of(-5.0, 3.0), Direction::Left);
    assert_eq!(of(-3.0, -5.0), Direction::Up);
    assert_eq!(of(3.0, 5.0), Direction::Down);
    assert_eq!(of(0.0, -0.0), Direction::Right);
    assert_eq!(of(f32::NAN, 1.0), Direction::Down);
    assert_eq!(of(f32::NAN, f32::NAN), Direction::Up);
    assert_eq!(Direction::Right.leading_corners(), [false, true, true, false]);
    assert_eq!(Direction::Left.leading_corners(), [true, false, false, true]);
    assert_eq!(Direction::Down.leading_corners(), [false, false, true, true]);
    assert_eq!(Direction::Up.leading_corners(), [true, true, false, false]);
    assert_eq!(Direction::Right.axis(), Axis::Horizontal);
    assert_eq!(Direction::Left.axis(), Axis::Horizontal);
    assert_eq!(Direction::Down.axis(), Axis::Vertical);
    assert_eq!(Direction::Up.axis(), Axis::Vertical);
}

#[test]
fn corners_and_quads() {
    let mut corner = Corner::default();
    corner.reanchor(Point::new(px(1.0), px(2.0)), Point::new(px(4.0), px(8.0)));
    assert_eq!(
        corner.drawn(Point::new(px(4.0), px(8.0))),
        Point::new(px(1.0), px(2.0))
    );
    assert_eq!(pf(corner.length_or(px(0.5))), 0.5);
    corner.animation_length = px(f32::NAN);
    assert_eq!(pf(corner.length_or(px(0.5))), 0.5);
    corner.animation_length = px(-1.0);
    assert_eq!(pf(corner.length_or(px(0.5))), 0.5);
    corner.animation_length = px(0.25);
    assert_eq!(pf(corner.length_or(px(0.5))), 0.25);
    corner.snap();
    assert_eq!(
        corner.drawn(Point::new(px(4.0), px(8.0))),
        Point::new(px(4.0), px(8.0))
    );
    let a = quad(rect(0.0, 1.0, 2.0, 3.0));
    let b = quad(rect(-0.0, 1.0, 2.0, 3.0));
    let c = quad(rect(0.0, 1.0, 2.0, 4.0));
    let d = quad(rect(f32::NAN, 1.0, 2.0, 3.0));
    assert!(same_quad(&a, &b));
    assert!(!same_quad(&a, &c));
    assert!(!same_quad(&d, &d));
}

#[test]
fn jump_along_a_column_keeps_the_rectangle() {
    let mut state = CursorAnimationState::default();
    let from = quad(rect(10.0, 410.0, 8.0, 16.0));
    let to = quad(rect(10.0, 10.0, 8.0, 16.0));
    state.step((25, 0), from, 0, px(0.15), px(0.04), px(0.8), &exp);
    let (painted, animating) =
        state.step((0, 0), to, 16 * MILLISECOND, px(0.15), px(0.04), px(0.8), &exp);
    assert!(animating);
    let p = plain(&painted);
    assert_eq!((p[0].0, p[1].0, p[2].0, p[3].0), (10.0, 18.0, 18.0, 10.0));
    assert_eq!(p[0].1, p[1].1);
    assert_eq!(p[2].1, p[3].1);
    // The top edge leads: the cursor is stretched.
    assert!(p[3].1 - p[0].1 > 16.0);
}

#[test]
fn settled_cursor_stays_settled() {
    let mut state = CursorAnimationState::default();
    let from = quad(rect(10.0, 10.0, 8.0, 16.0));
    let to = quad(rect(400.0, 400.0, 8.0, 16.0));
    state.step((0, 0), from, 0, px(0.15), px(0.04), px(0.8), &exp);
    state.step((42, 0), to, 16 * MILLISECOND, px(0.15), px(0.04), px(0.8), &exp);
    let mut now = 16 * MILLISECOND;
    let mut frames = 0;
    loop {
        now += 16 * MILLISECOND;
        frames += 1;
        let (painted, animating) =
            state.step((42, 0), to, now, px(0.15), px(0.04), px(0.8), &exp);
        if !animating {
            assert_eq!(painted, to);
            break;
        }
        assert!(frames < 60);
    }
    for later in [0, 1, 16, 1000, 100_000u64] {
        let (painted, animating) =
            state.step((42, 0), to, now + later * MILLISECOND, px(0.15), px(0.04), px(0.8), &exp);
        assert!(!animating);
        assert_eq!(painted, to);
    }
}

#[test]
fn leading_edge_arrives_first() {
    for trail in [0.0f32, 0.25, 0.8, 1.0, 1.5, -3.0] {
        let mut state = CursorAnimationState::default();
        let from = quad(rect(10.0, 10.0, 8.0, 16.0));
        let to = quad(rect(400.0, 10.0, 8.0, 16.0));
        state.step((0, 0), from, 0, px(0.15), px(0.04), px(trail), &exp);
        let (painted, _) =
            state.step((0, 9), to, 16 * MILLISECOND, px(0.15), px(0.04), px(trail), &exp);
        let p = plain(&painted);
        if trail <= 0.0 {
            // Both edges take the full time.
            assert!((p[1].0 - p[0].0 - 8.0).abs() < 0.001);
        } else if trail < 1.0 {
            assert!(p[1].0 - p[0].0 > 8.0);
        } else {
            // The leading edge takes no time at all.
            assert_eq!(p[1].0, 408.0);
            assert!(p[0].0 < 399.0);
        }
    }
}

#[test]
fn full_trail_stretches_the_cursor() {
    let mut state = CursorAnimationState::default();
    let from = quad(rect(0.0, 0.0, 8.0, 16.0));
    let to = quad(rect(400.0, 0.0, 8.0, 16.0));
    state.step((0, 0), from, 0, px(0.15), px(0.04), px(1.0), &exp);
    let (painted, animating) =
        state.step((0, 50), to, 16 * MILLISECOND, px(0.15), px(0.04), px(1.0), &exp);
    assert!(animating);
    assert!(408.0 - pf(painted[1].x) < 400.0 - pf(painted[0].x));
}

fn upright(p: &[(f32, f32); 4]) -> bool {
    p[0].0 == p[3].0 && p[1].0 == p[2].0 && p[0].1 == p[1].1 && p[2].1 == p[3].1
}

#[test]
fn diagonal_jump_is_not_tilted() {
    let mut seed: u64 = 0x7777_1234_0f0f_5151;
    for trail in [0.2f32, 0.8, 1.0] {
        let mut state = CursorAnimationState::default();
        let from = quad(rect(10.0, 10.0, 8.0, 16.0));
        let to = quad(rect(400.0, 400.0, 8.0, 16.0));
        state.step((0, 0), from, 0, px(0.15), px(0.04), px(trail), &exp);
        let mut now = 16 * MILLISECOND;
        let (painted, animating) =
            state.step((42, 0), to, now, px(0.15), px(0.04), px(trail), &exp);
        assert!(animating);
        assert!(upright(&plain(&painted)));
        // It is stretched along the axis of travel, and along that axis only.
        let p = plain(&painted);
        assert!(p[1].0 - p[0].0 > 8.5);
        assert!((p[3].1 - p[0].1 - 16.0).abs() < 0.001);
        // Nor is it when it jumps again on the way.
        for row in 0..200u32 {
            now += random(&mut seed) % (20 * MILLISECOND);
            let x = (random(&mut seed) % 9000) as f32 / 11.0;
            let y = (random(&mut seed) % 9000) as f32 / 7.0;
            let there = quad(rect(x, y, 8.0, 16.0));
            let (painted, _) =
                state.step((row / 3, row), there, now, px(0.15), px(0.04), px(trail), &exp);
            assert!(upright(&plain(&painted)));
        }
    }
}

#[test]
fn spring_settles_to_two_percent_in_its_length() {
    for start in [100.0f32, -100.0] {
        for frames in [2u32, 5, 10, 50] {
            let mut spring = Spring { position: px(start), velocity: px(0.0) };
            for _ in 0..frames {
                spring.update(px(1.0 / frames as f32), px(1.0), &exp);
            }
            let left = pf(spring.position) / start;
            assert!(left > 0.019 && left < 0.021);
        }
    }
}

#[test]
fn released_spring_never_overshoots() {
    let mut seed: u64 = 4242;
    for _ in 0..200 {
        let start = (random(&mut seed) % 20_000) as f32 - 10_000.0;
        let length = (1 + random(&mut seed) % 10_000) as f32 / 1000.0;
        let mut spring = Spring { position: px(start), velocity: px(0.0) };
        for _ in 0..300 {
            let dt = (random(&mut seed) % 50) as f32 / 1000.0;
            let before = pf(spring.position);
            let animating = spring.update(px(dt), px(length), &exp);
            let after = pf(spring.position);
            assert!(after * start >= 0.0);
            assert!(after.abs() <= before.abs() * (1.0 + 1.0 / 524288.0));
            assert_eq!(animating, after != 0.0);
        }
    }
}

#[test]
fn opposite_springs_stay_opposite() {
    let mut one = Spring { position: px(321.5), velocity: px(-77.0) };
    let mut other = Spring { position: px(-321.5), velocity: px(77.0) };
    for _ in 0..200 {
        let a = one.update(px(0.007), px(0.4), &exp);
        let b = other.update(px(0.007), px(0.4), &exp);
        assert_eq!(a, b);
        assert_eq!(pf(one.position), -pf(other.position));
        assert_eq!(pf(one.velocity), -pf(other.velocity));
    }
    assert_eq!(pf(one.position), 0.0);
}

#[test]
fn two_short_frames_come_to_a_long_one() {
    for (p, v) in [(100.0f32, 0.0f32), (-9000.0, 300.0), (5.0, -8000.0)] {
        for (first, second) in [(0.01f32, 0.02f32), (0.0, 0.03), (0.05, 0.04)] {
            let mut short = Spring { position: px(p), velocity: px(v) };
            let mut long = short;
            assert!(short.update(px(first), px(0.15), &exp));
            short.update(px(second), px(0.15), &exp);
            long.update(px(first + second), px(0.15), &exp);
            let off = (pf(short.position) - pf(long.position)).abs();
            assert!(off <= 0.011 + 0.00001 * (p.abs() + v.abs() * 0.15));
        }
    }
}

#[test]
fn animation_ends_in_bounded_time() {
    for dt in [0.001f32, 0.016, 0.09] {
        for length in [0.001f32, 0.15, 1.0] {
            let mut spring = Spring { position: px(10_000.0), velocity: px(0.0) };
            let mut passed = 0.0f32;
            let mut animating = true;
            while passed < 5.0 * length {
                animating = spring.update(px(dt), px(length), &exp);
                passed += dt;
            }
            assert!(!animating);
            assert_eq!((pf(spring.position), pf(spring.velocity)), (0.0, 0.0));
        }
    }
}

#[test]
fn larger_trail_is_never_slower() {
    let mut left = f32::INFINITY;
    for trail in [-1.0f32, 0.0, 0.1, 0.5, 0.9, 0.999, 1.0, 7.0] {
        let mut state = CursorAnimationState::default();
        let from = quad(rect(0.0, 0.0, 8.0, 16.0));
        let to = quad(rect(400.0, 0.0, 8.0, 16.0));
        state.step((0, 0), from, 0, px(0.15), px(0.04), px(trail), &exp);
        let (painted, _) =
            state.step((0, 50), to, 16 * MILLISECOND, px(0.15), px(0.04), px(trail), &exp);
        assert!(408.0 - pf(painted[1].x) <= left);
        left = 408.0 - pf(painted[1].x);
    }
    assert_eq!(left, 0.0);
}

#[test]
fn mirrored_jumps_are_mirrored() {
    let (one, other) = (400.0f32, -400.0f32);
    let mut painted = [[(0.0f32, 0.0f32); 4]; 2];
    for (i, x) in [one, other].into_iter().enumerate() {
        let mut state = CursorAnimationState::default();
        let from = quad(rect(-4.0, 0.0, 8.0, 16.0));
        let to = quad(rect(x - 4.0, 96.0, 8.0, 16.0));
        state.step((0, 0), from, 0, px(0.15), px(0.04), px(0.8), &exp);
        let (there, _) =
            state.step((6, 50), to, 16 * MILLISECOND, px(0.15), px(0.04), px(0.8), &exp);
        painted[i] = plain(&there);
    }
    for (i, j) in [(0, 1), (1, 0), (2, 3), (3, 2)] {
        assert_eq!(painted[0][i].0, -painted[1][j].0);
        assert_eq!(painted[0][i].1, painted[1][j].1);
    }
}

#[test]
fn jump_without_time_keeps_the_place() {
    let mut seed: u64 = 31_337;
    let mut state = CursorAnimationState::default();
    let mut now = 0;
    let mut place = rect(10.0, 10.0, 8.0, 16.0);
    state.step((0, 0), quad(place), now, px(0.15), px(0.04), px(0.8), &exp);
    for row in 1..200u32 {
        let trail = [0.8f32, 0.0, 1.0, 3.0][row as usize % 4];
        let x = (random(&mut seed) % 90_000) as f32 / 11.0;
        let y = (random(&mut seed) % 60_000) as f32 / 7.0;
        let to = quad(rect(x, y, 8.0, 16.0));
        let (painted, _) = state.step((row, 0), to, now, px(0.15), px(0.04), px(trail), &exp);
        let p = plain(&painted);
        for i in 0..4 {
            assert!((p[i].0 - place[i].0).abs() <= 0.02);
            assert!((p[i].1 - place[i].1).abs() <= 0.02);
        }
        now += random(&mut seed) % (30 * MILLISECOND);
        let (painted, _) = state.step((row, 0), to, now, px(0.15), px(0.04), px(trail), &exp);
        place = plain(&painted);
    }
}

#[test]
fn shorter_animation_is_ahead_to_the_end() {
    for start in [400.0f32, -3.5, 9000.0] {
        for (short, long) in [(0.03f32, 0.15f32), (0.1, 0.11), (0.001, 10.0)] {
            let mut fast = Spring { position: px(start), velocity: px(0.0) };
            let mut slow = fast;
            for frame in 0..1000 {
                let dt = [0.016f32, 0.007, 0.0, 0.03][frame % 4];
                fast.update(px(dt), px(short), &exp);
                slow.update(px(dt), px(long), &exp);
                let (a, b) = (pf(fast.position).abs(), pf(slow.position).abs());
                assert!(a <= b + 0.011 + start.abs() * 0.0001);
            }
        }
    }
}

#[test]
fn jump_of_a_pixel_is_seen() {
    for offset in [1.0f32, -1.0, 25.0] {
        for length in [0.001f32, 0.15, 10.0] {
            for part in [0.0f32, 0.1, 0.5, 0.99, 0.9999] {
                let mut spring = Spring { position: px(offset), velocity: px(0.0) };
                assert!(spring.update(px(length * part), px(length), &exp));
            }
        }
    }
}

#[test]
fn animating_cursor_is_not_at_its_destination() {
    let mut state = CursorAnimationState::default();
    let from = quad(rect(99_000.0, 10.0, 8.0, 16.0));
    let to = quad(rect(99_900.0, 10.0, 8.0, 16.0));
    state.step((0, 0), from, 0, px(0.15), px(0.04), px(0.8), &exp);
    let mut frames = 0;
    for frame in 1..100u64 {
        let (painted, animating) =
            state.step((0, 9), to, frame * 5 * MILLISECOND, px(0.15), px(0.04), px(0.8), &exp);
        assert_eq!(animating, !same_quad(&painted, &to));
        frames += animating as u32;
    }
    assert!(frames > 10);
}

#[test]
fn cursor_stays_between_its_targets() {
    let mut seed: u64 = 2024;
    let mut state = CursorAnimationState::default();
    let mut now = 0;
    for frame in 0..3000u32 {
        let x = (random(&mut seed) % 19_000) as f32 - 9_500.0;
        let y = (random(&mut seed) % 19_000) as f32 - 9_500.0;
        let to = quad(rect(x, y, 8.0, 16.0));
        now += random(&mut seed) % (40 * MILLISECOND);
        // One length for all: no corner slows down on the way.
        let (painted, _) = state.step((frame, 0), to, now, px(0.15), px(0.15), px(0.0), &exp);
        for (x, y) in plain(&painted) {
            assert!(x.abs() <= 9_520.0 && y.abs() <= 9_520.0);
        }
    }
}

#[test]
fn mirrored_offsets_swap_left_and_right() {
    // Two cursors, stopped on the way at mirrored offsets, and sent to one
    // destination.
    let mut painted = [[(0.0f32, 0.0f32); 4]; 2];
    for (i, x) in [512.0f32, -512.0].into_iter().enumerate() {
        let mut state = CursorAnimationState::default();
        let from = quad(rect(100.0 - x, 40.0, 8.0, 16.0));
        let to = quad(rect(100.0, 140.0, 8.0, 16.0));
        state.step((0, 0), from, 0, px(0.15), px(0.04), px(0.8), &exp);
        let (there, _) =
            state.step((6, 50), to, 16 * MILLISECOND, px(0.15), px(0.04), px(0.8), &exp);
        painted[i] = plain(&there);
        let target = plain(&to);
        for corner in 0..4 {
            painted[i][corner].0 -= target[corner].0;
        }
    }
    for (i, j) in [(0, 1), (1, 0), (2, 3), (3, 2)] {
        assert!((painted[0][i].0 + painted[1][j].0).abs() < 0.001);
        assert_eq!(painted[0][i].1, painted[1][j].1);
    }
}
