//! The animation of one cursor: four corners, each on two springs.

use vstd::prelude::*;

use crate::float::{at_most, clamped, greater, less, lesser, magnitude, same, Value};
use crate::geometry::{quad_same, quad_value, same_quad, Point, PointValue, Quad};
use crate::laws::lemma_zero_below_one;
use crate::single::Single;
use crate::spring::{answers, decay_exponent, Spring, SpringValue};

verus! {

/// One corner of the cursor: its offset from the target on either axis, and
/// how long it takes to get there along the axis of travel.
#[derive(Clone, Copy, Debug)]
pub struct Corner {
    pub spring_x: Spring,
    pub spring_y: Spring,
    pub animation_length: Single,
}

/// The state of a corner, as numbers.
pub struct CornerValue {
    pub spring_x: SpringValue,
    pub spring_y: SpringValue,
    pub animation_length: Value,
}

/// Row and column of the cursor in the buffer.
pub type CursorKey = (u32, u32);

/// How long corners take: for an ordinary jump, for a short one, and how much
/// sooner the leading edge arrives.
pub struct Timing {
    pub animation_length: Value,
    pub short_animation_length: Value,
    pub trail_size: Value,
}

/// Direction that a jump goes in, by its longer axis.
#[derive(Clone, Copy, Debug, PartialEq, Eq, Structural)]
pub enum Direction {
    Right,
    Left,
    Down,
    Up,
}

/// The two directions on the screen that the cursor is stretched in.
#[derive(Clone, Copy, Debug, PartialEq, Eq, Structural)]
pub enum Axis {
    Horizontal,
    Vertical,
}

impl Direction {
    /// The axis that the direction is on.
    pub open spec fn along(self) -> Axis {
        match self {
            Direction::Right | Direction::Left => Axis::Horizontal,
            Direction::Down | Direction::Up => Axis::Vertical,
        }
    }

    /// The axis that the direction is on.
    pub fn axis(self) -> (r: Axis)
        ensures
            r == self.along(),
    {
        match self {
            Direction::Right | Direction::Left => Axis::Horizontal,
            Direction::Down | Direction::Up => Axis::Vertical,
        }
    }

    /// The corners on the edge that faces the direction.
    pub open spec fn leads(self, corner: int) -> bool {
        match self {
            Direction::Right => corner == 1 || corner == 2,
            Direction::Left => corner == 0 || corner == 3,
            Direction::Down => corner == 2 || corner == 3,
            Direction::Up => corner == 0 || corner == 1,
        }
    }

    /// The direction of a displacement; the horizontal axis wins a tie.
    pub open spec fn toward(x: Value, y: Value) -> Direction {
        if at_most(magnitude(y), magnitude(x)) {
            if at_most(Value::zero(), x) {
                Direction::Right
            } else {
                Direction::Left
            }
        } else if at_most(Value::zero(), y) {
            Direction::Down
        } else {
            Direction::Up
        }
    }

    /// The direction of a displacement.
    pub fn of(x: Single, y: Single) -> (r: Direction)
        ensures
            r == Direction::toward(x@, y@),
    {
        if y.abs().at_most(x.abs()) {
            if Single::zero().at_most(x) {
                Direction::Right
            } else {
                Direction::Left
            }
        } else if Single::zero().at_most(y) {
            Direction::Down
        } else {
            Direction::Up
        }
    }

    /// Which corners are on the edge that faces the direction.
    pub fn leading_corners(self) -> (r: [bool; 4])
        ensures
            forall|i: int| 0 <= i < 4 ==> #[trigger] r[i] == self.leads(i),
    {
        match self {
            Direction::Right => [false, true, true, false],
            Direction::Left => [true, false, false, true],
            Direction::Down => [false, false, true, true],
            Direction::Up => [true, true, false, false],
        }
    }
}

impl CornerValue {
    /// Both springs on target.
    pub open spec fn snapped(self) -> CornerValue {
        CornerValue {
            spring_x: SpringValue::settled(),
            spring_y: SpringValue::settled(),
            animation_length: self.animation_length,
        }
    }

    /// The target moves, the corner stays where it is on the screen: the
    /// offset takes up the difference.
    pub open spec fn moved(self, from: PointValue, to: PointValue) -> CornerValue {
        CornerValue {
            spring_x: SpringValue {
                position: self.spring_x.position.plus(to.x.minus(from.x)),
                velocity: self.spring_x.velocity,
            },
            spring_y: SpringValue {
                position: self.spring_y.position.plus(to.y.minus(from.y)),
                velocity: self.spring_y.velocity,
            },
            animation_length: self.animation_length,
        }
    }

    /// The same corner with another animation length.
    pub open spec fn taking(self, animation_length: Value) -> CornerValue {
        CornerValue { spring_x: self.spring_x, spring_y: self.spring_y, animation_length }
    }

    /// The corner's own animation length, if one was set.
    pub open spec fn length_or(self, default: Value) -> Value {
        length_in_use(self.animation_length, default)
    }

    /// Where the corner is drawn.
    pub open spec fn drawn(self, target: PointValue) -> PointValue {
        target.offset(self.spring_x.position, self.spring_y.position)
    }

    /// The spring on the axis of travel.
    pub open spec fn along(self, axis: Axis) -> SpringValue {
        match axis {
            Axis::Horizontal => self.spring_x,
            Axis::Vertical => self.spring_y,
        }
    }

    /// The spring on the other axis.
    pub open spec fn across(self, axis: Axis) -> SpringValue {
        match axis {
            Axis::Horizontal => self.spring_y,
            Axis::Vertical => self.spring_x,
        }
    }

    /// The corner after a frame.
    pub open spec fn advanced(
        self,
        axis: Axis,
        along: PaceValue,
        across: PaceValue,
    ) -> CornerValue {
        match axis {
            Axis::Horizontal => CornerValue {
                spring_x: along.advances(self.spring_x),
                spring_y: across.advances(self.spring_y),
                animation_length: self.animation_length,
            },
            Axis::Vertical => CornerValue {
                spring_x: across.advances(self.spring_x),
                spring_y: along.advances(self.spring_y),
                animation_length: self.animation_length,
            },
        }
    }

    /// Whether the corner is still under way after a frame.
    pub open spec fn animating(self, axis: Axis, along: PaceValue, across: PaceValue) -> bool {
        along.animates(self.along(axis)) || across.animates(self.across(axis))
    }
}

/// The length that was set, if one was; else the default.
pub open spec fn length_in_use(set: Value, default: Value) -> Value {
    if less(Value::zero(), set) {
        set
    } else {
        default
    }
}

/// What a spring is advanced by in a frame: seconds, the animation length to
/// go by, and the decay over that time.
pub struct PaceValue {
    pub dt: Value,
    pub length: Value,
    pub decay: Value,
}

impl PaceValue {
    /// The spring after the frame.
    pub open spec fn advances(self, spring: SpringValue) -> SpringValue {
        spring.advanced(self.dt, self.length, self.decay)
    }

    /// Whether the spring is still under way after the frame.
    pub open spec fn animates(self, spring: SpringValue) -> bool {
        spring.animating(self.dt, self.length, self.decay)
    }
}

/// Longest time that a spring under way is advanced by in one frame.
pub open spec fn longest_frame() -> Value {
    Value::ratio(1, 10)
}

/// Seconds that a spring is advanced by. A long pause counts no more than the
/// longest frame, so that a jump after it is still seen; but a cursor that
/// stayed in place for its whole animation length has arrived.
pub open spec fn frame_time(jumps: bool, elapsed: Value, length: Value) -> Value {
    if !jumps && at_most(length, elapsed) {
        elapsed
    } else {
        lesser(elapsed, longest_frame())
    }
}

/// What the frame is like: whether the cursor has jumped, the seconds since
/// the last one, and the animation length where none was set.
pub struct FrameValue {
    pub jumps: bool,
    pub elapsed: Value,
    pub default: Value,
}

impl FrameValue {
    /// Seconds that a spring of the given animation length is advanced by.
    pub open spec fn dt(self, length: Value) -> Value {
        frame_time(self.jumps, self.elapsed, length)
    }

    /// What such a spring is advanced by.
    pub open spec fn pace(self, length: Value, decay: Value) -> PaceValue {
        PaceValue { dt: self.dt(length), length, decay }
    }
}

/// Decays in a frame: one for each corner along the axis of travel, and one
/// that all corners share on the other axis.
pub struct DecayValues {
    pub along: Seq<Value>,
    pub across: Value,
}

/// The numbers whose exponentials are the decays in a frame, where a spring
/// depends on them.
pub struct Exponents {
    pub along: Seq<Option<Value>>,
    pub across: Option<Value>,
}

/// How far corner `i` still has to go.
pub open spec fn displacement(
    corners: Seq<CornerValue>,
    destination: Seq<PointValue>,
    i: int,
) -> PointValue {
    let visual = corners[i].drawn(destination[i]);
    destination[i].offset(visual.x, visual.y)
}

/// How far the first `n` corners have to go, all together.
pub open spec fn travel_of(
    corners: Seq<CornerValue>,
    destination: Seq<PointValue>,
    n: nat,
) -> PointValue
    decreases n,
{
    if n == 0 {
        PointValue { x: Value::zero(), y: Value::zero() }
    } else {
        let step = displacement(corners, destination, n - 1);
        travel_of(corners, destination, (n - 1) as nat).shifted(step.x, step.y)
    }
}

/// How far the corners have to go, on average.
pub open spec fn travel(corners: Seq<CornerValue>, destination: Seq<PointValue>) -> PointValue {
    let sum = travel_of(corners, destination, 4);
    PointValue { x: sum.x.over(Value::of(4)), y: sum.y.over(Value::of(4)) }
}

/// A jump within the line and of at most about two widths of the cursor.
pub open spec fn short_jump(destination: Seq<PointValue>, travel: PointValue) -> bool {
    let width = greater(magnitude(destination[1].x.minus(destination[0].x)), Value::of(1));
    let height = greater(magnitude(destination[2].y.minus(destination[1].y)), Value::of(1));
    let length = travel.x.times(travel.x).plus(travel.y.times(travel.y)).root();
    &&& less(length, width.times(Value::ratio(2001, 1000)))
    &&& less(magnitude(travel.y), height.times(Value::ratio(1, 2)))
}

impl Timing {
    /// Animation length of the corners on the leading edge.
    pub open spec fn leading(self) -> Value {
        self.animation_length.times(
            clamped(Value::of(1).minus(self.trail_size), Value::zero(), Value::of(1)),
        )
    }

    /// Animation length of a short jump.
    pub open spec fn quick(self) -> Value {
        lesser(self.animation_length, self.short_animation_length)
    }

    /// Animation length of all corners on the axis across a jump.
    pub open spec fn cross_length(
        self,
        destination: Seq<PointValue>,
        travel: PointValue,
    ) -> Value {
        if short_jump(destination, travel) {
            self.quick()
        } else {
            self.animation_length
        }
    }

    /// Animation length of corner `i` along a jump.
    pub open spec fn jump_length(
        self,
        destination: Seq<PointValue>,
        travel: PointValue,
        i: int,
    ) -> Value {
        if short_jump(destination, travel) {
            self.quick()
        } else if Direction::toward(travel.x, travel.y).leads(i) {
            self.leading()
        } else {
            self.animation_length
        }
    }
}

impl Corner {
    pub open spec fn view(&self) -> CornerValue {
        CornerValue {
            spring_x: self.spring_x@,
            spring_y: self.spring_y@,
            animation_length: self.animation_length@,
        }
    }

    /// Puts both springs on target.
    pub fn snap(&mut self)
        ensures
            final(self)@ == old(self)@.snapped(),
    {
        self.spring_x = Spring::default();
        self.spring_y = Spring::default();
    }

    /// Moves the target, and leaves the corner where it is on the screen.
    pub fn reanchor(&mut self, from: Point, to: Point)
        ensures
            final(self)@ == old(self)@.moved(from@, to@),
    {
        self.spring_x.position = self.spring_x.position.plus(to.x.minus(from.x));
        self.spring_y.position = self.spring_y.position.plus(to.y.minus(from.y));
    }

    /// Where the corner is drawn.
    pub fn drawn(&self, target: Point) -> (r: Point)
        ensures
            r@ == self@.drawn(target@),
    {
        target.offset(self.spring_x.position, self.spring_y.position)
    }

    /// The corner's own animation length, if one was set.
    pub fn length_or(&self, default: Single) -> (r: Single)
        ensures
            r@ == self@.length_or(default@),
    {
        usable_length(self.animation_length, default)
    }

    /// The spring on the axis of travel.
    fn spring_along(&self, axis: Axis) -> (r: Spring)
        ensures
            r@ == self@.along(axis),
    {
        match axis {
            Axis::Horizontal => self.spring_x,
            Axis::Vertical => self.spring_y,
        }
    }

    /// The spring on the other axis.
    fn spring_across(&self, axis: Axis) -> (r: Spring)
        ensures
            r@ == self@.across(axis),
    {
        match axis {
            Axis::Horizontal => self.spring_y,
            Axis::Vertical => self.spring_x,
        }
    }

    /// Advances both springs. Returns `true` while still animating.
    pub fn advance(&mut self, axis: Axis, along: Pace, across: Pace) -> (r: bool)
        ensures
            final(self)@ == old(self)@.advanced(axis, along@, across@),
            r == old(self)@.animating(axis, along@, across@),
    {
        let (x, y): (Pace, Pace) = match axis {
            Axis::Horizontal => (along, across),
            Axis::Vertical => (across, along),
        };
        let moving_x: bool = self.spring_x.advance(x.dt, x.length, x.decay);
        let moving_y: bool = self.spring_y.advance(y.dt, y.length, y.decay);
        moving_x || moving_y
    }
}

/// The length that was set, if one was; else the default.
fn usable_length(set: Single, default: Single) -> (r: Single)
    ensures
        r@ == length_in_use(set@, default@),
{
    if Single::zero().less(set) {
        set
    } else {
        default
    }
}

/// What a spring is advanced by in a frame.
#[derive(Clone, Copy, Debug)]
pub struct Pace {
    pub dt: Single,
    pub length: Single,
    pub decay: Single,
}

impl Pace {
    pub open spec fn view(&self) -> PaceValue {
        PaceValue { dt: self.dt@, length: self.length@, decay: self.decay@ }
    }
}

/// Decays in a frame: one for each corner along the axis of travel, and one
/// that all corners share on the other axis.
#[derive(Clone, Copy, Debug)]
pub struct Decays {
    pub along: [Single; 4],
    pub across: Single,
}

impl Decays {
    pub open spec fn view(&self) -> DecayValues {
        DecayValues { along: Seq::new(4, |i: int| self.along[i]@), across: self.across@ }
    }
}

/// What the frame is like.
#[derive(Clone, Copy)]
struct Frame {
    jumps: bool,
    elapsed: Single,
    default: Single,
}

impl Frame {
    spec fn view(&self) -> FrameValue {
        FrameValue { jumps: self.jumps, elapsed: self.elapsed@, default: self.default@ }
    }

    /// Seconds that a spring of the given animation length is advanced by.
    fn dt(&self, length: Single) -> (r: Single)
        ensures
            r@ == self@.dt(length@),
    {
        if !self.jumps && length.at_most(self.elapsed) {
            self.elapsed
        } else {
            self.elapsed.min(Single::ratio(1, 10))
        }
    }

    /// What such a spring is advanced by.
    fn pace(&self, length: Single, decay: Single) -> (r: Pace)
        ensures
            r@ == self@.pace(length@, decay@),
    {
        Pace { dt: self.dt(length), length, decay }
    }

    /// The number whose exponential is the decay, if the spring depends on it.
    fn exponent(&self, length: Single, moves: bool) -> (r: Option<Single>)
        ensures
            option_value(r) == (if moves {
                Some(decay_exponent(self@.dt(length@), length@))
            } else {
                None
            }),
    {
        if moves {
            Some(Spring::decay_exponent(self.dt(length), length))
        } else {
            None
        }
    }
}

/// A number, if there is one, as a value.
pub open spec fn option_value(number: Option<Single>) -> Option<Value> {
    match number {
        Some(x) => Some(x@),
        None => None,
    }
}

impl Default for Corner {
    fn default() -> (r: Corner)
        ensures
            r@ == (CornerValue {
                spring_x: SpringValue::settled(),
                spring_y: SpringValue::settled(),
                animation_length: Value::zero(),
            }),
    {
        Corner {
            spring_x: Spring::default(),
            spring_y: Spring::default(),
            animation_length: Single::zero(),
        }
    }
}

/// Nanoseconds as seconds: whole seconds, and the fraction in nanoseconds.
pub open spec fn seconds(nanos: nat) -> Value {
    Value::of(nanos / 1_000_000_000).plus(Value::ratio(nanos % 1_000_000_000, 1_000_000_000))
}

/// Nanoseconds as seconds.
pub fn as_seconds(nanos: u64) -> (r: Single)
    ensures
        r@ == seconds(nanos as nat),
{
    Single::natural(nanos / 1_000_000_000).plus(
        Single::ratio(nanos % 1_000_000_000, 1_000_000_000),
    )
}

/// The state of the animation, as numbers. `axis` is the one that the last
/// jump went along; all corners share `cross_length` on the other axis.
pub struct AnimationValue {
    pub corners: Seq<CornerValue>,
    pub axis: Axis,
    pub cross_length: Value,
    pub last_key: Option<CursorKey>,
    pub last_destination: Option<Seq<PointValue>>,
    pub last_frame_at: Option<u64>,
}

impl AnimationValue {
    /// Nothing seen yet.
    pub open spec fn fresh() -> AnimationValue {
        AnimationValue {
            corners: Seq::new(
                4,
                |i: int|
                    CornerValue {
                        spring_x: SpringValue::settled(),
                        spring_y: SpringValue::settled(),
                        animation_length: Value::zero(),
                    },
            ),
            axis: Axis::Horizontal,
            cross_length: Value::zero(),
            last_key: None,
            last_destination: None,
            last_frame_at: None,
        }
    }

    /// Seconds since the last frame; none before the first, nor where the
    /// clock went back.
    pub open spec fn elapsed(self, now: u64) -> Value {
        match self.last_frame_at {
            Some(at) => seconds(if now >= at {
                (now - at) as nat
            } else {
                0
            }),
            None => Value::zero(),
        }
    }

    /// The cursor is at another place in the buffer.
    pub open spec fn jumps(self, key: CursorKey) -> bool {
        self.last_key != Some(key)
    }

    /// What the frame is like.
    pub open spec fn frame(self, key: CursorKey, now: u64, timing: Timing) -> FrameValue {
        FrameValue {
            jumps: self.jumps(key),
            elapsed: self.elapsed(now),
            default: timing.animation_length,
        }
    }

    /// All corners on target.
    pub open spec fn snapped(self) -> AnimationValue {
        AnimationValue { corners: Seq::new(4, |i: int| self.corners[i].snapped()), ..self }
    }

    /// The target moves, the corners stay where they are on the screen.
    pub open spec fn moved(
        self,
        from: Seq<PointValue>,
        destination: Seq<PointValue>,
    ) -> AnimationValue {
        AnimationValue {
            corners: Seq::new(4, |i: int| self.corners[i].moved(from[i], destination[i])),
            ..self
        }
    }

    /// The corners take the lengths of the jump that they are anchored for.
    pub open spec fn timed(self, destination: Seq<PointValue>, timing: Timing) -> AnimationValue {
        let travel = travel(self.corners, destination);
        AnimationValue {
            corners: Seq::new(
                4,
                |i: int| self.corners[i].taking(timing.jump_length(destination, travel, i)),
            ),
            axis: Direction::toward(travel.x, travel.y).along(),
            cross_length: timing.cross_length(destination, travel),
            ..self
        }
    }

    /// The state with the new destination as the target of the corners.
    pub open spec fn anchored(
        self,
        key: CursorKey,
        destination: Seq<PointValue>,
        timing: Timing,
    ) -> AnimationValue {
        match self.last_destination {
            Some(from) => if self.jumps(key) {
                self.moved(from, destination).timed(destination, timing)
            } else if quad_same(from, destination) {
                self
            } else {
                self.snapped()
            },
            None => if self.jumps(key) {
                self.snapped()
            } else {
                self
            },
        }
    }

    /// The animation length to go by across the axis of travel.
    pub open spec fn cross_length_or(self, default: Value) -> Value {
        length_in_use(self.cross_length, default)
    }

    /// The corner is on a leading edge that takes no time at all, while the
    /// rest of the cursor takes some.
    pub open spec fn leads_at_once(self, i: int) -> bool {
        let length = self.corners[i].animation_length;
        same(length, Value::zero()) && less(length, self.cross_length)
    }

    /// The animation length to go by along the axis of travel. A leading edge
    /// that takes no time arrives with the first time that passes.
    pub open spec fn length_along(self, frame: FrameValue, i: int) -> Value {
        if self.leads_at_once(i) && less(Value::zero(), frame.elapsed) {
            Value::zero()
        } else {
            self.corners[i].length_or(frame.default)
        }
    }

    /// What corner `i` is advanced by along the axis of travel.
    pub open spec fn along(self, frame: FrameValue, decays: DecayValues, i: int) -> PaceValue {
        frame.pace(self.length_along(frame, i), decays.along[i])
    }

    /// What all corners are advanced by across it.
    pub open spec fn across(self, frame: FrameValue, decays: DecayValues) -> PaceValue {
        frame.pace(self.cross_length_or(frame.default), decays.across)
    }

    /// Some corner depends on the decay across the axis of travel.
    pub open spec fn moves_across(self, frame: FrameValue) -> bool {
        let length = self.cross_length_or(frame.default);
        exists|i: int|
            0 <= i < 4 && (#[trigger] self.corners[i]).across(self.axis).moves(
                frame.dt(length),
                length,
            )
    }

    /// For each decay that a corner depends on in the frame, the number whose
    /// exponential it is.
    pub open spec fn wanted(self, frame: FrameValue) -> Exponents {
        Exponents {
            along: Seq::new(
                4,
                |i: int|
                    {
                        let length = self.length_along(frame, i);
                        if self.corners[i].along(self.axis).moves(frame.dt(length), length) {
                            Some(decay_exponent(frame.dt(length), length))
                        } else {
                            None
                        }
                    },
            ),
            across: {
                let length = self.cross_length_or(frame.default);
                if self.moves_across(frame) {
                    Some(decay_exponent(frame.dt(length), length))
                } else {
                    None
                }
            },
        }
    }

    /// The corners after the frame.
    pub open spec fn advanced(self, frame: FrameValue, decays: DecayValues) -> Seq<CornerValue> {
        Seq::new(
            4,
            |i: int|
                self.corners[i].advanced(
                    self.axis,
                    self.along(frame, decays, i),
                    self.across(frame, decays),
                ),
        )
    }

    /// Some corner is still under way after the frame.
    pub open spec fn goes_on(self, frame: FrameValue, decays: DecayValues) -> bool {
        exists|i: int|
            0 <= i < 4 && (#[trigger] self.corners[i]).animating(
                self.axis,
                self.along(frame, decays, i),
                self.across(frame, decays),
            )
    }

    /// For each decay that matters in this frame, the number whose
    /// exponential it is.
    pub open spec fn exponents(
        self,
        key: CursorKey,
        destination: Seq<PointValue>,
        now: u64,
        timing: Timing,
    ) -> Exponents {
        self.anchored(key, destination, timing).wanted(self.frame(key, now, timing))
    }

    /// The state after this frame.
    pub open spec fn next(
        self,
        key: CursorKey,
        destination: Seq<PointValue>,
        now: u64,
        timing: Timing,
        decays: DecayValues,
    ) -> AnimationValue {
        let anchored = self.anchored(key, destination, timing);
        AnimationValue {
            corners: anchored.advanced(self.frame(key, now, timing), decays),
            last_key: Some(key),
            last_destination: Some(destination),
            last_frame_at: Some(now),
            ..anchored
        }
    }

    /// Where the corners are on the screen.
    pub open spec fn drawn(self, destination: Seq<PointValue>) -> Seq<PointValue> {
        Seq::new(4, |i: int| self.corners[i].drawn(destination[i]))
    }

    /// What is drawn in this frame.
    pub open spec fn painted(
        self,
        key: CursorKey,
        destination: Seq<PointValue>,
        now: u64,
        timing: Timing,
        decays: DecayValues,
    ) -> Seq<PointValue> {
        self.next(key, destination, now, timing, decays).drawn(destination)
    }

    /// Whether another frame is needed.
    pub open spec fn animating(
        self,
        key: CursorKey,
        destination: Seq<PointValue>,
        now: u64,
        timing: Timing,
        decays: DecayValues,
    ) -> bool {
        self.anchored(key, destination, timing).goes_on(self.frame(key, now, timing), decays)
    }
}

/// Animation lengths and trail size, as numbers.
pub open spec fn timing_of(
    animation_length: Single,
    short_animation_length: Single,
    trail_size: Single,
) -> Timing {
    Timing {
        animation_length: animation_length@,
        short_animation_length: short_animation_length@,
        trail_size: trail_size@,
    }
}

/// `exp` gave each decay that is needed.
pub open spec fn decayed_by<E: Fn(Single) -> Single>(
    exp: E,
    exponents: Exponents,
    decays: Decays,
) -> bool {
    &&& forall|i: int|
        0 <= i < 4 && exponents.along[i] is Some ==> answers(
            exp,
            exponents.along[i]->Some_0,
            #[trigger] decays.along[i],
        )
    &&& exponents.across is Some ==> answers(exp, exponents.across->Some_0, decays.across)
}

/// Animation state of the newest cursor of an editor. Only the newest cursor
/// gets a trail.
pub struct CursorAnimationState {
    corners: [Corner; 4],
    axis: Axis,
    cross_length: Single,
    last_key: Option<CursorKey>,
    last_destination: Option<Quad>,
    last_frame_at: Option<u64>,
}

/// The corners, as numbers.
pub open spec fn corner_values(corners: [Corner; 4]) -> Seq<CornerValue> {
    Seq::new(4, |i: int| corners[i]@)
}

impl CursorAnimationState {
    pub closed spec fn view(&self) -> AnimationValue {
        AnimationValue {
            corners: corner_values(self.corners),
            axis: self.axis,
            cross_length: self.cross_length@,
            last_key: self.last_key,
            last_destination: match self.last_destination {
                Some(q) => Some(quad_value(q)),
                None => None,
            },
            last_frame_at: self.last_frame_at,
        }
    }
}

impl Default for CursorAnimationState {
    fn default() -> (r: CursorAnimationState)
        ensures
            r@ == AnimationValue::fresh(),
    {
        let r = CursorAnimationState {
            corners: [Corner::default(), Corner::default(), Corner::default(), Corner::default()],
            axis: Axis::Horizontal,
            cross_length: Single::zero(),
            last_key: None,
            last_destination: None,
            last_frame_at: None,
        };
        assert(r@.corners =~= AnimationValue::fresh().corners);
        r
    }
}

impl CursorAnimationState {
    /// Clears any animation in progress. Used when the cursor leaves the
    /// viewport or animation is disabled.
    pub fn reset(&mut self)
        ensures
            final(self)@ == AnimationValue::fresh(),
    {
        *self = CursorAnimationState::default();
    }

    /// Whether the cursor is at another place in the buffer.
    fn jumps(&self, key: CursorKey) -> (r: bool)
        ensures
            r == self@.jumps(key),
    {
        match self.last_key {
            Some(last) => last.0 != key.0 || last.1 != key.1,
            None => true,
        }
    }

    /// Seconds since the last frame.
    fn elapsed(&self, now: u64) -> (r: Single)
        ensures
            r@ == self@.elapsed(now),
    {
        match self.last_frame_at {
            Some(at) => as_seconds(
                if now >= at {
                    now - at
                } else {
                    0
                },
            ),
            None => Single::zero(),
        }
    }

    /// Puts all corners on target.
    fn snap(&mut self)
        ensures
            final(self)@ == old(self)@.snapped(),
    {
        let mut i: usize = 0;
        while i < 4
            invariant
                i <= 4,
                forall|j: int|
                    0 <= j < i ==> (#[trigger] self.corners[j])@ == old(
                        self,
                    )@.corners[j].snapped(),
                forall|j: int|
                    i <= j < 4 ==> (#[trigger] self.corners[j])@ == old(self)@.corners[j],
                self.rest() == old(self).rest(),
            decreases 4 - i,
        {
            self.corners[i].snap();
            i = i + 1;
        }
        assert(self@.corners =~= old(self)@.snapped().corners);
    }

    /// All but the corners.
    spec fn rest(&self) -> (Axis, Single, Option<CursorKey>, Option<Quad>, Option<u64>) {
        (self.axis, self.cross_length, self.last_key, self.last_destination, self.last_frame_at)
    }

    /// Moves the target, and leaves the corners where they are on the screen.
    fn reanchor(&mut self, from: &Quad, destination: &Quad)
        ensures
            final(self)@ == old(self)@.moved(quad_value(*from), quad_value(*destination)),
    {
        let ghost moved = self@.moved(quad_value(*from), quad_value(*destination)).corners;
        let mut i: usize = 0;
        while i < 4
            invariant
                i <= 4,
                moved == old(self)@.moved(quad_value(*from), quad_value(*destination)).corners,
                forall|j: int| 0 <= j < i ==> (#[trigger] self.corners[j])@ == moved[j],
                forall|j: int|
                    i <= j < 4 ==> (#[trigger] self.corners[j])@ == old(self)@.corners[j],
                self.rest() == old(self).rest(),
            decreases 4 - i,
        {
            self.corners[i].reanchor(from[i], destination[i]);
            i = i + 1;
        }
        assert(self@.corners =~= moved);
    }

    /// How far the corners have to go, on average.
    fn travel(&self, destination: &Quad) -> (r: Point)
        ensures
            r@ == travel(self@.corners, quad_value(*destination)),
    {
        let ghost to = quad_value(*destination);
        let mut x: Single = Single::zero();
        let mut y: Single = Single::zero();
        let mut i: usize = 0;
        while i < 4
            invariant
                i <= 4,
                to == quad_value(*destination),
                x@ == travel_of(self@.corners, to, i as nat).x,
                y@ == travel_of(self@.corners, to, i as nat).y,
            decreases 4 - i,
        {
            let visual: Point = self.corners[i].drawn(destination[i]);
            let step: Point = destination[i].offset(visual.x, visual.y);
            assert(step@ == displacement(self@.corners, to, i as int));
            x = x.plus(step.x);
            y = y.plus(step.y);
            i = i + 1;
        }
        Point { x: x.over(Single::natural(4)), y: y.over(Single::natural(4)) }
    }

    /// Sets how long the corners take for the jump that they are anchored for.
    /// Corners are paired by the dominant axis of travel, so that only two
    /// lengths are in play: the leading edge arrives first and the trailing
    /// edge lags, while on the other axis all corners keep step. So the cursor
    /// is stretched on the way and stays an upright rectangle: it is not
    /// tilted into a parallelogram when a jump is diagonal.
    fn set_jump_animation_lengths(
        &mut self,
        destination: &Quad,
        animation_length: Single,
        short_animation_length: Single,
        trail_size: Single,
    )
        ensures
            final(self)@ == old(self)@.timed(
                quad_value(*destination),
                timing_of(animation_length, short_animation_length, trail_size),
            ),
    {
        let ghost to = quad_value(*destination);
        let ghost timing = timing_of(animation_length, short_animation_length, trail_size);
        let ghost before = self@.corners;
        let ghost whole = travel(before, to);
        let one: Single = Single::natural(1);
        let width: Single = destination[1].x.minus(destination[0].x).abs().max(one);
        let height: Single = destination[2].y.minus(destination[1].y).abs().max(one);
        let travel: Point = self.travel(destination);
        let length: Single = travel.x.times(travel.x).plus(travel.y.times(travel.y)).sqrt();
        let short: bool = length.less(width.times(Single::ratio(2001, 1000)))
            && travel.y.abs().less(height.times(Single::ratio(1, 2)));
        assert(short == short_jump(to, whole));
        let quick: Single = animation_length.min(short_animation_length);
        proof {
            lemma_zero_below_one();
        }
        let leading: Single = animation_length.times(
            one.minus(trail_size).clamp(Single::zero(), one),
        );
        let direction: Direction = Direction::of(travel.x, travel.y);
        let leads: [bool; 4] = direction.leading_corners();
        self.axis = direction.axis();
        self.cross_length = if short {
            quick
        } else {
            animation_length
        };
        let ghost rest = self.rest();
        let mut i: usize = 0;
        while i < 4
            invariant
                i <= 4,
                forall|j: int|
                    0 <= j < i ==> (#[trigger] self.corners[j])@ == before[j].taking(
                        timing.jump_length(to, whole, j),
                    ),
                forall|j: int| i <= j < 4 ==> (#[trigger] self.corners[j])@ == before[j],
                self.rest() == rest,
                short == short_jump(to, whole),
                quick@ == timing.quick(),
                leading@ == timing.leading(),
                animation_length@ == timing.animation_length,
                forall|j: int|
                    0 <= j < 4 ==> #[trigger] leads[j] == Direction::toward(
                        whole.x,
                        whole.y,
                    ).leads(j),
            decreases 4 - i,
        {
            self.corners[i].animation_length =
            if short {
                quick
            } else if leads[i] {
                leading
            } else {
                animation_length
            };
            i = i + 1;
        }
        assert(self@.corners =~= old(self)@.timed(to, timing).corners);
    }

    /// Makes the destination the target of the corners.
    fn anchor(
        &mut self,
        key: CursorKey,
        destination: &Quad,
        animation_length: Single,
        short_animation_length: Single,
        trail_size: Single,
    )
        ensures
            final(self)@ == old(self)@.anchored(
                key,
                quad_value(*destination),
                timing_of(animation_length, short_animation_length, trail_size),
            ),
    {
        let jumps: bool = self.jumps(key);
        match self.last_destination {
            Some(from) => {
                if jumps {
                    self.reanchor(&from, destination);
                    self.set_jump_animation_lengths(
                        destination,
                        animation_length,
                        short_animation_length,
                        trail_size,
                    );
                } else if !same_quad(&from, destination) {
                    self.snap();
                }
            },
            None => {
                if jumps {
                    self.snap();
                }
            },
        }
    }

    /// What the frame is like, before the corners are anchored.
    fn frame(&self, key: CursorKey, now: u64, animation_length: Single) -> (r: Frame)
        ensures
            r@ == (FrameValue {
                jumps: self@.jumps(key),
                elapsed: self@.elapsed(now),
                default: animation_length@,
            }),
    {
        Frame { jumps: self.jumps(key), elapsed: self.elapsed(now), default: animation_length }
    }

    /// The animation length to go by along the axis of travel.
    fn length_along(&self, frame: Frame, i: usize) -> (r: Single)
        requires
            i < 4,
        ensures
            r@ == self@.length_along(frame@, i as int),
    {
        let length: Single = self.corners[i].animation_length;
        if length.same(Single::zero()) && length.less(self.cross_length)
            && Single::zero().less(frame.elapsed) {
            Single::zero()
        } else {
            self.corners[i].length_or(frame.default)
        }
    }

    /// What corner `i` is advanced by along the axis of travel.
    fn pace_along(&self, frame: Frame, decays: &Decays, i: usize) -> (r: Pace)
        requires
            i < 4,
        ensures
            r@ == self@.along(frame@, decays@, i as int),
    {
        frame.pace(self.length_along(frame, i), decays.along[i])
    }

    /// For each decay that a corner depends on in the frame, the number whose
    /// exponential it is. The corners must be anchored.
    fn wanted(&self, frame: Frame) -> (r: ([Option<Single>; 4], Option<Single>))
        ensures
            forall|i: int|
                0 <= i < 4 ==> option_value(#[trigger] r.0[i]) == self@.wanted(frame@).along[i],
            option_value(r.1) == self@.wanted(frame@).across,
    {
        let mut along: [Option<Single>; 4] = [None, None, None, None];
        let cross: Single = usable_length(self.cross_length, frame.default);
        let cross_dt: Single = frame.dt(cross);
        let mut moving: [bool; 4] = [false, false, false, false];
        let mut i: usize = 0;
        while i < 4
            invariant
                i <= 4,
                cross@ == self@.cross_length_or(frame@.default),
                cross_dt@ == frame@.dt(cross@),
                forall|j: int|
                    0 <= j < i ==> option_value(#[trigger] along[j])
                        == self@.wanted(frame@).along[j],
                forall|j: int|
                    0 <= j < i ==> #[trigger] moving[j] == self@.corners[j].across(
                        self@.axis,
                    ).moves(cross_dt@, cross@),
            decreases 4 - i,
        {
            let length: Single = self.length_along(frame, i);
            let moves: bool = self.corners[i].spring_along(self.axis).moves(
                frame.dt(length),
                length,
            );
            along[i] = frame.exponent(length, moves);
            moving[i] = self.corners[i].spring_across(self.axis).moves(cross_dt, cross);
            i = i + 1;
        }
        let moves: bool = moving[0] || moving[1] || moving[2] || moving[3];
        assert(forall|j: int| 0 <= j < 4 && #[trigger] moving[j] ==> moves);
        assert(moves == self@.moves_across(frame@)) by {
            if moves {
                let i: int = if moving[0] {
                    0
                } else if moving[1] {
                    1
                } else if moving[2] {
                    2
                } else {
                    3
                };
                assert(moving[i]);
                assert(self@.corners[i].across(self@.axis).moves(cross_dt@, cross@));
            }
        }
        (along, frame.exponent(cross, moves))
    }

    /// Advances the corners, which are anchored, draws them, and records what
    /// the frame was drawn for.
    fn finish(
        &mut self,
        frame: Frame,
        key: CursorKey,
        destination: Quad,
        now: u64,
        decays: &Decays,
    ) -> (r: (Quad, bool))
        ensures
            final(self)@ == (AnimationValue {
                corners: old(self)@.advanced(frame@, decays@),
                last_key: Some(key),
                last_destination: Some(quad_value(destination)),
                last_frame_at: Some(now),
                ..old(self)@
            }),
            quad_value(r.0) == final(self)@.drawn(quad_value(destination)),
            r.1 == old(self)@.goes_on(frame@, decays@),
    {
        let ghost before = self@;
        let ghost rest = self.rest();
        let across: Pace = frame.pace(
            usable_length(self.cross_length, frame.default),
            decays.across,
        );
        let mut painted: Quad = [
            Point::default(),
            Point::default(),
            Point::default(),
            Point::default(),
        ];
        let mut going: [bool; 4] = [false, false, false, false];
        let mut i: usize = 0;
        while i < 4
            invariant
                i <= 4,
                before == old(self)@,
                across@ == before.across(frame@, decays@),
                forall|j: int|
                    0 <= j < i ==> (#[trigger] self.corners[j])@ == before.advanced(
                        frame@,
                        decays@,
                    )[j],
                forall|j: int| i <= j < 4 ==> (#[trigger] self.corners[j])@ == before.corners[j],
                forall|j: int|
                    0 <= j < i ==> (#[trigger] painted[j])@ == self.corners[j]@.drawn(
                        quad_value(destination)[j],
                    ),
                forall|j: int|
                    0 <= j < i ==> #[trigger] going[j] == before.corners[j].animating(
                        before.axis,
                        before.along(frame@, decays@, j),
                        across@,
                    ),
                self.rest() == rest,
                before.axis == self.axis,
                before.cross_length == self.cross_length@,
            decreases 4 - i,
        {
            assert(self@.corners[i as int] == before.corners[i as int]);
            let along: Pace = self.pace_along(frame, decays, i);
            assert(along@ == before.along(frame@, decays@, i as int));
            going[i] = self.corners[i].advance(self.axis, along, across);
            painted[i] = self.corners[i].drawn(destination[i]);
            i = i + 1;
        }
        let animating: bool = going[0] || going[1] || going[2] || going[3];
        assert(forall|j: int| 0 <= j < 4 && #[trigger] going[j] ==> animating);
        assert(animating == before.goes_on(frame@, decays@)) by {
            if animating {
                let i: int = if going[0] {
                    0
                } else if going[1] {
                    1
                } else if going[2] {
                    2
                } else {
                    3
                };
                assert(going[i]);
                assert(before.corners[i].animating(
                    before.axis,
                    before.along(frame@, decays@, i),
                    before.across(frame@, decays@),
                ));
            }
        }
        assert(self@.corners =~= before.advanced(frame@, decays@));
        self.last_key = Some(key);
        self.last_destination = Some(destination);
        self.last_frame_at = Some(now);
        assert(quad_value(painted) =~= self@.drawn(quad_value(destination)));
        (painted, animating)
    }

    /// One frame, as [`CursorAnimationState::step`] makes it, where the decays
    /// are known.
    pub fn step_decayed(
        &mut self,
        key: CursorKey,
        destination: Quad,
        now: u64,
        animation_length: Single,
        short_animation_length: Single,
        trail_size: Single,
        decays: &Decays,
    ) -> (r: (Quad, bool))
        ensures
            ({
                let to = quad_value(destination);
                let timing = timing_of(animation_length, short_animation_length, trail_size);
                &&& final(self)@ == old(self)@.next(key, to, now, timing, decays@)
                &&& quad_value(r.0) == old(self)@.painted(key, to, now, timing, decays@)
                &&& r.1 == old(self)@.animating(key, to, now, timing, decays@)
            }),
    {
        let frame: Frame = self.frame(key, now, animation_length);
        self.anchor(key, &destination, animation_length, short_animation_length, trail_size);
        self.finish(frame, key, destination, now, decays)
    }

    /// Returns the four corners of the cursor as they are drawn in this frame,
    /// and whether the animation is still running, so that the caller can
    /// schedule another frame. `destination` is the rectangle that the cursor
    /// would occupy if drawn rigidly; `now` is in nanoseconds; `exp` is the
    /// exponential function.
    pub fn step<E: Fn(Single) -> Single>(
        &mut self,
        key: CursorKey,
        destination: Quad,
        now: u64,
        animation_length: Single,
        short_animation_length: Single,
        trail_size: Single,
        exp: &E,
    ) -> (r: (Quad, bool))
        requires
            forall|x: Single| call_requires(exp, (x,)),
        ensures
            ({
                let to = quad_value(destination);
                let timing = timing_of(animation_length, short_animation_length, trail_size);
                let exponents = old(self)@.exponents(key, to, now, timing);
                exists|decays: Decays|
                    {
                        &&& #[trigger] decayed_by(*exp, exponents, decays)
                        &&& final(self)@ == old(self)@.next(key, to, now, timing, decays@)
                        &&& quad_value(r.0) == old(self)@.painted(key, to, now, timing, decays@)
                        &&& r.1 == old(self)@.animating(key, to, now, timing, decays@)
                    }
            }),
    {
        let frame: Frame = self.frame(key, now, animation_length);
        self.anchor(key, &destination, animation_length, short_animation_length, trail_size);
        let (wanted, wanted_across): ([Option<Single>; 4], Option<Single>) = self.wanted(frame);
        let mut along: [Single; 4] = [
            Single::zero(),
            Single::zero(),
            Single::zero(),
            Single::zero(),
        ];
        let mut i: usize = 0;
        while i < 4
            invariant
                i <= 4,
                forall|x: Single| call_requires(exp, (x,)),
                forall|j: int|
                    0 <= j < i && wanted[j] is Some ==> answers(
                        *exp,
                        wanted[j]->Some_0@,
                        #[trigger] along[j],
                    ),
            decreases 4 - i,
        {
            if let Some(x) = wanted[i] {
                let decay: Single = exp(x);
                assert(answers(*exp, x@, decay));
                along[i] = decay;
            }
            i = i + 1;
        }
        let across: Single = match wanted_across {
            Some(x) => {
                let decay: Single = exp(x);
                assert(answers(*exp, x@, decay));
                decay
            },
            None => Single::zero(),
        };
        let decays: Decays = Decays { along, across };
        proof {
            let exponents = self@.wanted(frame@);
            assert forall|j: int| 0 <= j < 4 && exponents.along[j] is Some implies answers(
                *exp,
                exponents.along[j]->Some_0,
                #[trigger] decays.along[j],
            ) by {
                assert(option_value(wanted[j]) == exponents.along[j]);
            }
            assert(decayed_by(*exp, exponents, decays));
        }
        self.finish(frame, key, destination, now, &decays)
    }
}

} // verus!
