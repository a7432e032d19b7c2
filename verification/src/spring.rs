//! A critically damped spring.

use vstd::prelude::*;

use crate::float::{at_most, less, magnitude, opposite, Value};
use crate::single::Single;

verus! {

/// Critically damped spring. `position` is the offset from the target; the
/// spring decays it toward zero over an animation length, in seconds.
#[derive(Clone, Copy, Debug)]
pub struct Spring {
    pub position: Single,
    pub velocity: Single,
}

/// The state of a spring, as numbers.
pub struct SpringValue {
    pub position: Value,
    pub velocity: Value,
}

/// Angular frequency, chosen so that the spring settles to about 2% within
/// the animation length: `(1 + x) * exp(-x)` is about 2% for an `x` of 5.83.
pub open spec fn omega(animation_length: Value) -> Value {
    Value::ratio(583, 100).over(animation_length)
}

/// The decay over `dt` seconds is the exponential of this.
pub open spec fn decay_exponent(dt: Value, animation_length: Value) -> Value {
    opposite(omega(animation_length)).times(dt)
}

/// Offsets below this are not worth another frame.
pub open spec fn tolerance() -> Value {
    Value::ratio(1, 100)
}

/// `f` may return `decay` when it is asked for `x`.
pub open spec fn answers<E: Fn(Single) -> Single>(f: E, x: Value, decay: Single) -> bool {
    exists|a: Single| a@ == x && #[trigger] call_ensures(f, (a,), decay)
}

impl SpringValue {
    /// On target, without motion.
    pub open spec fn settled() -> SpringValue {
        SpringValue { position: Value::zero(), velocity: Value::zero() }
    }

    /// On target, without motion; the zeros may have either sign.
    pub open spec fn at_rest(self) -> bool {
        self.position.is_zero() && self.velocity.is_zero()
    }

    /// The next frame depends on the decay.
    pub open spec fn moves(self, dt: Value, animation_length: Value) -> bool {
        !at_most(animation_length, dt) && !self.at_rest()
    }

    /// The analytic solution of the critically damped oscillator after `dt`
    /// seconds.
    pub open spec fn swung(self, dt: Value, animation_length: Value, decay: Value) -> SpringValue {
        let w = omega(animation_length);
        let a = self.position;
        let b = self.position.times(w).plus(self.velocity);
        SpringValue {
            position: a.plus(b.times(dt)).times(decay),
            velocity: decay.times(
                opposite(a).times(w).minus(b.times(dt).times(w)).plus(b),
            ),
        }
    }

    /// The spring after `dt` seconds.
    pub open spec fn advanced(
        self,
        dt: Value,
        animation_length: Value,
        decay: Value,
    ) -> SpringValue {
        let next = self.swung(dt, animation_length, decay);
        if at_most(animation_length, dt) {
            SpringValue::settled()
        } else if self.at_rest() {
            self
        } else if less(magnitude(next.position), tolerance()) {
            SpringValue::settled()
        } else {
            next
        }
    }

    /// Whether the spring is still under way after `dt` seconds.
    pub open spec fn animating(self, dt: Value, animation_length: Value, decay: Value) -> bool {
        &&& self.moves(dt, animation_length)
        &&& !less(magnitude(self.swung(dt, animation_length, decay).position), tolerance())
    }
}

impl Spring {
    pub open spec fn view(&self) -> SpringValue {
        SpringValue { position: self.position@, velocity: self.velocity@ }
    }

    /// Whether the next frame depends on the decay.
    pub fn moves(&self, dt: Single, animation_length: Single) -> (r: bool)
        ensures
            r == self@.moves(dt@, animation_length@),
    {
        !animation_length.at_most(dt) && !(self.position.same(Single::zero())
            && self.velocity.same(Single::zero()))
    }

    /// The number whose exponential is the decay over `dt` seconds.
    pub fn decay_exponent(dt: Single, animation_length: Single) -> (r: Single)
        ensures
            r@ == decay_exponent(dt@, animation_length@),
    {
        Single::ratio(583, 100).over(animation_length).negated().times(dt)
    }

    /// Advances the spring by `dt` seconds, with the decay over that time.
    /// Returns `true` while still animating.
    pub fn advance(&mut self, dt: Single, animation_length: Single, decay: Single) -> (r: bool)
        ensures
            final(self)@ == old(self)@.advanced(dt@, animation_length@, decay@),
            r == old(self)@.animating(dt@, animation_length@, decay@),
    {
        if animation_length.at_most(dt) {
            self.position = Single::zero();
            self.velocity = Single::zero();
            return false;
        }
        if self.position.same(Single::zero()) && self.velocity.same(Single::zero()) {
            return false;
        }
        let w: Single = Single::ratio(583, 100).over(animation_length);
        let a: Single = self.position;
        let b: Single = self.position.times(w).plus(self.velocity);
        self.position = a.plus(b.times(dt)).times(decay);
        self.velocity =
        decay.times(a.negated().times(w).minus(b.times(dt).times(w)).plus(b));
        if self.position.abs().less(Single::ratio(1, 100)) {
            self.position = Single::zero();
            self.velocity = Single::zero();
            false
        } else {
            true
        }
    }

    /// Advances the spring by `dt` seconds; `exp` is the exponential function.
    /// Returns `true` while still animating.
    pub fn update<E: Fn(Single) -> Single>(
        &mut self,
        dt: Single,
        animation_length: Single,
        exp: &E,
    ) -> (r: bool)
        requires
            forall|x: Single| call_requires(exp, (x,)),
        ensures
            exists|decay: Single|
                {
                    &&& old(self)@.moves(dt@, animation_length@) ==> #[trigger] answers(
                        *exp,
                        decay_exponent(dt@, animation_length@),
                        decay,
                    )
                    &&& final(self)@ == old(self)@.advanced(dt@, animation_length@, decay@)
                    &&& r == old(self)@.animating(dt@, animation_length@, decay@)
                },
    {
        let decay: Single = if self.moves(dt, animation_length) {
            let x: Single = Spring::decay_exponent(dt, animation_length);
            let decay: Single = exp(x);
            assert(answers(*exp, x@, decay));
            decay
        } else {
            Single::zero()
        };
        // The decay that the contract speaks of.
        let ghost given = answers(*exp, decay_exponent(dt@, animation_length@), decay);
        self.advance(dt, animation_length, decay)
    }
}

impl Default for Spring {
    fn default() -> (r: Spring)
        ensures
            r@ == SpringValue::settled(),
    {
        Spring { position: Single::zero(), velocity: Single::zero() }
    }
}

} // verus!
