//! The body of an actor as every participant sees it.

use vstd::prelude::*;
use vstd::arithmetic::power2::lemma2_to64;
use vstd::arithmetic::power2::lemma_pow2_adds;
use vstd::arithmetic::power2::pow2;

use crate::limb::Limb;
use crate::scalar::Scalar;

verus! {

/// The bit pattern of the number one.
pub const ONE_BITS: u32 = 0x3f80_0000;

impl Scalar {
    /// The number one.
    pub fn one() -> (r: Scalar)
        ensures
            r.bits == ONE_BITS,
            r.scaled() == pow2(149),
            r.finite(),
    {
        let r = Scalar { bits: ONE_BITS };
        proof {
            assert(r.exponent() == 127 && r.fraction() == 0);
            lemma2_to64();
            lemma_pow2_adds(23, 126);
        }
        r
    }
}

/// A point or a displacement in the plane: `x` runs across the track, `y`
/// along it.
#[derive(Clone, Copy, Debug, PartialEq, Eq)]
pub struct Vec2 {
    pub x: Scalar,
    pub y: Scalar,
}

impl Vec2 {
    /// The point with the given coordinates.
    pub fn new(x: Scalar, y: Scalar) -> (r: Vec2)
        ensures
            r.x == x,
            r.y == y,
    {
        Vec2 { x, y }
    }
}

/// What changes of a limb while an actor crawls, and the angle that it is
/// attached at.
#[derive(Clone, Copy, Debug, PartialEq, Eq)]
pub struct LimbState {
    /// The angle by which the limb is turned away from its rest position.
    pub rotation: Scalar,
    /// The angle of the rest position, fixed when the actor spawns.
    pub angle: Scalar,
}

/// The state of each of the four limbs.
#[derive(Clone, Copy, Debug, PartialEq, Eq)]
pub struct Limbs {
    pub left_arm: LimbState,
    pub right_arm: LimbState,
    pub left_leg: LimbState,
    pub right_leg: LimbState,
}

impl Limbs {
    /// The state of the given limb.
    pub open spec fn at(self, limb: Limb) -> LimbState {
        match limb {
            Limb::LeftArm => self.left_arm,
            Limb::RightArm => self.right_arm,
            Limb::LeftLeg => self.left_leg,
            Limb::RightLeg => self.right_leg,
        }
    }

    /// The states with that of the given limb replaced.
    pub open spec fn with(self, limb: Limb, state: LimbState) -> Limbs {
        match limb {
            Limb::LeftArm => Limbs { left_arm: state, ..self },
            Limb::RightArm => Limbs { right_arm: state, ..self },
            Limb::LeftLeg => Limbs { left_leg: state, ..self },
            Limb::RightLeg => Limbs { right_leg: state, ..self },
        }
    }

    /// The state of the given limb.
    pub fn get(&self, limb: Limb) -> (r: LimbState)
        ensures
            r == self.at(limb),
    {
        match limb {
            Limb::LeftArm => self.left_arm,
            Limb::RightArm => self.right_arm,
            Limb::LeftLeg => self.left_leg,
            Limb::RightLeg => self.right_leg,
        }
    }

    /// Replaces the state of the given limb and leaves the others.
    pub fn set(&mut self, limb: Limb, state: LimbState)
        ensures
            *final(self) == old(self).with(limb, state),
    {
        match limb {
            Limb::LeftArm => {
                self.left_arm = state;
            },
            Limb::RightArm => {
                self.right_arm = state;
            },
            Limb::LeftLeg => {
                self.left_leg = state;
            },
            Limb::RightLeg => {
                self.right_leg = state;
            },
        }
    }
}

/// The rest angle of each limb, in radians.
#[derive(Clone, Copy, Debug, PartialEq, Eq)]
pub struct RestAngles {
    pub left_arm: Scalar,
    pub right_arm: Scalar,
    pub left_leg: Scalar,
    pub right_leg: Scalar,
}

impl RestAngles {
    /// The rest angle of the given limb.
    pub open spec fn at(self, limb: Limb) -> Scalar {
        match limb {
            Limb::LeftArm => self.left_arm,
            Limb::RightArm => self.right_arm,
            Limb::LeftLeg => self.left_leg,
            Limb::RightLeg => self.right_leg,
        }
    }
}

/// What an actor's body is built to: its size and the rest angles of its
/// limbs.
#[derive(Clone, Copy, Debug, PartialEq, Eq)]
pub struct BodyShape {
    pub radius: Scalar,
    pub rest_angles: RestAngles,
}

/// The body of one actor: where it is, how it is turned, and the state of
/// each of its four limbs.
#[derive(Clone, Copy, Debug, PartialEq, Eq)]
pub struct Baby {
    pub pos: Vec2,
    pub rotation: Scalar,
    pub head_rotation: Scalar,
    pub radius: Scalar,
    pub limbs: Limbs,
}

impl Baby {
    /// The body that spawns at `pos` with the given shape: nothing is
    /// turned, and every limb is at rest. Without a shape the radius is one
    /// and every rest angle zero.
    pub open spec fn spawned(shape: Option<BodyShape>, pos: Vec2) -> Baby {
        let radius = match shape {
            Some(shape) => shape.radius,
            None => Scalar { bits: ONE_BITS },
        };
        let rest = match shape {
            Some(shape) => shape.rest_angles,
            None => RestAngles {
                left_arm: Scalar { bits: 0 },
                right_arm: Scalar { bits: 0 },
                left_leg: Scalar { bits: 0 },
                right_leg: Scalar { bits: 0 },
            },
        };
        Baby {
            pos,
            rotation: Scalar { bits: 0 },
            head_rotation: Scalar { bits: 0 },
            radius,
            limbs: Limbs {
                left_arm: LimbState { rotation: Scalar { bits: 0 }, angle: rest.left_arm },
                right_arm: LimbState { rotation: Scalar { bits: 0 }, angle: rest.right_arm },
                left_leg: LimbState { rotation: Scalar { bits: 0 }, angle: rest.left_leg },
                right_leg: LimbState { rotation: Scalar { bits: 0 }, angle: rest.right_leg },
            },
        }
    }

    /// A fresh body at `pos`.
    pub fn new(shape: Option<&BodyShape>, pos: Vec2) -> (r: Baby)
        ensures
            r == Baby::spawned(
                match shape {
                    Some(shape) => Some(*shape),
                    None => None,
                },
                pos,
            ),
    {
        let zero = Scalar::zero();
        let radius = match shape {
            Some(shape) => shape.radius,
            None => Scalar::one(),
        };
        let rest = match shape {
            Some(shape) => shape.rest_angles,
            None => RestAngles { left_arm: zero, right_arm: zero, left_leg: zero, right_leg: zero },
        };
        Baby {
            pos,
            rotation: zero,
            head_rotation: zero,
            radius,
            limbs: Limbs {
                left_arm: LimbState { rotation: zero, angle: rest.left_arm },
                right_arm: LimbState { rotation: zero, angle: rest.right_arm },
                left_leg: LimbState { rotation: zero, angle: rest.left_leg },
                right_leg: LimbState { rotation: zero, angle: rest.right_leg },
            },
        }
    }
}

} // verus!
