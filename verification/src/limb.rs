//! The four limbs of an actor.

use vstd::prelude::*;

verus! {

/// One of the four limbs that an actor drags itself along with.
#[derive(Clone, Copy, Debug, PartialEq, Eq, Hash, Structural)]
pub enum Limb {
    LeftArm,
    RightArm,
    LeftLeg,
    RightLeg,
}

impl Limb {
    /// The place of the limb in the fixed order of the limbs: left arm,
    /// right arm, left leg, right leg.
    pub open spec fn rank(self) -> int {
        match self {
            Limb::LeftArm => 0,
            Limb::RightArm => 1,
            Limb::LeftLeg => 2,
            Limb::RightLeg => 3,
        }
    }

    /// The limbs in their fixed order.
    pub open spec fn ordered() -> Seq<Limb> {
        seq![Limb::LeftArm, Limb::RightArm, Limb::LeftLeg, Limb::RightLeg]
    }

    /// Whether the limb is a leg.
    pub fn is_leg(&self) -> (r: bool)
        ensures
            r == (*self == Limb::LeftLeg || *self == Limb::RightLeg),
    {
        match self {
            Limb::LeftArm | Limb::RightArm => false,
            Limb::LeftLeg | Limb::RightLeg => true,
        }
    }

    /// All limbs, in their fixed order.
    pub fn all() -> (limbs: [Limb; 4])
        ensures
            limbs@ == Limb::ordered(),
    {
        [Limb::LeftArm, Limb::RightArm, Limb::LeftLeg, Limb::RightLeg]
    }

    /// The place of the limb in the fixed order.
    pub fn index(self) -> (i: usize)
        ensures
            i == self.rank(),
            Limb::ordered()[i as int] == self,
    {
        match self {
            Limb::LeftArm => 0,
            Limb::RightArm => 1,
            Limb::LeftLeg => 2,
            Limb::RightLeg => 3,
        }
    }
}

} // verus!
