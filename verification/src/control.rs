//! Crawling: what an actor's controls decide, frame by frame.
//!
//! The geometry of a crawl (angles, rotations, lengths) is computed outside
//! this library, in floating point. Here stand the decisions around it: which
//! limb the pointer takes hold of and how long it stays held, where the track
//! ends, which bodies push an actor away, and the limits within which every
//! rotation is kept.

use vstd::prelude::*;

use crate::limb::Limb;
use crate::pose::Baby;
use crate::pose::BodyShape;
use crate::pose::LimbState;
use crate::pose::Vec2;
use crate::scalar::Scalar;
use crate::scalar::lemma_clamped_abs_within;

verus! {

/// What the controls hold on to from frame to frame: the limb that the
/// pointer took hold of, and the point of the ground that this limb grips.
#[derive(Clone, Copy, Debug, PartialEq, Eq)]
pub struct Grip {
    /// The limb that was last shown as the one under the pointer.
    pub hovered_limb: Limb,
    /// The limb that the controls hold, while a control is held down.
    pub locked_limb: Option<Limb>,
    /// The point of the ground that the held limb grips, while the ground
    /// control is held down.
    pub locked_ground_pos: Option<Vec2>,
}

impl Grip {
    /// The grip of controls that hold nothing.
    pub fn new() -> (grip: Grip)
        ensures
            grip.hovered_limb == Limb::LeftArm,
            grip.locked_limb is None,
            grip.locked_ground_pos is None,
    {
        Grip { hovered_limb: Limb::LeftArm, locked_limb: None, locked_ground_pos: None }
    }

    /// Lets go of limb and ground, as happens in every frame in which no
    /// control is held down; `hovered` is the limb under the pointer.
    pub fn release(&mut self, hovered: Limb)
        ensures
            final(self).locked_limb is None,
            final(self).locked_ground_pos is None,
            final(self).hovered_limb == hovered,
    {
        self.locked_limb = None;
        self.locked_ground_pos = None;
        self.hovered_limb = hovered;
    }

    /// Lets go of limb and ground where there is no actor to control.
    pub fn drop_all(&mut self)
        ensures
            final(self).locked_limb is None,
            final(self).locked_ground_pos is None,
            final(self).hovered_limb == old(self).hovered_limb,
    {
        self.locked_limb = None;
        self.locked_ground_pos = None;
    }

    /// The limb that the controls act on while a control is held down: the
    /// limb that they hold already, else the limb under the pointer.
    pub open spec fn active(self, hovered: Limb) -> Limb {
        match self.locked_limb {
            Some(limb) => limb,
            None => hovered,
        }
    }

    /// Takes hold of a limb, as happens in every frame in which a control is
    /// held down, and returns that limb. The ground stays as it is held.
    pub fn engage(&mut self, hovered: Limb) -> (limb: Limb)
        ensures
            limb == old(self).active(hovered),
            final(self).locked_limb == Some(limb),
            final(self).hovered_limb == limb,
            final(self).locked_ground_pos == old(self).locked_ground_pos,
    {
        let limb = match self.locked_limb {
            Some(limb) => limb,
            None => hovered,
        };
        self.hovered_limb = limb;
        self.locked_limb = Some(limb);
        limb
    }

    /// What a frame does to the grip before anything moves: with a control
    /// held down a limb is taken hold of, and with none held down limb and
    /// ground are let go.
    pub open spec fn updated(self, held: bool, hovered: Limb) -> Grip {
        if held {
            Grip {
                hovered_limb: self.active(hovered),
                locked_limb: Some(self.active(hovered)),
                ..self
            }
        } else {
            Grip { hovered_limb: hovered, locked_limb: None, locked_ground_pos: None }
        }
    }

    /// Starts a frame: `air_control` and `ground_control` say which controls
    /// are held down, `hovered` is the limb under the pointer. Returns the
    /// limb to act on, if a control is held down.
    pub fn update(&mut self, air_control: bool, ground_control: bool, hovered: Limb) -> (limb:
        Option<Limb>)
        ensures
            *final(self) == old(self).updated(air_control || ground_control, hovered),
            limb == if air_control || ground_control {
                Some(old(self).active(hovered))
            } else {
                None
            },
            !air_control && !ground_control ==> final(self).locked_limb is None,
            !air_control && !ground_control ==> final(self).locked_ground_pos is None,
    {
        if air_control || ground_control {
            Some(self.engage(hovered))
        } else {
            self.release(hovered);
            None
        }
    }

    /// The point of the ground that the held limb grips in this frame: the
    /// point that is held already, else `fresh`, the point under the limb.
    pub open spec fn ground(self, fresh: Vec2) -> Vec2 {
        match self.locked_ground_pos {
            Some(pos) => pos,
            None => fresh,
        }
    }

    /// Settles the point of the ground that the held limb grips in this
    /// frame, and returns it. The point stays held for the next frame only
    /// under ground control.
    pub fn anchor(&mut self, fresh: Vec2, ground_control: bool) -> (pos: Vec2)
        ensures
            pos == old(self).ground(fresh),
            final(self).locked_ground_pos == if ground_control {
                Some(pos)
            } else {
                None
            },
            final(self).locked_limb == old(self).locked_limb,
            final(self).hovered_limb == old(self).hovered_limb,
    {
        let pos = match self.locked_ground_pos {
            Some(pos) => pos,
            None => fresh,
        };
        if ground_control {
            self.locked_ground_pos = Some(pos);
        } else {
            self.locked_ground_pos = None;
        }
        pos
    }
}

/// How far the pointer's bearing is from the rest direction of each limb.
#[derive(Clone, Copy, Debug, PartialEq, Eq)]
pub struct Bearings {
    pub left_arm: Scalar,
    pub right_arm: Scalar,
    pub left_leg: Scalar,
    pub right_leg: Scalar,
}

impl Bearings {
    /// The distance for the given limb.
    pub open spec fn at(self, limb: Limb) -> Scalar {
        match limb {
            Limb::LeftArm => self.left_arm,
            Limb::RightArm => self.right_arm,
            Limb::LeftLeg => self.left_leg,
            Limb::RightLeg => self.right_leg,
        }
    }

    /// Whether every distance is a finite number.
    pub open spec fn finite(self) -> bool {
        forall|limb: Limb| (#[trigger] self.at(limb)).finite()
    }

    /// Whether every distance is a finite number.
    pub fn is_finite(&self) -> (r: bool)
        ensures
            r == self.finite(),
    {
        let r = self.left_arm.is_finite() && self.right_arm.is_finite()
            && self.left_leg.is_finite() && self.right_leg.is_finite();
        proof {
            if r {
                assert forall|limb: Limb| (#[trigger] self.at(limb)).finite() by {}
            } else {
                assert(!self.at(Limb::LeftArm).finite() || !self.at(Limb::RightArm).finite()
                    || !self.at(Limb::LeftLeg).finite() || !self.at(Limb::RightLeg).finite());
            }
        }
        r
    }

    /// Whether `limb` is the nearest: no limb is nearer, and every limb
    /// before it in the order of the limbs is farther.
    pub open spec fn is_nearest(self, limb: Limb) -> bool {
        forall|other: Limb|
            !(#[trigger] self.at(other)).below(self.at(limb)) && (other.rank() < limb.rank()
                ==> self.at(limb).below(self.at(other)))
    }

    /// The limb under the pointer: the limb whose rest direction is nearest
    /// to the pointer's bearing, and of several equally near the first in
    /// the order of the limbs.
    pub fn nearest(&self) -> (limb: Limb)
        requires
            self.finite(),
        ensures
            self.is_nearest(limb),
    {
        let mut best = Limb::LeftArm;
        let mut least = self.left_arm;
        assert(self.at(Limb::LeftArm).finite());
        assert(self.at(Limb::RightArm).finite());
        assert(self.at(Limb::LeftLeg).finite());
        assert(self.at(Limb::RightLeg).finite());
        if self.right_arm.lt(least) {
            best = Limb::RightArm;
            least = self.right_arm;
        }
        if self.left_leg.lt(least) {
            best = Limb::LeftLeg;
            least = self.left_leg;
        }
        if self.right_leg.lt(least) {
            best = Limb::RightLeg;
        }
        best
    }
}

/// There is only one nearest limb.
pub proof fn lemma_nearest_limb_unique(bearings: Bearings, a: Limb, b: Limb)
    requires
        bearings.is_nearest(a),
        bearings.is_nearest(b),
    ensures
        a == b,
{
    if a.rank() < b.rank() {
        assert(bearings.at(b).below(bearings.at(a)));
    } else if b.rank() < a.rank() {
        assert(bearings.at(a).below(bearings.at(b)));
    }
}

/// What the end of the track does to an actor.
#[derive(Clone, Copy, Debug, PartialEq, Eq)]
pub enum TrackOutcome {
    /// The actor is on the track, at this place along it.
    On(Scalar),
    /// The actor has crossed the finish line.
    Finished,
}

/// Where an actor at `y` along the track stands once it is kept from going
/// behind the start: at the start if `y` lies below zero, else at `y`.
pub open spec fn kept_on_track(y: Scalar) -> Scalar {
    if y.below(Scalar { bits: 0 }) {
        Scalar { bits: 0 }
    } else {
        y
    }
}

/// What the end of the track does to an actor at `y` along a track of the
/// given length: behind the start it is put to the start, and beyond the
/// length it has finished.
pub open spec fn track_outcome(y: Scalar, track_len: Scalar) -> TrackOutcome {
    if track_len.below(kept_on_track(y)) {
        TrackOutcome::Finished
    } else {
        TrackOutcome::On(kept_on_track(y))
    }
}

/// Holds an actor at `y` along the track to the track.
pub fn bound_to_track(y: Scalar, track_len: Scalar) -> (outcome: TrackOutcome)
    ensures
        outcome == track_outcome(y, track_len),
{
    let kept = if y.lt(Scalar::zero()) {
        Scalar::zero()
    } else {
        y
    };
    if kept.gt(track_len) {
        TrackOutcome::Finished
    } else {
        TrackOutcome::On(kept)
    }
}

/// An actor behind the start of the track is put exactly to the start, and
/// an actor that stays on the track is never behind the start.
pub proof fn lemma_track_start(y: Scalar, track_len: Scalar)
    ensures
        y.below(Scalar { bits: 0 }) && !track_len.below(Scalar { bits: 0 }) ==> track_outcome(
            y,
            track_len,
        ) == TrackOutcome::On(Scalar { bits: 0 }),
        track_outcome(y, track_len) matches TrackOutcome::On(kept) ==> !kept.below(
            Scalar { bits: 0 },
        ) && !track_len.below(kept),
        track_outcome(y, track_len) is Finished <==> track_len.below(kept_on_track(y)),
{
}

/// The least distance between two bodies at which one pushes the other
/// away: a thousandth, as a single-precision number.
pub const MIN_SEPARATION_BITS: u32 = 0x3a83_126f;

/// Whether a body pushes another away: their centres are `distance` apart,
/// which is more than the least distance, and their circles reach
/// `penetration` into each other, which is more than nothing.
pub open spec fn pushes_away(distance: Scalar, penetration: Scalar) -> bool {
    (Scalar { bits: MIN_SEPARATION_BITS }).below(distance) && (Scalar { bits: 0 }).below(
        penetration,
    )
}

/// Whether a body pushes another away.
pub fn must_separate(distance: Scalar, penetration: Scalar) -> (r: bool)
    ensures
        r == pushes_away(distance, penetration),
{
    distance.gt(Scalar::from_bits(MIN_SEPARATION_BITS)) && penetration.gt(Scalar::zero())
}

/// Whether a displacement of the given length has a direction: whether the
/// length is a number above zero. Where it has none, nothing moves.
pub fn has_direction(length: Scalar) -> (r: bool)
    ensures
        r == (Scalar { bits: 0 }).below(length),
{
    length.gt(Scalar::zero())
}

/// Whether a limit is one that rotations can be kept within: a number that
/// is not negative.
pub open spec fn valid_limit(limit: Scalar) -> bool {
    !limit.nan() && limit.scaled() >= 0
}

/// Whether a rotation lies within a limit, on either side of zero.
pub open spec fn within(rotation: Scalar, limit: Scalar) -> bool {
    !rotation.nan() && -limit.scaled() <= rotation.scaled() <= limit.scaled()
}

impl Baby {
    /// Whether the rotation of every limb lies within the limit.
    pub open spec fn limbs_within(self, limit: Scalar) -> bool {
        forall|limb: Limb| within((#[trigger] self.limbs.at(limb)).rotation, limit)
    }

    /// The body with the given limb turned to `rotation`, as far as the
    /// limit allows.
    pub open spec fn with_limb_turned(self, limb: Limb, rotation: Scalar, limit: Scalar) -> Baby {
        Baby {
            limbs: self.limbs.with(
                limb,
                LimbState { rotation: rotation.clamped_abs(limit), ..self.limbs.at(limb) },
            ),
            ..self
        }
    }

    /// Turns the given limb to `rotation`, as far as the limit allows: the
    /// rotation that is stored is `rotation` clamped to the limit, and the
    /// other limbs stay as they are. A limb that is turned through this
    /// function alone never lies beyond a valid limit.
    pub fn turn_limb(&mut self, limb: Limb, rotation: Scalar, limit: Scalar)
        ensures
            *final(self) == old(self).with_limb_turned(limb, rotation, limit),
            valid_limit(limit) ==> within(final(self).limbs.at(limb).rotation, limit),
            valid_limit(limit) && old(self).limbs_within(limit) ==> final(self).limbs_within(limit),
    {
        let state = self.limbs.get(limb);
        let clamped = rotation.clamp_abs(limit);
        self.limbs.set(limb, LimbState { rotation: clamped, angle: state.angle });
        proof {
            if valid_limit(limit) {
                lemma_clamped_abs_within(rotation, limit);
                if old(self).limbs_within(limit) {
                    assert forall|other: Limb|
                        within((#[trigger] self.limbs.at(other)).rotation, limit) by {
                        if other != limb {
                            assert(self.limbs.at(other) == old(self).limbs.at(other));
                        }
                    }
                }
            }
        }
    }

    /// Turns the head to `rotation`, as far as the limit allows.
    pub fn turn_head(&mut self, rotation: Scalar, limit: Scalar)
        ensures
            *final(self) == (Baby { head_rotation: rotation.clamped_abs(limit), ..*old(self) }),
            valid_limit(limit) ==> within(final(self).head_rotation, limit),
    {
        self.head_rotation = rotation.clamp_abs(limit);
        proof {
            if valid_limit(limit) {
                lemma_clamped_abs_within(rotation, limit);
            }
        }
    }
}

/// A body that has just spawned has every limb within every valid limit.
pub proof fn lemma_spawned_within(shape: Option<BodyShape>, pos: Vec2, limit: Scalar)
    requires
        valid_limit(limit),
    ensures
        Baby::spawned(shape, pos).limbs_within(limit),
{
    let body = Baby::spawned(shape, pos);
    assert forall|limb: Limb| within((#[trigger] body.limbs.at(limb)).rotation, limit) by {
        assert(body.limbs.at(limb).rotation == Scalar { bits: 0 });
    }
}

/// A body after limbs have been turned one after the other, each as far as
/// the limit allows.
pub open spec fn turned(body: Baby, turns: Seq<(Limb, Scalar)>, limit: Scalar) -> Baby
    decreases turns.len(),
{
    if turns.len() == 0 {
        body
    } else {
        turned(body, turns.drop_last(), limit).with_limb_turned(
            turns.last().0,
            turns.last().1,
            limit,
        )
    }
}

/// However often, and to whatever rotations, the limbs of a body are turned:
/// a body whose limbs lay within a valid limit has them within it afterwards.
pub proof fn lemma_turns_stay_within(body: Baby, turns: Seq<(Limb, Scalar)>, limit: Scalar)
    requires
        valid_limit(limit),
        body.limbs_within(limit),
    ensures
        turned(body, turns, limit).limbs_within(limit),
    decreases turns.len(),
{
    if turns.len() > 0 {
        let before = turned(body, turns.drop_last(), limit);
        lemma_turns_stay_within(body, turns.drop_last(), limit);
        let (limb, rotation) = turns.last();
        let after = before.with_limb_turned(limb, rotation, limit);
        lemma_clamped_abs_within(rotation, limit);
        assert forall|other: Limb| within((#[trigger] after.limbs.at(other)).rotation, limit) by {
            if other != limb {
                assert(after.limbs.at(other) == before.limbs.at(other));
            }
        }
    }
}

/// A frame without a control held down lets go of limb and ground, whatever
/// was held, and the next frame with a control held down takes hold of the
/// limb that is under the pointer then.
pub proof fn lemma_release_then_press(grip: Grip, hovered: Limb, next: Limb)
    ensures
        grip.updated(false, hovered).locked_limb is None,
        grip.updated(false, hovered).locked_ground_pos is None,
        grip.updated(false, hovered).updated(true, next).locked_limb == Some(next),
{
}

/// The limbs other than `active`, in the order of the limbs: those that an
/// actor's body drags along when it moves.
pub fn passive_limbs(active: Limb) -> (limbs: [Limb; 3])
    ensures
        forall|limb: Limb| limbs@.contains(limb) <==> limb != active,
        forall|i: int, j: int| 0 <= i < j < 3 ==> limbs@[i].rank() < limbs@[j].rank(),
{
    let limbs = match active {
        Limb::LeftArm => [Limb::RightArm, Limb::LeftLeg, Limb::RightLeg],
        Limb::RightArm => [Limb::LeftArm, Limb::LeftLeg, Limb::RightLeg],
        Limb::LeftLeg => [Limb::LeftArm, Limb::RightArm, Limb::RightLeg],
        Limb::RightLeg => [Limb::LeftArm, Limb::RightArm, Limb::LeftLeg],
    };
    proof {
        assert forall|limb: Limb| limb != active implies limbs@.contains(limb) by {
            assert(limbs@[0] == limb || limbs@[1] == limb || limbs@[2] == limb);
        }
    }
    limbs
}

} // verus!
