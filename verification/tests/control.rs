use crawl_race::control::{
    bound_to_track, must_separate, passive_limbs, Bearings, Grip, TrackOutcome,
};
use crawl_race::limb::Limb;
use crawl_race::pose::{Baby, LimbState, Vec2};
use crawl_race::scalar::Scalar;

fn s(x: f32) -> Scalar {
    Scalar::from_bits(x.to_bits())
}

fn f(x: Scalar) -> f32 {
    f32::from_bits(x.to_bits())
}

fn at(x: f32, y: f32) -> Vec2 {
    Vec2::new(s(x), s(y))
}

fn bearings(a: f32, b: f32, c: f32, d: f32) -> Bearings {
    Bearings { left_arm: s(a), right_arm: s(b), left_leg: s(c), right_leg: s(d) }
}

#[test]
fn limbs_in_their_order() {
    assert_eq!(Limb::all(), [Limb::LeftArm, Limb::RightArm, Limb::LeftLeg, Limb::RightLeg]);
    for (i, limb) in Limb::all().into_iter().enumerate() {
        assert_eq!(limb.index(), i);
    }
    assert!(!Limb::LeftArm.is_leg());
    assert!(!Limb::RightArm.is_leg());
    assert!(Limb::LeftLeg.is_leg());
    assert!(Limb::RightLeg.is_leg());
}

#[test]
fn the_nearest_limb_is_the_one_with_the_least_distance() {
    assert_eq!(bearings(0.3, 0.2, 0.1, 0.4).nearest(), Limb::LeftLeg);
    assert_eq!(bearings(0.3, 0.2, 0.5, 0.1).nearest(), Limb::RightLeg);
    assert_eq!(bearings(0.0, 0.2, 0.5, 0.1).nearest(), Limb::LeftArm);
    assert_eq!(bearings(3.0, 0.2, 0.5, 1.0).nearest(), Limb::RightArm);
}

#[test]
fn of_limbs_equally_near_the_first_is_the_nearest() {
    assert_eq!(bearings(1.0, 1.0, 1.0, 1.0).nearest(), Limb::LeftArm);
    assert_eq!(bearings(2.0, 1.0, 1.0, 1.0).nearest(), Limb::RightArm);
    assert_eq!(bearings(2.0, 3.0, 1.0, 1.0).nearest(), Limb::LeftLeg);
    assert_eq!(bearings(0.0, -0.0, 0.0, -0.0).nearest(), Limb::LeftArm);
}

#[test]
fn the_nearest_limb_agrees_with_the_iterator() {
    let mut x: u32 = 0x2545_f491;
    for _ in 0..2000 {
        let mut d = [0.0f32; 4];
        for v in d.iter_mut() {
            x ^= x << 13;
            x ^= x >> 17;
            x ^= x << 5;
            *v = (x % 7) as f32 * 0.5;
        }
        let b = bearings(d[0], d[1], d[2], d[3]);
        assert!(b.is_finite());
        let mut best = 0;
        for i in 1..4 {
            if d[i] < d[best] {
                best = i;
            }
        }
        assert_eq!(b.nearest().index(), best);
    }
    assert!(!bearings(0.0, f32::NAN, 0.0, 0.0).is_finite());
    assert!(!bearings(0.0, 0.0, 0.0, f32::INFINITY).is_finite());
}

#[test]
fn a_held_control_takes_hold_of_the_limb_under_the_pointer() {
    let mut grip = Grip::new();
    assert_eq!(grip.update(true, false, Limb::RightLeg), Some(Limb::RightLeg));
    assert_eq!(grip.locked_limb, Some(Limb::RightLeg));
    assert_eq!(grip.hovered_limb, Limb::RightLeg);
    assert_eq!(grip.update(false, true, Limb::LeftArm), Some(Limb::RightLeg));
    assert_eq!(grip.locked_limb, Some(Limb::RightLeg));
    assert_eq!(grip.hovered_limb, Limb::RightLeg);
}

#[test]
fn releasing_the_controls_lets_go_of_limb_and_ground() {
    let mut grip = Grip::new();
    grip.update(false, true, Limb::RightLeg);
    grip.anchor(at(1.0, 2.0), true);
    assert_eq!(grip.locked_ground_pos, Some(at(1.0, 2.0)));
    assert_eq!(grip.update(false, false, Limb::LeftLeg), None);
    assert_eq!(grip.locked_limb, None);
    assert_eq!(grip.locked_ground_pos, None);
    assert_eq!(grip.hovered_limb, Limb::LeftLeg);
    assert_eq!(grip.update(true, true, Limb::LeftArm), Some(Limb::LeftArm));
}

#[test]
fn the_ground_is_held_under_ground_control_only() {
    let mut grip = Grip::new();
    grip.update(false, true, Limb::LeftArm);
    assert_eq!(grip.anchor(at(1.0, 2.0), true), at(1.0, 2.0));
    assert_eq!(grip.anchor(at(5.0, 6.0), true), at(1.0, 2.0));
    assert_eq!(grip.locked_ground_pos, Some(at(1.0, 2.0)));
    assert_eq!(grip.anchor(at(7.0, 8.0), false), at(1.0, 2.0));
    assert_eq!(grip.locked_ground_pos, None);
    assert_eq!(grip.anchor(at(7.0, 8.0), false), at(7.0, 8.0));
    assert_eq!(grip.locked_ground_pos, None);
    assert_eq!(grip.locked_limb, Some(Limb::LeftArm));
}

#[test]
fn the_track_ends_at_its_length() {
    assert_eq!(bound_to_track(s(-3.0), s(10.0)), TrackOutcome::On(s(0.0)));
    assert_eq!(bound_to_track(s(-0.0), s(10.0)), TrackOutcome::On(s(-0.0)));
    assert_eq!(bound_to_track(s(0.0), s(10.0)), TrackOutcome::On(s(0.0)));
    assert_eq!(bound_to_track(s(4.5), s(10.0)), TrackOutcome::On(s(4.5)));
    assert_eq!(bound_to_track(s(10.0), s(10.0)), TrackOutcome::On(s(10.0)));
    assert_eq!(bound_to_track(s(10.000001), s(10.0)), TrackOutcome::Finished);
    assert_eq!(bound_to_track(s(f32::INFINITY), s(10.0)), TrackOutcome::Finished);
    assert_eq!(bound_to_track(s(f32::NAN), s(10.0)), TrackOutcome::On(s(f32::NAN)));
    assert_eq!(bound_to_track(s(-1.0), s(-5.0)), TrackOutcome::Finished);
}

#[test]
fn bodies_push_each_other_away_when_they_overlap() {
    assert!(must_separate(s(1.5), s(0.5)));
    assert!(!must_separate(s(1.5), s(0.0)));
    assert!(!must_separate(s(1.5), s(-0.5)));
    assert!(!must_separate(s(0.001), s(0.5)));
    assert!(must_separate(s(0.0010000002), s(0.5)));
    assert!(!must_separate(s(0.0), s(2.0)));
    assert!(!must_separate(s(f32::NAN), s(2.0)));
    assert!(!must_separate(s(1.0), s(f32::NAN)));
}

#[test]
fn a_limb_is_turned_as_far_as_the_limit_allows() {
    let limit = s(1.5);
    let mut body = Baby::new(None, at(0.0, 0.0));
    body.limbs.left_leg.angle = s(0.3);
    body.turn_limb(Limb::LeftLeg, s(2.0), limit);
    assert_eq!(body.limbs.left_leg, LimbState { rotation: s(1.5), angle: s(0.3) });
    body.turn_limb(Limb::LeftLeg, s(-7.0), limit);
    assert_eq!(f(body.limbs.left_leg.rotation), -1.5);
    body.turn_limb(Limb::RightArm, s(0.25), limit);
    assert_eq!(f(body.limbs.right_arm.rotation), 0.25);
    assert_eq!(f(body.limbs.left_leg.rotation), -1.5);
    assert_eq!(f(body.limbs.left_arm.rotation), 0.0);
    body.turn_limb(Limb::RightLeg, s(f32::NAN), limit);
    assert_eq!(f(body.limbs.right_leg.rotation), 1.5);
    let mut expected = Baby::new(None, at(0.0, 0.0));
    expected.limbs.left_leg = LimbState { rotation: s(-1.5), angle: s(0.3) };
    expected.limbs.right_arm.rotation = s(0.25);
    expected.limbs.right_leg.rotation = s(1.5);
    assert_eq!(body, expected);
}

#[test]
fn rotations_stay_within_the_limit_whatever_is_stored() {
    let limit = 0.9f32;
    let mut body = Baby::new(None, at(0.0, 0.0));
    let mut x: u32 = 0x1357_9bdf;
    for _ in 0..4000 {
        x ^= x << 13;
        x ^= x >> 17;
        x ^= x << 5;
        let limb = Limb::all()[(x % 4) as usize];
        let raw = f32::from_bits(x.rotate_left(7));
        body.turn_limb(limb, s(raw), s(limit));
        body.turn_head(s(raw), s(limit));
        for l in Limb::all() {
            let r = f(body.limbs.get(l).rotation);
            assert!(-limit <= r && r <= limit);
        }
        let h = f(body.head_rotation);
        assert!(-limit <= h && h <= limit);
    }
}

#[test]
fn the_head_is_turned_as_far_as_the_limit_allows() {
    let mut body = Baby::new(None, at(1.0, 2.0));
    body.turn_head(s(0.5), s(0.25));
    assert_eq!(f(body.head_rotation), 0.25);
    body.turn_head(s(-0.125), s(0.25));
    assert_eq!(f(body.head_rotation), -0.125);
    let mut expected = Baby::new(None, at(1.0, 2.0));
    expected.head_rotation = s(-0.125);
    assert_eq!(body, expected);
}

#[test]
fn the_passive_limbs_are_the_others() {
    assert_eq!(passive_limbs(Limb::LeftArm), [Limb::RightArm, Limb::LeftLeg, Limb::RightLeg]);
    assert_eq!(passive_limbs(Limb::RightArm), [Limb::LeftArm, Limb::LeftLeg, Limb::RightLeg]);
    assert_eq!(passive_limbs(Limb::LeftLeg), [Limb::LeftArm, Limb::RightArm, Limb::RightLeg]);
    assert_eq!(passive_limbs(Limb::RightLeg), [Limb::LeftArm, Limb::RightArm, Limb::LeftLeg]);
}

#[test]
fn limb_states_are_read_and_written_by_limb() {
    let mut body = Baby::new(None, at(0.0, 0.0));
    let state = LimbState { rotation: s(0.5), angle: s(1.0) };
    body.limbs.set(Limb::RightArm, state);
    assert_eq!(body.limbs.get(Limb::RightArm), state);
    assert_eq!(body.limbs.right_arm, state);
    assert_eq!(body.limbs.get(Limb::LeftArm), LimbState { rotation: s(0.0), angle: s(0.0) });
}
