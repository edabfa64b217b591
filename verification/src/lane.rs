//! Lanes: the whole numbers across the track at which actors spawn.
//!
//! A new actor takes the free lane nearest to the middle of the track, the
//! lane on the negative side before the one on the positive side.

use std::collections::HashSet;

use vstd::prelude::*;
use vstd::relations::injective_on;
use vstd::set_lib::lemma_int_range;
use vstd::set_lib::lemma_len_subset;
use vstd::set_lib::lemma_map_size;
use vstd::set_lib::set_int_range;

verus! {

broadcast use vstd::std_specs::hash::group_hash_axioms;

/// The distance of a lane from the middle of the track.
pub open spec fn reach(lane: int) -> int {
    if lane < 0 {
        -lane
    } else {
        lane
    }
}

/// The order in which lanes are offered: nearer to the middle first, and of
/// two lanes equally near the negative one first.
pub open spec fn offered_before(a: int, b: int) -> bool {
    reach(a) < reach(b) || (reach(a) == reach(b) && a < b)
}

/// Whether `lane` is free and every lane offered before it is taken.
pub open spec fn is_first_free(taken: Set<i32>, lane: i32) -> bool {
    &&& !taken.contains(lane)
    &&& forall|other: i32| offered_before(other as int, lane as int) ==> taken.contains(other)
}

/// The first free lane, where there is one.
pub open spec fn first_free(taken: Set<i32>) -> i32 {
    choose|lane: i32| is_first_free(taken, lane)
}

/// There is at most one first free lane.
pub proof fn lemma_first_free_unique(taken: Set<i32>, a: i32, b: i32)
    requires
        is_first_free(taken, a),
        is_first_free(taken, b),
    ensures
        a == b,
{
    if a != b {
        assert(offered_before(a as int, b as int) || offered_before(b as int, a as int));
    }
}

/// A first free lane is the first free lane.
pub proof fn lemma_first_free_is(taken: Set<i32>, lane: i32)
    requires
        is_first_free(taken, lane),
    ensures
        first_free(taken) == lane,
{
    lemma_first_free_unique(taken, lane, first_free(taken));
}

/// A set that holds every lane within `reach` of the middle has at least
/// `2 * reach + 1` lanes.
proof fn lemma_filled_lanes(taken: Set<i32>, reach: int)
    requires
        taken.finite(),
        0 <= reach <= i32::MAX,
        forall|lane: i32| -reach <= lane <= reach ==> taken.contains(lane),
    ensures
        taken.len() >= 2 * reach + 1,
{
    let range = set_int_range(-reach, reach + 1);
    let narrow = |i: int| i as i32;
    let lanes = range.map(narrow);
    lemma_int_range(-reach, reach + 1);
    assert(injective_on(narrow, range));
    lemma_map_size(range, lanes, narrow);
    assert forall|lane: i32| lanes.contains(lane) implies taken.contains(lane) by {
        let i = choose|i: int| range.contains(i) && narrow(i) == lane;
        assert(-reach <= lane <= reach);
    }
    lemma_len_subset(lanes, taken);
}

/// Searching outwards from `reach`, a free lane turns up before the lanes
/// run out.
proof fn lemma_search_finds(taken: Set<i32>, reach: int)
    requires
        taken.finite(),
        taken.len() < u32::MAX,
        0 <= reach <= i32::MAX,
        forall|lane: i32| -reach < lane < reach ==> taken.contains(lane),
    ensures
        exists|lane: i32| is_first_free(taken, lane),
    decreases i32::MAX - reach,
{
    if !taken.contains((-reach) as i32) {
        assert(is_first_free(taken, (-reach) as i32));
    } else if !taken.contains(reach as i32) {
        assert(is_first_free(taken, reach as i32));
    } else {
        lemma_filled_lanes(taken, reach);
        lemma_search_finds(taken, reach + 1);
    }
}

/// As long as fewer lanes are taken than there are lanes, there is a first
/// free lane, and it is no farther from the middle than half the number of
/// taken lanes, rounded up.
pub proof fn lemma_first_free_near(taken: Set<i32>)
    requires
        taken.finite(),
        taken.len() < u32::MAX,
    ensures
        is_first_free(taken, first_free(taken)),
        2 * reach(first_free(taken) as int) <= taken.len() + 1,
{
    lemma_search_finds(taken, 0);
    let lane = first_free(taken);
    let within = reach(lane as int) - 1;
    if within >= 0 {
        assert forall|other: i32| -within <= other <= within implies taken.contains(other) by {
            assert(offered_before(other as int, lane as int));
        }
        lemma_filled_lanes(taken, within);
    }
}

/// The first lane that `used` does not hold.
pub fn first_free_lane(used: &HashSet<i32>) -> (lane: i32)
    requires
        used@.finite(),
        used@.len() < u32::MAX,
    ensures
        is_first_free(used@, lane),
        lane == first_free(used@),
{
    let mut reach: i32 = 0;
    loop
        invariant
            0 <= reach <= i32::MAX,
            used@.finite(),
            used@.len() < u32::MAX,
            forall|lane: i32| -reach < lane < reach ==> used@.contains(lane),
        decreases i32::MAX - reach,
    {
        if !used.contains(&(-reach)) {
            proof {
                lemma_first_free_is(used@, (-reach) as i32);
            }
            return -reach;
        }
        if !used.contains(&reach) {
            proof {
                lemma_first_free_is(used@, reach);
            }
            return reach;
        }
        proof {
            lemma_filled_lanes(used@, reach as int);
        }
        reach = reach + 1;
    }
}

} // verus!
