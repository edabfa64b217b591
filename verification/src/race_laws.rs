//! What holds of the races that the server runs.

use vstd::prelude::*;
use vstd::arithmetic::power2::pow2;
use vstd::set_lib::lemma_len_subset;
use vstd::set_lib::lemma_map_size_bound;

use crate::interop::ClientId;
use crate::interop::ClientMessage;
use crate::interop::ClientServerState;
use crate::interop::ClientState;
use crate::interop::Notice;
use crate::interop::RaceId;
use crate::lane::first_free;
use crate::lane::is_first_free;
use crate::lane::lemma_first_free_near;
use crate::lane::reach;
use crate::order::ascending;
use crate::order::lemma_ascending_lists;
use crate::order::lists_ascending;
use crate::pose::Baby;
use crate::scalar::Scalar;
use crate::server::RaceState;
use crate::server::Registry;
use crate::server::embodied;
use crate::server::lane_of;
use crate::server::lanes_taken;
use crate::server::lemma_finish_wf;
use crate::server::lemma_open_race_wf;
use crate::server::lemma_spawn_wf;
use crate::server::lemma_with_client_wf;
use crate::server::racers;
use crate::server::record_wf;
use crate::whole::is_nearest;
use crate::whole::lemma_nearest_exists;
use crate::whole::lemma_whole_is_exact;
use crate::whole::lemma_whole_round_trip;

verus! {

/// The number of clients below which every lane that the server hands out
/// is a whole number that a single-precision number holds exactly: `2^25`,
/// for the lanes of fewer clients reach no farther than `2^24` from the
/// middle of the track.
pub open spec fn exact_lanes_limit() -> nat {
    0x200_0000
}

/// With fewer clients than the limit of exact lanes, an actor spawns in the
/// first free lane, at the start of the track: its place across the track
/// is that lane's whole number exactly, and it lies in that lane.
pub proof fn lemma_spawn_pos_exact(reg: Registry)
    requires
        reg.clients.dom().finite(),
        reg.clients.len() < exact_lanes_limit(),
    ensures
        is_first_free(lanes_taken(reg.clients), first_free(lanes_taken(reg.clients))),
        is_nearest(reg.spawn_pos().x, first_free(lanes_taken(reg.clients)) as int),
        reg.spawn_pos().x.scaled() == first_free(lanes_taken(reg.clients)) * pow2(149),
        reg.spawn_pos().x.rounded() == first_free(lanes_taken(reg.clients)),
        reg.spawn_pos().y == (Scalar { bits: 0 }),
{
    let clients = reg.clients;
    let lane = |id: ClientId| lane_of(clients[id].baby->0);
    let taken = lanes_taken(clients);
    lemma_len_subset(embodied(clients), clients.dom());
    lemma_map_size_bound(embodied(clients), taken, lane);
    lemma_first_free_near(taken);
    let free = first_free(taken);
    assert(reach(free as int) <= 0x100_0000);
    lemma_nearest_exists(free as int);
    lemma_whole_round_trip(free as int, Scalar::of_whole(free as int));
    lemma_whole_is_exact(free as int);
}

/// With fewer clients than the limit of exact lanes, clients without a body
/// that are put into a race one after the other come to lie at the start of
/// the track, each in a whole lane that no body lay in before and that no
/// other body lies in.
pub proof fn lemma_spawn_all(reg: Registry, ids: Seq<ClientId>, race: RaceId)
    requires
        reg.clients.dom().finite(),
        reg.clients.len() < exact_lanes_limit(),
        forall|i: int|
            0 <= i < ids.len() ==> reg.clients.contains_key(ids[i]) && reg.clients[ids[i]].baby
                is None,
    ensures
        ({
            let after = reg.spawn_all(ids, race);
            &&& forall|id: ClientId|
                ids.contains(id) ==> {
                    let record = #[trigger] after.clients[id];
                    &&& record.baby matches Some(body)
                    &&& body == Baby::spawned(None, body.pos)
                    &&& body.pos.y == (Scalar { bits: 0 })
                    &&& body.pos.x.scaled() == lane_of(body) * pow2(149)
                    &&& !lanes_taken(reg.clients).contains(lane_of(body))
                }
            &&& forall|a: ClientId, b: ClientId|
                ids.contains(a) && after.clients.contains_key(b) && a != b && after.clients[b].baby
                    is Some ==> lane_of(#[trigger] after.clients[a].baby->0) != lane_of(
                    #[trigger] after.clients[b].baby->0,
                )
        }),
    decreases ids.len(),
{
    let after = reg.spawn_all(ids, race);
    lemma_spawn_all_frame(reg, ids, race);
    if ids.len() > 0 {
        let earlier = ids.drop_last();
        let last = ids.last();
        let prev = reg.spawn_all(earlier, race);
        assert forall|i: int| 0 <= i < earlier.len() implies reg.clients.contains_key(
            earlier[i],
        ) && reg.clients[earlier[i]].baby is None by {
            assert(earlier[i] == ids[i]);
        }
        lemma_spawn_all(reg, earlier, race);
        lemma_spawn_all_frame(reg, earlier, race);
        assert(after == prev.spawn(last, race));
        assert(ids[ids.len() - 1] == last);
        assert(prev.clients.contains_key(last));
        lemma_spawn_pos_exact(prev);
        let taken = lanes_taken(prev.clients);
        let free = first_free(taken);
        let lane = |id: ClientId| lane_of(prev.clients[id].baby->0);
        let start = |id: ClientId| lane_of(reg.clients[id].baby->0);
        assert(lane_of(after.clients[last].baby->0) == free);
        assert forall|id: ClientId| ids.contains(id) && id != last implies earlier.contains(id) by {
            let i = choose|i: int| 0 <= i < ids.len() && ids[i] == id;
            assert(earlier[i] == id);
        }
        assert forall|b: ClientId|
            after.clients.contains_key(b) && b != last && after.clients[b].baby is Some
                implies lane_of(after.clients[b].baby->0) != free by {
            assert(after.clients[b] == prev.clients[b]);
            assert(embodied(prev.clients).contains(b));
            assert(lane(b) == lane_of(prev.clients[b].baby->0));
            assert(taken.contains(lane(b)));
        }
        assert(!lanes_taken(reg.clients).contains(free)) by {
            if lanes_taken(reg.clients).contains(free) {
                let c = choose|c: ClientId| embodied(reg.clients).contains(c) && start(c) == free;
                if earlier.contains(c) {
                    let i = choose|i: int| 0 <= i < earlier.len() && earlier[i] == c;
                    assert(reg.clients[earlier[i]].baby is None);
                }
                assert(prev.clients[c] == reg.clients[c]);
                assert(embodied(prev.clients).contains(c));
                assert(lane(c) == free);
                assert(taken.contains(lane(c)));
            }
        }
        assert forall|id: ClientId| ids.contains(id) implies ({
            let record = #[trigger] after.clients[id];
            &&& record.baby matches Some(body)
            &&& body == Baby::spawned(None, body.pos)
            &&& body.pos.y == (Scalar { bits: 0 })
            &&& body.pos.x.scaled() == lane_of(body) * pow2(149)
            &&& !lanes_taken(reg.clients).contains(lane_of(body))
        }) by {
            if id != last {
                assert(earlier.contains(id));
                assert(after.clients[id] == prev.clients[id]);
            }
        }
        assert forall|a: ClientId, b: ClientId|
            ids.contains(a) && after.clients.contains_key(b) && a != b && after.clients[b].baby
                is Some implies lane_of(#[trigger] after.clients[a].baby->0) != lane_of(
            #[trigger] after.clients[b].baby->0,
        ) by {
            if a == last {
            } else if b == last {
                assert(after.clients[a] == prev.clients[a]);
                assert(earlier.contains(a));
            } else {
                assert(earlier.contains(a));
                assert(after.clients[a] == prev.clients[a]);
                assert(after.clients[b] == prev.clients[b]);
            }
        }
    }
}

/// The participants of a race that `host` starts, listed in the order of
/// their numbers, are connected.
proof fn lemma_participants_listed(reg: Registry, host: ClientId)
    requires
        reg.clients.dom().finite(),
    ensures
        lists_ascending(ascending(reg.participants(host)), reg.participants(host)),
        forall|i: int|
            0 <= i < ascending(reg.participants(host)).len() ==> reg.takes_part(
                #[trigger] ascending(reg.participants(host))[i],
                host,
            ),
{
    let set = reg.participants(host);
    assert(set.subset_of(reg.clients.dom()));
    lemma_len_subset(set, reg.clients.dom());
    lemma_ascending_lists(set);
    let ids = ascending(set);
    assert forall|i: int| 0 <= i < ids.len() implies reg.takes_part(#[trigger] ids[i], host) by {
        assert(ids.contains(ids[i]));
        assert(set.contains(ids[i]));
    }
}

/// What the start of a race changes. A client without a body that asks for
/// a race gets one under the next number, which no race had before and
/// which nobody has finished. The racers of that race are the client itself
/// and those that have joined it, and nobody else: each of them gets a body
/// and that race, stops hosting, has joined nobody any more and keeps its
/// name. Every other client stays as it is, and every older race keeps its
/// count.
pub proof fn lemma_start_race(reg: Registry, host: ClientId)
    requires
        reg.wf(),
        reg.clients.contains_key(host),
        reg.clients[host].baby is None,
        reg.next_race_id < u64::MAX,
    ensures
        ({
            let after = reg.start_race(host);
            let race = reg.next_race_id;
            &&& !reg.races.contains_key(race)
            &&& after.races == reg.races.insert(race, RaceState { finished: 0 })
            &&& after.races[race].finished == 0
            &&& forall|older: RaceId| #[trigger]
                reg.races.contains_key(older) ==> after.races[older] == reg.races[older]
            &&& after.next_race_id == race + 1
            &&& after.next_client_id == reg.next_client_id
            &&& after.clients.dom() == reg.clients.dom()
            &&& racers(after.clients, race) == reg.participants(host)
            &&& forall|id: ClientId|
                reg.clients.contains_key(id) && !reg.takes_part(id, host)
                    ==> #[trigger] after.clients[id] == reg.clients[id]
            &&& forall|id: ClientId|
                reg.takes_part(id, host) ==> {
                    let record = #[trigger] after.clients[id];
                    &&& record.name == reg.clients[id].name
                    &&& record.race_id == Some(race)
                    &&& record.baby is Some
                    &&& !record.hosting_race
                    &&& record.joined is None
                }
        }),
{
    let race = reg.next_race_id;
    let set = reg.participants(host);
    let opened = reg.open_race();
    lemma_participants_listed(reg, host);
    let ids = ascending(set);
    lemma_spawn_all_frame(opened, ids, race);
    let after = reg.start_race(host);
    assert(after == opened.spawn_all(ids, race));
    assert forall|id: ClientId| racers(after.clients, race).contains(id) <==> set.contains(id) by {
        if reg.clients.contains_key(id) && !set.contains(id) {
            assert(!ids.contains(id));
            assert(after.clients[id] == reg.clients[id]);
            if reg.clients[id].race_id == Some(race) {
                assert(reg.races.contains_key(race));
            }
        }
        if set.contains(id) {
            assert(ids.contains(id));
        }
    }
    assert(racers(after.clients, race) =~= set);
    assert forall|id: ClientId| reg.takes_part(id, host) implies ids.contains(id) by {
        assert(set.contains(id));
    }
    assert forall|id: ClientId|
        reg.clients.contains_key(id) && !reg.takes_part(id, host)
            implies #[trigger] after.clients[id] == reg.clients[id] by {
        assert(!set.contains(id));
        assert(!ids.contains(id));
    }
}

/// Where the racers of a new race start. With fewer clients than the limit
/// of exact lanes, each participant spawns at the start of the track, in a
/// whole lane that no body lay in before the race started, and no two of
/// them spawn in the same lane or at the same place across the track.
pub proof fn lemma_start_race_lanes(reg: Registry, host: ClientId)
    requires
        reg.wf(),
        reg.clients.contains_key(host),
        reg.clients[host].baby is None,
        reg.clients.len() < exact_lanes_limit(),
    ensures
        ({
            let after = reg.start_race(host);
            &&& forall|id: ClientId|
                reg.takes_part(id, host) ==> {
                    let record = #[trigger] after.clients[id];
                    &&& record.baby matches Some(body)
                    &&& body == Baby::spawned(None, body.pos)
                    &&& body.pos.y == (Scalar { bits: 0 })
                    &&& body.pos.x.scaled() == lane_of(body) * pow2(149)
                    &&& !lanes_taken(reg.clients).contains(lane_of(body))
                }
            &&& forall|a: ClientId, b: ClientId|
                reg.takes_part(a, host) && reg.takes_part(b, host) && a != b ==> {
                    &&& lane_of(#[trigger] after.clients[a].baby->0) != lane_of(
                        #[trigger] after.clients[b].baby->0,
                    )
                    &&& after.clients[a].baby->0.pos.x != after.clients[b].baby->0.pos.x
                }
        }),
{
    let race = reg.next_race_id;
    let set = reg.participants(host);
    let opened = reg.open_race();
    lemma_participants_listed(reg, host);
    let ids = ascending(set);
    assert forall|i: int| 0 <= i < ids.len() implies opened.clients.contains_key(ids[i])
        && opened.clients[ids[i]].baby is None by {
        assert(reg.takes_part(ids[i], host));
        assert(record_wf(reg.clients[ids[i]], reg.races));
    }
    lemma_spawn_all(opened, ids, race);
    lemma_spawn_all_frame(opened, ids, race);
    let after = reg.start_race(host);
    assert(after == opened.spawn_all(ids, race));
    assert forall|id: ClientId| reg.takes_part(id, host) implies ids.contains(id) by {
        assert(set.contains(id));
    }
}

/// A racing client that sends its body finds that very body, and every
/// other client's record as it was, in the records that the server sends
/// back.
pub proof fn lemma_snapshot_round_trip(reg: Registry, id: ClientId, update: ClientState)
    requires
        reg.clients.contains_key(id),
        reg.clients[id].baby is Some,
        update.baby is Some,
    ensures
        reg.replies(id, ClientMessage::StateSync(update)).last() matches Notice::StateSync {
            clients,
        } && clients[id].baby == update.baby && clients.dom() == reg.clients.dom() && forall|
            other: ClientId,
        |
            reg.clients.contains_key(other) && other != id ==> #[trigger] clients[other]
                == reg.clients[other],
{
    let after = reg.sync(id, update);
    assert(after.clients.dom() =~= reg.clients.dom());
}

/// Putting clients into a race changes the records of these clients and
/// nothing else: each of them races in that race with a body, neither hosts
/// nor has joined, and keeps its name.
pub proof fn lemma_spawn_all_frame(reg: Registry, ids: Seq<ClientId>, race: RaceId)
    requires
        forall|i: int| 0 <= i < ids.len() ==> reg.clients.contains_key(ids[i]),
    ensures
        ({
            let after = reg.spawn_all(ids, race);
            &&& after.races == reg.races
            &&& after.next_race_id == reg.next_race_id
            &&& after.next_client_id == reg.next_client_id
            &&& after.clients.dom() == reg.clients.dom()
            &&& forall|id: ClientId|
                reg.clients.contains_key(id) && !ids.contains(id) ==> #[trigger] after.clients[id]
                    == reg.clients[id]
            &&& forall|id: ClientId|
                ids.contains(id) ==> {
                    let record = #[trigger] after.clients[id];
                    &&& record.name == reg.clients[id].name
                    &&& !record.hosting_race
                    &&& record.joined is None
                    &&& record.race_id == Some(race)
                    &&& record.baby is Some
                }
        }),
    decreases ids.len(),
{
    let after = reg.spawn_all(ids, race);
    if ids.len() > 0 {
        let earlier = ids.drop_last();
        let last = ids.last();
        let prev = reg.spawn_all(earlier, race);
        lemma_spawn_all_frame(reg, earlier, race);
        assert(ids[ids.len() - 1] == last);
        assert(after.clients.dom() =~= reg.clients.dom());
        assert forall|id: ClientId| ids.contains(id) && id != last implies earlier.contains(id) by {
            let i = choose|i: int| 0 <= i < ids.len() && ids[i] == id;
            assert(earlier[i] == id);
        }
        assert forall|id: ClientId| earlier.contains(id) implies ids.contains(id) by {
            let i = choose|i: int| 0 <= i < earlier.len() && earlier[i] == id;
            assert(ids[i] == id);
        }
    }
}

/// A registry stays well-formed when clients are put into a race that
/// nobody has finished.
pub proof fn lemma_spawn_all_wf(reg: Registry, ids: Seq<ClientId>, race: RaceId)
    requires
        reg.wf(),
        reg.clients.len() <= usize::MAX,
        reg.races.contains_key(race),
        reg.races[race].finished == 0,
        forall|i: int| 0 <= i < ids.len() ==> reg.clients.contains_key(ids[i]),
    ensures
        reg.spawn_all(ids, race).wf(),
    decreases ids.len(),
{
    if ids.len() > 0 {
        let earlier = ids.drop_last();
        let last = ids.last();
        let prev = reg.spawn_all(earlier, race);
        lemma_spawn_all_wf(reg, earlier, race);
        lemma_spawn_all_frame(reg, earlier, race);
        assert(prev.clients.contains_key(last));
        lemma_spawn_wf(prev, last, race);
    }
}

/// A registry with room for a race stays well-formed whatever message of a
/// connected client it takes in, and no message connects or disconnects
/// anyone.
pub proof fn lemma_handle_wf(reg: Registry, id: ClientId, message: ClientMessage)
    requires
        reg.wf(),
        reg.clients.contains_key(id),
        message is StartRace ==> reg.has_room(),
    ensures
        reg.handle(id, message).wf(),
        reg.handle(id, message).clients.dom() == reg.clients.dom(),
        reg.handle(id, message).next_client_id == reg.next_client_id,
        reg.next_race_id <= reg.handle(id, message).next_race_id <= reg.next_race_id + 1,
{
    let after = reg.handle(id, message);
    match message {
        ClientMessage::Finish => {
            lemma_finish_wf(reg, id);
        },
        ClientMessage::StartRace => {
            if reg.clients[id].baby is None {
                let set = reg.participants(id);
                let opened = reg.open_race();
                lemma_participants_listed(reg, id);
                let ids = ascending(set);
                lemma_open_race_wf(reg);
                lemma_spawn_all_wf(opened, ids, reg.next_race_id);
                lemma_spawn_all_frame(opened, ids, reg.next_race_id);
            }
        },
        ClientMessage::Despawn => {
            lemma_with_client_wf(reg, id, after.clients[id]);
            assert(after.clients.dom() =~= reg.clients.dom());
        },
        ClientMessage::StateSync(update) => {
            if after != reg {
                lemma_with_client_wf(reg, id, after.clients[id]);
            }
            assert(after.clients.dom() =~= reg.clients.dom());
        },
        ClientMessage::Name(name) => {
            lemma_with_client_wf(reg, id, after.clients[id]);
            assert(after.clients.dom() =~= reg.clients.dom());
        },
    }
}

/// Any message but the finish of one of its racers leaves a race alone: the
/// race counts as many finishes as before, nobody enters it, every racer
/// but the sender stays as it is, and the sender leaves it only by giving
/// up.
pub proof fn lemma_race_left_alone(
    reg: Registry,
    race: RaceId,
    id: ClientId,
    message: ClientMessage,
)
    requires
        reg.wf(),
        reg.races.contains_key(race),
        reg.clients.contains_key(id),
        message is Finish ==> reg.clients[id].race_id != Some(race),
        message is StartRace ==> reg.has_room(),
    ensures
        ({
            let after = reg.handle(id, message);
            &&& after.races.contains_key(race)
            &&& after.races[race] == reg.races[race]
            &&& forall|racer: ClientId|
                #![trigger after.clients[racer]]
                reg.clients.contains_key(racer) && racer != id && reg.clients[racer].race_id
                    == Some(race) ==> after.clients[racer] == reg.clients[racer]
            &&& forall|other: ClientId|
                #![trigger after.clients[other]]
                reg.clients.contains_key(other) && reg.clients[other].race_id != Some(race)
                    ==> after.clients[other].race_id != Some(race)
            &&& reg.clients[id].race_id == Some(race) && !(message is Despawn)
                ==> after.clients[id].race_id == Some(race)
        }),
{
    let after = reg.handle(id, message);
    assert(record_wf(reg.clients[id], reg.races));
    match message {
        ClientMessage::StartRace => {
            if reg.clients[id].baby is None {
                let set = reg.participants(id);
                let opened = reg.open_race();
                lemma_participants_listed(reg, id);
                let ids = ascending(set);
                lemma_spawn_all_frame(opened, ids, reg.next_race_id);
                assert forall|racer: ClientId|
                    reg.clients.contains_key(racer) && racer != id && reg.clients[racer].race_id
                        == Some(race) implies after.clients[racer] == reg.clients[racer] by {
                    assert(record_wf(reg.clients[racer], reg.races));
                    assert(!set.contains(racer));
                    assert(!ids.contains(racer));
                }
            }
        },
        _ => {},
    }
}

/// The registry after a list of messages, each with the client that sent
/// it, in the order in which they arrive.
pub open spec fn run(reg: Registry, sent: Seq<(ClientId, ClientMessage)>) -> Registry
    decreases sent.len(),
{
    if sent.len() == 0 {
        reg
    } else {
        run(reg, sent.drop_last()).handle(sent.last().0, sent.last().1)
    }
}

/// Whether a list of messages leaves a race and some of its racers alone:
/// every message comes from a connected client, none is the finish of a
/// client that races in the race, and none of the `steady` clients gives
/// up. Everything else may be sent by anyone, the racers of the race among
/// them.
pub open spec fn leaves_alone(
    reg: Registry,
    race: RaceId,
    steady: Set<ClientId>,
    sent: Seq<(ClientId, ClientMessage)>,
) -> bool {
    forall|i: int|
        0 <= i < sent.len() ==> {
            let (sender, message) = #[trigger] sent[i];
            &&& reg.clients.contains_key(sender)
            &&& message is Finish ==> reg.clients[sender].race_id != Some(race)
            &&& message is Despawn ==> !steady.contains(sender)
        }
}

/// Messages that leave a race alone, however many they are, leave the race
/// with the count that it had, let nobody enter it, and keep every steady
/// racer in it.
pub proof fn lemma_run_leaves_alone(
    reg: Registry,
    race: RaceId,
    steady: Set<ClientId>,
    sent: Seq<(ClientId, ClientMessage)>,
)
    requires
        reg.wf(),
        reg.races.contains_key(race),
        leaves_alone(reg, race, steady, sent),
        reg.clients.len() < u32::MAX,
        reg.next_race_id + sent.len() < u64::MAX,
    ensures
        ({
            let after = run(reg, sent);
            &&& after.wf()
            &&& after.clients.dom() == reg.clients.dom()
            &&& after.next_race_id <= reg.next_race_id + sent.len()
            &&& after.races.contains_key(race)
            &&& after.races[race] == reg.races[race]
            &&& forall|racer: ClientId|
                #![trigger after.clients[racer]]
                steady.contains(racer) && reg.clients.contains_key(racer)
                    && reg.clients[racer].race_id == Some(race) ==> after.clients[racer].race_id
                    == Some(race)
            &&& forall|other: ClientId|
                #![trigger after.clients[other]]
                reg.clients.contains_key(other) && reg.clients[other].race_id != Some(race)
                    ==> after.clients[other].race_id != Some(race)
        }),
    decreases sent.len(),
{
    if sent.len() > 0 {
        let earlier = sent.drop_last();
        let (id, message) = sent.last();
        assert forall|i: int| 0 <= i < earlier.len() implies ({
            let (sender, message) = #[trigger] earlier[i];
            &&& reg.clients.contains_key(sender)
            &&& message is Finish ==> reg.clients[sender].race_id != Some(race)
            &&& message is Despawn ==> !steady.contains(sender)
        }) by {
            assert(earlier[i] == sent[i]);
        }
        lemma_run_leaves_alone(reg, race, steady, earlier);
        let prev = run(reg, earlier);
        assert(sent[sent.len() - 1] == (id, message));
        assert(prev.clients.contains_key(id));
        if message is Finish {
            assert(reg.clients[id].race_id != Some(race));
            assert(prev.clients[id].race_id != Some(race));
        }
        lemma_handle_wf(prev, id, message);
        lemma_race_left_alone(prev, race, id, message);
        let after = prev.handle(id, message);
        assert forall|racer: ClientId|
            #![trigger after.clients[racer]]
            steady.contains(racer) && reg.clients.contains_key(racer)
                && reg.clients[racer].race_id == Some(race) implies after.clients[racer].race_id
            == Some(race) by {
            assert(prev.clients[racer].race_id == Some(race));
            if racer != id {
                assert(after.clients[racer] == prev.clients[racer]);
            }
        }
        assert forall|other: ClientId|
            #![trigger after.clients[other]]
            reg.clients.contains_key(other) && reg.clients[other].race_id != Some(race)
                implies after.clients[other].race_id != Some(race) by {
            assert(prev.clients[other].race_id != Some(race));
        }
    }
}

/// Two clients that race in the same race and finish one after the other
/// are told ranks that follow each other, whatever else is sent before and
/// between by anyone: only a finish of another racer of that race would
/// come between them. Each of the two has lost its body when it has
/// finished, the race has counted both, and neither finish touches the
/// count of another race.
pub proof fn lemma_ranks_in_sequence(
    reg: Registry,
    race: RaceId,
    a: ClientId,
    b: ClientId,
    before: Seq<(ClientId, ClientMessage)>,
    between: Seq<(ClientId, ClientMessage)>,
)
    requires
        reg.wf(),
        a != b,
        reg.clients.contains_key(a),
        reg.clients.contains_key(b),
        reg.clients[a].race_id == Some(race),
        reg.clients[b].race_id == Some(race),
        leaves_alone(reg, race, set![a, b], before),
        leaves_alone(reg, race, set![b], between),
        reg.clients.len() < u32::MAX,
        reg.next_race_id + before.len() + between.len() < u64::MAX,
    ensures
        ({
            let count = reg.races[race].finished;
            let first = run(reg, before);
            let after_a = first.handle(a, ClientMessage::Finish);
            let second = run(after_a, between);
            let after_b = second.handle(b, ClientMessage::Finish);
            &&& count + 2 <= usize::MAX
            &&& first.replies(a, ClientMessage::Finish)[0] == (Notice::RaceResult {
                rank: (count + 1) as usize,
                time: Scalar { bits: 0 },
            })
            &&& second.replies(b, ClientMessage::Finish)[0] == (Notice::RaceResult {
                rank: (count + 2) as usize,
                time: Scalar { bits: 0 },
            })
            &&& after_a.clients[a].baby is None
            &&& after_b.clients[b].baby is None
            &&& after_b.races[race].finished == count + 2
            &&& forall|other: RaceId|
                #![trigger after_a.races[other]]
                other != race ==> after_a.races[other] == first.races[other]
            &&& forall|other: RaceId|
                #![trigger after_b.races[other]]
                other != race ==> after_b.races[other] == second.races[other]
        }),
{
    assert(record_wf(reg.clients[a], reg.races));
    assert(set![a, b].contains(a) && set![a, b].contains(b));
    lemma_run_leaves_alone(reg, race, set![a, b], before);
    let first = run(reg, before);
    assert(first.clients[a].race_id == Some(race));
    assert(first.clients[b].race_id == Some(race));
    lemma_finish_wf(first, a);
    let after_a = first.handle(a, ClientMessage::Finish);
    assert(after_a.clients[b] == first.clients[b]);
    assert forall|i: int| 0 <= i < between.len() implies ({
        let (sender, message) = #[trigger] between[i];
        &&& after_a.clients.contains_key(sender)
        &&& message is Finish ==> after_a.clients[sender].race_id != Some(race)
        &&& message is Despawn ==> !set![b].contains(sender)
    }) by {
        let (sender, message) = between[i];
        if message is Finish {
            assert(reg.clients[sender].race_id != Some(race));
            assert(first.clients[sender].race_id != Some(race));
            assert(sender != a);
            assert(after_a.clients[sender] == first.clients[sender]);
        }
    }
    assert(set![b].contains(b));
    lemma_run_leaves_alone(after_a, race, set![b], between);
    let second = run(after_a, between);
    assert(second.clients[b].race_id == Some(race));
    lemma_finish_wf(second, b);
}

/// What a client is doing, as the server sees it.
pub enum Phase {
    /// Nothing.
    Idle,
    /// Waiting for others to join its race.
    Hosting,
    /// Waiting for the given host to start the race.
    Joined(ClientId),
    /// Racing in the given race.
    Racing(RaceId),
}

/// What the client with the given record is doing.
pub open spec fn phase(record: ClientServerState) -> Phase {
    match record.race_id {
        Some(race) => Phase::Racing(race),
        None => if record.hosting_race {
            Phase::Hosting
        } else {
            match record.joined {
                Some(host) => Phase::Joined(host),
                None => Phase::Idle,
            }
        },
    }
}

/// What a client that is not racing does after an update: it has joined the
/// host that it names if that host is connected, else it hosts if it says so
/// and names no host, and else it is idle.
pub open spec fn intended(reg: Registry, update: ClientState) -> Phase {
    match reg.accepted_join(update) {
        Some(host) => Phase::Joined(host),
        None => if reg.accepted_host(update) {
            Phase::Hosting
        } else {
            Phase::Idle
        },
    }
}

/// What a client does after a message of its own. A racing client goes on
/// racing until it finishes or gives up, which make it idle. A client that
/// is not racing races in the new race after it has started one, does what
/// it intends after an update, and is idle after it has given up.
pub open spec fn phase_after(reg: Registry, id: ClientId, message: ClientMessage) -> Phase {
    let before = phase(reg.clients[id]);
    match message {
        ClientMessage::Finish => if before is Racing {
            Phase::Idle
        } else {
            before
        },
        ClientMessage::Despawn => Phase::Idle,
        ClientMessage::Name(_) => before,
        ClientMessage::StartRace => if before is Racing {
            before
        } else {
            Phase::Racing(reg.next_race_id)
        },
        ClientMessage::StateSync(update) => if before is Racing {
            before
        } else {
            intended(reg, update)
        },
    }
}

/// A client is in one phase at a time, and a message moves its sender from
/// phase to phase as [`phase_after`] says. Only the start of a race moves
/// anyone else: those that have joined the sender race with it. A client has
/// a body exactly while it races.
pub proof fn lemma_phases(reg: Registry, id: ClientId, message: ClientMessage)
    requires
        reg.wf(),
        reg.clients.contains_key(id),
        message is StartRace ==> reg.has_room(),
    ensures
        ({
            let after = reg.handle(id, message);
            &&& phase(after.clients[id]) == phase_after(reg, id, message)
            &&& forall|other: ClientId|
                #![trigger after.clients[other]]
                reg.clients.contains_key(other) && other != id ==> phase(after.clients[other])
                    == if message is StartRace && reg.clients[id].baby is None
                    && reg.clients[other].joined == Some(id) {
                    Phase::Racing(reg.next_race_id)
                } else {
                    phase(reg.clients[other])
                }
            &&& forall|any: ClientId|
                #![trigger after.clients[any]]
                reg.clients.contains_key(any) ==> (after.clients[any].baby is Some <==> phase(
                    after.clients[any],
                ) is Racing)
        }),
{
    let after = reg.handle(id, message);
    lemma_handle_wf(reg, id, message);
    assert(record_wf(reg.clients[id], reg.races));
    assert forall|any: ClientId|
        #![trigger after.clients[any]]
        reg.clients.contains_key(any) implies (after.clients[any].baby is Some <==> phase(
        after.clients[any],
    ) is Racing) by {
        assert(after.clients.contains_key(any));
        assert(record_wf(after.clients[any], after.races));
    }
    match message {
        ClientMessage::StartRace => {
            if reg.clients[id].baby is None {
                let set = reg.participants(id);
                let opened = reg.open_race();
                lemma_participants_listed(reg, id);
                let ids = ascending(set);
                lemma_spawn_all_frame(opened, ids, reg.next_race_id);
                assert(set.contains(id));
                assert(ids.contains(id));
                assert forall|other: ClientId|
                    #![trigger after.clients[other]]
                    reg.clients.contains_key(other) && other != id implies phase(
                    after.clients[other],
                ) == if reg.clients[other].joined == Some(id) {
                    Phase::Racing(reg.next_race_id)
                } else {
                    phase(reg.clients[other])
                } by {
                    if reg.clients[other].joined == Some(id) {
                        assert(set.contains(other));
                        assert(ids.contains(other));
                    } else {
                        assert(!set.contains(other));
                        assert(!ids.contains(other));
                    }
                }
            }
        },
        _ => {},
    }
}

} // verus!
