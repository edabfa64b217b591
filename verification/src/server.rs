//! The server's registry of clients and races, and what each message of a
//! client does to it.

use std::collections::BTreeMap;
use std::collections::HashMap;
use std::collections::HashSet;

use vstd::prelude::*;
use vstd::set_lib::lemma_len_subset;
use vstd::std_specs::iter::IteratorSpec;

use crate::interop::ClientId;
use crate::interop::ClientMessage;
use crate::interop::ClientServerState;
use crate::interop::ClientState;
use crate::interop::HostedRace;
use crate::interop::Notice;
use crate::interop::RaceId;
use crate::interop::ServerMessage;
use crate::interop::notices;
use crate::lane::first_free;
use crate::lane::first_free_lane;
use crate::order::ascending;
use crate::order::is_ascending;
use crate::pose::Baby;
use crate::pose::Vec2;
use crate::roster::Pick;
use crate::scalar::Scalar;

verus! {

broadcast use {
    vstd::std_specs::btree::group_btree_axioms,
    vstd::std_specs::hash::group_hash_axioms,
};

/// What the server keeps of a race: how many of its actors have finished.
#[derive(Clone, Copy, Debug, PartialEq, Eq)]
pub struct RaceState {
    pub finished: usize,
}

/// The registry: every connected client, every race ever started, and the
/// numbers that the next client and the next race will get.
pub struct State {
    next_race_id: RaceId,
    next_client_id: ClientId,
    races: HashMap<RaceId, RaceState>,
    clients: BTreeMap<ClientId, ClientServerState>,
}

/// The registry as mathematical maps.
pub struct Registry {
    pub next_race_id: RaceId,
    pub next_client_id: ClientId,
    pub races: Map<RaceId, RaceState>,
    pub clients: Map<ClientId, ClientServerState>,
}

impl View for State {
    type V = Registry;

    closed spec fn view(&self) -> Registry {
        Registry {
            next_race_id: self.next_race_id,
            next_client_id: self.next_client_id,
            races: self.races@,
            clients: self.clients@,
        }
    }
}

/// The clients that are racing in the given race.
pub open spec fn racers(clients: Map<ClientId, ClientServerState>, race: RaceId) -> Set<ClientId> {
    clients.dom().filter(|id: ClientId| clients[id].race_id == Some(race))
}

/// The clients that have a body.
pub open spec fn embodied(clients: Map<ClientId, ClientServerState>) -> Set<ClientId> {
    clients.dom().filter(|id: ClientId| clients[id].baby is Some)
}

/// The lane that a body lies in: its place across the track, rounded.
pub open spec fn lane_of(body: Baby) -> i32 {
    body.pos.x.rounded() as i32
}

/// The lanes that the bodies of the clients lie in.
pub open spec fn lanes_taken(clients: Map<ClientId, ClientServerState>) -> Set<i32> {
    embodied(clients).map(|id: ClientId| lane_of(clients[id].baby->0))
}

/// A client's record is in one of four states: idle, hosting, joined to a
/// host, or racing with a body in a race that the registry knows.
pub open spec fn record_wf(record: ClientServerState, races: Map<RaceId, RaceState>) -> bool {
    &&& record.baby is Some <==> record.race_id is Some
    &&& record.baby is Some ==> !record.hosting_race && record.joined is None
    &&& !(record.hosting_race && record.joined is Some)
    &&& record.race_id matches Some(race) ==> races.contains_key(race)
}

impl Registry {
    /// What holds of the registry at all times.
    pub open spec fn wf(self) -> bool {
        &&& self.clients.dom().finite()
        &&& forall|id: ClientId| #[trigger]
            self.clients.contains_key(id) ==> id < self.next_client_id
        &&& forall|race: RaceId| #[trigger]
            self.races.contains_key(race) <==> race < self.next_race_id
        &&& forall|id: ClientId| #[trigger]
            self.clients.contains_key(id) ==> record_wf(self.clients[id], self.races)
        &&& forall|race: RaceId| #[trigger] self.races.contains_key(race) ==> self.counts_fit(race)
    }

    /// Whether the finishes of a race can still be counted when every one of
    /// its racers has finished.
    pub open spec fn counts_fit(self, race: RaceId) -> bool {
        self.races[race].finished + racers(self.clients, race).len() <= usize::MAX
    }

    /// The registry before anyone has connected.
    pub open spec fn empty() -> Registry {
        Registry { next_race_id: 0, next_client_id: 0, races: Map::empty(), clients: Map::empty() }
    }

    /// The registry with a new client under the next number.
    pub open spec fn connect(self, record: ClientServerState) -> Registry {
        Registry {
            next_client_id: (self.next_client_id + 1) as ClientId,
            clients: self.clients.insert(self.next_client_id, record),
            ..self
        }
    }

    /// The registry without the given client.
    pub open spec fn disconnect(self, id: ClientId) -> Registry {
        Registry { clients: self.clients.remove(id), ..self }
    }

    /// The registry with the record of the given client replaced.
    pub open spec fn with_client(self, id: ClientId, record: ClientServerState) -> Registry {
        Registry { clients: self.clients.insert(id, record), ..self }
    }

    /// Where the next actor spawns: at the start of the track, in the first
    /// lane that no body lies in.
    pub open spec fn spawn_pos(self) -> Vec2 {
        Vec2 {
            x: Scalar::of_whole(first_free(lanes_taken(self.clients)) as int),
            y: Scalar { bits: 0 },
        }
    }

    /// Whether the given client takes part in a race that `host` starts: it
    /// has joined `host`, or it is `host`.
    pub open spec fn takes_part(self, id: ClientId, host: ClientId) -> bool {
        self.clients.contains_key(id) && (self.clients[id].joined == Some(host) || id == host)
    }

    /// The clients that take part in a race that `host` starts.
    pub open spec fn participants(self, host: ClientId) -> Set<ClientId> {
        Set::new(|id: ClientId| self.takes_part(id, host))
    }

    /// The registry after the given client has been put into the given race:
    /// it neither hosts nor has joined any more, and has a fresh body at the
    /// place where the next actor spawns.
    pub open spec fn spawn(self, id: ClientId, race: RaceId) -> Registry {
        self.with_client(
            id,
            ClientServerState {
                hosting_race: false,
                joined: None,
                race_id: Some(race),
                baby: Some(Baby::spawned(None, self.spawn_pos())),
                ..self.clients[id]
            },
        )
    }

    /// The registry after the given clients have been put into the given
    /// race one after the other.
    pub open spec fn spawn_all(self, ids: Seq<ClientId>, race: RaceId) -> Registry
        decreases ids.len(),
    {
        if ids.len() == 0 {
            self
        } else {
            self.spawn_all(ids.drop_last(), race).spawn(ids.last(), race)
        }
    }

    /// The registry with a new race under the next number, which nobody has
    /// finished.
    pub open spec fn open_race(self) -> Registry {
        Registry {
            next_race_id: (self.next_race_id + 1) as RaceId,
            races: self.races.insert(self.next_race_id, RaceState { finished: 0 }),
            ..self
        }
    }

    /// The registry after `host` has asked for a race to start. A host that
    /// is racing is not heard; else a new race opens, and the participants
    /// spawn in it in the order of their numbers.
    pub open spec fn start_race(self, host: ClientId) -> Registry {
        if self.clients[host].baby is Some {
            self
        } else {
            self.open_race().spawn_all(ascending(self.participants(host)), self.next_race_id)
        }
    }

    /// The rank that the given client gets if it finishes now: one more than
    /// the number of actors that have finished its race, and none for a
    /// client that is not racing.
    pub open spec fn rank(self, id: ClientId) -> Option<usize> {
        match self.clients[id].race_id {
            Some(race) => Some((self.races[race].finished + 1) as usize),
            None => None,
        }
    }

    /// The registry after the given client has finished: the client has left
    /// its race and lost its body, and the race counts one more finish.
    pub open spec fn finish(self, id: ClientId) -> Registry {
        let record = self.clients[id];
        match record.race_id {
            Some(race) => Registry {
                clients: self.clients.insert(
                    id,
                    ClientServerState { baby: None, race_id: None, ..record },
                ),
                races: self.races.insert(
                    race,
                    RaceState { finished: (self.races[race].finished + 1) as usize },
                ),
                ..self
            },
            None => self.with_client(id, ClientServerState { baby: None, ..record }),
        }
    }

    /// The registry after the given client has given up: it is idle again,
    /// and no race counts a finish.
    pub open spec fn despawn(self, id: ClientId) -> Registry {
        self.with_client(
            id,
            ClientServerState {
                baby: None,
                joined: None,
                hosting_race: false,
                race_id: None,
                ..self.clients[id]
            },
        )
    }

    /// The registry after the given client has taken a new name.
    pub open spec fn rename(self, id: ClientId, name: String) -> Registry {
        self.with_client(id, ClientServerState { name, ..self.clients[id] })
    }

    /// What the server accepts of a client's intent: joining a host that is
    /// not connected counts as no intent at all, and joining rules out
    /// hosting.
    pub open spec fn accepted_join(self, update: ClientState) -> Option<ClientId> {
        match update.join_race {
            Some(host) if self.clients.contains_key(host) => Some(host),
            _ => None,
        }
    }

    /// See [`Registry::accepted_join`].
    pub open spec fn accepted_host(self, update: ClientState) -> bool {
        update.join_race is None && update.host_race
    }

    /// The registry after an update of the given client. A racing client
    /// replaces its body by the one it sends, and keeps it if it sends none;
    /// a client that is not racing states whom it joins or whether it hosts,
    /// and a body that it sends is dropped.
    pub open spec fn sync(self, id: ClientId, update: ClientState) -> Registry {
        let record = self.clients[id];
        match record.baby {
            Some(_) => match update.baby {
                Some(body) => self.with_client(
                    id,
                    ClientServerState { baby: Some(body), ..record },
                ),
                None => self,
            },
            None => self.with_client(
                id,
                ClientServerState {
                    joined: self.accepted_join(update),
                    hosting_race: self.accepted_host(update),
                    ..record
                },
            ),
        }
    }

    /// Where the given client's actor has spawned, if the client's update
    /// shows that it does not know of its actor yet.
    pub open spec fn unseen_spawn(self, id: ClientId, update: ClientState) -> Option<Vec2> {
        match (self.clients[id].baby, update.baby) {
            (Some(body), None) => Some(body.pos),
            _ => None,
        }
    }
}

/// A registry stays well-formed when one client's record is replaced by a
/// well-formed one that races in no other race than before.
pub proof fn lemma_with_client_wf(reg: Registry, id: ClientId, record: ClientServerState)
    requires
        reg.wf(),
        reg.clients.contains_key(id),
        record_wf(record, reg.races),
        record.race_id is Some ==> record.race_id == reg.clients[id].race_id,
    ensures
        reg.with_client(id, record).wf(),
        reg.with_client(id, record).clients.dom() == reg.clients.dom(),
{
    let after = reg.with_client(id, record);
    assert(after.clients.dom() =~= reg.clients.dom());
    assert forall|race: RaceId| #[trigger]
        after.races.contains_key(race) implies after.counts_fit(race) by {
        assert(racers(after.clients, race).subset_of(racers(reg.clients, race)));
        lemma_len_subset(racers(after.clients, race), racers(reg.clients, race));
    }
}

/// A registry stays well-formed when a client finishes.
pub proof fn lemma_finish_wf(reg: Registry, id: ClientId)
    requires
        reg.wf(),
        reg.clients.contains_key(id),
    ensures
        reg.finish(id).wf(),
        reg.finish(id).clients.dom() == reg.clients.dom(),
        reg.clients[id].race_id matches Some(race) ==> reg.races[race].finished < usize::MAX,
{
    let after = reg.finish(id);
    assert(after.clients.dom() =~= reg.clients.dom());
    if let Some(race) = reg.clients[id].race_id {
        assert(reg.races.contains_key(race));
        assert(racers(reg.clients, race).contains(id));
        assert(racers(reg.clients, race).len() > 0);
    }
    assert forall|race: RaceId| #[trigger]
        after.races.contains_key(race) implies after.counts_fit(race) by {
        assert(reg.races.contains_key(race));
        if reg.clients[id].race_id == Some(race) {
            assert(racers(after.clients, race) =~= racers(reg.clients, race).remove(id));
        } else {
            assert(racers(after.clients, race) =~= racers(reg.clients, race));
        }
    }
}

/// A registry with room for a race stays well-formed when a race opens.
pub proof fn lemma_open_race_wf(reg: Registry)
    requires
        reg.wf(),
        reg.next_race_id < u64::MAX,
    ensures
        reg.open_race().wf(),
        racers(reg.open_race().clients, reg.next_race_id) == Set::<ClientId>::empty(),
{
    let opened = reg.open_race();
    let race = reg.next_race_id;
    assert(racers(opened.clients, race) =~= Set::<ClientId>::empty()) by {
        assert forall|id: ClientId| !racers(opened.clients, race).contains(id) by {
            if opened.clients.contains_key(id) && opened.clients[id].race_id == Some(race) {
                assert(reg.races.contains_key(race));
            }
        }
    }
    assert forall|other: RaceId| #[trigger]
        opened.races.contains_key(other) implies opened.counts_fit(other) by {
        if other != race {
            assert(reg.races.contains_key(other));
        }
    }
}

/// A registry stays well-formed when a client is put into a race that
/// nobody has finished.
pub proof fn lemma_spawn_wf(reg: Registry, id: ClientId, race: RaceId)
    requires
        reg.wf(),
        reg.clients.contains_key(id),
        reg.clients.len() <= usize::MAX,
        reg.races.contains_key(race),
        reg.races[race].finished == 0,
    ensures
        reg.spawn(id, race).wf(),
        reg.spawn(id, race).clients.dom() == reg.clients.dom(),
{
    let after = reg.spawn(id, race);
    assert(after.clients.dom() =~= reg.clients.dom());
    assert forall|other: RaceId| #[trigger]
        after.races.contains_key(other) implies after.counts_fit(other) by {
        if other == race {
            lemma_len_subset(racers(after.clients, other), after.clients.dom());
        } else {
            assert(racers(after.clients, other).subset_of(racers(reg.clients, other)));
            lemma_len_subset(racers(after.clients, other), racers(reg.clients, other));
        }
    }
}

impl Registry {
    /// Whether there is room for another race: a number for it, and a lane
    /// for each of the clients.
    pub open spec fn has_room(self) -> bool {
        self.clients.len() < u32::MAX && self.next_race_id < u64::MAX
    }

    /// The registry after the given message of the given client.
    pub open spec fn handle(self, id: ClientId, message: ClientMessage) -> Registry {
        match message {
            ClientMessage::Finish => self.finish(id),
            ClientMessage::StartRace => self.start_race(id),
            ClientMessage::Despawn => self.despawn(id),
            ClientMessage::StateSync(update) => self.sync(id, update),
            ClientMessage::Name(name) => self.rename(id, name),
        }
    }

    /// What the server tells the given client about its own message, before
    /// it sends the records of all clients: its rank when it has finished a
    /// race, and where its actor is when its update shows that it does not
    /// know of it. The server keeps no clock: the time in a race result is
    /// zero.
    pub open spec fn notice(self, id: ClientId, message: ClientMessage) -> Seq<Notice> {
        match message {
            ClientMessage::Finish => match self.rank(id) {
                Some(rank) => seq![Notice::RaceResult { rank, time: Scalar { bits: 0 } }],
                None => Seq::empty(),
            },
            ClientMessage::StateSync(update) => match self.unseen_spawn(id, update) {
                Some(pos) => seq![Notice::Spawn(pos)],
                None => Seq::empty(),
            },
            _ => Seq::empty(),
        }
    }

    /// The server's answer to the given message of the given client: what
    /// concerns the message itself, and then the records of all clients as
    /// they are after the message.
    pub open spec fn replies(self, id: ClientId, message: ClientMessage) -> Seq<Notice> {
        self.notice(id, message).push(
            Notice::StateSync { clients: self.handle(id, message).clients },
        )
    }
}

impl State {
    /// The registry before anyone has connected.
    pub fn new() -> (state: State)
        ensures
            state@ == Registry::empty(),
            state@.wf(),
    {
        let state = State {
            next_race_id: 0,
            next_client_id: 0,
            races: HashMap::new(),
            clients: BTreeMap::new(),
        };
        proof {
            assert forall|race: RaceId| #[trigger]
                state@.races.contains_key(race) implies false by {}
        }
        state
    }

    /// Whether a client with the given number is connected.
    pub fn has_client(&self, id: ClientId) -> (r: bool)
        ensures
            r == self@.clients.contains_key(id),
    {
        self.clients.contains_key(&id)
    }

    /// The records of the connected clients.
    pub fn clients(&self) -> (clients: &BTreeMap<ClientId, ClientServerState>)
        ensures
            clients@ == self@.clients,
    {
        &self.clients
    }

    /// The races that have been started.
    pub fn races(&self) -> (races: &HashMap<RaceId, RaceState>)
        ensures
            races@ == self@.races,
    {
        &self.races
    }

    /// The number that the next client gets.
    pub fn next_client_id(&self) -> (id: ClientId)
        ensures
            id == self@.next_client_id,
    {
        self.next_client_id
    }

    /// The number that the next race gets.
    pub fn next_race_id(&self) -> (id: RaceId)
        ensures
            id == self@.next_race_id,
    {
        self.next_race_id
    }

    /// Enters a new client under the next number and returns that number.
    pub fn add_client(&mut self) -> (id: ClientId)
        requires
            old(self)@.wf(),
            old(self)@.next_client_id < u64::MAX,
        ensures
            id == old(self)@.next_client_id,
            final(self)@.clients[id].fresh(),
            final(self)@ == old(self)@.connect(final(self)@.clients[id]),
            final(self)@.wf(),
    {
        let id = self.next_client_id;
        self.next_client_id = self.next_client_id + 1;
        self.clients.insert(id, ClientServerState::new());
        proof {
            let before = old(self)@;
            let after = self@;
            assert(after.clients =~= before.clients.insert(id, after.clients[id]));
            assert(after.races == before.races);
            assert(!before.clients.contains_key(id));
            assert forall|race: RaceId| #[trigger]
                after.races.contains_key(race) implies after.counts_fit(race) by {
                assert(before.races.contains_key(race));
                assert(racers(after.clients, race) =~= racers(before.clients, race));
            }
        }
        id
    }

    /// Removes a client on its disconnection.
    pub fn remove_client(&mut self, id: ClientId)
        requires
            old(self)@.wf(),
            old(self)@.clients.contains_key(id),
        ensures
            final(self)@ == old(self)@.disconnect(id),
            final(self)@.wf(),
    {
        let _client = self.clients.remove(&id);
        proof {
            let before = old(self)@;
            let after = self@;
            assert forall|race: RaceId| #[trigger]
                after.races.contains_key(race) implies after.counts_fit(race) by {
                assert(racers(after.clients, race).subset_of(racers(before.clients, race)));
                lemma_len_subset(racers(after.clients, race), racers(before.clients, race));
            }
        }
    }

    /// Takes the record of a client out of the registry, to be put back
    /// changed.
    fn take_client(&mut self, id: ClientId) -> (record: ClientServerState)
        requires
            old(self)@.clients.contains_key(id),
        ensures
            record == old(self)@.clients[id],
            final(self)@ == old(self)@.disconnect(id),
    {
        self.clients.remove(&id).unwrap()
    }

    /// Records that the given client's actor has crossed the finish line,
    /// and returns its rank.
    pub fn finish(&mut self, id: ClientId) -> (rank: Option<usize>)
        requires
            old(self)@.wf(),
            old(self)@.clients.contains_key(id),
        ensures
            final(self)@ == old(self)@.finish(id),
            final(self)@.clients.dom() == old(self)@.clients.dom(),
            rank == old(self)@.rank(id),
            final(self)@.wf(),
    {
        let ghost before = self@;
        proof {
            lemma_finish_wf(before, id);
        }
        let mut record = self.take_client(id);
        record.baby = None;
        let rank = match record.race_id {
            Some(race) => {
                let finished = self.races.get(&race).unwrap().finished + 1;
                self.races.insert(race, RaceState { finished });
                record.race_id = None;
                Some(finished)
            },
            None => None,
        };
        self.clients.insert(id, record);
        proof {
            assert(self@.clients =~= before.finish(id).clients);
            assert(self@.races =~= before.finish(id).races);
        }
        rank
    }

    /// Makes the given client idle again.
    pub fn despawn(&mut self, id: ClientId)
        requires
            old(self)@.wf(),
            old(self)@.clients.contains_key(id),
        ensures
            final(self)@ == old(self)@.despawn(id),
            final(self)@.clients.dom() == old(self)@.clients.dom(),
            final(self)@.wf(),
    {
        let ghost before = self@;
        let mut record = self.take_client(id);
        record.baby = None;
        record.joined = None;
        record.hosting_race = false;
        record.race_id = None;
        self.clients.insert(id, record);
        proof {
            assert(self@.clients =~= before.despawn(id).clients);
            lemma_with_client_wf(before, id, record);
        }
    }

    /// Gives the given client a new name.
    pub fn rename(&mut self, id: ClientId, name: String)
        requires
            old(self)@.wf(),
            old(self)@.clients.contains_key(id),
        ensures
            final(self)@ == old(self)@.rename(id, name),
            final(self)@.clients.dom() == old(self)@.clients.dom(),
            final(self)@.wf(),
    {
        let ghost before = self@;
        let mut record = self.take_client(id);
        record.name = name;
        self.clients.insert(id, record);
        proof {
            assert(self@.clients =~= before.rename(id, name).clients);
            lemma_with_client_wf(before, id, record);
        }
    }

    /// Takes in an update of the given client, and returns where the
    /// client's actor has spawned if the update shows that the client does
    /// not know of it.
    pub fn sync(&mut self, id: ClientId, update: ClientState) -> (spawn: Option<Vec2>)
        requires
            old(self)@.wf(),
            old(self)@.clients.contains_key(id),
        ensures
            final(self)@ == old(self)@.sync(id, update),
            final(self)@.clients.dom() == old(self)@.clients.dom(),
            spawn == old(self)@.unseen_spawn(id, update),
            final(self)@.wf(),
    {
        let ghost before = self@;
        let join_race = match update.join_race {
            Some(host) => if self.clients.contains_key(&host) {
                Some(host)
            } else {
                None
            },
            None => None,
        };
        let host_race = update.join_race.is_none() && update.host_race;
        let racing = self.clients.get(&id).unwrap().baby;
        match racing {
            Some(body) => match update.baby {
                Some(sent) => {
                    let mut record = self.take_client(id);
                    record.baby = Some(sent);
                    self.clients.insert(id, record);
                    proof {
                        assert(self@.clients =~= before.sync(id, update).clients);
                        lemma_with_client_wf(before, id, record);
                    }
                    None
                },
                None => Some(body.pos),
            },
            None => {
                let mut record = self.take_client(id);
                record.joined = join_race;
                record.hosting_race = host_race;
                self.clients.insert(id, record);
                proof {
                    assert(self@.clients =~= before.sync(id, update).clients);
                    lemma_with_client_wf(before, id, record);
                }
                None
            },
        }
    }

    /// The records of all clients, as every client gets to see them.
    pub fn sync_message(&self) -> (message: ServerMessage)
        ensures
            message matches ServerMessage::StateSync { clients } && clients@ == self@.clients,
    {
        ServerMessage::StateSync { clients: self.clients.clone() }
    }

    /// The race that forms around `host`: the clients that have joined it,
    /// in the order of their numbers.
    pub fn hosted_race(&self, host: ClientId) -> (race: HostedRace)
        ensures
            race.joined_players@ == ascending(Pick::JoinedTo(host).picked(self@.clients)),
            is_ascending(race.joined_players@),
            forall|id: ClientId|
                race.joined_players@.contains(id) <==> (self@.clients.contains_key(id)
                    && self@.clients[id].joined == Some(host)),
    {
        HostedRace { joined_players: Pick::JoinedTo(host).among(&self.clients) }
    }

    /// The clients that take part in a race that `host` starts, in the order
    /// of their numbers.
    pub fn participants(&self, host: ClientId) -> (ids: Vec<ClientId>)
        ensures
            ids@ == ascending(self@.participants(host)),
            is_ascending(ids@),
            forall|id: ClientId| ids@.contains(id) <==> self@.takes_part(id, host),
    {
        let ids = Pick::RaceOf(host).among(&self.clients);
        proof {
            assert(Pick::RaceOf(host).picked(self.clients@) =~= self@.participants(host));
        }
        ids
    }

    /// Where the next actor spawns: at the start of the track, in the first
    /// lane that no body lies in.
    pub fn find_new_spawn_pos(&self) -> (pos: Vec2)
        requires
            self@.clients.len() < u32::MAX,
        ensures
            pos == self@.spawn_pos(),
    {
        let mut used_x: HashSet<i32> = HashSet::new();
        let entries = self.clients.iter();
        let ghost all = entries.remaining();
        let ghost clients = self.clients@;
        let ghost lane = |id: ClientId| lane_of(clients[id].baby->0);
        for entry in it: entries
            invariant
                it.seq() == all,
                clients == self.clients@,
                lane == |id: ClientId| lane_of(clients[id].baby->0),
                all.len() == clients.dom().len(),
                forall|i: int|
                    0 <= i < all.len() ==> clients.contains_key(*(#[trigger] all[i]).0)
                        && clients[*all[i].0] == *all[i].1,
                used_x@.finite(),
                used_x@.len() <= it.index(),
                forall|taken: i32|
                    used_x@.contains(taken) ==> embodied(clients).map(lane).contains(taken),
                forall|j: int|
                    0 <= j < it.index() && (#[trigger] all[j]).1.baby is Some ==> used_x@.contains(
                        lane_of(all[j].1.baby->0),
                    ),
        {
            let (id, client) = entry;
            if let Some(baby) = &client.baby {
                proof {
                    assert(embodied(clients).contains(*id));
                    assert(lane(*id) == lane_of(*baby));
                }
                used_x.insert(baby.pos.x.round_to_i32());
            }
        }
        proof {
            assert forall|taken: i32|
                embodied(clients).map(lane).contains(taken) implies used_x@.contains(taken) by {
                let id = choose|id: ClientId| embodied(clients).contains(id) && lane(id) == taken;
                let pair = (&id, &clients[id]);
                assert(all.contains(pair));
                let j = choose|j: int| 0 <= j < all.len() && all[j] == pair;
                assert(all[j].1.baby is Some);
            }
            assert(used_x@ =~= lanes_taken(clients));
        }
        let unused_x = first_free_lane(&used_x);
        Vec2 { x: Scalar::from_i32(unused_x), y: Scalar::zero() }
    }

    /// Puts the given client into the given race, with a fresh body at the
    /// place where the next actor spawns.
    fn spawn(&mut self, id: ClientId, race: RaceId)
        requires
            old(self)@.wf(),
            old(self)@.clients.contains_key(id),
            old(self)@.clients.len() < u32::MAX,
            old(self)@.races.contains_key(race),
            old(self)@.races[race].finished == 0,
        ensures
            final(self)@ == old(self)@.spawn(id, race),
            final(self)@.clients.dom() == old(self)@.clients.dom(),
            final(self)@.wf(),
    {
        let ghost before = self@;
        let baby = Baby::new(None, self.find_new_spawn_pos());
        let mut record = self.take_client(id);
        record.hosting_race = false;
        record.joined = None;
        record.race_id = Some(race);
        record.baby = Some(baby);
        self.clients.insert(id, record);
        proof {
            assert(self@.clients =~= before.spawn(id, race).clients);
            lemma_spawn_wf(before, id, race);
        }
    }

    /// Starts a race around `host`, unless `host` is racing.
    pub fn start_race(&mut self, host: ClientId)
        requires
            old(self)@.wf(),
            old(self)@.clients.contains_key(host),
            old(self)@.clients.len() < u32::MAX,
            old(self)@.next_race_id < u64::MAX,
        ensures
            final(self)@ == old(self)@.start_race(host),
            final(self)@.clients.dom() == old(self)@.clients.dom(),
            final(self)@.wf(),
    {
        if self.clients.get(&host).unwrap().baby.is_some() {
            return ;
        }
        let participants = self.participants(host);
        let race_id = self.next_race_id;
        self.next_race_id = self.next_race_id + 1;
        self.races.insert(race_id, RaceState { finished: 0 });
        let ghost opened = self@;
        proof {
            let before = old(self)@;
            assert(opened.races =~= before.open_race().races);
            assert(opened == before.open_race());
            lemma_open_race_wf(before);
        }
        let mut i: usize = 0;
        while i < participants.len()
            invariant
                0 <= i <= participants.len(),
                self@.wf(),
                self@ == opened.spawn_all(participants@.take(i as int), race_id),
                self@.clients.dom() == opened.clients.dom(),
                self@.races == opened.races,
                opened.clients.len() < u32::MAX,
                opened.races.contains_key(race_id),
                opened.races[race_id].finished == 0,
                forall|id: ClientId| participants@.contains(id) ==> opened.clients.contains_key(id),
            decreases participants.len() - i,
        {
            let id = participants[i];
            assert(participants@.contains(id));
            self.spawn(id, race_id);
            proof {
                let upto = participants@.take(i + 1);
                assert(upto.drop_last() =~= participants@.take(i as int));
                assert(upto.last() == id);
            }
            i = i + 1;
        }
        proof {
            assert(participants@.take(participants@.len() as int) =~= participants@);
        }
    }
}

/// The server: the registry, and what connections do to it.
pub struct App {
    state: State,
}

/// One connection to the server.
pub struct Client {
    id: ClientId,
}

impl View for App {
    type V = Registry;

    closed spec fn view(&self) -> Registry {
        self.state@
    }
}

impl App {
    /// A server that nobody has connected to.
    pub fn new() -> (app: App)
        ensures
            app@ == Registry::empty(),
            app@.wf(),
    {
        App { state: State::new() }
    }

    /// The registry.
    pub fn state(&self) -> (state: &State)
        ensures
            state@ == self@,
    {
        &self.state
    }

    /// Whether another client can connect: whether a number is left for it.
    pub fn can_connect(&self) -> (r: bool)
        ensures
            r == (self@.next_client_id < u64::MAX),
    {
        self.state.next_client_id < u64::MAX
    }

    /// Whether there is room for another race.
    pub fn has_room(&self) -> (r: bool)
        ensures
            r == self@.has_room(),
    {
        self.state.clients.len() < 0xffff_ffff && self.state.next_race_id < u64::MAX
    }

    /// Takes in a new connection: the client gets the next number, is told
    /// that number, and then gets the records of the clients that were
    /// connected before it. Its own record is entered after these records
    /// were taken, so that the first client of a server gets no record at
    /// all.
    pub fn connect(&mut self) -> (r: (Client, Vec<ServerMessage>))
        requires
            old(self)@.wf(),
            old(self)@.next_client_id < u64::MAX,
        ensures
            r.0.id() == old(self)@.next_client_id,
            final(self)@.clients[r.0.id()].fresh(),
            final(self)@ == old(self)@.connect(final(self)@.clients[r.0.id()]),
            final(self)@.wf(),
            notices(r.1@) == seq![
                Notice::Auth { id: r.0.id() },
                Notice::StateSync { clients: old(self)@.clients },
            ],
            !old(self)@.clients.contains_key(r.0.id()),
    {
        let records = self.state.sync_message();
        let id = self.state.add_client();
        let mut replies: Vec<ServerMessage> = Vec::new();
        replies.push(ServerMessage::Auth { id });
        replies.push(records);
        proof {
            assert(notices(replies@) =~= seq![
                Notice::Auth { id },
                Notice::StateSync { clients: old(self)@.clients },
            ]);
        }
        (Client { id }, replies)
    }
}

impl Client {
    /// The number of the connection.
    pub closed spec fn id(&self) -> ClientId {
        self.id
    }

    /// The number of the connection.
    pub fn number(&self) -> (id: ClientId)
        ensures
            id == self.id(),
    {
        self.id
    }

    /// Takes in a message of the client and returns what the server answers
    /// to it, in the order in which it is to be sent.
    pub fn handle(&mut self, app: &mut App, message: ClientMessage) -> (replies: Vec<ServerMessage>)
        requires
            old(app)@.wf(),
            old(app)@.clients.contains_key(old(self).id()),
            message is StartRace ==> old(app)@.has_room(),
        ensures
            final(self).id() == old(self).id(),
            final(app)@ == old(app)@.handle(old(self).id(), message),
            notices(replies@) == old(app)@.replies(old(self).id(), message),
            final(app)@.wf(),
            final(app)@.clients.dom() == old(app)@.clients.dom(),
    {
        let ghost before = app@;
        let mut replies: Vec<ServerMessage> = Vec::new();
        match message {
            ClientMessage::Finish => {
                if let Some(rank) = app.state.finish(self.id) {
                    replies.push(ServerMessage::RaceResult { rank, time: Scalar::zero() });
                }
            },
            ClientMessage::StartRace => {
                app.state.start_race(self.id);
            },
            ClientMessage::Despawn => {
                app.state.despawn(self.id);
            },
            ClientMessage::StateSync(update) => {
                if let Some(pos) = app.state.sync(self.id, update) {
                    replies.push(ServerMessage::Spawn(pos));
                }
            },
            ClientMessage::Name(name) => {
                app.state.rename(self.id, name);
            },
        }
        proof {
            assert(notices(replies@) =~= before.notice(self.id, message));
        }
        replies.push(app.state.sync_message());
        proof {
            assert(notices(replies@) =~= before.replies(self.id, message));
        }
        replies
    }

    /// Ends the connection: the client's record leaves the registry.
    pub fn disconnect(self, app: &mut App)
        requires
            old(app)@.wf(),
            old(app)@.clients.contains_key(self.id()),
        ensures
            final(app)@ == old(app)@.disconnect(self.id()),
            final(app)@.wf(),
    {
        app.state.remove_client(self.id);
    }
}

} // verus!
