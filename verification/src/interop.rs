//! What the server and its clients say to each other.

use std::collections::BTreeMap;

use vstd::prelude::*;

use crate::pose::Baby;
use crate::pose::Vec2;
use crate::scalar::Scalar;

verus! {

/// The number of a connection; the server gives each new connection the next
/// one and never gives one out twice.
pub type ClientId = u64;

/// The number of a race, given out in the same way.
pub type RaceId = u64;

/// A race that is forming around a host: the clients that have joined it, in
/// the order of their numbers.
#[derive(Debug, PartialEq, Eq)]
pub struct HostedRace {
    pub joined_players: Vec<ClientId>,
}

impl Clone for HostedRace {
    fn clone(&self) -> (r: Self)
        ensures
            r.joined_players@ == self.joined_players@,
    {
        HostedRace { joined_players: self.joined_players.clone() }
    }
}

/// What the server keeps of one client and shows to all.
#[derive(Debug, PartialEq, Eq)]
pub struct ClientServerState {
    pub name: String,
    /// The body, present exactly while the client is racing.
    pub baby: Option<Baby>,
    pub hosting_race: bool,
    /// The host whose race the client has joined.
    pub joined: Option<ClientId>,
    pub race_id: Option<RaceId>,
}

impl Clone for ClientServerState {
    fn clone(&self) -> (r: Self)
        ensures
            r == *self,
    {
        ClientServerState {
            name: self.name.clone(),
            baby: self.baby,
            hosting_race: self.hosting_race,
            joined: self.joined,
            race_id: self.race_id,
        }
    }
}

impl ClientServerState {
    /// The record of a client that has just connected: no name, no body, no
    /// race.
    pub open spec fn fresh(self) -> bool {
        &&& self.name@ == Seq::<char>::empty()
        &&& self.baby is None
        &&& !self.hosting_race
        &&& self.joined is None
        &&& self.race_id is None
    }

    /// The record of a client that has just connected.
    pub fn new() -> (r: ClientServerState)
        ensures
            r.fresh(),
    {
        ClientServerState {
            name: String::new(),
            baby: None,
            hosting_race: false,
            joined: None,
            race_id: None,
        }
    }
}

/// What a client reports of itself with every update.
#[derive(Clone, Copy, Debug, PartialEq, Eq)]
pub struct ClientState {
    pub baby: Option<Baby>,
    pub join_race: Option<ClientId>,
    pub host_race: bool,
}

/// A message from the server to one client.
#[derive(Debug, PartialEq, Eq)]
pub enum ServerMessage {
    /// The client's actor has spawned at this position.
    Spawn(Vec2),
    /// The records of all connected clients.
    StateSync { clients: BTreeMap<ClientId, ClientServerState> },
    /// The number of the client's own connection.
    Auth { id: ClientId },
    /// The client's name as the server has it.
    Name(String),
    /// The client's actor has finished its race, as the `rank`-th.
    RaceResult { rank: usize, time: Scalar },
}

/// A message from a client to the server.
#[derive(Debug, PartialEq, Eq)]
pub enum ClientMessage {
    /// The client's body and what it intends to do.
    StateSync(ClientState),
    StartRace,
    Despawn,
    Finish,
    /// The client's display name.
    Name(String),
}

/// A server message with its contents as mathematical values.
pub enum Notice {
    Spawn(Vec2),
    StateSync { clients: Map<ClientId, ClientServerState> },
    Auth { id: ClientId },
    Name(Seq<char>),
    RaceResult { rank: usize, time: Scalar },
}

impl View for ServerMessage {
    type V = Notice;

    open spec fn view(&self) -> Notice {
        match *self {
            ServerMessage::Spawn(pos) => Notice::Spawn(pos),
            ServerMessage::StateSync { clients } => Notice::StateSync { clients: clients@ },
            ServerMessage::Auth { id } => Notice::Auth { id },
            ServerMessage::Name(name) => Notice::Name(name@),
            ServerMessage::RaceResult { rank, time } => Notice::RaceResult { rank, time },
        }
    }
}

/// The contents of a list of server messages.
pub open spec fn notices(messages: Seq<ServerMessage>) -> Seq<Notice> {
    messages.map_values(|m: ServerMessage| m@)
}

} // verus!
