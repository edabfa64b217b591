//! A client's side of a race: what it knows of itself and of the others, and
//! what the server's messages and the player's choices do to that.

use std::collections::BTreeMap;

use vstd::prelude::*;

use crate::control::Grip;
use crate::control::TrackOutcome;
use crate::control::bound_to_track;
use crate::control::track_outcome;
use crate::interop::ClientId;
use crate::interop::ClientMessage;
use crate::interop::ClientServerState;
use crate::interop::ClientState;
use crate::interop::Notice;
use crate::interop::ServerMessage;
use crate::interop::notices;
use crate::limb::Limb;
use crate::order::ascending;
use crate::order::is_ascending;
use crate::order::lemma_ascending_is;
use crate::pose::Baby;
use crate::pose::BodyShape;
use crate::pose::Vec2;
use crate::roster::Pick;
use crate::scalar::Scalar;

verus! {

broadcast use vstd::std_specs::btree::group_btree_axioms;

/// What a client knows and intends.
pub struct Game {
    pub spectating: bool,
    pub edit_name: bool,
    /// Whether the server has yet to be told the name.
    pub name_updated: bool,
    pub name: String,
    pub grip: Grip,
    /// The rank in the race that the client's actor finished last.
    pub rank: Option<usize>,
    pub finish_time: Scalar,
    pub my_id: ClientId,
    /// The client's own actor, while it races.
    pub baby: Option<Baby>,
    pub host_race: bool,
    pub join_race: Option<ClientId>,
    /// The records of the other clients, as the server sent them last.
    pub others: BTreeMap<ClientId, ClientServerState>,
    pub prev_cursor_pos: Vec2,
}

/// A client's state as mathematical values.
pub struct Session {
    pub spectating: bool,
    pub edit_name: bool,
    pub name_updated: bool,
    pub name: Seq<char>,
    pub grip: Grip,
    pub rank: Option<usize>,
    pub finish_time: Scalar,
    pub my_id: ClientId,
    pub baby: Option<Baby>,
    pub host_race: bool,
    pub join_race: Option<ClientId>,
    pub others: Map<ClientId, ClientServerState>,
    pub prev_cursor_pos: Vec2,
}

impl View for Game {
    type V = Session;

    open spec fn view(&self) -> Session {
        Session {
            spectating: self.spectating,
            edit_name: self.edit_name,
            name_updated: self.name_updated,
            name: self.name@,
            grip: self.grip,
            rank: self.rank,
            finish_time: self.finish_time,
            my_id: self.my_id,
            baby: self.baby,
            host_race: self.host_race,
            join_race: self.join_race,
            others: self.others@,
            prev_cursor_pos: self.prev_cursor_pos,
        }
    }
}

/// The name of a player who has not chosen one.
pub open spec fn default_name() -> Seq<char> {
    "baby"@
}

impl Session {
    /// The state of a client that has just been told its number.
    pub open spec fn fresh(my_id: ClientId, name: Seq<char>) -> Session {
        Session {
            spectating: false,
            edit_name: false,
            name_updated: true,
            name,
            grip: Grip {
                hovered_limb: Limb::LeftArm,
                locked_limb: None,
                locked_ground_pos: None,
            },
            rank: None,
            finish_time: Scalar { bits: 0 },
            my_id,
            baby: None,
            host_race: false,
            join_race: None,
            others: Map::empty(),
            prev_cursor_pos: Vec2 { x: Scalar { bits: 0 }, y: Scalar { bits: 0 } },
        }
    }

    /// The state after a message of the server. A spawn gives the client a
    /// fresh body of the given shape, ends its hosting and lets go of limb
    /// and ground; a race result shows the rank and takes the body away;
    /// the records of all clients replace those of the others.
    pub open spec fn receive(self, notice: Notice, shape: BodyShape) -> Session {
        match notice {
            Notice::Name(name) => Session { name, ..self },
            Notice::RaceResult { rank, time } => Session {
                rank: Some(rank),
                finish_time: time,
                baby: None,
                ..self
            },
            Notice::Spawn(pos) => Session {
                baby: Some(Baby::spawned(Some(shape), pos)),
                host_race: false,
                grip: Grip { locked_limb: None, locked_ground_pos: None, ..self.grip },
                ..self
            },
            Notice::StateSync { clients } => Session { others: clients.remove(self.my_id), ..self },
            Notice::Auth { id } => self,
        }
    }

    /// The state after a list of messages of the server, in the order in
    /// which they arrived.
    pub open spec fn receive_all(self, notices: Seq<Notice>, shape: BodyShape) -> Session
        decreases notices.len(),
    {
        if notices.len() == 0 {
            self
        } else {
            self.receive_all(notices.drop_last(), shape).receive(notices.last(), shape)
        }
    }

    /// What the client reports of itself.
    pub open spec fn report(self) -> ClientState {
        ClientState { baby: self.baby, join_race: self.join_race, host_race: self.host_race }
    }

    /// Whether the host that the client has joined still hosts a race, as
    /// far as the client knows.
    pub open spec fn host_is_hosting(self) -> bool {
        match self.join_race {
            Some(host) => self.others.contains_key(host) && self.others[host].hosting_race,
            None => false,
        }
    }

    /// The state with the join given up where it has come to nothing: the
    /// client does not race, and its host does not host.
    pub open spec fn without_stale_join(self) -> Session {
        if self.join_race is Some && self.baby is None && !self.host_is_hosting() {
            Session { join_race: None, ..self }
        } else {
            self
        }
    }
}

/// What a player can choose in the menu.
#[derive(Clone, Copy, Debug, PartialEq, Eq, Hash)]
pub enum MenuItemAction {
    StartRace,
    Host,
    Cancel,
    Join(ClientId),
    EditName,
    ToggleSpectating,
}

/// What is to be done outside the client's state after a choice in the menu.
#[derive(Debug, PartialEq, Eq)]
pub enum MenuEffect {
    /// Nothing.
    Nothing,
    /// The name is to be edited, starting from the name as it is.
    StartTextEdit,
    /// The editing of the name is to end.
    StopTextEdit,
    /// The message is to be sent to the server.
    Send(ClientMessage),
}

impl Session {
    /// The state after a choice in the menu.
    pub open spec fn chosen(self, action: MenuItemAction) -> Session {
        match action {
            MenuItemAction::ToggleSpectating => Session { spectating: !self.spectating, ..self },
            MenuItemAction::EditName => Session { edit_name: !self.edit_name, ..self },
            MenuItemAction::StartRace => self,
            MenuItemAction::Host => Session { host_race: true, ..self },
            MenuItemAction::Cancel => Session { host_race: false, join_race: None, ..self },
            MenuItemAction::Join(id) => Session { join_race: Some(id), ..self },
        }
    }

    /// What is to be done after a choice in the menu.
    pub open spec fn effect(self, action: MenuItemAction) -> MenuEffect {
        match action {
            MenuItemAction::EditName => if self.edit_name {
                MenuEffect::StopTextEdit
            } else {
                MenuEffect::StartTextEdit
            },
            MenuItemAction::StartRace => MenuEffect::Send(ClientMessage::StartRace),
            _ => MenuEffect::Nothing,
        }
    }

    /// The state after the client has given up its race: it has no body,
    /// and the controls hold nothing.
    pub open spec fn despawned(self) -> Session {
        Session {
            baby: None,
            grip: Grip { locked_limb: None, locked_ground_pos: None, ..self.grip },
            ..self
        }
    }

    /// The state at the start of a frame, before the server is heard:
    /// editing that has ended outside leaves a name to be sent, a name to
    /// be sent is sent, and a join that has come to nothing is given up.
    pub open spec fn settled(self, is_editing_text: bool) -> Session {
        (Session {
            edit_name: self.edit_name && is_editing_text,
            name_updated: false,
            ..self
        }).without_stale_join()
    }

    /// Whether the editing of the name has ended outside.
    pub open spec fn editing_ended(self, is_editing_text: bool) -> bool {
        !is_editing_text && self.edit_name
    }

    /// Whether the name is to be sent at the start of a frame.
    pub open spec fn name_is_due(self, is_editing_text: bool) -> bool {
        self.name_updated || self.editing_ended(is_editing_text)
    }

    /// The state after the client's actor has been held to the track: the
    /// actor is kept from going behind the start, and beyond the track's
    /// length it has finished and is gone. A client without an actor, or
    /// whose actor has just finished, has controls that hold nothing.
    pub open spec fn on_track(self, track_len: Scalar) -> Session {
        match self.baby {
            None => self.despawned(),
            Some(body) => match track_outcome(body.pos.y, track_len) {
                TrackOutcome::Finished => self.despawned(),
                TrackOutcome::On(y) => Session {
                    baby: Some(Baby { pos: Vec2 { x: body.pos.x, y }, ..body }),
                    ..self
                },
            },
        }
    }

    /// Whether holding the client's actor to the track finds that it has
    /// finished.
    pub open spec fn finishes(self, track_len: Scalar) -> bool {
        self.baby matches Some(body) && track_outcome(body.pos.y, track_len) is Finished
    }

    /// The state after the controls of a frame have been taken in: the
    /// actor is held to the track, and if it is still there the controls
    /// take hold or let go; `held` says whether a control is held down,
    /// `hovered` is the limb under the pointer.
    pub open spec fn controlled(self, track_len: Scalar, held: bool, hovered: Limb) -> Session {
        let kept = self.on_track(track_len);
        if kept.baby is Some {
            Session { grip: kept.grip.updated(held, hovered), ..kept }
        } else {
            kept
        }
    }
}

impl Session {
    /// The numbers of the other clients that are picked, in ascending
    /// order.
    pub open spec fn picked_others(self, pick: Pick) -> Seq<ClientId> {
        ascending(pick.picked(self.others.remove(self.my_id)))
    }

    /// The bodies of the other clients, in the order of the clients'
    /// numbers: the bodies that the client's own actor can run into.
    pub open spec fn neighbours(self) -> Seq<Baby> {
        let ids = self.picked_others(Pick::Embodied);
        Seq::new(ids.len(), |i: int| self.others[ids[i]].baby->0)
    }
}

/// What a frame starts with, besides the change of the client's state.
#[derive(Debug, PartialEq, Eq)]
pub struct FrameStart {
    /// Whether the name is to be saved, because its editing has ended.
    pub save_name: bool,
    /// The name, if the server is to be told it.
    pub announce: Option<ClientMessage>,
}

/// What is to be done outside the client's state after the server has been
/// heard.
#[derive(Debug, PartialEq, Eq)]
pub struct Heard {
    /// Whether an actor of the client has spawned, so that the time of its
    /// race starts to run.
    pub spawned: bool,
    /// The report that is to be sent to the server, if any.
    pub reply: Option<ClientMessage>,
}

/// Whether a spawn is among the messages.
pub open spec fn holds_spawn(notices: Seq<Notice>) -> bool {
    exists|i: int| 0 <= i < notices.len() && #[trigger] notices[i] is Spawn
}

/// Whether the records of all clients are among the messages.
pub open spec fn holds_records(notices: Seq<Notice>) -> bool {
    exists|i: int| 0 <= i < notices.len() && #[trigger] notices[i] is StateSync
}

/// A list of messages with one more holds what the list held, or what the
/// one more message is.
proof fn lemma_holds_grow(notices: Seq<Notice>, last: Notice)
    ensures
        holds_spawn(notices.push(last)) == (holds_spawn(notices) || last is Spawn),
        holds_records(notices.push(last)) == (holds_records(notices) || last is StateSync),
{
    let longer = notices.push(last);
    if holds_spawn(notices) {
        let i = choose|i: int| 0 <= i < notices.len() && #[trigger] notices[i] is Spawn;
        assert(longer[i] is Spawn);
    }
    if holds_records(notices) {
        let i = choose|i: int| 0 <= i < notices.len() && #[trigger] notices[i] is StateSync;
        assert(longer[i] is StateSync);
    }
    if last is Spawn {
        assert(longer[notices.len() as int] is Spawn);
    }
    if last is StateSync {
        assert(longer[notices.len() as int] is StateSync);
    }
    if holds_spawn(longer) {
        let i = choose|i: int| 0 <= i < longer.len() && #[trigger] longer[i] is Spawn;
        if i < notices.len() {
            assert(notices[i] is Spawn);
        }
    }
    if holds_records(longer) {
        let i = choose|i: int| 0 <= i < longer.len() && #[trigger] longer[i] is StateSync;
        if i < notices.len() {
            assert(notices[i] is StateSync);
        }
    }
}

/// Whether none of the messages tells a client its number.
pub open spec fn no_auth(notices: Seq<Notice>) -> bool {
    forall|i: int| 0 <= i < notices.len() ==> !(#[trigger] notices[i] is Auth)
}

impl Game {
    /// The state of a client that the server has just told its number, with
    /// the name that the player chose earlier, or the default name.
    pub fn new(auth: ServerMessage, saved_name: Option<String>) -> (game: Game)
        requires
            auth is Auth,
        ensures
            game@ == Session::fresh(
                auth->id,
                match saved_name {
                    Some(name) => name@,
                    None => default_name(),
                },
            ),
    {
        let my_id = match auth {
            ServerMessage::Auth { id } => id,
            _ => 0,
        };
        let name = match saved_name {
            Some(name) => name,
            None => "baby".to_owned(),
        };
        Game {
            spectating: false,
            edit_name: false,
            name_updated: true,
            name,
            grip: Grip::new(),
            rank: None,
            finish_time: Scalar::zero(),
            my_id,
            baby: None,
            host_race: false,
            join_race: None,
            others: BTreeMap::new(),
            prev_cursor_pos: Vec2 { x: Scalar::zero(), y: Scalar::zero() },
        }
    }

    /// Takes in one message of the server.
    fn receive(&mut self, message: ServerMessage, shape: &BodyShape)
        requires
            !(message is Auth),
        ensures
            final(self)@ == old(self)@.receive(message@, *shape),
    {
        match message {
            ServerMessage::Name(name) => {
                self.name = name;
            },
            ServerMessage::RaceResult { rank, time } => {
                self.rank = Some(rank);
                self.finish_time = time;
                self.baby = None;
            },
            ServerMessage::Spawn(pos) => {
                self.baby = Some(Baby::new(Some(shape), pos));
                self.host_race = false;
                self.grip.drop_all();
            },
            ServerMessage::StateSync { clients } => {
                let mut others = clients;
                others.remove(&self.my_id);
                self.others = others;
            },
            ServerMessage::Auth { id } => {},
        }
    }

    /// Takes in the messages that have arrived from the server, in the order
    /// of their arrival. Records of all clients among them are answered by
    /// one report of the client itself, as it is after all the messages.
    pub fn handler_multiplayer(
        &mut self,
        new_messages: Vec<ServerMessage>,
        shape: &BodyShape,
    ) -> (heard: Heard)
        requires
            no_auth(notices(new_messages@)),
        ensures
            final(self)@ == old(self)@.receive_all(notices(new_messages@), *shape),
            heard.spawned == holds_spawn(notices(new_messages@)),
            heard.reply == if holds_records(notices(new_messages@)) {
                Some(ClientMessage::StateSync(final(self)@.report()))
            } else {
                None
            },
    {
        let ghost all = notices(new_messages@);
        let ghost start = self@;
        let ghost sent = new_messages@;
        let mut spawned = false;
        let mut synced = false;
        for message in it: new_messages
            invariant
                it.seq() == sent,
                all == notices(sent),
                no_auth(all),
                self@ == start.receive_all(all.take(it.index()), *shape),
                spawned == holds_spawn(all.take(it.index())),
                synced == holds_records(all.take(it.index())),
        {
            proof {
                let i = it.index();
                assert(all[i] == message@);
                assert(!(all[i] is Auth));
                let upto = all.take(i + 1);
                assert(upto.drop_last() =~= all.take(i));
                assert(upto.last() == message@);
                lemma_holds_grow(all.take(i), message@);
                assert(upto =~= all.take(i).push(message@));
            }
            match &message {
                ServerMessage::Spawn(_) => {
                    spawned = true;
                },
                ServerMessage::StateSync { .. } => {
                    synced = true;
                },
                _ => {},
            }
            self.receive(message, shape);
        }
        proof {
            assert(all.take(sent.len() as int) =~= all);
        }
        let reply = if synced {
            Some(self.sync_message())
        } else {
            None
        };
        Heard { spawned, reply }
    }

    /// What the client reports of itself to the server: its body, if it has
    /// one, and whom it joins or whether it hosts.
    pub fn sync_message(&self) -> (message: ClientMessage)
        ensures
            message == ClientMessage::StateSync(self@.report()),
    {
        ClientMessage::StateSync(
            ClientState { baby: self.baby, join_race: self.join_race, host_race: self.host_race },
        )
    }

    /// The numbers of the other clients that are picked, in ascending
    /// order.
    pub fn picked_others(&self, pick: Pick) -> (ids: Vec<ClientId>)
        ensures
            ids@ == self@.picked_others(pick),
            is_ascending(ids@),
            forall|id: ClientId|
                ids@.contains(id) <==> (id != self.my_id && self@.others.contains_key(id)
                    && pick.picks(id, self@.others[id])),
    {
        let all = pick.among(&self.others);
        let mut ids: Vec<ClientId> = Vec::new();
        let mut i: usize = 0;
        while i < all.len()
            invariant
                0 <= i <= all.len(),
                is_ascending(all@),
                is_ascending(ids@),
                forall|k: int|
                    0 <= k < ids@.len() ==> all@.contains(#[trigger] ids@[k]) && ids@[k]
                        != self.my_id,
                forall|k: int|
                    #![auto]
                    0 <= k < ids@.len() && i < all@.len() ==> ids@[k] < all@[i as int],
                forall|j: int|
                    0 <= j < i && (#[trigger] all@[j]) != self.my_id ==> ids@.contains(all@[j]),
            decreases all.len() - i,
        {
            let id = all[i];
            let ghost before = ids@;
            if id != self.my_id {
                ids.push(id);
                proof {
                    assert(all@.contains(id));
                    assert forall|j: int|
                        0 <= j < i + 1 && (#[trigger] all@[j]) != self.my_id implies ids@.contains(
                        all@[j],
                    ) by {
                        if j < i {
                            let w = choose|w: int| 0 <= w < before.len() && before[w] == all@[j];
                            assert(ids@[w] == all@[j]);
                        } else {
                            assert(ids@[ids@.len() - 1] == all@[j]);
                        }
                    }
                }
            }
            i = i + 1;
        }
        proof {
            let set = pick.picked(self@.others.remove(self.my_id));
            assert forall|id: ClientId| ids@.contains(id) <==> set.contains(id) by {
                if set.contains(id) {
                    assert(pick.picked(self@.others).contains(id));
                    assert(all@.contains(id));
                    let j = choose|j: int| 0 <= j < all@.len() && all@[j] == id;
                    assert(ids@.contains(all@[j]));
                }
                if ids@.contains(id) {
                    let k = choose|k: int| 0 <= k < ids@.len() && ids@[k] == id;
                    assert(all@.contains(ids@[k]));
                    assert(pick.picked(self@.others).contains(id));
                }
            }
            lemma_ascending_is(ids@, set);
        }
        ids
    }

    /// The bodies that the client's own actor can run into: those of the
    /// other clients, in the order of the clients' numbers.
    pub fn neighbours(&self) -> (bodies: Vec<Baby>)
        ensures
            bodies@ == self@.neighbours(),
    {
        let ids = self.picked_others(Pick::Embodied);
        let mut bodies: Vec<Baby> = Vec::new();
        let mut i: usize = 0;
        while i < ids.len()
            invariant
                0 <= i <= ids.len(),
                ids@ == self@.picked_others(Pick::Embodied),
                forall|id: ClientId|
                    ids@.contains(id) ==> self@.others.contains_key(id) && self@.others[id].baby
                        is Some,
                bodies@.len() == i,
                forall|k: int| 0 <= k < i ==> bodies@[k] == self@.others[ids@[k]].baby->0,
            decreases ids.len() - i,
        {
            assert(ids@.contains(ids@[i as int]));
            let record = self.others.get(&ids[i]).unwrap();
            bodies.push(record.baby.unwrap());
            i = i + 1;
        }
        proof {
            assert(bodies@ =~= self@.neighbours());
        }
        bodies
    }

    /// Takes in a choice of the player in the menu, and says what is to be
    /// done about it outside the client's state.
    pub fn perform_menu_action(&mut self, action: MenuItemAction) -> (effect: MenuEffect)
        ensures
            final(self)@ == old(self)@.chosen(action),
            effect == old(self)@.effect(action),
    {
        match action {
            MenuItemAction::ToggleSpectating => {
                self.spectating = !self.spectating;
                MenuEffect::Nothing
            },
            MenuItemAction::EditName => {
                self.edit_name = !self.edit_name;
                if self.edit_name {
                    MenuEffect::StartTextEdit
                } else {
                    MenuEffect::StopTextEdit
                }
            },
            MenuItemAction::StartRace => MenuEffect::Send(ClientMessage::StartRace),
            MenuItemAction::Host => {
                self.host_race = true;
                MenuEffect::Nothing
            },
            MenuItemAction::Cancel => {
                self.host_race = false;
                self.join_race = None;
                MenuEffect::Nothing
            },
            MenuItemAction::Join(id) => {
                self.join_race = Some(id);
                MenuEffect::Nothing
            },
        }
    }

    /// Gives up the client's race, and returns what tells the server so.
    pub fn despawn(&mut self) -> (message: ClientMessage)
        ensures
            final(self)@ == old(self)@.despawned(),
            message == ClientMessage::Despawn,
    {
        self.baby = None;
        self.grip.drop_all();
        ClientMessage::Despawn
    }

    /// Takes in the text that the player has typed. While the name is being
    /// edited the text becomes the name; else the function returns `false`,
    /// and the editing that goes on outside is to end.
    pub fn edit_text(&mut self, new_text: String) -> (accepted: bool)
        ensures
            accepted == old(self)@.edit_name,
            final(self)@ == if accepted {
                Session { name: new_text@, ..old(self)@ }
            } else {
                old(self)@
            },
    {
        if self.edit_name {
            self.name = new_text;
            true
        } else {
            false
        }
    }

    /// Starts a frame, before the server is heard; `is_editing_text` says
    /// whether text is being edited outside.
    pub fn update(&mut self, is_editing_text: bool) -> (start: FrameStart)
        ensures
            final(self)@ == old(self)@.settled(is_editing_text),
            start.save_name == old(self)@.editing_ended(is_editing_text),
            match start.announce {
                Some(message) => old(self)@.name_is_due(is_editing_text) && (
                message matches ClientMessage::Name(name) && name@ == old(self)@.name),
                None => !old(self)@.name_is_due(is_editing_text),
            },
    {
        let mut save_name = false;
        if !is_editing_text && self.edit_name {
            self.edit_name = false;
            self.name_updated = true;
            save_name = true;
        }
        let mut announce = None;
        if self.name_updated {
            self.name_updated = false;
            announce = Some(ClientMessage::Name(self.name.clone()));
        }
        if let Some(joined) = self.join_race {
            let hosting = match self.others.get(&joined) {
                Some(host) => host.hosting_race,
                None => false,
            };
            if self.baby.is_none() && !hosting {
                self.join_race = None;
            }
        }
        FrameStart { save_name, announce }
    }

    /// Holds the client's actor to the track, and returns what tells the
    /// server that the actor has finished, if it has.
    pub fn hold_to_track(&mut self, track_len: Scalar) -> (message: Option<ClientMessage>)
        ensures
            final(self)@ == old(self)@.on_track(track_len),
            message == if old(self)@.finishes(track_len) {
                Some(ClientMessage::Finish)
            } else {
                None
            },
            message is Some ==> old(self)@.baby is Some && final(self)@.baby is None,
            final(self)@.baby is None ==> final(self)@.grip.locked_limb is None,
            final(self)@.baby is None ==> final(self)@.grip.locked_ground_pos is None,
    {
        match self.baby {
            None => {
                self.grip.drop_all();
                None
            },
            Some(body) => match bound_to_track(body.pos.y, track_len) {
                TrackOutcome::Finished => {
                    self.baby = None;
                    self.grip.drop_all();
                    Some(ClientMessage::Finish)
                },
                TrackOutcome::On(y) => {
                    self.baby = Some(
                        Baby {
                            pos: Vec2 { x: body.pos.x, y },
                            rotation: body.rotation,
                            head_rotation: body.head_rotation,
                            radius: body.radius,
                            limbs: body.limbs,
                        },
                    );
                    None
                },
            },
        }
    }
}

/// An actor finishes once: a client whose actor has just finished has no
/// actor, and holding no actor to the track finishes nothing.
pub proof fn lemma_finishes_once(session: Session, track_len: Scalar, again: Scalar)
    requires
        session.finishes(track_len),
    ensures
        session.on_track(track_len).baby is None,
        !session.on_track(track_len).finishes(again),
        session.on_track(track_len).on_track(again).baby is None,
{
}

/// A frame in which no control is held down ends with the controls holding
/// neither limb nor ground, whatever they held before and whether the actor
/// stays on the track, finishes in this frame or is not there at all; and
/// whatever is held down, a client without an actor holds nothing.
pub proof fn lemma_frame_without_control(
    session: Session,
    track_len: Scalar,
    held: bool,
    hovered: Limb,
)
    ensures
        !held ==> session.controlled(track_len, held, hovered).grip.locked_limb is None,
        !held ==> session.controlled(track_len, held, hovered).grip.locked_ground_pos is None,
        session.controlled(track_len, held, hovered).baby is None ==> session.controlled(
            track_len,
            held,
            hovered,
        ).grip.locked_limb is None && session.controlled(
            track_len,
            held,
            hovered,
        ).grip.locked_ground_pos is None,
        session.controlled(track_len, held, hovered).baby == session.on_track(track_len).baby,
{
}

} // verus!
