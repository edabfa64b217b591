use std::collections::BTreeMap;

use crawl_race::client::{FrameStart, Game, Heard, MenuEffect, MenuItemAction};
use crawl_race::control::Grip;
use crawl_race::interop::{ClientMessage, ClientServerState, ClientState, ServerMessage};
use crawl_race::limb::Limb;
use crawl_race::menu::{Click, MenuItem, MenuPlace};
use crawl_race::pose::{Baby, BodyShape, RestAngles, Vec2};
use crawl_race::roster::Pick;
use crawl_race::scalar::Scalar;
use crawl_race::server::App;

fn s(x: f32) -> Scalar {
    Scalar::from_bits(x.to_bits())
}

fn f(x: Scalar) -> f32 {
    f32::from_bits(x.to_bits())
}

fn at(x: f32, y: f32) -> Vec2 {
    Vec2::new(s(x), s(y))
}

fn shape() -> BodyShape {
    BodyShape {
        radius: s(0.5),
        rest_angles: RestAngles {
            left_arm: s(2.0),
            right_arm: s(1.0),
            left_leg: s(-2.0),
            right_leg: s(-1.0),
        },
    }
}

fn game(id: u64) -> Game {
    Game::new(ServerMessage::Auth { id }, None)
}

fn named(name: &str) -> ClientServerState {
    let mut r = ClientServerState::new();
    r.name = name.to_owned();
    r
}

fn hosting(name: &str) -> ClientServerState {
    let mut r = named(name);
    r.hosting_race = true;
    r
}

fn joined(name: &str, host: u64) -> ClientServerState {
    let mut r = named(name);
    r.joined = Some(host);
    r
}

fn racing(name: &str, x: f32, y: f32) -> ClientServerState {
    let mut r = named(name);
    r.baby = Some(Baby::new(None, at(x, y)));
    r.race_id = Some(0);
    r
}

fn sync(entries: Vec<(u64, ClientServerState)>) -> ServerMessage {
    let mut clients = BTreeMap::new();
    for (id, r) in entries {
        clients.insert(id, r);
    }
    ServerMessage::StateSync { clients }
}

fn item(text: &str, action: Option<MenuItemAction>) -> MenuItem {
    MenuItem { text: text.to_owned(), action }
}

#[test]
fn a_new_game_has_the_default_name() {
    let g = game(7);
    assert_eq!(g.my_id, 7);
    assert_eq!(g.name, "baby");
    assert!(g.name_updated);
    assert!(!g.edit_name);
    assert!(!g.spectating);
    assert_eq!(g.baby, None);
    assert_eq!(g.rank, None);
    assert!(!g.host_race);
    assert_eq!(g.join_race, None);
    assert!(g.others.is_empty());
    assert_eq!(g.grip, Grip::new());
    assert_eq!(g.grip.hovered_limb, Limb::LeftArm);
}

#[test]
fn a_new_game_takes_the_saved_name() {
    let g = Game::new(ServerMessage::Auth { id: 1 }, Some("zoe".to_owned()));
    assert_eq!(g.name, "zoe");
}

#[test]
fn the_first_frame_announces_the_name() {
    let mut g = game(0);
    let start = g.update(false);
    assert_eq!(
        start,
        FrameStart { save_name: false, announce: Some(ClientMessage::Name("baby".to_owned())) }
    );
    assert!(!g.name_updated);
    let start = g.update(false);
    assert_eq!(start, FrameStart { save_name: false, announce: None });
}

#[test]
fn the_end_of_editing_saves_and_announces_the_name() {
    let mut g = game(0);
    g.update(false);
    assert_eq!(g.perform_menu_action(MenuItemAction::EditName), MenuEffect::StartTextEdit);
    assert!(g.edit_name);
    assert!(g.edit_text("ann".to_owned()));
    assert_eq!(g.name, "ann");
    let start = g.update(true);
    assert_eq!(start, FrameStart { save_name: false, announce: None });
    assert!(g.edit_name);
    let start = g.update(false);
    assert_eq!(
        start,
        FrameStart { save_name: true, announce: Some(ClientMessage::Name("ann".to_owned())) }
    );
    assert!(!g.edit_name);
}

#[test]
fn text_is_not_taken_while_the_name_is_not_edited() {
    let mut g = game(0);
    assert!(!g.edit_text("ann".to_owned()));
    assert_eq!(g.name, "baby");
}

#[test]
fn menu_actions() {
    let mut g = game(0);
    assert_eq!(g.perform_menu_action(MenuItemAction::Host), MenuEffect::Nothing);
    assert!(g.host_race);
    assert_eq!(g.perform_menu_action(MenuItemAction::Join(4)), MenuEffect::Nothing);
    assert_eq!(g.join_race, Some(4));
    assert_eq!(g.perform_menu_action(MenuItemAction::Cancel), MenuEffect::Nothing);
    assert!(!g.host_race);
    assert_eq!(g.join_race, None);
    assert_eq!(
        g.perform_menu_action(MenuItemAction::StartRace),
        MenuEffect::Send(ClientMessage::StartRace)
    );
    assert_eq!(g.perform_menu_action(MenuItemAction::ToggleSpectating), MenuEffect::Nothing);
    assert!(g.spectating);
    assert_eq!(g.perform_menu_action(MenuItemAction::ToggleSpectating), MenuEffect::Nothing);
    assert!(!g.spectating);
    assert_eq!(g.perform_menu_action(MenuItemAction::EditName), MenuEffect::StartTextEdit);
    assert_eq!(g.perform_menu_action(MenuItemAction::EditName), MenuEffect::StopTextEdit);
}

#[test]
fn a_join_is_given_up_when_the_host_stops_hosting() {
    let mut g = game(0);
    g.handler_multiplayer(vec![sync(vec![(0, named("me")), (1, hosting("h"))])], &shape());
    g.perform_menu_action(MenuItemAction::Join(1));
    g.update(false);
    assert_eq!(g.join_race, Some(1));
    g.handler_multiplayer(vec![sync(vec![(0, named("me")), (1, named("h"))])], &shape());
    g.update(false);
    assert_eq!(g.join_race, None);
    g.perform_menu_action(MenuItemAction::Join(9));
    g.update(false);
    assert_eq!(g.join_race, None);
}

#[test]
fn a_join_is_kept_while_the_client_races() {
    let mut g = game(0);
    g.join_race = Some(1);
    g.baby = Some(Baby::new(None, at(0.0, 0.0)));
    g.update(false);
    assert_eq!(g.join_race, Some(1));
}

#[test]
fn the_records_of_the_others_leave_out_the_client_itself() {
    let mut g = game(1);
    let heard = g.handler_multiplayer(
        vec![sync(vec![(0, named("a")), (1, named("me")), (2, hosting("c"))])],
        &shape(),
    );
    assert_eq!(heard, Heard { spawned: false, reply: Some(g.sync_message()) });
    assert_eq!(g.others.len(), 2);
    assert_eq!(g.others[&0], named("a"));
    assert_eq!(g.others[&2], hosting("c"));
}

#[test]
fn messages_are_taken_in_the_order_of_their_arrival() {
    let mut g = game(1);
    g.host_race = true;
    let heard = g.handler_multiplayer(
        vec![
            ServerMessage::Name("first".to_owned()),
            sync(vec![(0, named("a"))]),
            ServerMessage::Spawn(at(-1.0, 0.0)),
            ServerMessage::Name("second".to_owned()),
            sync(vec![(2, named("b"))]),
        ],
        &shape(),
    );
    assert!(heard.spawned);
    let body = Baby::new(Some(&shape()), at(-1.0, 0.0));
    assert_eq!(
        heard.reply,
        Some(ClientMessage::StateSync(ClientState {
            baby: Some(body),
            join_race: None,
            host_race: false
        }))
    );
    assert_eq!(g.name, "second");
    assert_eq!(g.others.len(), 1);
    assert_eq!(g.others[&2], named("b"));
    assert!(!g.host_race);
    assert_eq!(g.baby, Some(Baby::new(Some(&shape()), at(-1.0, 0.0))));
}

#[test]
fn a_spawn_gives_a_fresh_body_of_the_shape() {
    let mut g = game(1);
    g.grip.locked_limb = Some(Limb::LeftLeg);
    g.grip.locked_ground_pos = Some(at(1.0, 1.0));
    let heard = g.handler_multiplayer(vec![ServerMessage::Spawn(at(2.0, 0.0))], &shape());
    assert_eq!(heard, Heard { spawned: true, reply: None });
    let body = g.baby.unwrap();
    assert_eq!(f(body.pos.x), 2.0);
    assert_eq!(f(body.pos.y), 0.0);
    assert_eq!(f(body.radius), 0.5);
    assert_eq!(f(body.rotation), 0.0);
    assert_eq!(f(body.head_rotation), 0.0);
    assert_eq!(f(body.limbs.left_arm.angle), 2.0);
    assert_eq!(f(body.limbs.right_arm.angle), 1.0);
    assert_eq!(f(body.limbs.left_leg.angle), -2.0);
    assert_eq!(f(body.limbs.right_leg.angle), -1.0);
    for limb in Limb::all() {
        assert_eq!(f(body.limbs.get(limb).rotation), 0.0);
    }
    assert_eq!(g.grip.locked_limb, None);
    assert_eq!(g.grip.locked_ground_pos, None);
}

#[test]
fn a_race_result_shows_the_rank_and_takes_the_body() {
    let mut g = game(1);
    g.baby = Some(Baby::new(None, at(0.0, 5.0)));
    let heard =
        g.handler_multiplayer(vec![ServerMessage::RaceResult { rank: 2, time: s(61.5) }], &shape());
    assert_eq!(heard, Heard { spawned: false, reply: None });
    assert_eq!(g.rank, Some(2));
    assert_eq!(f(g.finish_time), 61.5);
    assert_eq!(g.baby, None);
}

#[test]
fn the_report_holds_body_and_intent() {
    let mut g = game(1);
    assert_eq!(
        g.sync_message(),
        ClientMessage::StateSync(ClientState { baby: None, join_race: None, host_race: false })
    );
    let body = Baby::new(None, at(1.0, 2.0));
    g.baby = Some(body);
    g.host_race = true;
    g.join_race = Some(3);
    assert_eq!(
        g.sync_message(),
        ClientMessage::StateSync(ClientState {
            baby: Some(body),
            join_race: Some(3),
            host_race: true
        })
    );
}

#[test]
fn despawn_takes_the_body_and_lets_go() {
    let mut g = game(1);
    g.baby = Some(Baby::new(None, at(0.0, 5.0)));
    g.grip.locked_limb = Some(Limb::RightArm);
    g.grip.locked_ground_pos = Some(at(1.0, 1.0));
    assert_eq!(g.despawn(), ClientMessage::Despawn);
    assert_eq!(g.baby, None);
    assert_eq!(g.grip.locked_limb, None);
    assert_eq!(g.grip.locked_ground_pos, None);
}

#[test]
fn an_actor_behind_the_start_is_put_to_the_start() {
    let mut g = game(1);
    g.baby = Some(Baby::new(None, at(3.0, -0.25)));
    assert_eq!(g.hold_to_track(s(100.0)), None);
    let body = g.baby.unwrap();
    assert_eq!(body.pos.y.to_bits(), 0.0f32.to_bits());
    assert_eq!(f(body.pos.x), 3.0);
}

#[test]
fn an_actor_on_the_track_stays_where_it_is() {
    let mut g = game(1);
    let body = Baby::new(None, at(3.0, 100.0));
    g.baby = Some(body);
    assert_eq!(g.hold_to_track(s(100.0)), None);
    assert_eq!(g.baby, Some(body));
}

#[test]
fn an_actor_beyond_the_track_finishes_once() {
    let mut g = game(1);
    g.baby = Some(Baby::new(None, at(3.0, 101.0)));
    g.grip.locked_limb = Some(Limb::RightArm);
    g.grip.locked_ground_pos = Some(at(1.0, 2.0));
    assert_eq!(g.hold_to_track(s(100.0)), Some(ClientMessage::Finish));
    assert_eq!(g.baby, None);
    assert_eq!(g.grip.locked_limb, None);
    assert_eq!(g.grip.locked_ground_pos, None);
    assert_eq!(g.grip.hovered_limb, Limb::LeftArm);
    assert_eq!(g.hold_to_track(s(100.0)), None);
    assert_eq!(g.baby, None);
    assert_eq!(g.grip.locked_limb, None);
}

#[test]
fn an_actor_on_the_track_keeps_what_the_controls_hold() {
    let mut g = game(1);
    g.baby = Some(Baby::new(None, at(3.0, 10.0)));
    g.grip.locked_limb = Some(Limb::RightArm);
    g.grip.locked_ground_pos = Some(at(1.0, 2.0));
    assert_eq!(g.hold_to_track(s(100.0)), None);
    assert_eq!(g.grip.locked_limb, Some(Limb::RightArm));
    assert_eq!(g.grip.locked_ground_pos, Some(at(1.0, 2.0)));
    assert_eq!(g.grip.update(false, false, Limb::LeftLeg), None);
    assert_eq!(g.grip.locked_limb, None);
    assert_eq!(g.grip.locked_ground_pos, None);
}

#[test]
fn neighbours_are_the_bodies_of_the_others() {
    let mut g = game(1);
    g.handler_multiplayer(
        vec![sync(vec![
            (0, racing("a", 1.0, 2.0)),
            (1, racing("me", 0.0, 0.0)),
            (2, named("idle")),
            (5, racing("c", -1.0, 4.0)),
        ])],
        &shape(),
    );
    assert_eq!(
        g.neighbours(),
        vec![Baby::new(None, at(1.0, 2.0)), Baby::new(None, at(-1.0, 4.0))]
    );
    assert_eq!(g.picked_others(Pick::Embodied), vec![0, 5]);
    g.others.insert(1, racing("me", 9.0, 9.0));
    assert_eq!(g.picked_others(Pick::Embodied), vec![0, 5]);
    assert_eq!(g.neighbours().len(), 2);
}

#[test]
fn the_menu_of_an_idle_client() {
    let mut g = game(1);
    g.handler_multiplayer(
        vec![sync(vec![(0, hosting("ann")), (2, named("bob")), (3, hosting("cy"))])],
        &shape(),
    );
    assert_eq!(
        g.menu(),
        vec![
            (MenuPlace::Row(0), item("your name: baby", Some(MenuItemAction::EditName))),
            (MenuPlace::Row(1), item("Start SOLO!", Some(MenuItemAction::StartRace))),
            (MenuPlace::Row(2), item("Host a race", Some(MenuItemAction::Host))),
            (MenuPlace::Row(3), item("join race:", None)),
            (MenuPlace::Row(4), item("ann", Some(MenuItemAction::Join(0)))),
            (MenuPlace::Row(5), item("cy", Some(MenuItemAction::Join(3)))),
            (MenuPlace::Corner, item("spectate", Some(MenuItemAction::ToggleSpectating))),
        ]
    );
}

#[test]
fn the_menu_of_a_host() {
    let mut g = game(1);
    g.host_race = true;
    g.handler_multiplayer(
        vec![sync(vec![(0, joined("ann", 1)), (2, joined("bob", 0)), (3, joined("cy", 1))])],
        &shape(),
    );
    assert_eq!(
        g.menu_rows(),
        vec![
            item("your name: baby", Some(MenuItemAction::EditName)),
            item("Start!", Some(MenuItemAction::StartRace)),
            item("cancel", Some(MenuItemAction::Cancel)),
            item("joined people:", None),
            item("YOU", None),
            item("ann", None),
            item("cy", None),
        ]
    );
}

#[test]
fn the_menu_of_a_joined_client() {
    let mut g = game(1);
    g.join_race = Some(3);
    g.handler_multiplayer(
        vec![sync(vec![(0, joined("ann", 3)), (2, joined("bob", 0)), (3, hosting("cy"))])],
        &shape(),
    );
    assert_eq!(
        g.menu_rows(),
        vec![
            item("your name: baby", Some(MenuItemAction::EditName)),
            item("wait for the race to start", None),
            item("leave", Some(MenuItemAction::Cancel)),
            item("joined people:", None),
            item("YOU", None),
            item("ann", None),
            item("cy", None),
        ]
    );
}

#[test]
fn the_menu_of_a_spectator() {
    let mut g = game(1);
    g.spectating = true;
    assert_eq!(
        g.menu(),
        vec![(MenuPlace::Corner, item("stop spectating", Some(MenuItemAction::ToggleSpectating)))]
    );
}

#[test]
fn a_click_chooses_the_first_line_under_the_pointer_that_can_be_chosen() {
    let mut g = game(1);
    g.handler_multiplayer(vec![sync(vec![(0, hosting("ann")), (3, hosting("cy"))])], &shape());
    let click = g.click_menu(&vec![false, false, false, true, true, true, false]);
    assert_eq!(click, Click { effect: MenuEffect::Nothing, stop_text_edit: true });
    assert_eq!(g.join_race, Some(0));
}

#[test]
fn a_click_on_the_name_starts_editing() {
    let mut g = game(1);
    let click = g.click_menu(&vec![true]);
    assert_eq!(click, Click { effect: MenuEffect::StartTextEdit, stop_text_edit: false });
    assert!(g.edit_name);
}

#[test]
fn a_click_on_nothing_ends_editing() {
    let mut g = game(1);
    let click = g.click_menu(&vec![false, false, false, true, false]);
    assert_eq!(click, Click { effect: MenuEffect::Nothing, stop_text_edit: true });
    let click = g.click_menu(&vec![]);
    assert_eq!(click, Click { effect: MenuEffect::Nothing, stop_text_edit: true });
    assert!(!g.host_race);
}

#[test]
fn a_click_of_a_racing_client_does_nothing() {
    let mut g = game(1);
    g.baby = Some(Baby::new(None, at(0.0, 0.0)));
    let click = g.click_menu(&vec![false, false, true]);
    assert_eq!(click, Click { effect: MenuEffect::Nothing, stop_text_edit: false });
    assert!(!g.host_race);
}

#[test]
fn a_click_on_start_sends_the_start() {
    let mut g = game(1);
    let click = g.click_menu(&vec![false, true]);
    assert_eq!(
        click,
        Click { effect: MenuEffect::Send(ClientMessage::StartRace), stop_text_edit: true }
    );
}

#[test]
fn nothing_heard_nothing_said() {
    let mut g = game(1);
    let heard = g.handler_multiplayer(vec![], &shape());
    assert_eq!(heard, Heard { spawned: false, reply: None });
    let heard = g.handler_multiplayer(vec![ServerMessage::Name("n".to_owned())], &shape());
    assert_eq!(heard, Heard { spawned: false, reply: None });
}

#[test]
fn several_records_are_answered_once() {
    let mut g = game(1);
    let heard = g.handler_multiplayer(
        vec![sync(vec![(0, named("a"))]), sync(vec![(0, named("b"))]), sync(vec![])],
        &shape(),
    );
    assert_eq!(heard.reply, Some(g.sync_message()));
    assert!(g.others.is_empty());
}

#[test]
fn client_and_server_through_a_solo_race() {
    let track_len = s(50.0);
    let mut app = App::new();
    let (mut conn, mut inbox) = app.connect();
    let auth = inbox.remove(0);
    let mut g = Game::new(auth, None);
    assert_eq!(g.my_id, 0);
    let start = g.update(false);
    let heard = g.handler_multiplayer(inbox, &shape());
    assert!(!heard.spawned);
    assert!(g.others.is_empty());
    let mut inbox = conn.handle(&mut app, start.announce.unwrap());
    assert_eq!(app.state().clients()[&0].name, "baby");
    inbox.extend(conn.handle(&mut app, heard.reply.unwrap()));
    let effect = g.perform_menu_action(MenuItemAction::StartRace);
    let MenuEffect::Send(message) = effect else { panic!("no message") };
    inbox.extend(conn.handle(&mut app, message));
    let heard = g.handler_multiplayer(inbox, &shape());
    assert!(!heard.spawned);
    assert_eq!(g.baby, None);
    let inbox = conn.handle(&mut app, heard.reply.unwrap());
    assert_eq!(inbox.len(), 2);
    let heard = g.handler_multiplayer(inbox, &shape());
    assert!(heard.spawned);
    let mut body = g.baby.unwrap();
    assert_eq!((f(body.pos.x), f(body.pos.y)), (0.0, 0.0));
    assert_eq!(heard.reply, Some(g.sync_message()));
    let inbox = conn.handle(&mut app, heard.reply.unwrap());
    assert_eq!(inbox.len(), 1);
    assert_eq!(g.hold_to_track(track_len), None);
    body.pos = at(0.25, 51.0);
    g.baby = Some(body);
    let heard = g.handler_multiplayer(inbox, &shape());
    let inbox = conn.handle(&mut app, heard.reply.unwrap());
    assert_eq!(app.state().clients()[&0].baby, Some(body));
    let finish = g.hold_to_track(track_len).unwrap();
    assert_eq!(finish, ClientMessage::Finish);
    assert_eq!(g.baby, None);
    let mut inbox = inbox;
    inbox.extend(conn.handle(&mut app, finish));
    assert_eq!(inbox[1], ServerMessage::RaceResult { rank: 1, time: Scalar::zero() });
    assert_eq!(app.state().races()[&0].finished, 1);
    let heard = g.handler_multiplayer(inbox, &shape());
    assert!(!heard.spawned);
    assert_eq!(g.rank, Some(1));
    assert_eq!(g.hold_to_track(track_len), None);
    let inbox = conn.handle(&mut app, heard.reply.unwrap());
    assert_eq!(inbox.len(), 1);
}
