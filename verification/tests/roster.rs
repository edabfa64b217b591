use std::collections::BTreeMap;

use crawl_race::control::has_direction;
use crawl_race::interop::{ClientServerState, HostedRace};
use crawl_race::pose::{Baby, Vec2};
use crawl_race::roster::Pick;
use crawl_race::scalar::Scalar;
use crawl_race::server::App;

fn s(x: f32) -> Scalar {
    Scalar::from_bits(x.to_bits())
}

fn records() -> BTreeMap<u64, ClientServerState> {
    let mut clients = BTreeMap::new();
    for id in [9u64, 2, 5, 7, 3] {
        let mut r = ClientServerState::new();
        r.name = format!("c{id}");
        clients.insert(id, r);
    }
    clients.get_mut(&2).unwrap().hosting_race = true;
    clients.get_mut(&9).unwrap().hosting_race = true;
    clients.get_mut(&3).unwrap().joined = Some(2);
    clients.get_mut(&7).unwrap().joined = Some(2);
    clients.get_mut(&5).unwrap().joined = Some(9);
    clients.get_mut(&5).unwrap().baby = Some(Baby::new(None, Vec2::new(s(1.0), s(2.0))));
    clients
}

#[test]
fn picks_come_in_the_order_of_the_numbers() {
    let clients = records();
    assert_eq!(Pick::Hosting.among(&clients), vec![2, 9]);
    assert_eq!(Pick::JoinedTo(2).among(&clients), vec![3, 7]);
    assert_eq!(Pick::RaceOf(2).among(&clients), vec![2, 3, 7]);
    assert_eq!(Pick::JoinedTo(9).among(&clients), vec![5]);
    assert_eq!(Pick::RaceOf(9).among(&clients), vec![5, 9]);
    assert_eq!(Pick::Embodied.among(&clients), vec![5]);
    assert_eq!(Pick::JoinedTo(4).among(&clients), Vec::<u64>::new());
    assert_eq!(Pick::RaceOf(4).among(&clients), Vec::<u64>::new());
    assert_eq!(Pick::Hosting.among(&BTreeMap::new()), Vec::<u64>::new());
}

#[test]
fn a_pick_accepts_by_record_and_number() {
    let clients = records();
    assert!(Pick::RaceOf(2).accepts(2, &clients[&2]));
    assert!(!Pick::JoinedTo(2).accepts(2, &clients[&2]));
    assert!(Pick::JoinedTo(2).accepts(3, &clients[&3]));
    assert!(!Pick::JoinedTo(9).accepts(3, &clients[&3]));
    assert!(Pick::Embodied.accepts(5, &clients[&5]));
    assert!(!Pick::Embodied.accepts(3, &clients[&3]));
    assert!(Pick::Hosting.accepts(9, &clients[&9]));
    assert!(!Pick::Hosting.accepts(7, &clients[&7]));
}

#[test]
fn records_and_races_are_copied_whole() {
    let clients = records();
    assert_eq!(clients[&5].clone(), clients[&5]);
    let race = HostedRace { joined_players: vec![3, 7] };
    assert_eq!(race.clone(), race);
}

#[test]
fn a_displacement_has_a_direction_when_it_has_a_length() {
    assert!(has_direction(s(0.5)));
    assert!(has_direction(s(1e-40)));
    assert!(has_direction(s(f32::INFINITY)));
    assert!(!has_direction(s(0.0)));
    assert!(!has_direction(s(-0.0)));
    assert!(!has_direction(s(f32::NAN)));
    assert!(!has_direction(s(-1.0)));
}

#[test]
fn a_new_server_has_room() {
    let app = App::new();
    assert!(app.can_connect());
    assert!(app.has_room());
    assert_eq!(app.state().next_client_id(), 0);
    assert_eq!(app.state().next_race_id(), 0);
    assert!(app.state().clients().is_empty());
    assert!(app.state().races().is_empty());
    assert!(!app.state().has_client(0));
}
