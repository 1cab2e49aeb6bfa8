use talespin::msgs::ServerMsg;
use talespin::registry::{Registry, IDLE_TIMEOUT_S};

fn deck_of(n: usize) -> Vec<String> {
    (0..n).map(|i| format!("pic{:03}.jpeg", i)).collect()
}

#[test]
fn room_codes_are_never_reissued() {
    let mut reg = Registry::new(deck_of(40));
    let mut codes: Vec<String> = Vec::new();
    for i in 0..50 {
        let msg = reg.create_room(1000 + i).expect("room created");
        match msg {
            ServerMsg::RoomState { room_id, .. } => codes.push(room_id),
            _ => panic!("expected a snapshot"),
        }
    }
    assert_eq!(codes.len(), 50);
    for c in &codes {
        assert_eq!(c.len(), 4);
        assert!(c.chars().all(|ch| ch.is_ascii_lowercase()));
    }
    for i in 0..codes.len() {
        for j in i + 1..codes.len() {
            assert_ne!(codes[i], codes[j]);
        }
    }
}

#[test]
fn lookup_is_case_insensitive() {
    let mut reg = Registry::new(deck_of(40));
    reg.create_room(1000).expect("room created");
    let code = reg.rooms[0].code.clone();
    assert!(reg.lookup(&code).is_some());
    assert!(reg.lookup(&code.to_uppercase()).is_some());
    assert!(reg.lookup("zzzz-not-a-code").is_none());
}

#[test]
fn idle_rooms_are_reclaimed() {
    let mut reg = Registry::new(deck_of(40));
    reg.create_room(1000).expect("room created");
    let code = reg.rooms[0].code.clone();
    // not yet past the timeout: the room survives
    reg.reclaim_idle(1000 + IDLE_TIMEOUT_S);
    assert!(reg.lookup(&code).is_some());
    // past the timeout with nobody connected: the room is gone
    reg.reclaim_idle(1000 + IDLE_TIMEOUT_S + 1);
    assert!(reg.lookup(&code).is_none());
}

#[test]
fn connected_rooms_are_never_reclaimed() {
    let mut reg = Registry::new(deck_of(40));
    reg.create_room(1000).expect("room created");
    let code = reg.rooms[0].code.clone();
    reg.connect(0);
    reg.reclaim_idle(1000 + 10 * IDLE_TIMEOUT_S);
    assert!(reg.lookup(&code).is_some(), "a room with a connected player must survive");
    // once the last player leaves and the timeout passes, it goes
    let i = reg.lookup(&code).unwrap();
    reg.disconnect(i);
    reg.reclaim_idle(1000 + 20 * IDLE_TIMEOUT_S);
    assert!(reg.lookup(&code).is_none());
}

#[test]
fn touch_defers_reclamation() {
    let mut reg = Registry::new(deck_of(40));
    reg.create_room(1000).expect("room created");
    let code = reg.rooms[0].code.clone();
    let i = reg.lookup(&code).unwrap();
    reg.touch(i, 5000);
    reg.reclaim_idle(5000 + IDLE_TIMEOUT_S);
    assert!(reg.lookup(&code).is_some());
    reg.reclaim_idle(5000 + IDLE_TIMEOUT_S + 1);
    assert!(reg.lookup(&code).is_none());
}

#[test]
fn stats_report_counts_and_access_times() {
    let mut reg = Registry::new(deck_of(40));
    reg.create_room(1111).expect("room created");
    reg.create_room(2222).expect("room created");
    reg.connect(0);
    let stats = reg.stats();
    assert_eq!(stats.len(), 2);
    assert_eq!(stats[0].1, (1, 1111));
    assert_eq!(stats[1].1, (0, 2222));
    assert_eq!(stats[0].0, reg.rooms[0].code);
}

#[test]
fn created_room_snapshot_is_empty_and_joining() {
    let mut reg = Registry::new(deck_of(40));
    let msg = reg.create_room(1000).expect("room created");
    match msg {
        ServerMsg::RoomState { players, active_player, player_order, .. } => {
            assert!(players.is_empty());
            assert_eq!(active_player, None);
            assert!(player_order.is_empty());
        }
        _ => panic!("expected a snapshot"),
    }
    assert_eq!(reg.rooms[0].room.deck.len(), 40);
}
