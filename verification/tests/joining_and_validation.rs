use talespin::msgs::{ClientMsg, Outgoing, RoomStage, ServerMsg};
use talespin::room::{JoinError, RoomState};
use talespin::text::{matches_code, trim_description};

fn deck_of(n: usize) -> Vec<String> {
    (0..n).map(|i| format!("img{:03}.jpg", i)).collect()
}

#[test]
fn join_validation_errors() {
    let mut room = RoomState::new("abcd", deck_of(40));
    assert_eq!(room.attempt_join(""), Err(JoinError::NameEmpty));
    let long = "x".repeat(31);
    assert_eq!(room.attempt_join(&long), Err(JoinError::NameTooLong));
    room.attempt_join("A").expect("first join");
    assert_eq!(room.attempt_join("A"), Err(JoinError::NameTaken));
    assert_eq!(JoinError::NameTaken.message(), "Name already taken");
    assert_eq!(JoinError::GameStarted.message(), "Game has already started");
}

#[test]
fn room_seats_at_most_eight() {
    let mut room = RoomState::new("abcd", deck_of(100));
    for i in 0..8 {
        room.attempt_join(&format!("p{}", i)).expect("seat free");
    }
    assert_eq!(room.attempt_join("p8"), Err(JoinError::RoomFull));
    assert_eq!(room.players.len(), 8);
}

#[test]
fn no_new_names_after_game_start() {
    let mut room = RoomState::new("abcd", deck_of(40));
    for n in ["A", "B", "C"] {
        room.attempt_join(n).expect("join");
    }
    for n in ["A", "B", "C"] {
        room.handle_client_msg(n, &ClientMsg::Ready {});
    }
    assert_eq!(room.stage, RoomStage::ActiveChooses);
    assert_eq!(room.attempt_join("D"), Err(JoinError::GameStarted));
}

#[test]
fn too_few_players_do_not_start() {
    let mut room = RoomState::new("abcd", deck_of(40));
    room.attempt_join("A").expect("join");
    room.attempt_join("B").expect("join");
    room.handle_client_msg("A", &ClientMsg::Ready {});
    room.handle_client_msg("B", &ClientMsg::Ready {});
    assert_eq!(room.stage, RoomStage::Joining);
}

#[test]
fn short_deck_aborts_the_deal() {
    let mut room = RoomState::new("abcd", deck_of(10));
    for n in ["A", "B", "C"] {
        room.attempt_join(n).expect("join");
    }
    room.handle_client_msg("A", &ClientMsg::Ready {});
    room.handle_client_msg("B", &ClientMsg::Ready {});
    let outs = room.handle_client_msg("C", &ClientMsg::Ready {});
    // eighteen cards are needed, ten are there: the round never starts
    assert_eq!(room.stage, RoomStage::Joining);
    assert!(outs.iter().any(|o| matches!(
        o,
        Outgoing::Direct { to, msg }
            if to == "C" && msg == &ServerMsg::ErrorMsg("Not enough cards in the deck".to_string())
    )));
}

#[test]
fn active_submission_is_validated() {
    let mut room = RoomState::new("abcd", deck_of(40));
    for n in ["A", "B", "C"] {
        room.attempt_join(n).expect("join");
    }
    for n in ["A", "B", "C"] {
        room.handle_client_msg(n, &ClientMsg::Ready {});
    }
    let active = room.players[room.player_order[room.active_player]].name.clone();
    // a card the player does not hold
    let outs = room.handle_client_msg(
        &active,
        &ClientMsg::ActivePlayerChooseCard {
            card: "not-held".to_string(),
            description: "word".to_string(),
        },
    );
    assert_eq!(room.stage, RoomStage::ActiveChooses);
    assert!(matches!(&outs[0], Outgoing::Direct { msg, .. }
        if msg == &ServerMsg::ErrorMsg("Invalid card chosen by active player".to_string())));
    // a description of more than one word
    let held = room.players[room.player_order[room.active_player]].hand[0].clone();
    let outs = room.handle_client_msg(
        &active,
        &ClientMsg::ActivePlayerChooseCard {
            card: held.clone(),
            description: "two words".to_string(),
        },
    );
    assert_eq!(room.stage, RoomStage::ActiveChooses);
    assert!(matches!(&outs[0], Outgoing::Direct { msg, .. }
        if msg == &ServerMsg::ErrorMsg("Description must be one word".to_string())));
    // any embedded whitespace counts as a word break, not only a space
    let outs = room.handle_client_msg(
        &active,
        &ClientMsg::ActivePlayerChooseCard {
            card: held.clone(),
            description: "a\tb".to_string(),
        },
    );
    assert_eq!(room.stage, RoomStage::ActiveChooses);
    assert!(matches!(&outs[0], Outgoing::Direct { msg, .. }
        if msg == &ServerMsg::ErrorMsg("Description must be one word".to_string())));
    // a good submission, with surrounding blanks trimmed
    room.handle_client_msg(
        &active,
        &ClientMsg::ActivePlayerChooseCard { card: held, description: "  forest\n".to_string() },
    );
    assert_eq!(room.stage, RoomStage::PlayersChoose);
    assert_eq!(room.current_description, "forest");
}

#[test]
fn descriptions_trim_to_one_word() {
    assert_eq!(trim_description("  hello  "), Some("hello".to_string()));
    assert_eq!(trim_description("\tword\r\n"), Some("word".to_string()));
    assert_eq!(trim_description("plain"), Some("plain".to_string()));
    assert_eq!(trim_description("two words"), None);
    assert_eq!(trim_description("a\tb"), None);
    assert_eq!(trim_description("a\nb"), None);
    assert_eq!(trim_description("   "), None);
    assert_eq!(trim_description(""), None);
}

#[test]
fn code_matching_ignores_case() {
    assert!(matches_code("abcd", "abcd"));
    assert!(matches_code("abcd", "AbCd"));
    assert!(matches_code("abcd", "ABCD"));
    assert!(!matches_code("abcd", "abce"));
    assert!(!matches_code("abcd", "abc"));
}

#[test]
fn snapshot_lists_players_and_stage() {
    let mut room = RoomState::new("abcd", deck_of(40));
    room.attempt_join("A").expect("join");
    room.attempt_join("B").expect("join");
    match room.get_room_state() {
        ServerMsg::RoomState { room_id, players, stage, active_player, player_order } => {
            assert_eq!(room_id, "abcd");
            assert_eq!(stage, RoomStage::Joining);
            assert_eq!(active_player, None);
            assert!(player_order.is_empty());
            let names: Vec<String> = players.iter().map(|p| p.0.clone()).collect();
            assert_eq!(names, vec!["A".to_string(), "B".to_string()]);
            assert!(players.iter().all(|p| p.1.connected && p.1.points == 0 && !p.1.ready));
        }
        _ => panic!("expected a room state snapshot"),
    }
}

#[test]
fn points_accumulate_over_rounds() {
    let mut room = RoomState::new("abcd", deck_of(60));
    for n in ["A", "B", "C"] {
        room.attempt_join(n).expect("join");
    }
    let mut expected: std::collections::HashMap<String, u16> = std::collections::HashMap::new();
    for n in ["A", "B", "C"] {
        expected.insert(n.to_string(), 0);
    }
    for _ in 0..2 {
        for n in ["A", "B", "C"] {
            room.handle_client_msg(n, &ClientMsg::Ready {});
        }
        assert_eq!(room.stage, RoomStage::ActiveChooses);
        let active = room.players[room.player_order[room.active_player]].name.clone();
        let card = room.players[room.player_order[room.active_player]].hand[0].clone();
        room.handle_client_msg(
            &active,
            &ClientMsg::ActivePlayerChooseCard { card, description: "clue".to_string() },
        );
        let others: Vec<String> = room
            .players
            .iter()
            .map(|p| p.name.clone())
            .filter(|n| *n != active)
            .collect();
        for name in &others {
            let c = room.players.iter().find(|p| p.name == *name).unwrap().hand[0].clone();
            room.handle_client_msg(name, &ClientMsg::PlayerChooseCard { card: c });
        }
        let active_card = room.players[room.player_order[room.active_player]]
            .current_card
            .clone()
            .unwrap();
        // one voter finds it, one does not: the split-vote rule applies
        let decoy = room
            .players
            .iter()
            .find(|p| p.name == others[0])
            .unwrap()
            .current_card
            .clone()
            .unwrap();
        room.handle_client_msg(&others[0], &ClientMsg::Vote { card: active_card });
        room.handle_client_msg(&others[1], &ClientMsg::Vote { card: decoy });
        assert_eq!(room.stage, RoomStage::Results);
        *expected.get_mut(&active).unwrap() += 3;
        *expected.get_mut(&others[0]).unwrap() += 1;
        // the table total after each round equals the sum of the gains
        let total: u16 = room.players.iter().map(|p| p.info.points).sum();
        let expected_total: u16 = expected.values().sum();
        assert_eq!(total, expected_total);
        for p in &room.players {
            assert_eq!(p.info.points, expected[&p.name]);
        }
    }
}
