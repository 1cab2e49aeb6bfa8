use talespin::msgs::{ClientMsg, Outgoing, RoomStage, ServerMsg};
use talespin::room::RoomState;

fn make_deck(n: usize) -> Vec<String> {
    (0..n).map(|i| format!("card{:03}.png", i)).collect()
}

fn joined_room() -> RoomState {
    let mut room = RoomState::new("abcd", make_deck(40));
    room.attempt_join("A").expect("A joins");
    room.attempt_join("B").expect("B joins");
    room.attempt_join("C").expect("C joins");
    room
}

fn started_room() -> RoomState {
    let mut room = joined_room();
    for name in ["A", "B", "C"] {
        room.handle_client_msg(name, &ClientMsg::Ready {});
    }
    assert_eq!(room.stage, RoomStage::ActiveChooses);
    room
}

fn active_name(room: &RoomState) -> String {
    room.players[room.player_order[room.active_player]].name.clone()
}

fn non_active_names(room: &RoomState) -> Vec<String> {
    let active = active_name(room);
    room.players
        .iter()
        .map(|p| p.name.clone())
        .filter(|n| *n != active)
        .collect()
}

fn submission_of(room: &RoomState, name: &str) -> String {
    room.players
        .iter()
        .find(|p| p.name == name)
        .unwrap()
        .current_card
        .clone()
        .unwrap()
}

fn points_of(room: &RoomState, name: &str) -> u16 {
    room.players.iter().find(|p| p.name == name).unwrap().info.points
}

/// Drives a full round to the voting stage and returns
/// (active, voter1, voter2).
fn room_at_voting(room: &mut RoomState) -> (String, String, String) {
    let active = active_name(room);
    let card = room.players[room.player_order[room.active_player]].hand[0].clone();
    room.handle_client_msg(
        &active,
        &ClientMsg::ActivePlayerChooseCard { card, description: "forest".to_string() },
    );
    assert_eq!(room.stage, RoomStage::PlayersChoose);
    let others = non_active_names(room);
    for name in &others {
        let hand_card = room
            .players
            .iter()
            .find(|p| p.name == *name)
            .unwrap()
            .hand[0]
            .clone();
        room.handle_client_msg(name, &ClientMsg::PlayerChooseCard { card: hand_card });
    }
    assert_eq!(room.stage, RoomStage::Voting);
    (active, others[0].clone(), others[1].clone())
}

#[test]
fn full_round_with_split_vote() {
    let mut room = started_room();
    assert_eq!(room.player_order.len(), 3);
    for p in &room.players {
        assert_eq!(p.hand.len(), 6);
    }
    let (active, v1, v2) = room_at_voting(&mut room);
    // three shuffled center cards
    let center: Vec<String> =
        room.players.iter().map(|p| p.current_card.clone().unwrap()).collect();
    assert_eq!(center.len(), 3);
    // v1 finds the active card, v2 falls for v1's decoy
    let active_card = submission_of(&room, &active);
    let decoy = submission_of(&room, &v1);
    room.handle_client_msg(&v1, &ClientMsg::Vote { card: active_card.clone() });
    assert_eq!(room.stage, RoomStage::Voting);
    let outs = room.handle_client_msg(&v2, &ClientMsg::Vote { card: decoy.clone() });
    assert_eq!(room.stage, RoomStage::Results);
    // split vote: the active player gains exactly three; the decoy that
    // attracted one vote earns its owner one point
    assert_eq!(points_of(&room, &active), 3);
    assert_eq!(points_of(&room, &v1), 1);
    assert_eq!(points_of(&room, &v2), 0);
    // the results broadcast reports the same gains
    let results = outs.iter().find_map(|o| match o {
        Outgoing::Broadcast(m @ ServerMsg::Results { .. }) => Some(m.clone()),
        _ => None,
    });
    match results.expect("results broadcast") {
        ServerMsg::Results { active_card: ac, point_change, .. } => {
            assert_eq!(ac, active_card);
            let get = |n: &str| point_change.iter().find(|p| p.0 == n).unwrap().1;
            assert_eq!(get(&active), 3);
            assert_eq!(get(&v1), 1);
            assert_eq!(get(&v2), 0);
        }
        _ => unreachable!(),
    }
}

#[test]
fn everyone_finds_the_active_card() {
    let mut room = started_room();
    let (active, v1, v2) = room_at_voting(&mut room);
    let active_card = submission_of(&room, &active);
    room.handle_client_msg(&v1, &ClientMsg::Vote { card: active_card.clone() });
    room.handle_client_msg(&v2, &ClientMsg::Vote { card: active_card.clone() });
    assert_eq!(room.stage, RoomStage::Results);
    // symmetric outcome: every voter exactly two, the active player none
    assert_eq!(points_of(&room, &active), 0);
    assert_eq!(points_of(&room, &v1), 2);
    assert_eq!(points_of(&room, &v2), 2);
}

#[test]
fn nobody_finds_the_active_card() {
    let mut room = started_room();
    let (active, v1, v2) = room_at_voting(&mut room);
    let sub1 = submission_of(&room, &v1);
    let sub2 = submission_of(&room, &v2);
    room.handle_client_msg(&v1, &ClientMsg::Vote { card: sub2 });
    room.handle_client_msg(&v2, &ClientMsg::Vote { card: sub1 });
    assert_eq!(room.stage, RoomStage::Results);
    assert_eq!(points_of(&room, &active), 0);
    assert_eq!(points_of(&room, &v1), 2);
    assert_eq!(points_of(&room, &v2), 2);
}

#[test]
fn self_vote_is_rejected_without_state_change() {
    let mut room = started_room();
    let (_, v1, _) = room_at_voting(&mut room);
    let own = submission_of(&room, &v1);
    let before_points: Vec<u16> = room.players.iter().map(|p| p.info.points).collect();
    let outs = room.handle_client_msg(&v1, &ClientMsg::Vote { card: own });
    assert_eq!(room.stage, RoomStage::Voting);
    let after_points: Vec<u16> = room.players.iter().map(|p| p.info.points).collect();
    assert_eq!(before_points, after_points);
    assert!(room.players.iter().all(|p| p.vote.is_none()));
    assert_eq!(outs.len(), 1);
    match &outs[0] {
        Outgoing::Direct { to, msg } => {
            assert_eq!(to, &v1);
            assert_eq!(msg, &ServerMsg::ErrorMsg("You cannot vote for your own card".to_string()));
        }
        _ => panic!("expected a direct error"),
    }
}

#[test]
fn active_player_cannot_vote() {
    let mut room = started_room();
    let (active, v1, _) = room_at_voting(&mut room);
    let sub1 = submission_of(&room, &v1);
    let outs = room.handle_client_msg(&active, &ClientMsg::Vote { card: sub1 });
    assert_eq!(room.stage, RoomStage::Voting);
    assert_eq!(outs.len(), 1);
    match &outs[0] {
        Outgoing::Direct { to, msg } => {
            assert_eq!(to, &active);
            assert_eq!(msg, &ServerMsg::ErrorMsg("Active player cannot vote".to_string()));
        }
        _ => panic!("expected a direct error"),
    }
}

#[test]
fn vote_for_card_outside_center_is_rejected() {
    let mut room = started_room();
    let (_, v1, _) = room_at_voting(&mut room);
    let outs = room.handle_client_msg(&v1, &ClientMsg::Vote { card: "no-such-card".to_string() });
    assert_eq!(room.stage, RoomStage::Voting);
    assert_eq!(outs.len(), 1);
    match &outs[0] {
        Outgoing::Direct { msg, .. } => {
            assert_eq!(msg, &ServerMsg::ErrorMsg("Invalid card".to_string()));
        }
        _ => panic!("expected a direct error"),
    }
}

#[test]
fn reconnection_restores_hand_and_points() {
    let mut room = started_room();
    let name = room.players[0].name.clone();
    let hand_before = room.players[0].hand.clone();
    let points_before = room.players[0].info.points;
    room.on_disconnect(&name);
    assert!(!room.players[0].info.connected);
    assert_eq!(room.players.len(), 3);
    room.attempt_join(&name).expect("reconnection succeeds");
    assert!(room.players[0].info.connected);
    assert_eq!(room.players[0].hand, hand_before);
    assert_eq!(room.players[0].info.points, points_before);
}

#[test]
fn disconnect_while_joining_frees_the_seat() {
    let mut room = joined_room();
    room.on_disconnect("B");
    assert_eq!(room.players.len(), 2);
    assert!(room.players.iter().all(|p| p.name != "B"));
    // and the name can be taken again
    room.attempt_join("B").expect("seat is free again");
    assert_eq!(room.players.len(), 3);
}

#[test]
fn round_cycles_to_next_active_player() {
    let mut room = started_room();
    let first_active = room.active_player;
    let (active, v1, v2) = room_at_voting(&mut room);
    let active_card = submission_of(&room, &active);
    room.handle_client_msg(&v1, &ClientMsg::Vote { card: active_card.clone() });
    room.handle_client_msg(&v2, &ClientMsg::Vote { card: active_card });
    assert_eq!(room.stage, RoomStage::Results);
    for name in ["A", "B", "C"] {
        room.handle_client_msg(name, &ClientMsg::Ready {});
    }
    assert_eq!(room.stage, RoomStage::ActiveChooses);
    assert_eq!(room.active_player, (first_active + 1) % 3);
    for p in &room.players {
        assert_eq!(p.hand.len(), 6);
        assert!(p.current_card.is_none());
        assert!(p.vote.is_none());
    }
}

#[test]
fn next_round_retires_the_center_and_draws_exactly_what_is_needed() {
    let mut room = started_room();
    let (active, v1, v2) = room_at_voting(&mut room);
    // what the room owns outside the center before the next round
    let deck_before = room.deck.len();
    let mut owned_before: Vec<String> = room.deck.iter().cloned().collect();
    for p in &room.players {
        owned_before.extend(p.hand.iter().cloned());
    }
    let retired: Vec<String> =
        room.players.iter().map(|p| p.current_card.clone().unwrap()).collect();
    let active_card = submission_of(&room, &active);
    room.handle_client_msg(&v1, &ClientMsg::Vote { card: active_card.clone() });
    room.handle_client_msg(&v2, &ClientMsg::Vote { card: active_card });
    assert_eq!(room.stage, RoomStage::Results);
    for name in ["A", "B", "C"] {
        room.handle_client_msg(name, &ClientMsg::Ready {});
    }
    assert_eq!(room.stage, RoomStage::ActiveChooses);
    // each hand refills its one missing card: the deck shrinks by exactly three
    assert_eq!(room.deck.len(), deck_before - 3);
    // nothing was discarded: the deck and hands together hold exactly what
    // they held before, and the retired submissions left play for good
    let mut owned_after: Vec<String> = room.deck.iter().cloned().collect();
    for p in &room.players {
        owned_after.extend(p.hand.iter().cloned());
    }
    assert_eq!(owned_after.len(), owned_before.len());
    for c in &owned_after {
        assert!(owned_before.contains(c));
        assert!(!retired.contains(c));
    }
    for c in &retired {
        assert!(!owned_after.contains(c));
    }
}

#[test]
fn messages_out_of_stage_are_ignored() {
    let mut room = joined_room();
    let before = room.players.iter().map(|p| p.info).collect::<Vec<_>>();
    let outs = room.handle_client_msg("A", &ClientMsg::Vote { card: "x".to_string() });
    assert!(outs.is_empty());
    let outs = room.handle_client_msg("A", &ClientMsg::PlayerChooseCard { card: "x".to_string() });
    assert!(outs.is_empty());
    let outs = room.handle_client_msg("nobody", &ClientMsg::Ready {});
    assert!(outs.is_empty());
    let after = room.players.iter().map(|p| p.info).collect::<Vec<_>>();
    assert_eq!(before, after);
    assert_eq!(room.stage, RoomStage::Joining);
}

#[test]
fn non_active_invalid_card_is_rejected() {
    let mut room = started_room();
    let active = active_name(&room);
    let card = room.players[room.player_order[room.active_player]].hand[0].clone();
    room.handle_client_msg(
        &active,
        &ClientMsg::ActivePlayerChooseCard { card, description: "clue".to_string() },
    );
    let voter = non_active_names(&room)[0].clone();
    let outs = room.handle_client_msg(&voter, &ClientMsg::PlayerChooseCard {
        card: "not-in-hand".to_string(),
    });
    assert_eq!(room.stage, RoomStage::PlayersChoose);
    assert_eq!(outs.len(), 1);
    match &outs[0] {
        Outgoing::Direct { to, msg } => {
            assert_eq!(to, &voter);
            assert_eq!(msg, &ServerMsg::ErrorMsg("Invalid card chosen by player".to_string()));
        }
        _ => panic!("expected a direct error"),
    }
}

#[test]
fn resubmission_swaps_the_center_card() {
    let mut room = started_room();
    let active = active_name(&room);
    let card = room.players[room.player_order[room.active_player]].hand[0].clone();
    room.handle_client_msg(
        &active,
        &ClientMsg::ActivePlayerChooseCard { card, description: "clue".to_string() },
    );
    let player = non_active_names(&room)[0].clone();
    let seat = room.players.iter().position(|p| p.name == player).unwrap();
    let first = room.players[seat].hand[0].clone();
    let second = room.players[seat].hand[1].clone();
    room.handle_client_msg(&player, &ClientMsg::PlayerChooseCard { card: first.clone() });
    assert_eq!(room.players[seat].current_card, Some(first.clone()));
    assert_eq!(room.players[seat].hand.len(), 5);
    // changing one's mind puts the first card back in the hand
    room.handle_client_msg(&player, &ClientMsg::PlayerChooseCard { card: second.clone() });
    assert_eq!(room.players[seat].current_card, Some(second));
    assert_eq!(room.players[seat].hand.len(), 5);
    assert!(room.players[seat].hand.contains(&first));
    assert_eq!(room.stage, RoomStage::PlayersChoose);
}

#[test]
fn dealing_draws_distinct_cards_from_the_deck() {
    let deck = make_deck(40);
    let mut room = RoomState::new("abcd", deck.clone());
    room.attempt_join("A").expect("join");
    room.attempt_join("B").expect("join");
    room.attempt_join("C").expect("join");
    for name in ["A", "B", "C"] {
        room.handle_client_msg(name, &ClientMsg::Ready {});
    }
    let mut dealt: Vec<String> = Vec::new();
    for p in &room.players {
        dealt.extend(p.hand.iter().cloned());
    }
    assert_eq!(dealt.len(), 18);
    assert_eq!(room.deck.len(), 22);
    // every dealt card comes from the deck, nothing is duplicated, and
    // nothing dealt is still in the deck
    for c in &dealt {
        assert!(deck.contains(c));
        assert!(!room.deck.contains(c));
    }
    for i in 0..dealt.len() {
        for j in i + 1..dealt.len() {
            assert_ne!(dealt[i], dealt[j]);
        }
    }
}

#[test]
fn voting_opens_on_the_submitted_center() {
    let mut room = started_room();
    let active = active_name(&room);
    let card = room.players[room.player_order[room.active_player]].hand[0].clone();
    room.handle_client_msg(
        &active,
        &ClientMsg::ActivePlayerChooseCard { card, description: "reef".to_string() },
    );
    let others = non_active_names(&room);
    room.handle_client_msg(&others[0], &ClientMsg::PlayerChooseCard {
        card: room.players.iter().find(|p| p.name == others[0]).unwrap().hand[0].clone(),
    });
    let outs = room.handle_client_msg(&others[1], &ClientMsg::PlayerChooseCard {
        card: room.players.iter().find(|p| p.name == others[1]).unwrap().hand[0].clone(),
    });
    let begin = outs.iter().find_map(|o| match o {
        Outgoing::Broadcast(ServerMsg::BeginVoting { center_cards, description }) => {
            Some((center_cards.clone(), description.clone()))
        }
        _ => None,
    });
    let (mut center, description) = begin.expect("voting opens");
    assert_eq!(description, "reef");
    let mut subs: Vec<String> =
        room.players.iter().map(|p| p.current_card.clone().unwrap()).collect();
    center.sort();
    subs.sort();
    assert_eq!(center, subs);
}
