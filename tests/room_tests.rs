use party_rooms::game::{
    personalize, ClientEventGame, ClientPrompt, ErrorMsg, GameRoom, Player, Prompt, Reply, ServerEvent,
    Step,
};
use rand::rngs::StdRng;
use rand::SeedableRng;
use std::sync::Arc;

fn prompts() -> Arc<Vec<Prompt>> {
    let mut v = Vec::new();
    for i in 0..12 {
        v.push(Prompt::Tag(
            format!("tag {}", i),
            vec![("who".to_string(), "yes".to_string(), "no".to_string())],
        ));
    }
    Arc::new(v)
}

fn player(name: &str) -> Player {
    Player { username: name.to_string(), avatar: format!("{}.png", name) }
}

fn room_with(names: &[&str]) -> (GameRoom, StdRng) {
    let mut rng = StdRng::seed_from_u64(17);
    let mut room = GameRoom::create("BANANA12".to_string(), prompts(), &mut rng);
    for n in names {
        room.join(player(n)).unwrap();
    }
    (room, rng)
}

fn names(room: &GameRoom) -> Vec<String> {
    room.players().iter().map(|p| p.username.clone()).collect()
}

#[test]
fn step_advances_through_the_game() {
    let mut s = Step::Lobby;
    for i in 0..10u8 {
        assert_eq!(s.advance(), Step::Question(i));
        assert_eq!(s, Step::Question(i));
    }
    assert_eq!(s.advance(), Step::Finished);
    assert_eq!(s.advance(), Step::Lobby);
}

#[test]
fn step_wire_index() {
    assert_eq!(Step::Lobby.wire_index(), 0);
    assert_eq!(Step::Question(4).wire_index(), 4);
    assert_eq!(Step::Finished.wire_index(), 9);
}

#[test]
fn new_room_is_an_empty_lobby() {
    let (room, _) = room_with(&[]);
    assert_eq!(room.code(), "BANANA12");
    assert!(room.players().is_empty());
    assert!(room.votes().is_empty());
    assert_eq!(room.step(), Step::Lobby);
}

#[test]
fn second_join_with_same_name_is_refused() {
    let (mut room, _) = room_with(&[]);
    assert_eq!(room.join(player("alice")), Ok(()));
    assert_eq!(room.join(player("alice")), Err(ErrorMsg::UsedUsername));
    assert_eq!(room.players().len(), 1);
}

#[test]
fn leaving_keeps_the_order_of_the_others() {
    let (mut room, _) = room_with(&["a", "b", "c", "d"]);
    let update = room.leave("b");
    assert_eq!(names(&room), vec!["a", "c", "d"]);
    match update {
        ServerEvent::RoomUpdate { players } => assert_eq!(players.len(), 3),
        other => panic!("unexpected {:?}", other),
    }
    room.leave("nobody");
    assert_eq!(names(&room), vec!["a", "c", "d"]);
}

#[test]
fn leaving_drops_the_vote() {
    let (mut room, _) = room_with(&["a", "b"]);
    room.record_vote(("a".to_string(), "b".to_string()));
    room.record_vote(("b".to_string(), "a".to_string()));
    room.leave("a");
    assert_eq!(room.votes(), &vec![("b".to_string(), "a".to_string())]);
}

#[test]
fn first_vote_of_a_voter_wins() {
    let (mut room, _) = room_with(&["a", "b"]);
    room.record_vote(("a".to_string(), "b".to_string()));
    room.record_vote(("a".to_string(), "a".to_string()));
    assert_eq!(room.votes(), &vec![("a".to_string(), "b".to_string())]);
}

#[test]
fn round_over_after_every_player_answered() {
    let (mut room, mut rng) = room_with(&["a", "b", "c"]);
    match room.on_event(ClientEventGame::StartRound, &mut rng) {
        Reply::BroadcastEach(events) => assert_eq!(events.len(), 3),
        other => panic!("unexpected {:?}", other),
    }
    let answers = [("a", "b"), ("b", "c"), ("c", "a")];
    for (i, (voter, choice)) in answers.iter().enumerate() {
        let vote = (voter.to_string(), choice.to_string());
        let reply = room.on_event(ClientEventGame::Answer { vote }, &mut rng);
        if i < 2 {
            match reply {
                Reply::Broadcast(ServerEvent::RoundUpdate { ready_player_count }) => {
                    assert_eq!(ready_player_count, i as u32 + 1)
                }
                other => panic!("unexpected {:?}", other),
            }
        } else {
            match reply {
                Reply::Broadcast(ServerEvent::RoundOver { votes }) => assert_eq!(votes.len(), 3),
                other => panic!("unexpected {:?}", other),
            }
        }
    }
}

#[test]
fn repeated_answer_does_not_finish_the_round() {
    let (mut room, mut rng) = room_with(&["a", "b"]);
    room.start_round(&mut rng);
    room.answer(("a".to_string(), "b".to_string()));
    match room.answer(("a".to_string(), "a".to_string())) {
        Reply::Broadcast(ServerEvent::RoundUpdate { ready_player_count }) => assert_eq!(ready_player_count, 1),
        other => panic!("unexpected {:?}", other),
    }
}

#[test]
fn round_questions_name_each_player_once() {
    let (mut room, mut rng) = room_with(&["a", "b", "c", "d"]);
    let events = match room.start_round(&mut rng) {
        Reply::BroadcastEach(events) => events,
        other => panic!("unexpected {:?}", other),
    };
    let mut subjects: Vec<String> = events
        .into_iter()
        .map(|e| match e {
            ServerEvent::NewRound { question: ClientPrompt::Tag(_, subject, choices) } => {
                assert_eq!(choices.len(), 1);
                subject
            }
            other => panic!("unexpected {:?}", other),
        })
        .collect();
    subjects.sort();
    assert_eq!(subjects, vec!["a", "b", "c", "d"]);
}

#[test]
fn a_game_asks_ten_distinct_questions() {
    let (mut room, mut rng) = room_with(&["a"]);
    let mut seen = Vec::new();
    for _ in 0..10 {
        match room.start_round(&mut rng) {
            Reply::BroadcastEach(mut events) => match events.pop() {
                Some(ServerEvent::NewRound { question: ClientPrompt::Tag(text, _, _) }) => seen.push(text),
                other => panic!("unexpected {:?}", other),
            },
            other => panic!("unexpected {:?}", other),
        }
    }
    let mut distinct = seen.clone();
    distinct.sort();
    distinct.dedup();
    assert_eq!(distinct.len(), 10);
    assert!(matches!(room.start_round(&mut rng), Reply::Broadcast(ServerEvent::GameOver)));
    assert_eq!(room.step(), Step::Finished);
    match room.start_round(&mut rng) {
        Reply::Broadcast(ServerEvent::OnRoomJoin { code, players, step }) => {
            assert_eq!(code, "BANANA12");
            assert_eq!(players.len(), 1);
            assert_eq!(step, Step::Lobby);
        }
        other => panic!("unexpected {:?}", other),
    }
}

#[test]
fn start_round_clears_votes() {
    let (mut room, mut rng) = room_with(&["a", "b"]);
    room.start_round(&mut rng);
    room.answer(("a".to_string(), "b".to_string()));
    room.start_round(&mut rng);
    assert!(room.votes().is_empty());
}

#[test]
fn leave_room_event_goes_back_to_the_lobby() {
    let (mut room, mut rng) = room_with(&["a"]);
    assert!(matches!(room.on_event(ClientEventGame::LeaveRoom, &mut rng), Reply::ToLobby));
    assert_eq!(room.players().len(), 1);
}

#[test]
fn snapshot_and_update_list_the_players() {
    let (room, _) = room_with(&["a", "b"]);
    match room.snapshot() {
        ServerEvent::OnRoomJoin { code, players, step } => {
            assert_eq!(code, "BANANA12");
            assert_eq!(players[1].username, "b");
            assert_eq!(players[1].avatar, "b.png");
            assert_eq!(step, Step::Lobby);
        }
        other => panic!("unexpected {:?}", other),
    }
    match room.room_update() {
        ServerEvent::RoomUpdate { players } => assert_eq!(players.len(), 2),
        other => panic!("unexpected {:?}", other),
    }
}

#[test]
fn prompts_as_sent_to_clients() {
    let q = Prompt::Question("Who?".to_string());
    match q.into_client("bob") {
        ClientPrompt::Question(s) => assert_eq!(s, "Who?"),
        other => panic!("unexpected {:?}", other),
    }
    let t = Prompt::Tag(
        "Is {} a cat?".to_string(),
        vec![("a".to_string(), "b".to_string(), "c".to_string())],
    );
    match t.into_client("bob") {
        ClientPrompt::Tag(s, who, v) => {
            assert_eq!(s, "Is {} a cat?");
            assert_eq!(who, "bob");
            assert_eq!(v, vec![("a".to_string(), "b".to_string(), "c".to_string())]);
        }
        other => panic!("unexpected {:?}", other),
    }
}

#[test]
fn personalize_follows_the_subjects() {
    let t = Prompt::Tag("T".to_string(), vec![]);
    let subjects = vec!["x".to_string(), "y".to_string()];
    let events = personalize(&t, &subjects);
    let got: Vec<String> = events
        .into_iter()
        .map(|e| match e {
            ServerEvent::NewRound { question: ClientPrompt::Tag(_, who, _) } => who,
            other => panic!("unexpected {:?}", other),
        })
        .collect();
    assert_eq!(got, subjects);
}

#[test]
fn round_subjects_are_shuffled() {
    let (mut room, mut rng) = room_with(&["a", "b", "c", "d", "e", "f"]);
    let mut reordered = 0;
    for _ in 0..10 {
        let subjects: Vec<String> = match room.start_round(&mut rng) {
            Reply::BroadcastEach(events) => events
                .into_iter()
                .map(|e| match e {
                    ServerEvent::NewRound { question: ClientPrompt::Tag(_, subject, _) } => subject,
                    other => panic!("unexpected {:?}", other),
                })
                .collect(),
            other => panic!("unexpected {:?}", other),
        };
        if subjects != names(&room) {
            reordered += 1;
        }
    }
    assert!(reordered > 0);
}
