use party_rooms::game::{ErrorMsg, Prompt, Step};
use party_rooms::id_gen::FunnyWords;
use party_rooms::lobby::{Lobby, CODE_LENGTH};
use party_rooms::registry::Registry;
use rand::rngs::StdRng;
use rand::SeedableRng;

fn lobby() -> Lobby<u32> {
    let words: Vec<String> = ["BANANA", "MANGO", "PAPAYA"].iter().map(|w| w.to_string()).collect();
    let prompts: Vec<Prompt> = (0..10).map(|i| Prompt::Question(format!("q{}", i))).collect();
    Lobby::new(FunnyWords::from_words(&words), prompts, StdRng::seed_from_u64(1))
}

#[test]
fn registry_keeps_one_handle_per_code() {
    let mut r: Registry<u32> = Registry::new();
    assert_eq!(r.len(), 0);
    assert!(r.register("AAAAAAAA".to_string(), 1));
    assert!(!r.register("AAAAAAAA".to_string(), 2));
    assert!(r.register("BBBBBBBB".to_string(), 3));
    assert_eq!(r.len(), 2);
    assert_eq!(r.find("AAAAAAAA"), Some(&1));
    assert!(r.contains("BBBBBBBB"));
    assert_eq!(r.find("CCCCCCCC"), None);
    r.prune("AAAAAAAA");
    assert_eq!(r.find("AAAAAAAA"), None);
    assert_eq!(r.find("BBBBBBBB"), Some(&3));
    assert_eq!(r.len(), 1);
    r.prune("AAAAAAAA");
    assert_eq!(r.len(), 1);
}

#[test]
fn opened_rooms_get_fresh_codes() {
    let mut l = lobby();
    let mut codes = Vec::new();
    for i in 0..200 {
        let room = l.open_room();
        let code = room.code().clone();
        assert_eq!(code.chars().count(), CODE_LENGTH);
        assert!(code.chars().all(|c| c.is_ascii_uppercase() || c.is_ascii_digit()));
        assert!(l.probe(&code).is_none());
        assert_eq!(room.step(), Step::Lobby);
        assert!(l.register(code.clone(), i));
        codes.push(code);
    }
    let mut distinct = codes.clone();
    distinct.sort();
    distinct.dedup();
    assert_eq!(distinct.len(), codes.len());
    assert_eq!(l.rooms().len(), 200);
}

#[test]
fn register_refuses_taken_or_malformed_codes() {
    let mut l = lobby();
    assert!(l.register("BANANA12".to_string(), 7));
    assert!(!l.register("BANANA12".to_string(), 8));
    assert!(!l.register("SHORT".to_string(), 9));
    assert_eq!(l.probe("BANANA12"), Some(&7));
    l.prune("BANANA12");
    assert_eq!(l.probe("BANANA12"), None);
}

#[test]
fn join_target_decides_where_a_client_goes() {
    let mut l = lobby();
    assert!(l.register("BANANA12".to_string(), 5));
    assert_eq!(l.join_target("", Some("BANANA12")), Err(ErrorMsg::EmptyUsername));
    assert_eq!(l.join_target("", None), Err(ErrorMsg::EmptyUsername));
    assert_eq!(l.join_target("alice", None), Ok(None));
    assert_eq!(l.join_target("alice", Some("BANANA12")), Ok(Some(&5)));
    assert_eq!(l.join_target("alice", Some("BANANA13")), Err(ErrorMsg::RoomNotFound));
    assert_eq!(l.join_target("alice", Some("BAN")), Err(ErrorMsg::RoomNotFound));
}
