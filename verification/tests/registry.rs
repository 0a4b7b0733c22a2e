use treasure_hunt::clues::arrangement::Arrangements;
use treasure_hunt::clues::Clues;
use treasure_hunt::randomness::thread_rng;
use treasure_hunt::registry::{
    CurrentClueError, Either, NewSessionError, Registry, TeamName, TeamNameError,
};
use treasure_hunt::session::SessionId;

const NOW: u64 = 1_000;

fn fresh_registry() -> Registry {
    let mut rng = thread_rng();
    let generator = Arrangements::new(Clues::mock(), &mut rng)
        .unwrap()
        .iterator();
    Registry::new(generator)
}

#[test]
fn test_team_name_validation() {
    assert_eq!(TeamName::new(""), Err(TeamNameError::Empty));
    assert_eq!(TeamName::new("   \t  "), Err(TeamNameError::Empty));
    assert_eq!(TeamName::new(&"x".repeat(51)), Err(TeamNameError::TooLong));
    let name = TeamName::new("  The Seekers  ").unwrap();
    assert_eq!(name.text(), "The Seekers");
    assert_eq!(TeamName::new(&"x".repeat(50)).unwrap().text(), "x".repeat(50));
}

#[test]
fn test_duplicate_team_name_is_rejected() {
    let mut registry = fresh_registry();
    let mut rng = thread_rng();
    let name = TeamName::new("Michael").unwrap();
    let id = registry.new_session(name.clone(), &mut rng).unwrap();
    // A fresh session code is four uppercase letters.
    let bytes = id.bytes();
    assert_eq!(bytes.len(), 4);
    assert!(bytes.iter().all(|b| (b'A'..=b'Z').contains(b)));
    assert_eq!(
        registry.new_session(name, &mut rng),
        Err(NewSessionError::DuplicateTeamName)
    );
}

#[test]
fn test_unknown_session_id() {
    let mut registry = fresh_registry();
    let id = SessionId::new("ZZZZ").unwrap();
    assert_eq!(
        registry.answer(&id, "anything", NOW),
        Err(CurrentClueError::UnknownSessionId)
    );
    assert!(registry.current_clue(&id, NOW).is_err());
    assert!(registry.get_team_name("ZZZZ").is_none());
    assert!(registry.get_team_name("not a session id").is_none());
}

#[test]
fn test_session_id_validation() {
    // Lookups fold the code to uppercase, so teams may type either.
    let id = SessionId::new("abcd").unwrap();
    let upper = SessionId::new("ABCD").unwrap();
    assert_eq!(id.bytes(), upper.bytes());
    assert!(SessionId::new("abc").is_none());
    assert!(SessionId::new("abcde").is_none());
    assert!(SessionId::new("ab\u{e9}d").is_none());
}

#[test]
fn test_registry_round() {
    let mut registry = fresh_registry();
    let mut rng = thread_rng();
    let alice = TeamName::new("Alice").unwrap();
    let bob = TeamName::new("Bob").unwrap();
    let alice_id = registry.new_session(alice, &mut rng).unwrap();
    let _bob_id = registry.new_session(bob, &mut rng).unwrap();

    // Alice looks at her current clue and answers it.
    let (name, outcome) = registry.current_clue(&alice_id, NOW).unwrap();
    assert_eq!(name.text(), "Alice");
    let clue = match outcome {
        Either::Left(view) => view.clue,
        Either::Right(_) => panic!("a fresh session has a current clue"),
    };
    // The mock answers are the seeds 0..14; find this clue's one.
    let answer = (0..14)
        .map(|x: u64| x.to_string())
        .find(|a| treasure_hunt::clues::answer_to_code(a) == clue.code)
        .unwrap();
    let points = registry.answer(&alice_id, &answer, NOW).unwrap().unwrap();
    assert_eq!(points, 400);

    // The leaderboard lists both teams, highest first.
    let id_text = String::from_utf8(alice_id.bytes()).unwrap();
    let (rows, me) = registry.leaderboard(&id_text);
    assert_eq!(rows.len(), 2);
    assert_eq!(rows[0].team_name.text(), "Alice");
    assert_eq!(rows[0].score, 400);
    assert_eq!(rows[1].team_name.text(), "Bob");
    assert_eq!(rows[1].score, 0);
    assert_eq!(me.unwrap().text(), "Alice");
}

#[test]
fn test_registry_hint_and_skip() {
    let mut registry = fresh_registry();
    let mut rng = thread_rng();
    let team = TeamName::new("Walkers").unwrap();
    let id = registry.new_session(team, &mut rng).unwrap();

    registry.handle_hint(&id, NOW);
    let (_, outcome) = registry.current_clue(&id, NOW).unwrap();
    let hinted = match outcome {
        Either::Left(view) => view,
        Either::Right(_) => panic!("a fresh session has a current clue"),
    };
    assert_eq!(
        hinted.knowledge,
        treasure_hunt::clues::status::KnowledgeKind::WithHint
    );

    // Skipping moves on to another clue; the skipped one keeps its
    // hinted knowledge for the revisit.
    registry.handle_skip(&id, NOW);
    let (_, outcome) = registry.current_clue(&id, NOW).unwrap();
    let next = match outcome {
        Either::Left(view) => view,
        Either::Right(_) => panic!("thirteen clues are still unread"),
    };
    assert_ne!(next.clue, hinted.clue);
    assert!(!next.is_previously_skipped);
}
