use treasure_hunt::clues::status::{KnowledgeKind, Status};
use treasure_hunt::clues::Clues;
use treasure_hunt::randomness::thread_rng;
use treasure_hunt::clues::Clue;
use treasure_hunt::session::{Session, SessionId};

// A fixed monotonic timestamp: every operation happens "at once", so
// all durations are zero and every solve earns the full time bonus.
const NOW: u64 = 1_000;

#[test]
fn session_test_session() {
    let mut rng = thread_rng();
    let answers: Vec<String> = (0..14).map(|x| x.to_string()).collect();
    let clues = Clues::mock();
    let mut session = Session::new(clues.clone(), &mut rng);

    // `current_clue` is idempotent
    let clue = session.current_clue(NOW).map(|v| (v.clue, v.knowledge));
    assert_eq!(clue, session.current_clue(NOW).map(|v| (v.clue, v.knowledge)));

    // We can solve the current clue
    let points = session.try_solve(&answers[0], NOW).unwrap();
    assert!(points > 300, "We solved unaided");

    // We get a penalty for submitting an answer to a different clue
    let clue = session.current_clue(NOW).map(|v| (v.clue, v.knowledge));
    let points = session.try_solve(&answers[7], NOW).unwrap();
    assert_eq!(points, -100, "Wrong submit penalty");

    // We are still on the same clue since we did not solve or skip
    assert_eq!(clue, session.current_clue(NOW).map(|v| (v.clue, v.knowledge)));

    // Submitting a completely wrong answer does not change the state
    assert!(session.try_solve("Hello, world!", NOW).is_none());
    assert_eq!(clue, session.current_clue(NOW).map(|v| (v.clue, v.knowledge)));

    // We can ask for a hint
    assert_eq!(session.hint_current_clue(NOW), Some(clues.0[1].hint.clone()));

    // Solving after the hint is worth less points
    let points = session.try_solve(&answers[1], NOW).unwrap();
    assert!(points > 200, "We solved with hint");

    // We can reveal the item
    session.current_clue(NOW);
    assert_eq!(session.reveal_current_item(NOW), Some(clues.0[2].item.clone()));

    // Solving with item revealed is worth less points
    let points = session.try_solve(&answers[2], NOW).unwrap();
    assert!(points > 100, "We solved knowing the item");

    // We can skip a clue
    session.current_clue(NOW);
    session.skip_current_clue(NOW);

    // And solve the next one
    session.current_clue(NOW);
    let points = session.try_solve(&answers[4], NOW).unwrap();
    assert!(points > 300, "We solved unaided");

    // We can skip more clues
    for _ in 0..3 {
        session.current_clue(NOW);
        session.skip_current_clue(NOW);
    }

    // And solve the rest
    for a in &answers[8..] {
        session.current_clue(NOW);
        let points = session.try_solve(a, NOW).unwrap();
        assert!(points > 300, "We solved unaided");
    }

    // Now we are back to clues we skipped
    let clue = session.current_clue(NOW).map(|v| (v.clue, v.knowledge));
    assert_eq!(
        clue,
        Some((clues.0[3].clone(), KnowledgeKind::Unaided))
    );

    // If we skip a clue a second time then it is declined
    session.skip_current_clue(NOW);
    assert_eq!(session.clue_statuses()[3], Status::Declined);

    // We can still ask for hints on skipped clues
    session.current_clue(NOW);
    assert_eq!(session.hint_current_clue(NOW), Some(clues.0[5].hint.clone()));
    let points = session.try_solve(&answers[5], NOW).unwrap();
    assert!(points > 200, "We solved with hint");

    session.current_clue(NOW);
    assert_eq!(session.reveal_current_item(NOW), Some(clues.0[6].item.clone()));
    let points = session.try_solve(&answers[6], NOW).unwrap();
    assert!(points > 100, "We solved knowing the item");

    session.current_clue(NOW);
    session.skip_current_clue(NOW);

    assert!(
        session.current_clue(NOW).is_none(),
        "After all clues are solved or declined then there is no current clue"
    );

    // + 10 Fully solved (with full bonus): the two reveal requests
    //   came before any hint, so they changed nothing and those clues
    //   still counted as unaided
    // + 2 Solved with hint (and full bonus)
    // - 1 penalty for future guess
    assert_eq!(session.total_score(), 10 * 400 + 2 * 300 - 100);
}

#[test]
fn mod_test_session() {
    let mut rng = thread_rng();
    let answers: Vec<String> = (0..14).map(|x| x.to_string()).collect();
    let clues = Clues::mock();
    let mut session = Session::new(clues.clone(), &mut rng);

    // `current_clue` is idempotent (except for the duration)
    let clue1 = session.current_clue(NOW).unwrap();
    let clue2 = session.current_clue(NOW).unwrap();
    assert_eq!(clue1.clue, clue2.clue);
    assert_eq!(clue1.knowledge, clue2.knowledge);
    assert_eq!(clue1.is_previously_skipped, clue2.is_previously_skipped);

    // We can solve the current clue
    let points = session.try_solve(&answers[0], NOW).unwrap();
    assert!(points > 300, "We solved unaided");

    // We get a penalty for submitting an answer to a different clue
    let clue = session.current_clue(NOW);
    let points = session.try_solve(&answers[7], NOW).unwrap();
    assert_eq!(points, -100, "Wrong submit penalty");

    // We are still on the same clue since we did not solve or skip
    assert_eq!(
        clue.as_ref().unwrap().clue,
        session.current_clue(NOW).as_ref().unwrap().clue
    );

    // Submitting a completely wrong answer does not change the state
    assert!(session.try_solve("Hello, world!", NOW).is_none());
    assert_eq!(
        clue.as_ref().unwrap().clue,
        session.current_clue(NOW).as_ref().unwrap().clue
    );

    // We can ask for a hint
    assert_eq!(session.hint_current_clue(NOW), Some(clues.0[1].hint.clone()));

    // Solving after the hint is worth less points
    let points = session.try_solve(&answers[1], NOW).unwrap();
    assert!(points > 200, "We solved with hint");

    // We can reveal the item
    session.current_clue(NOW);
    assert_eq!(session.reveal_current_item(NOW), Some(clues.0[2].item.clone()));

    // Solving with item revealed is worth less points
    let points = session.try_solve(&answers[2], NOW).unwrap();
    assert!(points > 100, "We solved knowing the item");

    // We can skip a clue
    session.current_clue(NOW);
    session.skip_current_clue(NOW);

    // And solve the next one
    session.current_clue(NOW);
    let points = session.try_solve(&answers[4], NOW).unwrap();
    assert!(points > 300, "We solved unaided");

    // We can skip more clues
    for _ in 0..3 {
        session.current_clue(NOW);
        session.skip_current_clue(NOW);
    }

    // And solve the rest
    for a in &answers[8..] {
        session.current_clue(NOW);
        let points = session.try_solve(a, NOW).unwrap();
        assert!(points > 300, "We solved unaided");
    }

    // Now we are back to clues we skipped
    let clue_view = session.current_clue(NOW).unwrap();
    assert_eq!(clue_view.clue, clues.0[3]);
    assert_eq!(clue_view.knowledge, KnowledgeKind::Unaided);
    assert!(clue_view.is_previously_skipped);

    // If we skip a clue a second time then it is declined
    session.skip_current_clue(NOW);
    assert_eq!(session.clue_statuses()[3], Status::Declined);

    // We can still ask for hints on skipped clues
    session.current_clue(NOW);
    assert_eq!(session.hint_current_clue(NOW), Some(clues.0[5].hint.clone()));
    let points = session.try_solve(&answers[5], NOW).unwrap();
    assert!(points > 200, "We solved with hint");

    session.current_clue(NOW);
    assert_eq!(session.reveal_current_item(NOW), Some(clues.0[6].item.clone()));
    let points = session.try_solve(&answers[6], NOW).unwrap();
    assert!(points > 100, "We solved knowing the item");

    session.current_clue(NOW);
    session.skip_current_clue(NOW);

    assert!(
        session.current_clue(NOW).is_none(),
        "After all clues are solved or declined then there is no current clue"
    );

    // + 10 Fully solved (with full bonus): the two reveal requests
    //   came before any hint, so they changed nothing and those clues
    //   still counted as unaided
    // + 2 Solved with hint (and full bonus)
    // - 1 penalty for future guess
    assert_eq!(session.total_score(), 10 * 400 + 2 * 300 - 100);
}

#[test]
fn test_hint_and_reveal_are_noops_out_of_order() {
    let mut rng = thread_rng();
    let clues = Clues::mock();
    let mut session = Session::new(clues.clone(), &mut rng);

    // Revealing before any hint changes nothing: knowledge stays
    // Unaided, though the item text is still returned.
    assert_eq!(session.reveal_current_item(NOW), Some(clues.0[0].item.clone()));
    let view = session.current_clue(NOW).unwrap();
    assert_eq!(view.knowledge, KnowledgeKind::Unaided);

    // A hint advances once; a second hint changes nothing more.
    session.hint_current_clue(NOW);
    session.hint_current_clue(NOW);
    let view = session.current_clue(NOW).unwrap();
    assert_eq!(view.knowledge, KnowledgeKind::WithHint);

    // A reveal advances once; repeating it changes nothing more.
    session.reveal_current_item(NOW);
    session.reveal_current_item(NOW);
    session.hint_current_clue(NOW);
    let view = session.current_clue(NOW).unwrap();
    assert_eq!(view.knowledge, KnowledgeKind::KnowingItem);
}

#[test]
fn test_skip_keeps_knowledge_and_timestamp() {
    let mut rng = thread_rng();
    let clues = Clues::mock();
    let mut session = Session::new(clues.clone(), &mut rng);

    let seen_at: u64 = 500;
    session.current_clue(seen_at);
    session.hint_current_clue(seen_at);
    session.skip_current_clue(seen_at + 10);

    assert_eq!(
        session.clue_statuses()[0],
        Status::Skipped {
            kind: KnowledgeKind::WithHint,
            time: seen_at
        }
    );
}

#[test]
fn test_duration_reflects_elapsed_time() {
    let mut rng = thread_rng();
    let clues = Clues::mock();
    let mut session = Session::new(clues.clone(), &mut rng);

    session.current_clue(2_000);
    assert_eq!(session.current_clue_duration(2_750), Some(750));
    // a slow solve earns a smaller bonus: 11 minutes in, the bonus is
    // round(100 * 2^-1.1) = 47
    let answers: Vec<String> = (0..14).map(|x| x.to_string()).collect();
    let points = session.try_solve(&answers[0], 2_000 + 11 * 60 * 1000).unwrap();
    assert_eq!(points, 347);
}

#[test]
fn test_session_parts_round_trip() {
    let mut rng = thread_rng();
    let clues = Clues::mock();
    let mut session = Session::new(clues, &mut rng);

    // make some progress: solve one clue, hint and skip another
    let answers: Vec<String> = (0..14).map(|x| x.to_string()).collect();
    session.try_solve(&answers[0], NOW).unwrap();
    session.hint_current_clue(NOW);
    session.skip_current_clue(NOW);

    let rebuilt = Session::from_parts(
        session.session_id().duplicate(),
        session.entries(),
        session.negative_points(),
    )
    .unwrap();
    assert_eq!(rebuilt.clue_statuses(), session.clue_statuses());
    assert_eq!(rebuilt.total_score(), session.total_score());
    assert_eq!(rebuilt.session_id().bytes(), session.session_id().bytes());
}

#[test]
fn test_from_parts_rejects_seen_after_unread() {
    // A clue read past an unread one is no state the library produces.
    let id = SessionId::new("ABCD").unwrap();
    let parts = vec![
        (Clue::mock(0, "A"), Status::Unread),
        (
            Clue::mock(1, "B"),
            Status::Seen {
                kind: KnowledgeKind::Unaided,
                time: 3,
            },
        ),
    ];
    assert!(Session::from_parts(id, parts, 0).is_none());
}
