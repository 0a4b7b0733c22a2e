use treasure_hunt::clues::status::{KnowledgeKind, Status};

#[test]
fn test_scoring() {
    let durations: [u64; 9] = [
        0,
        60 * 1000,
        5 * 60 * 1000,
        10 * 60 * 1000,
        15 * 60 * 1000,
        20 * 60 * 1000,
        30 * 60 * 1000,
        45 * 60 * 1000,
        77 * 60 * 1000,
    ];
    let bonus_scores = [100, 93, 71, 50, 35, 25, 13, 4, 0];

    for (duration, bonus) in durations.into_iter().zip(bonus_scores) {
        assert_eq!(
            Status::Solved {
                kind: KnowledgeKind::Unaided,
                duration
            }
            .score(),
            300 + bonus
        );
        assert_eq!(
            Status::Solved {
                kind: KnowledgeKind::WithHint,
                duration
            }
            .score(),
            200 + bonus
        );
        assert_eq!(
            Status::Solved {
                kind: KnowledgeKind::KnowingItem,
                duration
            }
            .score(),
            100 + bonus
        );
        assert_eq!(Status::Declined.score(), 0);
    }
}

#[test]
fn test_unaided_score_near_threshold() {
    // The last millisecond that still earns a bonus point, and the
    // first that does not.
    let just_within = Status::Solved {
        kind: KnowledgeKind::Unaided,
        duration: 4586313,
    };
    assert_eq!(just_within.score(), 301);
    let just_past = Status::Solved {
        kind: KnowledgeKind::Unaided,
        duration: 4586314,
    };
    assert_eq!(just_past.score(), 300);
    let far_past = Status::Solved {
        kind: KnowledgeKind::Unaided,
        duration: u64::MAX,
    };
    assert_eq!(far_past.score(), 300);
}

#[test]
fn test_unsolved_statuses_score_nothing() {
    assert_eq!(Status::Unread.score(), 0);
    assert_eq!(
        Status::Seen {
            kind: KnowledgeKind::Unaided,
            time: 17
        }
        .score(),
        0
    );
    assert_eq!(
        Status::Skipped {
            kind: KnowledgeKind::WithHint,
            time: 17
        }
        .score(),
        0
    );
}
