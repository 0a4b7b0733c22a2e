use vstd::prelude::*;

pub mod id;

pub use id::{GenericSessionId, SessionId};

use vstd::pervasive::VecAdditionalExecFns;

use crate::clues::status::{
    spec_elapsed, CurrentClueStatus, KnowledgeKind, Status,
};
use crate::clues::{answer_to_code, bytes_equal, digest_of, Clue, ClueVal, ClueView, Clues};

verus! {

/// The mathematical value of a session: the identifier, the ordered
/// clue list with each clue's status, and the penalty pool.
pub ghost struct SessionVal {
    pub id: Seq<u8>,
    pub entries: Seq<(ClueVal, Status)>,
    pub negative_points: i32,
}

/// The first index whose status is `Seen`, if any.
pub open spec fn first_seen(entries: Seq<(ClueVal, Status)>) -> Option<int>
    decreases entries.len(),
{
    if entries.len() == 0 {
        None
    } else if entries[0].1 is Seen {
        Some(0int)
    } else {
        match first_seen(entries.drop_first()) {
            Some(i) => Some(i + 1),
            None => None,
        }
    }
}

/// The first index whose status is `Unread`, if any.
pub open spec fn first_unread(entries: Seq<(ClueVal, Status)>) -> Option<int>
    decreases entries.len(),
{
    if entries.len() == 0 {
        None
    } else if entries[0].1 is Unread {
        Some(0int)
    } else {
        match first_unread(entries.drop_first()) {
            Some(i) => Some(i + 1),
            None => None,
        }
    }
}

/// The first index whose status is `Skipped`, if any.
pub open spec fn first_skipped(entries: Seq<(ClueVal, Status)>) -> Option<int>
    decreases entries.len(),
{
    if entries.len() == 0 {
        None
    } else if entries[0].1 is Skipped {
        Some(0int)
    } else {
        match first_skipped(entries.drop_first()) {
            Some(i) => Some(i + 1),
            None => None,
        }
    }
}

pub proof fn lemma_first_seen(entries: Seq<(ClueVal, Status)>)
    ensures
        match first_seen(entries) {
            Some(i) => 0 <= i < entries.len() && entries[i].1 is Seen && (forall|j: int|
                0 <= j < i ==> !(entries[j].1 is Seen)),
            None => forall|j: int| 0 <= j < entries.len() ==> !(entries[j].1 is Seen),
        },
    decreases entries.len(),
{
    if entries.len() > 0 && !(entries[0].1 is Seen) {
        let rest = entries.drop_first();
        lemma_first_seen(rest);
        match first_seen(rest) {
            Option::Some(i) => {
                assert(entries[i + 1] == rest[i]);
                assert forall|j: int| 0 <= j < i + 1 implies !(entries[j].1 is Seen) by {
                    if j > 0 {
                        assert(rest[j - 1] == entries[j]);
                    }
                }
            },
            Option::None => {
                assert forall|j: int| 0 <= j < entries.len() implies !(entries[j].1 is Seen) by {
                    if j > 0 {
                        assert(rest[j - 1] == entries[j]);
                    }
                }
            },
        }
    }
}

pub proof fn lemma_first_unread(entries: Seq<(ClueVal, Status)>)
    ensures
        match first_unread(entries) {
            Some(i) => 0 <= i < entries.len() && entries[i].1 is Unread && (forall|j: int|
                0 <= j < i ==> !(entries[j].1 is Unread)),
            None => forall|j: int| 0 <= j < entries.len() ==> !(entries[j].1 is Unread),
        },
    decreases entries.len(),
{
    if entries.len() > 0 && !(entries[0].1 is Unread) {
        let rest = entries.drop_first();
        lemma_first_unread(rest);
        match first_unread(rest) {
            Option::Some(i) => {
                assert(entries[i + 1] == rest[i]);
                assert forall|j: int| 0 <= j < i + 1 implies !(entries[j].1 is Unread) by {
                    if j > 0 {
                        assert(rest[j - 1] == entries[j]);
                    }
                }
            },
            Option::None => {
                assert forall|j: int| 0 <= j < entries.len() implies !(entries[j].1 is Unread) by {
                    if j > 0 {
                        assert(rest[j - 1] == entries[j]);
                    }
                }
            },
        }
    }
}

pub proof fn lemma_first_skipped(entries: Seq<(ClueVal, Status)>)
    ensures
        match first_skipped(entries) {
            Some(i) => 0 <= i < entries.len() && entries[i].1 is Skipped && (forall|j: int|
                0 <= j < i ==> !(entries[j].1 is Skipped)),
            None => forall|j: int| 0 <= j < entries.len() ==> !(entries[j].1 is Skipped),
        },
    decreases entries.len(),
{
    if entries.len() > 0 && !(entries[0].1 is Skipped) {
        let rest = entries.drop_first();
        lemma_first_skipped(rest);
        match first_skipped(rest) {
            Option::Some(i) => {
                assert(entries[i + 1] == rest[i]);
                assert forall|j: int| 0 <= j < i + 1 implies !(entries[j].1 is Skipped) by {
                    if j > 0 {
                        assert(rest[j - 1] == entries[j]);
                    }
                }
            },
            Option::None => {
                assert forall|j: int| 0 <= j < entries.len() implies !(entries[j].1 is Skipped) by {
                    if j > 0 {
                        assert(rest[j - 1] == entries[j]);
                    }
                }
            },
        }
    }
}

/// Which clue is current: a clue already `Seen`, else the next `Unread`
/// clue, else the first clue that was `Skipped`. When none of those
/// remain every clue is `Solved` or `Declined` and the session is
/// complete.
pub open spec fn spec_current_index(entries: Seq<(ClueVal, Status)>) -> Option<int> {
    match first_seen(entries) {
        Some(i) => Some(i),
        None => match first_unread(entries) {
            Some(i) => Some(i),
            None => first_skipped(entries),
        },
    }
}

/// The one state change that resolving the current clue may make:
/// when no clue is `Seen` and an `Unread` clue becomes current, it is
/// marked `Seen` unaided as of `now`. In every other case resolution
/// leaves the list alone.
pub open spec fn spec_resolve(entries: Seq<(ClueVal, Status)>, now: u64) -> Seq<(ClueVal, Status)> {
    if first_seen(entries) is None && first_unread(entries) is Some {
        let i = first_unread(entries)->Some_0;
        entries.update(i, (entries[i].0, Status::Seen { kind: KnowledgeKind::Unaided, time: now }))
    } else {
        entries
    }
}

/// The knowledge recorded in a `Seen` or `Skipped` status.
pub open spec fn spec_knowledge_of(s: Status) -> KnowledgeKind {
    match s {
        Status::Seen { kind, .. } => kind,
        Status::Skipped { kind, .. } => kind,
        Status::Solved { kind, .. } => kind,
        _ => KnowledgeKind::Unaided,
    }
}

/// The timestamp recorded in a `Seen` or `Skipped` status.
pub open spec fn spec_time_of(s: Status) -> u64 {
    match s {
        Status::Seen { time, .. } => time,
        Status::Skipped { time, .. } => time,
        _ => 0,
    }
}

/// What asking for a hint does to a current status: an unaided clue
/// advances to `WithHint`, keeping its variant and timestamp; anything
/// else stays as it is.
pub open spec fn spec_hinted(s: Status) -> Status {
    match s {
        Status::Seen { kind: KnowledgeKind::Unaided, time } => Status::Seen {
            kind: KnowledgeKind::WithHint,
            time,
        },
        Status::Skipped { kind: KnowledgeKind::Unaided, time } => Status::Skipped {
            kind: KnowledgeKind::WithHint,
            time,
        },
        _ => s,
    }
}

/// What revealing the item does to a current status: a hinted clue
/// advances to `KnowingItem`, keeping its variant and timestamp;
/// anything else stays as it is.
pub open spec fn spec_revealed(s: Status) -> Status {
    match s {
        Status::Seen { kind: KnowledgeKind::WithHint, time } => Status::Seen {
            kind: KnowledgeKind::KnowingItem,
            time,
        },
        Status::Skipped { kind: KnowledgeKind::WithHint, time } => Status::Skipped {
            kind: KnowledgeKind::KnowingItem,
            time,
        },
        _ => s,
    }
}

/// What solving does to a current (`Seen` or `Skipped`) status.
pub open spec fn spec_solved(s: Status, now: u64) -> Status {
    Status::Solved { kind: spec_knowledge_of(s), duration: spec_elapsed(spec_time_of(s), now) }
}

/// What skipping does to a current status: a `Seen` clue is shelved
/// with its knowledge and timestamp kept; a `Skipped` clue, skipped
/// again on its revisit, is forfeited for good.
pub open spec fn spec_skip(s: Status) -> Status {
    match s {
        Status::Seen { kind, time } => Status::Skipped { kind, time },
        Status::Skipped { .. } => Status::Declined,
        _ => s,
    }
}

/// Subtraction on the score scale, saturating at the `i32` bounds.
pub open spec fn spec_saturating_sub_i32(a: int, b: int) -> int {
    if a - b > i32::MAX {
        i32::MAX as int
    } else if a - b < i32::MIN {
        i32::MIN as int
    } else {
        a - b
    }
}

/// Addition on the score scale, saturating at the `i32` bounds.
pub open spec fn spec_saturating_add_i32(a: int, b: int) -> int {
    if a + b > i32::MAX {
        i32::MAX as int
    } else if a + b < i32::MIN {
        i32::MIN as int
    } else {
        a + b
    }
}

/// The team's total: the penalty pool plus every solved clue's score,
/// folded left to right, each addition saturating.
pub open spec fn spec_total_score(entries: Seq<(ClueVal, Status)>, acc: int) -> int
    decreases entries.len(),
{
    if entries.len() == 0 {
        acc
    } else {
        spec_total_score(
            entries.drop_first(),
            spec_saturating_add_i32(acc, entries[0].1.spec_score()),
        )
    }
}

/// A clue that has been `Seen` always stands before every clue still
/// `Unread`: clues are read in order, so the scan that resolves the
/// current clue meets the `Seen` clue first.
pub open spec fn seen_before_unread(entries: Seq<(ClueVal, Status)>) -> bool {
    forall|i: int, j: int|
        0 <= i < entries.len() && 0 <= j < entries.len() && entries[i].1 is Seen && entries[j].1
            is Unread ==> i < j
}


/// The entry list after resolving and hinting the current clue.
pub open spec fn spec_entries_after_hint(
    entries: Seq<(ClueVal, Status)>,
    now: u64,
) -> Seq<(ClueVal, Status)> {
    let resolved = spec_resolve(entries, now);
    match spec_current_index(entries) {
        Some(i) => resolved.update(i, (resolved[i].0, spec_hinted(resolved[i].1))),
        None => resolved,
    }
}

/// The entry list after resolving and revealing the current clue.
pub open spec fn spec_entries_after_reveal(
    entries: Seq<(ClueVal, Status)>,
    now: u64,
) -> Seq<(ClueVal, Status)> {
    let resolved = spec_resolve(entries, now);
    match spec_current_index(entries) {
        Some(i) => resolved.update(i, (resolved[i].0, spec_revealed(resolved[i].1))),
        None => resolved,
    }
}

/// The entry list after resolving and skipping the current clue.
pub open spec fn spec_entries_after_skip(
    entries: Seq<(ClueVal, Status)>,
    now: u64,
) -> Seq<(ClueVal, Status)> {
    let resolved = spec_resolve(entries, now);
    match spec_current_index(entries) {
        Some(i) => resolved.update(i, (resolved[i].0, spec_skip(resolved[i].1))),
        None => resolved,
    }
}

/// The entry list after submitting an answer whose digest is `code`:
/// only a digest match with the current clue changes a status.
pub open spec fn spec_entries_after_solve(
    entries: Seq<(ClueVal, Status)>,
    code: Seq<u8>,
    now: u64,
) -> Seq<(ClueVal, Status)> {
    let resolved = spec_resolve(entries, now);
    match spec_current_index(entries) {
        Some(i) => if resolved[i].0.code == code {
            resolved.update(i, (resolved[i].0, spec_solved(resolved[i].1, now)))
        } else {
            resolved
        },
        None => resolved,
    }
}

/// The points returned for submitting an answer whose digest is
/// `code`: the solved clue's score on a match with the current clue,
/// exactly -100 when the digest belongs to some other clue of the
/// list, and no match otherwise.
pub open spec fn spec_solve_points(
    entries: Seq<(ClueVal, Status)>,
    code: Seq<u8>,
    now: u64,
) -> Option<int> {
    let resolved = spec_resolve(entries, now);
    match spec_current_index(entries) {
        Some(i) => if resolved[i].0.code == code {
            Some(spec_solved(resolved[i].1, now).spec_score())
        } else if exists|j: int| 0 <= j < resolved.len() && (#[trigger] resolved[j]).0.code == code {
            Some(-100int)
        } else {
            None
        },
        None => None,
    }
}

/// The penalty pool after submitting an answer whose digest is `code`:
/// it drops by 100, saturating, exactly when the digest belongs to a
/// clue other than the current one.
pub open spec fn spec_solve_negative(
    entries: Seq<(ClueVal, Status)>,
    negative_points: int,
    code: Seq<u8>,
    now: u64,
) -> int {
    let resolved = spec_resolve(entries, now);
    match spec_current_index(entries) {
        Some(i) => if resolved[i].0.code != code && (exists|j: int|
            0 <= j < resolved.len() && (#[trigger] resolved[j]).0.code == code) {
            spec_saturating_sub_i32(negative_points, 100)
        } else {
            negative_points
        },
        None => negative_points,
    }
}


/// Only a clue still in play can be current: the current index never
/// points at a `Solved` or `Declined` clue, so a forfeited or finished
/// clue is never touched again by any operation.
pub proof fn lemma_current_not_terminal(entries: Seq<(ClueVal, Status)>)
    ensures
        match spec_current_index(entries) {
            Some(i) => {
                &&& 0 <= i < entries.len()
                &&& (entries[i].1 is Seen || entries[i].1 is Unread || entries[i].1 is Skipped)
            },
            None => true,
        },
{
    lemma_first_seen(entries);
    lemma_first_unread(entries);
    lemma_first_skipped(entries);
}

/// Hinting and revealing are no-ops outside their own knowledge
/// state: a hint only helps an unaided clue, a reveal only a hinted
/// one; in every other state the operation resolves the current clue
/// and changes nothing else. Repeating either operation is therefore
/// idempotent, as is running them out of order.
pub proof fn lemma_hint_reveal_noop(entries: Seq<(ClueVal, Status)>, now: u64)
    ensures
        match spec_current_index(entries) {
            Some(i) => {
                &&& (spec_knowledge_of(spec_resolve(entries, now)[i].1) != KnowledgeKind::Unaided
                    ==> spec_entries_after_hint(entries, now) == spec_resolve(entries, now))
                &&& (spec_knowledge_of(spec_resolve(entries, now)[i].1) != KnowledgeKind::WithHint
                    ==> spec_entries_after_reveal(entries, now) == spec_resolve(entries, now))
            },
            None => {
                &&& spec_entries_after_hint(entries, now) == spec_resolve(entries, now)
                &&& spec_entries_after_reveal(entries, now) == spec_resolve(entries, now)
            },
        },
{
    lemma_first_seen(entries);
    lemma_first_unread(entries);
    lemma_first_skipped(entries);
    match spec_current_index(entries) {
        Option::Some(i) => {
            let resolved = spec_resolve(entries, now);
            assert(0 <= i < resolved.len());
            if spec_knowledge_of(resolved[i].1) != KnowledgeKind::Unaided {
                assert(spec_hinted(resolved[i].1) == resolved[i].1);
                assert(resolved.update(i, (resolved[i].0, resolved[i].1)) =~= resolved);
            }
            if spec_knowledge_of(resolved[i].1) != KnowledgeKind::WithHint {
                assert(spec_revealed(resolved[i].1) == resolved[i].1);
                assert(resolved.update(i, (resolved[i].0, resolved[i].1)) =~= resolved);
            }
        },
        Option::None => {},
    }
}

/// Once every clue is `Solved` or `Declined` the session is complete:
/// there is no current clue, resolution changes nothing, and repeated
/// calls keep saying so.
pub proof fn lemma_complete_session(entries: Seq<(ClueVal, Status)>, now: u64)
    requires
        forall|i: int|
            0 <= i < entries.len() ==> ((#[trigger] entries[i]).1 is Solved || entries[i].1
                is Declined),
    ensures
        spec_current_index(entries) is None,
        spec_resolve(entries, now) == entries,
        spec_current_index(spec_resolve(entries, now)) is None,
{
    lemma_first_seen(entries);
    lemma_first_unread(entries);
    lemma_first_skipped(entries);
    match first_seen(entries) {
        Option::Some(i) => {
            assert(false);
        },
        Option::None => {},
    }
    match first_unread(entries) {
        Option::Some(i) => {
            assert(false);
        },
        Option::None => {},
    }
    match first_skipped(entries) {
        Option::Some(i) => {
            assert(false);
        },
        Option::None => {},
    }
}


/// Replacing one entry by one of the same status class (read, unread,
/// skipped, or neither) moves none of the scan's first-hit indices.
pub proof fn lemma_first_indices_class_preserved(
    entries: Seq<(ClueVal, Status)>,
    i: int,
    entry2: (ClueVal, Status),
)
    requires
        0 <= i < entries.len(),
        (entries[i].1 is Seen) == (entry2.1 is Seen),
        (entries[i].1 is Unread) == (entry2.1 is Unread),
        (entries[i].1 is Skipped) == (entry2.1 is Skipped),
    ensures
        first_seen(entries.update(i, entry2)) == first_seen(entries),
        first_unread(entries.update(i, entry2)) == first_unread(entries),
        first_skipped(entries.update(i, entry2)) == first_skipped(entries),
        spec_current_index(entries.update(i, entry2)) == spec_current_index(entries),
{
    let e2 = entries.update(i, entry2);
    assert(forall|j: int|
        0 <= j < entries.len() ==> ((#[trigger] e2[j]).1 is Seen) == (entries[j].1 is Seen) && (
        e2[j].1 is Unread) == (entries[j].1 is Unread) && (e2[j].1 is Skipped) == (entries[j].1
            is Skipped));
    lemma_first_seen(entries);
    lemma_first_seen(e2);
    match (first_seen(entries), first_seen(e2)) {
        (Option::Some(a), Option::Some(b)) => {
            if a < b {
                assert(e2[a].1 is Seen);
                assert(false);
            }
            if b < a {
                assert(entries[b].1 is Seen);
                assert(false);
            }
        },
        (Option::Some(a), Option::None) => {
            assert(e2[a].1 is Seen);
            assert(false);
        },
        (Option::None, Option::Some(b)) => {
            assert(entries[b].1 is Seen);
            assert(false);
        },
        (Option::None, Option::None) => {},
    }
    lemma_first_unread(entries);
    lemma_first_unread(e2);
    match (first_unread(entries), first_unread(e2)) {
        (Option::Some(a), Option::Some(b)) => {
            if a < b {
                assert(e2[a].1 is Unread);
                assert(false);
            }
            if b < a {
                assert(entries[b].1 is Unread);
                assert(false);
            }
        },
        (Option::Some(a), Option::None) => {
            assert(e2[a].1 is Unread);
            assert(false);
        },
        (Option::None, Option::Some(b)) => {
            assert(entries[b].1 is Unread);
            assert(false);
        },
        (Option::None, Option::None) => {},
    }
    lemma_first_skipped(entries);
    lemma_first_skipped(e2);
    match (first_skipped(entries), first_skipped(e2)) {
        (Option::Some(a), Option::Some(b)) => {
            if a < b {
                assert(e2[a].1 is Skipped);
                assert(false);
            }
            if b < a {
                assert(entries[b].1 is Skipped);
                assert(false);
            }
        },
        (Option::Some(a), Option::None) => {
            assert(e2[a].1 is Skipped);
            assert(false);
        },
        (Option::None, Option::Some(b)) => {
            assert(entries[b].1 is Skipped);
            assert(false);
        },
        (Option::None, Option::None) => {},
    }
}

/// Hinting or revealing twice is the same as doing it once, whatever
/// timestamps the two calls carry: the first call leaves the current
/// clue in a state where the second can change nothing.
pub proof fn lemma_hint_reveal_idempotent(entries: Seq<(ClueVal, Status)>, now1: u64, now2: u64)
    ensures
        spec_entries_after_hint(spec_entries_after_hint(entries, now1), now2)
            == spec_entries_after_hint(entries, now1),
        spec_entries_after_reveal(spec_entries_after_reveal(entries, now1), now2)
            == spec_entries_after_reveal(entries, now1),
{
    lemma_first_seen(entries);
    lemma_first_unread(entries);
    lemma_first_skipped(entries);
    match spec_current_index(entries) {
        Option::None => {
            assert(spec_resolve(entries, now1) == entries);
            assert(spec_entries_after_hint(entries, now1) == entries);
            assert(spec_entries_after_reveal(entries, now1) == entries);
        },
        Option::Some(i) => {
            let r1 = spec_resolve(entries, now1);
            assert(0 <= i < r1.len() && (r1[i].1 is Seen || r1[i].1 is Skipped)) by {
                if first_seen(entries) is Some || first_unread(entries) is None {
                    assert(r1 == entries);
                } else {
                    lemma_first_seen(r1);
                }
            }
            // After the first hint the current index is unchanged and
            // a second hint has nothing left to do.
            let s1 = spec_hinted(r1[i].1);
            let e1 = r1.update(i, (r1[i].0, s1));
            assert(spec_entries_after_hint(entries, now1) == e1);
            assert(spec_current_index(r1) == Some(i)) by {
                lemma_current_of_resolved(entries, now1);
            }
            lemma_first_indices_class_preserved(r1, i, (r1[i].0, s1));
            assert(spec_current_index(e1) == Some(i));
            assert(first_seen(e1) is Some || first_unread(e1) is None) by {
                lemma_first_seen(e1);
                lemma_first_unread(e1);
                lemma_first_seen(r1);
                lemma_first_unread(r1);
            }
            assert(spec_resolve(e1, now2) == e1);
            assert(spec_hinted(e1[i].1) == e1[i].1);
            assert(spec_entries_after_hint(e1, now2) =~= e1);
            // The same argument, with the reveal transition.
            let s2 = spec_revealed(r1[i].1);
            let e2 = r1.update(i, (r1[i].0, s2));
            assert(spec_entries_after_reveal(entries, now1) == e2);
            lemma_first_indices_class_preserved(r1, i, (r1[i].0, s2));
            assert(spec_current_index(e2) == Some(i));
            assert(first_seen(e2) is Some || first_unread(e2) is None) by {
                lemma_first_seen(e2);
                lemma_first_unread(e2);
                lemma_first_seen(r1);
                lemma_first_unread(r1);
            }
            assert(spec_resolve(e2, now2) == e2);
            assert(spec_revealed(e2[i].1) == e2[i].1);
            assert(spec_entries_after_reveal(e2, now2) =~= e2);
        },
    }
}

/// Resolving settles the current clue: afterwards the same index is
/// current, and it holds a `Seen` or `Skipped` status.
pub proof fn lemma_current_of_resolved(entries: Seq<(ClueVal, Status)>, now: u64)
    ensures
        spec_current_index(spec_resolve(entries, now)) == spec_current_index(entries),
        match spec_current_index(entries) {
            Option::Some(i) => {
                &&& 0 <= i < spec_resolve(entries, now).len()
                &&& (spec_resolve(entries, now)[i].1 is Seen || spec_resolve(entries, now)[i].1
                    is Skipped)
            },
            Option::None => true,
        },
{
    lemma_first_seen(entries);
    lemma_first_unread(entries);
    lemma_first_skipped(entries);
    if first_seen(entries) is None && first_unread(entries) is Some {
        let i = first_unread(entries)->Some_0;
        let r = spec_resolve(entries, now);
        assert(r == entries.update(
            i,
            (entries[i].0, Status::Seen { kind: KnowledgeKind::Unaided, time: now }),
        ));
        lemma_first_seen(r);
        match first_seen(r) {
            Option::Some(b) => {
                // the freshly seen clue is the only seen one, and it
                // is the scan's first hit
                assert(!(b < i) && !(b > i));
            },
            Option::None => {
                assert(r[i].1 is Seen);
                assert(false);
            },
        }
        assert(first_seen(r) == Some(i));
        assert(spec_current_index(r) == Some(i));
    } else {
        assert(spec_resolve(entries, now) == entries);
        match spec_current_index(entries) {
            Option::Some(i) => {
                lemma_current_not_terminal(entries);
                if entries[i].1 is Unread {
                    assert(first_seen(entries) is None || first_seen(entries)->Some_0 != i);
                    assert(false);
                }
            },
            Option::None => {},
        }
    }
}


/// A forfeited clue is worth nothing, forever: `Declined` scores zero,
/// hinting and revealing lead nowhere out of it, and, the current clue
/// always being `Seen`, `Unread` or `Skipped`, no operation ever
/// touches a `Declined` entry again.
pub proof fn lemma_declined_forever(s: Status)
    requires
        s is Declined,
    ensures
        s.spec_score() == 0,
        spec_hinted(s) == s,
        spec_revealed(s) == s,
        spec_skip(s) == s,
{
}

/// A well-formed session value: the reading-order rule holds of its
/// entries and its identifier is four ASCII bytes.
pub open spec fn session_val_wf(v: SessionVal) -> bool {
    &&& seen_before_unread(v.entries)
    &&& id::spec_id_wf(v.id, 4)
}

/// One team's progress through its assigned clue order.
pub struct Session {
    pub id: SessionId,
    clues: Vec<(Clue, Status)>,
    negative_points: i32,
}

impl View for Session {
    type V = SessionVal;

    closed spec fn view(&self) -> SessionVal {
        SessionVal {
            id: self.id@,
            entries: self.clues@.map_values(|e: (Clue, Status)| (e.0@, e.1)),
            negative_points: self.negative_points,
        }
    }
}

impl Session {
    pub open spec fn wf(self) -> bool {
        session_val_wf(self@)
    }

    /// A fresh session: a random identifier, every clue `Unread`, an
    /// empty penalty pool.
    pub fn new(clues: Clues, rng: &mut rand::rngs::ThreadRng) -> (s: Session)
        ensures
            s.wf(),
            s@.entries.len() == clues@.len(),
            forall|i: int| 0 <= i < clues@.len() ==> s@.entries[i] == (clues@[i], Status::Unread),
            s@.negative_points == 0,
    {
        let id = SessionId::random(rng);
        let mut list: Vec<(Clue, Status)> = Vec::new();
        let mut i: usize = 0;
        while i < clues.0.len()
            invariant
                i <= clues.0@.len(),
                list@.len() == i,
                forall|j: int|
                    0 <= j < i ==> list@[j].0@ == clues.0@[j]@ && list@[j].1 == Status::Unread,
            decreases clues.0@.len() - i,
        {
            list.push((clues.0[i].duplicate(), Status::Unread));
            i += 1;
        }
        let s = Session { id, clues: list, negative_points: 0 };
        proof {
            assert(forall|i: int|
                0 <= i < s@.entries.len() ==> s@.entries[i] == (clues@[i], Status::Unread));
        }
        s
    }

    /// The session's identifier.
    pub fn session_id(&self) -> (r: &SessionId)
        ensures
            r@ == self@.id,
    {
        &self.id
    }

    /// A snapshot of every clue's status, in arrangement order.
    pub fn clue_statuses(&self) -> (r: Vec<Status>)
        ensures
            r@.len() == self@.entries.len(),
            forall|i: int| 0 <= i < r@.len() ==> r@[i] == self@.entries[i].1,
    {
        let mut r: Vec<Status> = Vec::new();
        let mut i: usize = 0;
        while i < self.clues.len()
            invariant
                i <= self.clues@.len(),
                r@.len() == i,
                forall|j: int| 0 <= j < i ==> r@[j] == self.clues@[j].1,
            decreases self.clues@.len() - i,
        {
            r.push(self.clues[i].1);
            i += 1;
        }
        r
    }

    /// Find the current clue, marking the next `Unread` clue `Seen` when
    /// the team moves on to it. Returns its index.
    fn resolve_current(&mut self, now: u64) -> (r: Option<usize>)
        requires
            old(self).wf(),
        ensures
            final(self).wf(),
            final(self)@.id == old(self)@.id,
            final(self)@.negative_points == old(self)@.negative_points,
            final(self)@.entries == spec_resolve(old(self)@.entries, now),
            r is Some <==> spec_current_index(old(self)@.entries) is Some,
            r is Some ==> {
                let i = r->Some_0 as int;
                &&& Some(i) == spec_current_index(old(self)@.entries)
                &&& 0 <= i < final(self)@.entries.len()
                &&& (final(self)@.entries[i].1 is Seen || final(self)@.entries[i].1 is Skipped)
                &&& final(self)@.entries[i].0 == old(self)@.entries[i].0
            },
    {
        let ghost entries0 = self@.entries;
        proof {
            lemma_first_seen(entries0);
            lemma_first_unread(entries0);
            lemma_first_skipped(entries0);
        }
        let mut skipped_at: Option<usize> = None;
        let n = self.clues.len();
        let mut i: usize = 0;
        while i < n
            invariant
                old(self).wf(),
                self == old(self),
                entries0 == self@.entries,
                n == self.clues@.len(),
                i <= n,
                forall|j: int|
                    0 <= j < i ==> !(entries0[j].1 is Seen) && !(entries0[j].1 is Unread),
                match skipped_at {
                    Option::None => forall|j: int| 0 <= j < i ==> !(entries0[j].1 is Skipped),
                    Option::Some(k) => k < i && entries0[k as int].1 is Skipped && (forall|j: int|
                        0 <= j < k ==> !(entries0[j].1 is Skipped)),
                },
            decreases n - i,
        {
            let status = self.clues[i].1;
            match status {
                Status::Seen { .. } => {
                    proof {
                        assert(entries0[i as int].1 is Seen);
                        assert(first_seen(entries0) == Some(i as int)) by {
                            lemma_first_seen(entries0);
                            let fs = first_seen(entries0)->Some_0;
                            assert(!(fs < i) && !(fs > i));
                        }
                        assert(spec_current_index(entries0) == Some(i as int));
                        assert(spec_resolve(entries0, now) == entries0);
                    }
                    return Some(i);
                },
                Status::Unread => {
                    proof {
                        assert(entries0[i as int].1 is Unread);
                        assert(first_unread(entries0) == Some(i as int)) by {
                            lemma_first_unread(entries0);
                            let fu = first_unread(entries0)->Some_0;
                            assert(!(fu < i) && !(fu > i));
                        }
                        assert(first_seen(entries0) is None) by {
                            lemma_first_seen(entries0);
                            if first_seen(entries0) is Some {
                                let fs = first_seen(entries0)->Some_0;
                                // a Seen clue would have to stand before this Unread one
                                assert(fs < i);
                            }
                        }
                        assert(spec_current_index(entries0) == Some(i as int));
                    }
                    let clue_copy = self.clues[i].0.duplicate();
                    let new_status = Status::Seen { kind: KnowledgeKind::Unaided, time: now };
                    self.clues.set(i, (clue_copy, new_status));
                    proof {
                        assert(self@.entries =~= entries0.update(
                            i as int,
                            (entries0[i as int].0, new_status),
                        ));
                        assert(self@.entries == spec_resolve(entries0, now));
                        assert(seen_before_unread(self@.entries)) by {
                            assert(forall|j: int|
                                0 <= j < self@.entries.len() && self@.entries[j].1 is Unread
                                    ==> j > i && entries0[j].1 is Unread);
                            assert(forall|j: int|
                                0 <= j < self@.entries.len() && j != i && self@.entries[j].1
                                    is Seen ==> entries0[j].1 is Seen);
                        }
                    }
                    return Some(i);
                },
                Status::Skipped { .. } => {
                    if skipped_at.is_none() {
                        skipped_at = Some(i);
                    }
                },
                _ => {},
            }
            i += 1;
        }
        proof {
            assert(first_seen(entries0) is None) by {
                lemma_first_seen(entries0);
            }
            assert(first_unread(entries0) is None) by {
                lemma_first_unread(entries0);
            }
            assert(spec_resolve(entries0, now) == entries0);
            match skipped_at {
                Option::None => {
                    assert(first_skipped(entries0) is None) by {
                        lemma_first_skipped(entries0);
                    }
                },
                Option::Some(k) => {
                    assert(first_skipped(entries0) == Some(k as int)) by {
                        lemma_first_skipped(entries0);
                        let fk = first_skipped(entries0)->Some_0;
                        assert(!(fk < k) && !(fk > k));
                    }
                },
            }
        }
        skipped_at
    }

    /// How long the current clue has been current, if there is one.
    /// Resolving may mark the next `Unread` clue `Seen`.
    pub fn current_clue_duration(&mut self, now: u64) -> (r: Option<u64>)
        requires
            old(self).wf(),
        ensures
            final(self).wf(),
            final(self)@.id == old(self)@.id,
            final(self)@.negative_points == old(self)@.negative_points,
            final(self)@.entries == spec_resolve(old(self)@.entries, now),
            match spec_current_index(old(self)@.entries) {
                Option::None => r is None,
                Option::Some(i) => r == Some(
                    spec_elapsed(spec_time_of(spec_resolve(old(self)@.entries, now)[i].1), now),
                ),
            },
    {
        let idx = match self.resolve_current(now) {
            Option::Some(idx) => idx,
            Option::None => {
                return None;
            },
        };
        let status = self.clues[idx].1;
        let handle = match CurrentClueStatus::new(&status) {
            Option::Some(h) => h,
            Option::None => {
                proof {
                    assert(false);
                }
                return None;
            },
        };
        Some(handle.duration(now))
    }

    /// The current clue as the team may see it, if any clue is still in
    /// play. Resolving may mark the next `Unread` clue `Seen`.
    pub fn current_clue(&mut self, now: u64) -> (r: Option<ClueView>)
        requires
            old(self).wf(),
        ensures
            final(self).wf(),
            final(self)@.id == old(self)@.id,
            final(self)@.negative_points == old(self)@.negative_points,
            final(self)@.entries == spec_resolve(old(self)@.entries, now),
            match spec_current_index(old(self)@.entries) {
                Option::None => r is None,
                Option::Some(i) => {
                    let e = spec_resolve(old(self)@.entries, now)[i];
                    &&& r is Some
                    &&& r->Some_0.clue@ == e.0
                    &&& r->Some_0.knowledge == spec_knowledge_of(e.1)
                    &&& r->Some_0.is_previously_skipped == (e.1 is Skipped)
                    &&& r->Some_0.duration == spec_elapsed(spec_time_of(e.1), now)
                },
            },
    {
        let idx = match self.resolve_current(now) {
            Option::Some(idx) => idx,
            Option::None => {
                return None;
            },
        };
        let status = self.clues[idx].1;
        let handle = match CurrentClueStatus::new(&status) {
            Option::Some(h) => h,
            Option::None => {
                proof {
                    assert(false);
                }
                return None;
            },
        };
        let view = ClueView {
            clue: self.clues[idx].0.duplicate(),
            knowledge: handle.get_knowledge_kind(),
            is_previously_skipped: handle.is_skipped(),
            duration: handle.duration(now),
        };
        Some(view)
    }

    /// Check a submitted answer against the current clue.
    /// - Right answer: the clue is solved and its score returned.
    /// - Answer of some other clue in the list: 100 penalty points,
    ///   `-100` returned, no status changes.
    /// - Unknown answer: no match, nothing changes.
    pub fn try_solve(&mut self, submitted_answer: &str, now: u64) -> (r: Option<i32>)
        requires
            old(self).wf(),
        ensures
            final(self).wf(),
            final(self)@.id == old(self)@.id,
            ({
                let resolved = spec_resolve(old(self)@.entries, now);
                let code = digest_of(submitted_answer@);
                match spec_current_index(old(self)@.entries) {
                    Option::None => {
                        &&& r is None
                        &&& final(self)@.entries == resolved
                        &&& final(self)@.negative_points == old(self)@.negative_points
                    },
                    Option::Some(i) => {
                        if resolved[i].0.code == code {
                            let solved = spec_solved(resolved[i].1, now);
                            &&& final(self)@.entries == resolved.update(i, (resolved[i].0, solved))
                            &&& r is Some
                            &&& r->Some_0 == solved.spec_score()
                            &&& final(self)@.negative_points == old(self)@.negative_points
                        } else if exists|j: int|
                            0 <= j < resolved.len() && resolved[j].0.code == code {
                            &&& final(self)@.entries == resolved
                            &&& r == Some(-100i32)
                            &&& final(self)@.negative_points == spec_saturating_sub_i32(
                                old(self)@.negative_points as int,
                                100,
                            )
                        } else {
                            &&& final(self)@.entries == resolved
                            &&& r is None
                            &&& final(self)@.negative_points == old(self)@.negative_points
                        }
                    },
                }
            }),
    {
        let submitted_code = answer_to_code(submitted_answer);
        let idx = match self.resolve_current(now) {
            Option::Some(idx) => idx,
            Option::None => {
                return None;
            },
        };
        let ghost resolved = self@.entries;

        if bytes_equal(&self.clues[idx].0.code, &submitted_code) {
            // They got it right!
            let status = self.clues[idx].1;
            let handle = match CurrentClueStatus::new(&status) {
                Option::Some(h) => h,
                Option::None => {
                    proof {
                        assert(false);
                    }
                    return None;
                },
            };
            let new_status = handle.solved(now);
            let score = new_status.score();
            let clue_copy = self.clues[idx].0.duplicate();
            self.clues.set(idx, (clue_copy, new_status));
            proof {
                assert(self@.entries =~= resolved.update(
                    idx as int,
                    (resolved[idx as int].0, new_status),
                ));
                assert(new_status == spec_solved(resolved[idx as int].1, now));
            }
            return Some(score);
        }

        // Not right for this clue; does it belong to some other clue?
        let mut matches_other = false;
        let mut i: usize = 0;
        let n = self.clues.len();
        while i < n
            invariant
                n == self.clues@.len(),
                i <= n,
                resolved == self@.entries,
                matches_other == exists|j: int|
                    0 <= j < i && (#[trigger] self@.entries[j].0.code) == submitted_code@,
                submitted_code@ == digest_of(submitted_answer@),
            decreases n - i,
        {
            let hit = bytes_equal(&self.clues[i].0.code, &submitted_code);
            if hit {
                matches_other = true;
            }
            proof {
                if hit {
                    assert(self@.entries[i as int].0.code == submitted_code@);
                }
            }
            i += 1;
        }
        if matches_other {
            // 100 penalty points for submitting the answer of a different clue.
            if self.negative_points >= i32::MIN + 100 {
                self.negative_points = self.negative_points - 100;
            } else {
                self.negative_points = i32::MIN;
            }
            return Some(-100);
        }

        None
    }

    /// Skip the current clue; with no current clue this does nothing.
    pub fn skip_current_clue(&mut self, now: u64)
        requires
            old(self).wf(),
        ensures
            final(self).wf(),
            final(self)@.id == old(self)@.id,
            final(self)@.negative_points == old(self)@.negative_points,
            ({
                let resolved = spec_resolve(old(self)@.entries, now);
                match spec_current_index(old(self)@.entries) {
                    Option::None => final(self)@.entries == resolved,
                    Option::Some(i) => final(self)@.entries == resolved.update(
                        i,
                        (resolved[i].0, spec_skip(resolved[i].1)),
                    ),
                }
            }),
    {
        let idx = match self.resolve_current(now) {
            Option::Some(idx) => idx,
            Option::None => {
                return ;
            },
        };
        let ghost resolved = self@.entries;
        let status = self.clues[idx].1;
        let handle = match CurrentClueStatus::new(&status) {
            Option::Some(h) => h,
            Option::None => {
                proof {
                    assert(false);
                }
                return ;
            },
        };
        let new_status = handle.skip();
        let clue_copy = self.clues[idx].0.duplicate();
        self.clues.set(idx, (clue_copy, new_status));
        proof {
            assert(self@.entries =~= resolved.update(
                idx as int,
                (resolved[idx as int].0, new_status),
            ));
            assert(new_status == spec_skip(resolved[idx as int].1));
        }
    }

    /// Hint the current clue and hand back its hint text. The knowledge
    /// only advances from `Unaided`; the text is returned either way.
    pub fn hint_current_clue(&mut self, now: u64) -> (r: Option<String>)
        requires
            old(self).wf(),
        ensures
            final(self).wf(),
            final(self)@.id == old(self)@.id,
            final(self)@.negative_points == old(self)@.negative_points,
            ({
                let resolved = spec_resolve(old(self)@.entries, now);
                match spec_current_index(old(self)@.entries) {
                    Option::None => r is None && final(self)@.entries == resolved,
                    Option::Some(i) => {
                        &&& r is Some
                        &&& r->Some_0@ == resolved[i].0.hint
                        &&& final(self)@.entries == resolved.update(
                            i,
                            (resolved[i].0, spec_hinted(resolved[i].1)),
                        )
                    },
                }
            }),
    {
        let idx = match self.resolve_current(now) {
            Option::Some(idx) => idx,
            Option::None => {
                return None;
            },
        };
        let ghost resolved = self@.entries;
        let status = self.clues[idx].1;
        let mut handle = match CurrentClueStatus::new(&status) {
            Option::Some(h) => h,
            Option::None => {
                proof {
                    assert(false);
                }
                return None;
            },
        };
        handle.hinted();
        let new_status = handle.as_status();
        let clue_copy = self.clues[idx].0.duplicate();
        let hint = self.clues[idx].0.hint.clone();
        self.clues.set(idx, (clue_copy, new_status));
        proof {
            assert(self@.entries =~= resolved.update(
                idx as int,
                (resolved[idx as int].0, new_status),
            ));
            assert(new_status == spec_hinted(resolved[idx as int].1));
        }
        Some(hint)
    }

    /// Reveal the current clue's item and hand back its text. The
    /// knowledge only advances from `WithHint`; the text is returned
    /// either way.
    pub fn reveal_current_item(&mut self, now: u64) -> (r: Option<String>)
        requires
            old(self).wf(),
        ensures
            final(self).wf(),
            final(self)@.id == old(self)@.id,
            final(self)@.negative_points == old(self)@.negative_points,
            ({
                let resolved = spec_resolve(old(self)@.entries, now);
                match spec_current_index(old(self)@.entries) {
                    Option::None => r is None && final(self)@.entries == resolved,
                    Option::Some(i) => {
                        &&& r is Some
                        &&& r->Some_0@ == resolved[i].0.item
                        &&& final(self)@.entries == resolved.update(
                            i,
                            (resolved[i].0, spec_revealed(resolved[i].1)),
                        )
                    },
                }
            }),
    {
        let idx = match self.resolve_current(now) {
            Option::Some(idx) => idx,
            Option::None => {
                return None;
            },
        };
        let ghost resolved = self@.entries;
        let status = self.clues[idx].1;
        let mut handle = match CurrentClueStatus::new(&status) {
            Option::Some(h) => h,
            Option::None => {
                proof {
                    assert(false);
                }
                return None;
            },
        };
        handle.revealed();
        let new_status = handle.as_status();
        let clue_copy = self.clues[idx].0.duplicate();
        let item = self.clues[idx].0.item.clone();
        self.clues.set(idx, (clue_copy, new_status));
        proof {
            assert(self@.entries =~= resolved.update(
                idx as int,
                (resolved[idx as int].0, new_status),
            ));
            assert(new_status == spec_revealed(resolved[idx as int].1));
        }
        Some(item)
    }


    /// The penalty pool.
    pub fn negative_points(&self) -> (r: i32)
        ensures
            r == self@.negative_points,
    {
        self.negative_points
    }

    /// A copy of the ordered clue list with each clue's status, for a
    /// collaborator that persists the session.
    pub fn entries(&self) -> (r: Vec<(Clue, Status)>)
        ensures
            r@.len() == self@.entries.len(),
            forall|i: int|
                0 <= i < r@.len() ==> ((#[trigger] r@[i]).0@, r@[i].1) == self@.entries[i],
    {
        let mut r: Vec<(Clue, Status)> = Vec::new();
        let mut i: usize = 0;
        while i < self.clues.len()
            invariant
                i <= self.clues@.len(),
                r@.len() == i,
                forall|j: int|
                    0 <= j < i ==> ((#[trigger] r@[j]).0@, r@[j].1) == self@.entries[j],
            decreases self.clues@.len() - i,
        {
            r.push((self.clues[i].0.duplicate(), self.clues[i].1));
            proof {
                assert(self@.entries[i as int] == (self.clues@[i as int].0@, self.clues@[i as int].1));
            }
            i += 1;
        }
        r
    }

    /// Rebuild a session from persisted parts. The parts are accepted
    /// only when a `Seen` clue, if any, stands before every `Unread`
    /// clue, as every session this library produces has it.
    pub fn from_parts(id: SessionId, clues: Vec<(Clue, Status)>, negative_points: i32) -> (r:
        Option<Session>)
        requires
            id.wf(),
        ensures
            match r {
                Option::Some(session) => {
                    &&& session.wf()
                    &&& session@.id == id@
                    &&& session@.negative_points == negative_points
                    &&& session@.entries.len() == clues@.len()
                    &&& forall|i: int|
                        0 <= i < clues@.len() ==> session@.entries[i] == ((
                        #[trigger] clues@[i]).0@, clues@[i].1)
                },
                Option::None => !seen_before_unread(
                    clues@.map_values(|e: (Clue, Status)| (e.0@, e.1)),
                ),
            },
    {
        let ghost entries = clues@.map_values(|e: (Clue, Status)| (e.0@, e.1));
        let mut first_unread_at: Option<usize> = None;
        let mut i: usize = 0;
        while i < clues.len()
            invariant
                i <= clues@.len(),
                entries == clues@.map_values(|e: (Clue, Status)| (e.0@, e.1)),
                entries.len() == clues@.len(),
                match first_unread_at {
                    Option::Some(k) => k < i && entries[k as int].1 is Unread && (forall|j: int|
                        0 <= j < k ==> !((#[trigger] entries[j]).1 is Unread)),
                    Option::None => forall|j: int| 0 <= j < i ==> !((#[trigger] entries[j]).1
                        is Unread),
                },
                forall|j: int, k: int|
                    0 <= j < i && 0 <= k < i && (#[trigger] entries[j]).1 is Seen && (
                    #[trigger] entries[k]).1 is Unread ==> j < k,
            decreases clues@.len() - i,
        {
            let status = clues[i].1;
            proof {
                assert(entries[i as int].1 == status);
            }
            match status {
                Status::Unread => {
                    if first_unread_at.is_none() {
                        first_unread_at = Some(i);
                    }
                },
                Status::Seen { .. } => {
                    if first_unread_at.is_some() {
                        // a clue was read past an unread one: this is
                        // no state this library ever produces
                        return None;
                    }
                },
                _ => {},
            }
            i += 1;
        }
        let session = Session { id, clues, negative_points };
        proof {
            assert(session@.entries =~= entries);
            assert(seen_before_unread(session@.entries));
        }
        Some(session)
    }


    /// A deep copy whose value is the same session.
    pub fn duplicate(&self) -> (r: Session)
        ensures
            r@ == self@,
    {
        let mut list: Vec<(Clue, Status)> = Vec::new();
        let mut i: usize = 0;
        while i < self.clues.len()
            invariant
                i <= self.clues@.len(),
                list@.len() == i,
                forall|j: int|
                    0 <= j < i ==> ((#[trigger] list@[j]).0@, list@[j].1) == (self.clues@[j].0@, self.clues@[j].1),
            decreases self.clues@.len() - i,
        {
            list.push((self.clues[i].0.duplicate(), self.clues[i].1));
            i += 1;
        }
        let r = Session {
            id: self.id.duplicate(),
            clues: list,
            negative_points: self.negative_points,
        };
        proof {
            assert(r@.entries =~= self@.entries);
        }
        r
    }

    /// The team's total score: the penalty pool plus every solved
    /// clue's score, each addition saturating.
    pub fn total_score(&self) -> (r: i32)
        ensures
            r == spec_total_score(self@.entries, self@.negative_points as int),
    {
        let mut acc: i32 = self.negative_points;
        let mut i: usize = 0;
        let n = self.clues.len();
        proof {
            assert(self@.entries.skip(0) =~= self@.entries);
        }
        while i < n
            invariant
                n == self.clues@.len(),
                i <= n,
                n == self@.entries.len(),
                spec_total_score(self@.entries, self@.negative_points as int)
                    == spec_total_score(self@.entries.skip(i as int), acc as int),
            decreases n - i,
        {
            let score = self.clues[i].1.score();
            let ghost tail = self@.entries.skip(i as int);
            let next: i32 = if score >= 0 && acc > i32::MAX - score {
                i32::MAX
            } else if score < 0 && acc < i32::MIN - score {
                i32::MIN
            } else {
                acc + score
            };
            proof {
                assert(tail[0] == self@.entries[i as int]);
                assert(tail.drop_first() =~= self@.entries.skip(i as int + 1));
                assert(next as int == spec_saturating_add_i32(acc as int, score as int));
                assert(spec_total_score(tail, acc as int) == spec_total_score(
                    self@.entries.skip(i as int + 1),
                    next as int,
                ));
            }
            acc = next;
            i += 1;
        }
        proof {
            assert(self@.entries.skip(n as int) =~= Seq::<(ClueVal, Status)>::empty());
        }
        acc
    }
}

} // verus!
