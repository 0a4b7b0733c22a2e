use vstd::prelude::*;

use vstd::multiset::Multiset;
use vstd::string::StringSliceAdditionalSpecFns;

use crate::clues::status::spec_elapsed;
use crate::clues::{ClueVal, ClueView, Clues};
use crate::session::id::spec_id_wf;
use crate::session::{
    spec_current_index, spec_entries_after_hint, spec_entries_after_reveal,
    spec_entries_after_skip, spec_entries_after_solve, spec_knowledge_of, spec_resolve,
    spec_solve_negative, spec_solve_points, spec_time_of, spec_total_score, Session, SessionId,
    SessionVal,
};

verus! {

/// What `str::trim` leaves of a string: the string without its leading
/// and trailing whitespace.
pub uninterp spec fn trim_of(s: Seq<char>) -> Seq<char>;

/// Relies on str::trim: it returns the string with leading and
/// trailing whitespace removed, a function of the characters alone; in
/// particular it cannot grow the string, and of an empty string
/// nothing is left. Being a slice of memory, its byte length fits the
/// machine.
#[verifier::external_body]
fn trim(s: &str) -> (r: &str)
    ensures
        r@ == trim_of(s@),
        r@.len() <= s@.len(),
        s@.len() == 0 ==> r@.len() == 0,
        vstd::utf8::encode_utf8(r@).len() <= usize::MAX,
{
    s.trim()
}

/// Why a team name was rejected at registration.
#[derive(Debug, Clone, Copy, PartialEq, Eq, Structural)]
pub enum TeamNameError {
    Empty,
    TooLong,
}

/// A team's display name: non-empty after trimming, at most fifty
/// bytes long.
#[derive(Debug, Clone, PartialEq, Eq, Hash)]
pub struct TeamName {
    name: String,
}

impl View for TeamName {
    type V = Seq<char>;

    closed spec fn view(&self) -> Seq<char> {
        self.name@
    }
}

impl TeamName {
    /// Accept a name whose trimmed form is non-empty and at most
    /// fifty bytes long, and keep exactly that trimmed form.
    pub fn new(name: &str) -> (r: Result<TeamName, TeamNameError>)
        ensures
            ({
                let trimmed = trim_of(name@);
                match r {
                    Result::Ok(t) => {
                        &&& t@ == trimmed
                        &&& trimmed.len() > 0
                        &&& vstd::utf8::encode_utf8(trimmed).len() <= 50
                    },
                    Result::Err(TeamNameError::Empty) => trimmed.len() == 0,
                    Result::Err(TeamNameError::TooLong) => trimmed.len() > 0
                        && vstd::utf8::encode_utf8(trimmed).len() > 50,
                }
            }),
    {
        let trimmed = trim(name);
        if trimmed.is_empty() {
            return Err(TeamNameError::Empty);
        }
        if trimmed.len() > 50 {
            return Err(TeamNameError::TooLong);
        }
        Ok(TeamName { name: trimmed.to_owned() })
    }

    /// Whether two team names are the same name.
    pub fn matches(&self, other: &TeamName) -> (r: bool)
        ensures
            r == (self@ == other@),
    {
        self.name == other.name
    }

    /// The name's text.
    pub fn text(&self) -> (r: String)
        ensures
            r@ == self@,
    {
        self.name.clone()
    }

    /// A copy whose value is the same name.
    pub fn duplicate(&self) -> (r: TeamName)
        ensures
            r@ == self@,
    {
        TeamName { name: self.name.clone() }
    }
}

/// A registered team: its name and its session.
pub struct TeamSession {
    pub name: TeamName,
    pub session: Session,
}

impl TeamSession {
    pub fn new(name: TeamName, session: Session) -> (r: TeamSession)
        ensures
            r.name@ == name@,
            r.session == session,
    {
        TeamSession { name, session }
    }
}

/// Registration was rejected.
#[derive(Debug, Clone, Copy, PartialEq, Eq, Structural)]
pub enum NewSessionError {
    DuplicateTeamName,
}

/// A session lookup failed.
#[derive(Debug, Clone, Copy, PartialEq, Eq, Structural)]
pub enum CurrentClueError {
    UnknownSessionId,
}

/// Either a value of one kind or a value of the other.
#[derive(Debug, Clone, PartialEq, Eq)]
pub enum Either<L, R> {
    Left(L),
    Right(R),
}

/// What the current-clue lookup hands back: the clue in play, or the
/// final score of a finished session.
pub type ClueOrScore = Either<ClueView, i32>;

/// One line of the leaderboard.
#[derive(Debug, Clone)]
pub struct LeaderboardRow {
    pub team_name: TeamName,
    pub score: i32,
}

/// The mathematical value of one registered team.
pub ghost struct TeamVal {
    pub name: Seq<char>,
    pub session: SessionVal,
}

/// The registry of all teams: every session lives here, keyed by its
/// identifier, and all mutation goes through it.
pub struct Registry {
    sessions: Vec<TeamSession>,
    clues: crate::clues::arrangement::CluesGenerator,
}

impl View for Registry {
    type V = Seq<TeamVal>;

    closed spec fn view(&self) -> Seq<TeamVal> {
        self.sessions@.map_values(
            |t: TeamSession| TeamVal { name: t.name@, session: t.session@ },
        )
    }
}

impl Registry {
    /// The arrangement source the registry draws from.
    pub closed spec fn spec_generator(self) -> crate::clues::arrangement::CluesGenerator {
        self.clues
    }

    /// The clue catalog every newly drawn arrangement holds.
    pub open spec fn spec_catalog(self) -> Multiset<ClueVal> {
        self.spec_generator().spec_catalog()
    }

    pub open spec fn wf(self) -> bool {
        &&& forall|i: int|
            0 <= i < self@.len() ==> crate::session::session_val_wf(
                (#[trigger] self@[i]).session,
            )
        &&& self.spec_generator().wf()
    }

    /// A fresh registry around an arrangement source.
    pub fn new(clues: crate::clues::arrangement::CluesGenerator) -> (r: Registry)
        requires
            clues.wf(),
        ensures
            r.wf(),
            r@.len() == 0,
            r.spec_generator() == clues,
    {
        let r = Registry { sessions: Vec::new(), clues };
        proof {
            assert(r@ =~= Seq::<TeamVal>::empty());
        }
        r
    }

    /// The first registered session with this identifier, if any.
    fn find_session(&self, id: &SessionId) -> (r: Option<usize>)
        ensures
            match r {
                Option::Some(k) => {
                    &&& 0 <= k < self@.len()
                    &&& self@[k as int].session.id == id@
                    &&& forall|j: int| 0 <= j < k ==> (#[trigger] self@[j]).session.id != id@
                },
                Option::None => forall|j: int|
                    0 <= j < self@.len() ==> (#[trigger] self@[j]).session.id != id@,
            },
    {
        let mut k: usize = 0;
        while k < self.sessions.len()
            invariant
                k <= self.sessions@.len(),
                self@.len() == self.sessions@.len(),
                forall|j: int| 0 <= j < k ==> (#[trigger] self@[j]).session.id != id@,
            decreases self.sessions@.len() - k,
        {
            if self.sessions[k].session.session_id().matches(id) {
                proof {
                    assert(self@[k as int].session.id == id@);
                }
                return Some(k);
            }
            proof {
                assert(self@[k as int].session.id == self.sessions@[k as int].session@.id);
            }
            k += 1;
        }
        None
    }

    /// Whether this team name is already taken.
    fn name_taken(&self, team_name: &TeamName) -> (r: bool)
        ensures
            r == exists|i: int| 0 <= i < self@.len() && (#[trigger] self@[i]).name == team_name@,
    {
        let mut k: usize = 0;
        while k < self.sessions.len()
            invariant
                k <= self.sessions@.len(),
                self@.len() == self.sessions@.len(),
                forall|j: int| 0 <= j < k ==> (#[trigger] self@[j]).name != team_name@,
            decreases self.sessions@.len() - k,
        {
            if self.sessions[k].name.matches(team_name) {
                proof {
                    assert(self@[k as int].name == team_name@);
                }
                return true;
            }
            proof {
                assert(self@[k as int].name == self.sessions@[k as int].name@);
            }
            k += 1;
        }
        false
    }

    /// Register a team: a fresh session over the next arrangement from
    /// the source, under a fresh identifier. A taken name is rejected
    /// and changes nothing.
    pub fn new_session(
        &mut self,
        team_name: TeamName,
        rng: &mut rand::rngs::ThreadRng,
    ) -> (r: Result<SessionId, NewSessionError>)
        requires
            old(self).wf(),
        ensures
            final(self).wf(),
            final(self).spec_catalog() == old(self).spec_catalog(),
            match r {
                Result::Err(NewSessionError::DuplicateTeamName) => {
                    &&& exists|i: int|
                        0 <= i < old(self)@.len() && (#[trigger] old(self)@[i]).name
                            == team_name@
                    &&& final(self)@ == old(self)@
                    &&& final(self).spec_generator() == old(self).spec_generator()
                },
                Result::Ok(id) => {
                    &&& !exists|i: int|
                        0 <= i < old(self)@.len() && (#[trigger] old(self)@[i]).name
                            == team_name@
                    &&& final(self)@.len() == old(self)@.len() + 1
                    &&& forall|i: int|
                        0 <= i < old(self)@.len() ==> final(self)@[i] == old(self)@[i]
                    &&& ({
                        let tv = final(self)@[old(self)@.len() as int];
                        &&& tv.name == team_name@
                        &&& tv.session.id == id@
                        &&& spec_id_wf(id@, 4)
                        &&& tv.session.negative_points == 0
                        &&& forall|j: int|
                            0 <= j < tv.session.entries.len() ==> (#[trigger] tv.session.entries[
                                j
                            ]).1 is Unread
                        &&& tv.session.entries.map_values(
                            |e: (ClueVal, crate::clues::status::Status)| e.0,
                        ).to_multiset() == old(self).spec_catalog()
                    })
                },
            },
    {
        if self.name_taken(&team_name) {
            return Err(NewSessionError::DuplicateTeamName);
        }
        let arrangement = self.clues.next(rng);
        let ghost arr_views = arrangement@;
        let session = Session::new(arrangement, rng);
        let id = session.session_id().duplicate();
        let ghost pre = self@;
        let ghost name_view = team_name@;
        let ghost sval = session@;
        self.sessions.push(TeamSession { name: team_name, session });
        proof {
            assert(self@ =~= pre.push(TeamVal { name: name_view, session: sval }));
            let tv = self@[pre.len() as int];
            assert(tv.session.entries.map_values(
                |e: (ClueVal, crate::clues::status::Status)| e.0,
            ) =~= arr_views);
        }
        Ok(id)
    }

    /// The team name registered under this session code, if the code
    /// is valid and known.
    pub fn get_team_name(&self, maybe_id: &str) -> (r: Option<TeamName>)
        ensures
            match r {
                Option::Some(t) => exists|k: int|
                    0 <= k < self@.len() && (#[trigger] self@[k]).name == t@,
                Option::None => true,
            },
    {
        let id = match SessionId::new(maybe_id) {
            Option::Some(id) => id,
            Option::None => {
                return None;
            },
        };
        let k = match self.find_session(&id) {
            Option::Some(k) => k,
            Option::None => {
                return None;
            },
        };
        let name = self.sessions[k].name.duplicate();
        proof {
            assert(self@[k as int].name == self.sessions@[k as int].name@);
        }
        Some(name)
    }

    /// The leaderboard: every team with its current total score, from
    /// highest to lowest, together with the name behind `maybe_id` if
    /// that is a valid, known session code.
    pub fn leaderboard(&self, maybe_id: &str) -> (r: (Vec<LeaderboardRow>, Option<TeamName>))
        ensures
            r.0@.len() == self@.len(),
            forall|i: int, j: int| 0 <= i < j < r.0@.len() ==> (#[trigger] r.0@[i]).score >= (
            #[trigger] r.0@[j]).score,
            r.0@.map_values(|row: LeaderboardRow| (row.team_name@, row.score as int)).to_multiset()
                == self@.map_values(
                |t: TeamVal| (t.name, spec_total_score(t.session.entries, t.session.negative_points as int)),
            ).to_multiset(),
            match r.1 {
                Option::Some(t) => exists|k: int|
                    0 <= k < self@.len() && (#[trigger] self@[k]).name == t@,
                Option::None => true,
            },
    {
        broadcast use vstd::seq_lib::group_to_multiset_ensures;
        broadcast use vstd::multiset::group_multiset_axioms;

        let team_name = self.get_team_name(maybe_id);
        let ghost row_val = |row: LeaderboardRow| (row.team_name@, row.score as int);
        let ghost team_val = |t: TeamVal|
            (t.name, spec_total_score(t.session.entries, t.session.negative_points as int));
        let mut rows: Vec<LeaderboardRow> = Vec::new();
        let mut k: usize = 0;
        proof {
            assert(rows@.map_values(row_val) =~= Seq::<(Seq<char>, int)>::empty());
            assert(self@.take(0).map_values(team_val) =~= Seq::<(Seq<char>, int)>::empty());
            assert(rows@.map_values(row_val).to_multiset() =~= self@.take(
                0,
            ).map_values(team_val).to_multiset());
        }
        while k < self.sessions.len()
            invariant
                k <= self.sessions@.len(),
                self@.len() == self.sessions@.len(),
                rows@.len() == k,
                row_val == (|row: LeaderboardRow| (row.team_name@, row.score as int)),
                team_val == (|t: TeamVal|
                    (t.name, spec_total_score(t.session.entries, t.session.negative_points as int))),
                forall|i: int, j: int| 0 <= i < j < rows@.len() ==> (#[trigger] rows@[i]).score
                    >= (#[trigger] rows@[j]).score,
                rows@.map_values(row_val).to_multiset() == self@.take(k as int).map_values(
                    team_val,
                ).to_multiset(),
            decreases self.sessions@.len() - k,
        {
            broadcast use vstd::seq_lib::group_to_multiset_ensures;
            broadcast use vstd::multiset::group_multiset_axioms;

            let score = self.sessions[k].session.total_score();
            let row = LeaderboardRow { team_name: self.sessions[k].name.duplicate(), score };
            proof {
                assert(self@[k as int].name == self.sessions@[k as int].name@);
                assert(self@[k as int].session == self.sessions@[k as int].session@);
                assert(row_val(row) == team_val(self@[k as int]));
            }
            let ghost rows_pre = rows@;
            // keep the list ordered from highest to lowest as we insert
            let mut p: usize = 0;
            while p < rows.len()
                invariant
                    p <= rows@.len(),
                    rows@ == rows_pre,
                    forall|i: int| 0 <= i < p ==> (#[trigger] rows@[i]).score >= row.score,
                ensures
                    p <= rows@.len(),
                    rows@ == rows_pre,
                    forall|i: int| 0 <= i < p ==> (#[trigger] rows@[i]).score >= row.score,
                    p < rows@.len() ==> rows@[p as int].score < row.score,
                decreases rows@.len() - p,
            {
                if rows[p].score < row.score {
                    break ;
                }
                p += 1;
            }
            let ghost rv = row_val(row);
            rows.insert(p, row);
            proof {
                assert(rows@ == rows_pre.insert(p as int, row));
                assert forall|i: int, j: int| 0 <= i < j < rows@.len() implies (
                #[trigger] rows@[i]).score >= (#[trigger] rows@[j]).score by {
                    if i < p && j < p {
                        assert(rows@[i] == rows_pre[i] && rows@[j] == rows_pre[j]);
                    } else if i < p && j == p {
                        assert(rows@[i] == rows_pre[i]);
                    } else if i < p && j > p {
                        assert(rows@[i] == rows_pre[i] && rows@[j] == rows_pre[j - 1]);
                    } else if i == p {
                        assert(rows@[j] == rows_pre[j - 1]);
                        if p < rows_pre.len() {
                            assert(rows_pre[p as int].score < row.score);
                            assert(rows_pre[j - 1].score <= rows_pre[p as int].score);
                        }
                    } else {
                        assert(rows@[i] == rows_pre[i - 1] && rows@[j] == rows_pre[j - 1]);
                    }
                }
                assert(rows@.map_values(row_val).to_multiset() == rows_pre.map_values(
                    row_val,
                ).to_multiset().insert(rv)) by {
                    assert(rows@.map_values(row_val) =~= rows_pre.map_values(row_val).insert(
                        p as int,
                        rv,
                    ));
                }
                assert(self@.take(k + 1) =~= self@.take(k as int).push(self@[k as int]));
                assert(self@.take(k + 1).map_values(team_val) =~= self@.take(k as int).map_values(
                    team_val,
                ).push(team_val(self@[k as int])));
            }
            k += 1;
        }
        proof {
            assert(self@.take(self@.len() as int) =~= self@);
        }
        (rows, team_name)
    }


    /// Put a persisted team back, exactly as it was.
    pub fn restore_team(&mut self, name: TeamName, session: Session)
        requires
            old(self).wf(),
            session.wf(),
        ensures
            final(self).wf(),
            final(self).spec_generator() == old(self).spec_generator(),
            final(self)@ == old(self)@.push(TeamVal { name: name@, session: session@ }),
    {
        let ghost pre = self@;
        let ghost nval = name@;
        let ghost sval = session@;
        self.sessions.push(TeamSession { name, session });
        proof {
            assert(self@ =~= pre.push(TeamVal { name: nval, session: sval }));
        }
    }

    /// A copy of every registered team, for a collaborator that
    /// persists the registry.
    pub fn snapshot_teams(&self) -> (r: Vec<(TeamName, Session)>)
        ensures
            r@.len() == self@.len(),
            forall|i: int|
                0 <= i < r@.len() ==> ((#[trigger] r@[i]).0@, r@[i].1@) == (self@[i].name, self@[
                    i
                ].session),
    {
        let mut r: Vec<(TeamName, Session)> = Vec::new();
        let mut i: usize = 0;
        while i < self.sessions.len()
            invariant
                i <= self.sessions@.len(),
                self@.len() == self.sessions@.len(),
                r@.len() == i,
                forall|j: int|
                    0 <= j < i ==> ((#[trigger] r@[j]).0@, r@[j].1@) == (self@[j].name, self@[
                        j
                    ].session),
            decreases self.sessions@.len() - i,
        {
            r.push((self.sessions[i].name.duplicate(), self.sessions[i].session.duplicate()));
            proof {
                assert(self@[i as int].name == self.sessions@[i as int].name@);
                assert(self@[i as int].session == self.sessions@[i as int].session@);
            }
            i += 1;
        }
        r
    }

    /// Look up the session and resolve its current clue: the team's
    /// name with either the clue as the team may see it, or the final
    /// score of a finished session.
    pub fn current_clue(&mut self, id: &SessionId, now: u64) -> (r: Result<
        (TeamName, ClueOrScore),
        CurrentClueError,
    >)
        requires
            old(self).wf(),
        ensures
            final(self).wf(),
            final(self).spec_generator() == old(self).spec_generator(),
            match r {
                Result::Err(CurrentClueError::UnknownSessionId) => {
                    &&& forall|j: int|
                        0 <= j < old(self)@.len() ==> (#[trigger] old(self)@[j]).session.id != id@
                    &&& final(self)@ == old(self)@
                },
                Result::Ok((name, outcome)) => exists|k: int|
                    {
                        &&& 0 <= k < old(self)@.len()
                        &&& (#[trigger] old(self)@[k]).session.id == id@
                        &&& name@ == old(self)@[k].name
                        &&& ({
                            let s0 = old(self)@[k].session;
                            let resolved = spec_resolve(s0.entries, now);
                            &&& final(self)@ == old(self)@.update(
                                k,
                                TeamVal {
                                    name: old(self)@[k].name,
                                    session: SessionVal {
                                        id: s0.id,
                                        entries: resolved,
                                        negative_points: s0.negative_points,
                                    },
                                },
                            )
                            &&& match spec_current_index(s0.entries) {
                                Option::Some(i) => {
                                    &&& outcome is Left
                                    &&& outcome->Left_0.clue@ == resolved[i].0
                                    &&& outcome->Left_0.knowledge == spec_knowledge_of(
                                        resolved[i].1,
                                    )
                                    &&& outcome->Left_0.is_previously_skipped == (resolved[i].1
                                        is Skipped)
                                    &&& outcome->Left_0.duration == spec_elapsed(
                                        spec_time_of(resolved[i].1),
                                        now,
                                    )
                                },
                                Option::None => {
                                    &&& outcome is Right
                                    &&& outcome->Right_0 == spec_total_score(
                                        resolved,
                                        s0.negative_points as int,
                                    )
                                },
                            }
                        })
                    },
            },
    {
        let k = match self.find_session(id) {
            Option::Some(k) => k,
            Option::None => {
                return Err(CurrentClueError::UnknownSessionId);
            },
        };
        let ghost pre = self@;
        let mut ts = self.sessions.remove(k);
        let name = ts.name.duplicate();
        let outcome = match ts.session.current_clue(now) {
            Option::Some(view) => Either::Left(view),
            Option::None => Either::Right(ts.session.total_score()),
        };
        let ghost sval = ts.session@;
        let ghost nval = ts.name@;
        self.sessions.insert(k, ts);
        proof {
            assert(self@ =~= pre.update(k as int, TeamVal { name: nval, session: sval }));
        }
        Ok((name, outcome))
    }

    /// Look up the session and check the submitted answer against its
    /// current clue.
    pub fn answer(&mut self, id: &SessionId, guess: &str, now: u64) -> (r: Result<
        Option<i32>,
        CurrentClueError,
    >)
        requires
            old(self).wf(),
        ensures
            final(self).wf(),
            final(self).spec_generator() == old(self).spec_generator(),
            match r {
                Result::Err(CurrentClueError::UnknownSessionId) => {
                    &&& forall|j: int|
                        0 <= j < old(self)@.len() ==> (#[trigger] old(self)@[j]).session.id != id@
                    &&& final(self)@ == old(self)@
                },
                Result::Ok(points) => exists|k: int|
                    {
                        &&& 0 <= k < old(self)@.len()
                        &&& (#[trigger] old(self)@[k]).session.id == id@
                        &&& ({
                            let s0 = old(self)@[k].session;
                            let code = crate::clues::digest_of(guess@);
                            &&& final(self)@ == old(self)@.update(
                                k,
                                TeamVal {
                                    name: old(self)@[k].name,
                                    session: SessionVal {
                                        id: s0.id,
                                        entries: spec_entries_after_solve(s0.entries, code, now),
                                        negative_points: spec_solve_negative(
                                            s0.entries,
                                            s0.negative_points as int,
                                            code,
                                            now,
                                        ) as i32,
                                    },
                                },
                            )
                            &&& match spec_solve_points(s0.entries, code, now) {
                                Option::Some(p) => points == Some(p as i32),
                                Option::None => points is None,
                            }
                        })
                    },
            },
    {
        let k = match self.find_session(id) {
            Option::Some(k) => k,
            Option::None => {
                return Err(CurrentClueError::UnknownSessionId);
            },
        };
        let ghost pre = self@;
        let ghost s0 = self@[k as int].session;
        let mut ts = self.sessions.remove(k);
        let points = ts.session.try_solve(guess, now);
        let ghost sval = ts.session@;
        let ghost nval = ts.name@;
        self.sessions.insert(k, ts);
        proof {
            assert(self@ =~= pre.update(k as int, TeamVal { name: nval, session: sval }));
            let code = crate::clues::digest_of(guess@);
            let resolved = spec_resolve(s0.entries, now);
            match spec_current_index(s0.entries) {
                Option::Some(i) => {
                    if resolved[i].0.code == code {
                        assert(sval.entries == spec_entries_after_solve(s0.entries, code, now));
                    } else if exists|j: int|
                        0 <= j < resolved.len() && (#[trigger] resolved[j]).0.code == code {
                        assert(sval.entries == spec_entries_after_solve(s0.entries, code, now));
                    } else {
                        assert(sval.entries == spec_entries_after_solve(s0.entries, code, now));
                    }
                },
                Option::None => {
                    assert(sval.entries == spec_entries_after_solve(s0.entries, code, now));
                },
            }
        }
        Ok(points)
    }

    /// Look up the session and hint its current clue; with no such
    /// session, or no current clue, nothing changes.
    pub fn handle_hint(&mut self, id: &SessionId, now: u64)
        requires
            old(self).wf(),
        ensures
            final(self).wf(),
            final(self).spec_generator() == old(self).spec_generator(),
            (forall|j: int|
                0 <= j < old(self)@.len() ==> (#[trigger] old(self)@[j]).session.id != id@)
                ==> final(self)@ == old(self)@,
            (exists|k: int|
                0 <= k < old(self)@.len() && (#[trigger] old(self)@[k]).session.id == id@)
                ==> exists|k: int|
                {
                    &&& 0 <= k < old(self)@.len()
                    &&& (#[trigger] old(self)@[k]).session.id == id@
                    &&& ({
                        let s0 = old(self)@[k].session;
                        final(self)@ == old(self)@.update(
                            k,
                            TeamVal {
                                name: old(self)@[k].name,
                                session: SessionVal {
                                    id: s0.id,
                                    entries: spec_entries_after_hint(s0.entries, now),
                                    negative_points: s0.negative_points,
                                },
                            },
                        )
                    })
                },
    {
        let k = match self.find_session(id) {
            Option::Some(k) => k,
            Option::None => {
                return ;
            },
        };
        let ghost pre = self@;
        let mut ts = self.sessions.remove(k);
        ts.session.hint_current_clue(now);
        let ghost sval = ts.session@;
        let ghost nval = ts.name@;
        self.sessions.insert(k, ts);
        proof {
            assert(self@ =~= pre.update(k as int, TeamVal { name: nval, session: sval }));
        }
    }

    /// Look up the session and reveal its current clue's item; with no
    /// such session, or no current clue, nothing changes.
    pub fn handle_reveal(&mut self, id: &SessionId, now: u64)
        requires
            old(self).wf(),
        ensures
            final(self).wf(),
            final(self).spec_generator() == old(self).spec_generator(),
            (forall|j: int|
                0 <= j < old(self)@.len() ==> (#[trigger] old(self)@[j]).session.id != id@)
                ==> final(self)@ == old(self)@,
            (exists|k: int|
                0 <= k < old(self)@.len() && (#[trigger] old(self)@[k]).session.id == id@)
                ==> exists|k: int|
                {
                    &&& 0 <= k < old(self)@.len()
                    &&& (#[trigger] old(self)@[k]).session.id == id@
                    &&& ({
                        let s0 = old(self)@[k].session;
                        final(self)@ == old(self)@.update(
                            k,
                            TeamVal {
                                name: old(self)@[k].name,
                                session: SessionVal {
                                    id: s0.id,
                                    entries: spec_entries_after_reveal(s0.entries, now),
                                    negative_points: s0.negative_points,
                                },
                            },
                        )
                    })
                },
    {
        let k = match self.find_session(id) {
            Option::Some(k) => k,
            Option::None => {
                return ;
            },
        };
        let ghost pre = self@;
        let mut ts = self.sessions.remove(k);
        ts.session.reveal_current_item(now);
        let ghost sval = ts.session@;
        let ghost nval = ts.name@;
        self.sessions.insert(k, ts);
        proof {
            assert(self@ =~= pre.update(k as int, TeamVal { name: nval, session: sval }));
        }
    }

    /// Look up the session and skip its current clue; with no such
    /// session, or no current clue, nothing changes.
    pub fn handle_skip(&mut self, id: &SessionId, now: u64)
        requires
            old(self).wf(),
        ensures
            final(self).wf(),
            final(self).spec_generator() == old(self).spec_generator(),
            (forall|j: int|
                0 <= j < old(self)@.len() ==> (#[trigger] old(self)@[j]).session.id != id@)
                ==> final(self)@ == old(self)@,
            (exists|k: int|
                0 <= k < old(self)@.len() && (#[trigger] old(self)@[k]).session.id == id@)
                ==> exists|k: int|
                {
                    &&& 0 <= k < old(self)@.len()
                    &&& (#[trigger] old(self)@[k]).session.id == id@
                    &&& ({
                        let s0 = old(self)@[k].session;
                        final(self)@ == old(self)@.update(
                            k,
                            TeamVal {
                                name: old(self)@[k].name,
                                session: SessionVal {
                                    id: s0.id,
                                    entries: spec_entries_after_skip(s0.entries, now),
                                    negative_points: s0.negative_points,
                                },
                            },
                        )
                    })
                },
    {
        let k = match self.find_session(id) {
            Option::Some(k) => k,
            Option::None => {
                return ;
            },
        };
        let ghost pre = self@;
        let mut ts = self.sessions.remove(k);
        ts.session.skip_current_clue(now);
        let ghost sval = ts.session@;
        let ghost nval = ts.name@;
        self.sessions.insert(k, ts);
        proof {
            assert(self@ =~= pre.update(k as int, TeamVal { name: nval, session: sval }));
        }
    }
}


} // verus!
