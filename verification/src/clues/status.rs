use vstd::prelude::*;

verus! {

/// How much help a team has received on its current clue.
/// Knowledge only ever advances, one step at a time:
/// `Unaided` -> `WithHint` -> `KnowingItem`.
#[derive(Debug, Clone, Copy, PartialEq, Eq, Structural)]
pub enum KnowledgeKind {
    Unaided,
    WithHint,
    KnowingItem,
}

impl KnowledgeKind {
    /// Base points for a solve at this knowledge level.
    pub open spec fn spec_score(self) -> int {
        match self {
            KnowledgeKind::Unaided => 300,
            KnowledgeKind::WithHint => 200,
            KnowledgeKind::KnowingItem => 100,
        }
    }

    pub fn score(&self) -> (r: i32)
        ensures
            r == self.spec_score(),
    {
        match self {
            KnowledgeKind::Unaided => 300,
            KnowledgeKind::WithHint => 200,
            KnowledgeKind::KnowingItem => 100,
        }
    }
}

/// Progress of one team on one clue. `time` fields are timestamps in
/// milliseconds of the caller's monotonic clock; `duration` is a length
/// of time in milliseconds.
#[derive(Debug, Clone, Copy, PartialEq, Eq, Structural)]
pub enum Status {
    Unread,
    Seen { kind: KnowledgeKind, time: u64 },
    Skipped { kind: KnowledgeKind, time: u64 },
    Solved { kind: KnowledgeKind, duration: u64 },
    Declined,
}

/// Milliseconds elapsed between a recorded timestamp and `now`,
/// saturating at zero should the caller's clock ever step backwards.
pub open spec fn spec_elapsed(time: u64, now: u64) -> u64 {
    if now >= time {
        (now - time) as u64
    } else {
        0
    }
}

/// Bonus points for solving after `ms` milliseconds: an exponential decay
/// from 100 with a ten-minute half-life, rounded to the nearest point,
/// `round(100 * 2^(-ms / 600000))`. Each threshold below is the largest
/// millisecond count whose rounded value still reaches the next point,
/// so the function is exactly the rounded decay curve. Beyond the last
/// threshold the bonus is 0, which also covers durations too large for
/// a 32-bit millisecond count.
pub open spec fn spec_duration_bonus(ms: u64) -> int {
        if ms <= 4338 {
            100
        } else if ms <= 13082 {
            99
        } else if ms <= 21915 {
            98
        } else if ms <= 30839 {
            97
        } else if ms <= 39856 {
            96
        } else if ms <= 48968 {
            95
        } else if ms <= 58177 {
            94
        } else if ms <= 67484 {
            93
        } else if ms <= 76893 {
            92
        } else if ms <= 86406 {
            91
        } else if ms <= 96024 {
            90
        } else if ms <= 105750 {
            89
        } else if ms <= 115587 {
            88
        } else if ms <= 125536 {
            87
        } else if ms <= 135602 {
            86
        } else if ms <= 145786 {
            85
        } else if ms <= 156091 {
            84
        } else if ms <= 166520 {
            83
        } else if ms <= 177076 {
            82
        } else if ms <= 187763 {
            81
        } else if ms <= 198583 {
            80
        } else if ms <= 209541 {
            79
        } else if ms <= 220639 {
            78
        } else if ms <= 231881 {
            77
        } else if ms <= 243270 {
            76
        } else if ms <= 254812 {
            75
        } else if ms <= 266510 {
            74
        } else if ms <= 278368 {
            73
        } else if ms <= 290390 {
            72
        } else if ms <= 302582 {
            71
        } else if ms <= 314949 {
            70
        } else if ms <= 327494 {
            69
        } else if ms <= 340224 {
            68
        } else if ms <= 353144 {
            67
        } else if ms <= 366259 {
            66
        } else if ms <= 379577 {
            65
        } else if ms <= 393102 {
            64
        } else if ms <= 406843 {
            63
        } else if ms <= 420805 {
            62
        } else if ms <= 434995 {
            61
        } else if ms <= 449423 {
            60
        } else if ms <= 464094 {
            59
        } else if ms <= 479019 {
            58
        } else if ms <= 494206 {
            57
        } else if ms <= 509664 {
            56
        } else if ms <= 525403 {
            55
        } else if ms <= 541433 {
            54
        } else if ms <= 557766 {
            53
        } else if ms <= 574413 {
            52
        } else if ms <= 591386 {
            51
        } else if ms <= 608699 {
            50
        } else if ms <= 626366 {
            49
        } else if ms <= 644400 {
            48
        } else if ms <= 662818 {
            47
        } else if ms <= 681636 {
            46
        } else if ms <= 700873 {
            45
        } else if ms <= 720547 {
            44
        } else if ms <= 740679 {
            43
        } else if ms <= 761290 {
            42
        } else if ms <= 782403 {
            41
        } else if ms <= 804045 {
            40
        } else if ms <= 826241 {
            39
        } else if ms <= 849022 {
            38
        } else if ms <= 872418 {
            37
        } else if ms <= 896465 {
            36
        } else if ms <= 921199 {
            35
        } else if ms <= 946660 {
            34
        } else if ms <= 972893 {
            33
        } else if ms <= 999945 {
            32
        } else if ms <= 1027871 {
            31
        } else if ms <= 1056727 {
            30
        } else if ms <= 1086579 {
            29
        } else if ms <= 1117497 {
            28
        } else if ms <= 1149561 {
            27
        } else if ms <= 1182858 {
            26
        } else if ms <= 1217487 {
            25
        } else if ms <= 1253560 {
            24
        } else if ms <= 1291201 {
            23
        } else if ms <= 1330554 {
            22
        } else if ms <= 1371782 {
            21
        } else if ms <= 1415072 {
            20
        } else if ms <= 1460641 {
            19
        } else if ms <= 1508743 {
            18
        } else if ms <= 1559677 {
            17
        } else if ms <= 1613795 {
            16
        } else if ms <= 1671525 {
            15
        } else if ms <= 1733381 {
            14
        } else if ms <= 1800000 {
            13
        } else if ms <= 1872176 {
            12
        } else if ms <= 1950923 {
            11
        } else if ms <= 2037557 {
            10
        } else if ms <= 2133836 {
            9
        } else if ms <= 2242179 {
            8
        } else if ms <= 2366049 {
            7
        } else if ms <= 2510654 {
            6
        } else if ms <= 2684358 {
            5
        } else if ms <= 2901900 {
            4
        } else if ms <= 3193156 {
            3
        } else if ms <= 3635336 {
            2
        } else if ms <= 4586313 {
            1
        } else {
            0
        }
}

pub fn duration_bonus_score(ms: u64) -> (r: i32)
    ensures
        r == spec_duration_bonus(ms),
{
        if ms <= 4338 {
            100
        } else if ms <= 13082 {
            99
        } else if ms <= 21915 {
            98
        } else if ms <= 30839 {
            97
        } else if ms <= 39856 {
            96
        } else if ms <= 48968 {
            95
        } else if ms <= 58177 {
            94
        } else if ms <= 67484 {
            93
        } else if ms <= 76893 {
            92
        } else if ms <= 86406 {
            91
        } else if ms <= 96024 {
            90
        } else if ms <= 105750 {
            89
        } else if ms <= 115587 {
            88
        } else if ms <= 125536 {
            87
        } else if ms <= 135602 {
            86
        } else if ms <= 145786 {
            85
        } else if ms <= 156091 {
            84
        } else if ms <= 166520 {
            83
        } else if ms <= 177076 {
            82
        } else if ms <= 187763 {
            81
        } else if ms <= 198583 {
            80
        } else if ms <= 209541 {
            79
        } else if ms <= 220639 {
            78
        } else if ms <= 231881 {
            77
        } else if ms <= 243270 {
            76
        } else if ms <= 254812 {
            75
        } else if ms <= 266510 {
            74
        } else if ms <= 278368 {
            73
        } else if ms <= 290390 {
            72
        } else if ms <= 302582 {
            71
        } else if ms <= 314949 {
            70
        } else if ms <= 327494 {
            69
        } else if ms <= 340224 {
            68
        } else if ms <= 353144 {
            67
        } else if ms <= 366259 {
            66
        } else if ms <= 379577 {
            65
        } else if ms <= 393102 {
            64
        } else if ms <= 406843 {
            63
        } else if ms <= 420805 {
            62
        } else if ms <= 434995 {
            61
        } else if ms <= 449423 {
            60
        } else if ms <= 464094 {
            59
        } else if ms <= 479019 {
            58
        } else if ms <= 494206 {
            57
        } else if ms <= 509664 {
            56
        } else if ms <= 525403 {
            55
        } else if ms <= 541433 {
            54
        } else if ms <= 557766 {
            53
        } else if ms <= 574413 {
            52
        } else if ms <= 591386 {
            51
        } else if ms <= 608699 {
            50
        } else if ms <= 626366 {
            49
        } else if ms <= 644400 {
            48
        } else if ms <= 662818 {
            47
        } else if ms <= 681636 {
            46
        } else if ms <= 700873 {
            45
        } else if ms <= 720547 {
            44
        } else if ms <= 740679 {
            43
        } else if ms <= 761290 {
            42
        } else if ms <= 782403 {
            41
        } else if ms <= 804045 {
            40
        } else if ms <= 826241 {
            39
        } else if ms <= 849022 {
            38
        } else if ms <= 872418 {
            37
        } else if ms <= 896465 {
            36
        } else if ms <= 921199 {
            35
        } else if ms <= 946660 {
            34
        } else if ms <= 972893 {
            33
        } else if ms <= 999945 {
            32
        } else if ms <= 1027871 {
            31
        } else if ms <= 1056727 {
            30
        } else if ms <= 1086579 {
            29
        } else if ms <= 1117497 {
            28
        } else if ms <= 1149561 {
            27
        } else if ms <= 1182858 {
            26
        } else if ms <= 1217487 {
            25
        } else if ms <= 1253560 {
            24
        } else if ms <= 1291201 {
            23
        } else if ms <= 1330554 {
            22
        } else if ms <= 1371782 {
            21
        } else if ms <= 1415072 {
            20
        } else if ms <= 1460641 {
            19
        } else if ms <= 1508743 {
            18
        } else if ms <= 1559677 {
            17
        } else if ms <= 1613795 {
            16
        } else if ms <= 1671525 {
            15
        } else if ms <= 1733381 {
            14
        } else if ms <= 1800000 {
            13
        } else if ms <= 1872176 {
            12
        } else if ms <= 1950923 {
            11
        } else if ms <= 2037557 {
            10
        } else if ms <= 2133836 {
            9
        } else if ms <= 2242179 {
            8
        } else if ms <= 2366049 {
            7
        } else if ms <= 2510654 {
            6
        } else if ms <= 2684358 {
            5
        } else if ms <= 2901900 {
            4
        } else if ms <= 3193156 {
            3
        } else if ms <= 3635336 {
            2
        } else if ms <= 4586313 {
            1
        } else {
            0
        }
}

/// The duration bonus never leaves `[0, 100]`, is worth at least one
/// point up to the final threshold, and nothing at all past it.
pub proof fn lemma_duration_bonus_range(ms: u64)
    ensures
        0 <= spec_duration_bonus(ms) <= 100,
        ms <= 4586313 ==> spec_duration_bonus(ms) >= 1,
        ms > 4586313 ==> spec_duration_bonus(ms) == 0,
{
}

impl Status {
    /// Points this clue contributes to the team's total: only a solved
    /// clue scores, its knowledge level plus the time bonus.
    pub open spec fn spec_score(self) -> int {
        match self {
            Status::Solved { kind, duration } => kind.spec_score() + spec_duration_bonus(duration),
            _ => 0,
        }
    }

    /// Scoring:
    /// - 300 points for solving unaided
    /// - 200 points for solving with a hint
    /// - 100 points for finding the item after it was revealed
    /// - up to 100 bonus points depending on how quickly it was solved
    pub fn score(&self) -> (r: i32)
        ensures
            r == self.spec_score(),
    {
        match self {
            Status::Solved { kind, duration } => {
                proof {
                    lemma_duration_bonus_range(*duration);
                }
                kind.score() + duration_bonus_score(*duration)
            },
            _ => 0,
        }
    }
}



/// The checkpoint table of the duration bonus: the rounded decay curve
/// at zero, one, five, ten, fifteen, twenty, thirty, forty-five and
/// seventy-seven minutes.
pub proof fn lemma_duration_bonus_checkpoints()
    ensures
        spec_duration_bonus(0) == 100,
        spec_duration_bonus(60000) == 93,
        spec_duration_bonus(300000) == 71,
        spec_duration_bonus(600000) == 50,
        spec_duration_bonus(900000) == 35,
        spec_duration_bonus(1200000) == 25,
        spec_duration_bonus(1800000) == 13,
        spec_duration_bonus(2700000) == 4,
        spec_duration_bonus(4620000) == 0,
{
}

/// An unaided solve is worth more than its 300 base points for any
/// duration up to the last bonus threshold, and exactly 300 past it:
/// the time bonus is the only thing above the base, and it runs out at
/// 4586313 milliseconds.
pub proof fn lemma_unaided_solve_score(duration: u64)
    ensures
        duration <= 4586313 ==> (Status::Solved {
            kind: KnowledgeKind::Unaided,
            duration,
        }).spec_score() > 300,
        duration > 4586313 ==> (Status::Solved {
            kind: KnowledgeKind::Unaided,
            duration,
        }).spec_score() == 300,
{
    lemma_duration_bonus_range(duration);
}


/// A handle on the status of the team's current clue. Only a clue that
/// is `Seen`, or `Skipped` and revisited, can be current, so the handle
/// can only be built around those two variants; every transition that
/// needs a current clue is a method here, which makes the rule
/// structural rather than a matter of discipline at each call site.
#[derive(Debug, Clone, Copy)]
pub struct CurrentClueStatus {
    kind: KnowledgeKind,
    time: u64,
    skipped: bool,
}

impl CurrentClueStatus {
    pub closed spec fn spec_kind(self) -> KnowledgeKind {
        self.kind
    }

    pub closed spec fn spec_time(self) -> u64 {
        self.time
    }

    pub closed spec fn spec_skipped(self) -> bool {
        self.skipped
    }

    /// The status this handle stands for.
    pub open spec fn spec_status(self) -> Status {
        if self.spec_skipped() {
            Status::Skipped { kind: self.spec_kind(), time: self.spec_time() }
        } else {
            Status::Seen { kind: self.spec_kind(), time: self.spec_time() }
        }
    }

    pub fn new(status: &Status) -> (r: Option<CurrentClueStatus>)
        ensures
            match *status {
                Status::Seen { kind, time } => {
                    &&& r is Some
                    &&& r->Some_0.spec_kind() == kind
                    &&& r->Some_0.spec_time() == time
                    &&& !r->Some_0.spec_skipped()
                },
                Status::Skipped { kind, time } => {
                    &&& r is Some
                    &&& r->Some_0.spec_kind() == kind
                    &&& r->Some_0.spec_time() == time
                    &&& r->Some_0.spec_skipped()
                },
                _ => r is None,
            },
    {
        match status {
            Status::Seen { kind, time } => Some(CurrentClueStatus {
                kind: *kind,
                time: *time,
                skipped: false,
            }),
            Status::Skipped { kind, time } => Some(CurrentClueStatus {
                kind: *kind,
                time: *time,
                skipped: true,
            }),
            _ => None,
        }
    }

    pub fn get_knowledge_kind(&self) -> (r: KnowledgeKind)
        ensures
            r == self.spec_kind(),
    {
        self.kind
    }

    pub fn is_skipped(&self) -> (r: bool)
        ensures
            r == self.spec_skipped(),
    {
        self.skipped
    }

    /// How long this clue has been current, as of `now`.
    pub fn duration(&self, now: u64) -> (r: u64)
        ensures
            r == spec_elapsed(self.spec_time(), now),
    {
        if now >= self.time {
            now - self.time
        } else {
            0
        }
    }

    /// The status this handle stands for, rebuilt as a plain value.
    pub fn as_status(&self) -> (s: Status)
        ensures
            s == self.spec_status(),
    {
        if self.skipped {
            Status::Skipped { kind: self.kind, time: self.time }
        } else {
            Status::Seen { kind: self.kind, time: self.time }
        }
    }

    /// Asking for a hint only helps an unaided team; any later request
    /// leaves the handle unchanged.
    pub fn hinted(&mut self)
        ensures
            final(self).spec_kind() == (if old(self).spec_kind() == KnowledgeKind::Unaided {
                KnowledgeKind::WithHint
            } else {
                old(self).spec_kind()
            }),
            final(self).spec_time() == old(self).spec_time(),
            final(self).spec_skipped() == old(self).spec_skipped(),
    {
        if matches!(self.kind, KnowledgeKind::Unaided) {
            self.kind = KnowledgeKind::WithHint;
        }
    }

    /// Revealing the item only follows a hint; any other request leaves
    /// the handle unchanged.
    pub fn revealed(&mut self)
        ensures
            final(self).spec_kind() == (if old(self).spec_kind() == KnowledgeKind::WithHint {
                KnowledgeKind::KnowingItem
            } else {
                old(self).spec_kind()
            }),
            final(self).spec_time() == old(self).spec_time(),
            final(self).spec_skipped() == old(self).spec_skipped(),
    {
        if matches!(self.kind, KnowledgeKind::WithHint) {
            self.kind = KnowledgeKind::KnowingItem;
        }
    }

    /// Solving freezes the knowledge level and the elapsed time.
    pub fn solved(self, now: u64) -> (s: Status)
        ensures
            s == (Status::Solved {
                kind: self.spec_kind(),
                duration: spec_elapsed(self.spec_time(), now),
            }),
    {
        let duration = self.duration(now);
        Status::Solved { kind: self.kind, duration }
    }

    /// A first skip shelves the clue, keeping its knowledge and its
    /// original timestamp; skipping it again on a revisit forfeits it
    /// for good.
    pub fn skip(self) -> (s: Status)
        ensures
            s == (if self.spec_skipped() {
                Status::Declined
            } else {
                Status::Skipped { kind: self.spec_kind(), time: self.spec_time() }
            }),
    {
        if self.skipped {
            Status::Declined
        } else {
            Status::Skipped { kind: self.kind, time: self.time }
        }
    }
}

} // verus!
