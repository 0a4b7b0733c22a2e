use vstd::prelude::*;

pub mod arrangement;
pub mod on_disk;
pub mod status;

use sha3::{Digest, Sha3_256};

use crate::clues::status::KnowledgeKind;

verus! {

/// The digest that the catalog stores in place of a plaintext answer.
/// It is a function of the answer's bytes alone, so two submissions
/// match exactly when their digests match.
pub uninterp spec fn digest_of(answer: Seq<char>) -> Seq<u8>;

/// Relies on sha3::Sha3_256 (through the digest traits): hashing the
/// answer's bytes gives a 32-byte digest that depends on the answer
/// alone.
#[verifier::external_body]
pub fn answer_to_code(answer: &str) -> (r: Vec<u8>)
    ensures
        r@ == digest_of(answer@),
        r@.len() == 32,
{
    let mut hasher = Sha3_256::new();
    hasher.update(answer.as_bytes());
    hasher.finalize().to_vec()
}

/// The sixteen lowercase hexadecimal digits, by value.
pub open spec fn hex_digit(n: int) -> char {
    if n == 0 {
        '0'
    } else if n == 1 {
        '1'
    } else if n == 2 {
        '2'
    } else if n == 3 {
        '3'
    } else if n == 4 {
        '4'
    } else if n == 5 {
        '5'
    } else if n == 6 {
        '6'
    } else if n == 7 {
        '7'
    } else if n == 8 {
        '8'
    } else if n == 9 {
        '9'
    } else if n == 10 {
        'a'
    } else if n == 11 {
        'b'
    } else if n == 12 {
        'c'
    } else if n == 13 {
        'd'
    } else if n == 14 {
        'e'
    } else {
        'f'
    }
}

/// Lowercase hexadecimal rendering of a byte string: two digits per
/// byte, high nibble first.
pub open spec fn hex_lower_of(bytes: Seq<u8>) -> Seq<char>
    decreases bytes.len(),
{
    if bytes.len() == 0 {
        Seq::empty()
    } else {
        seq![hex_digit(bytes[0] as int / 16), hex_digit(bytes[0] as int % 16)]
            + hex_lower_of(bytes.drop_first())
    }
}

/// Relies on hex::encode: each byte becomes two lowercase hexadecimal
/// digits, high nibble first.
#[verifier::external_body]
fn to_hex(bytes: &Vec<u8>) -> (r: String)
    ensures
        r@ == hex_lower_of(bytes@),
{
    hex::encode(bytes)
}

/// The mathematical value of a clue: what its strings and its digest
/// say, independent of where the bytes happen to live.
pub ghost struct ClueVal {
    pub poem: Seq<char>,
    pub hint: Seq<char>,
    pub item: Seq<char>,
    pub location: Seq<char>,
    pub code: Seq<u8>,
}

/// A single riddle of the hunt: its text, the hint and the item that
/// can be revealed, the location it is bound to, and the digest of its
/// answer. The plaintext answer is never stored.
#[derive(Debug, Clone, PartialEq, Eq)]
pub struct Clue {
    pub poem: String,
    pub hint: String,
    pub item: String,
    pub location: String,
    pub code: Vec<u8>,
}

impl View for Clue {
    type V = ClueVal;

    open spec fn view(&self) -> ClueVal {
        ClueVal {
            poem: self.poem@,
            hint: self.hint@,
            item: self.item@,
            location: self.location@,
            code: self.code@,
        }
    }
}

impl Clue {
    /// A deep copy whose value is the same clue.
    pub fn duplicate(&self) -> (r: Clue)
        ensures
            r@ == self@,
    {
        let r = Clue {
            poem: self.poem.clone(),
            hint: self.hint.clone(),
            item: self.item.clone(),
            location: self.location.clone(),
            code: copy_bytes(&self.code),
        };
        r
    }

    /// A deterministic test fixture: the answer is the decimal rendering
    /// of `seed`, and the poem, hint and item all spell the digest in
    /// hexadecimal.
    pub fn mock(seed: u64, location: &str) -> (r: Clue)
        ensures
            r@.location == location@,
            r@.code.len() == 32,
            r@.poem == hex_lower_of(r@.code),
            r@.hint == r@.poem,
            r@.item == r@.poem,
    {
        let answer = seed.to_string();
        let code = answer_to_code(answer.as_str());
        let poem = to_hex(&code);
        let hint = poem.clone();
        let item = poem.clone();
        Clue { poem, hint, item, location: location.to_owned(), code }
    }
}

/// A byte-for-byte copy of a byte string.
pub fn copy_bytes(bytes: &Vec<u8>) -> (r: Vec<u8>)
    ensures
        r@ == bytes@,
{
    let mut r: Vec<u8> = Vec::new();
    let mut i: usize = 0;
    while i < bytes.len()
        invariant
            i <= bytes@.len(),
            r@ == bytes@.take(i as int),
        decreases bytes@.len() - i,
    {
        r.push(bytes[i]);
        i += 1;
        proof {
            assert(r@ =~= bytes@.take(i as int));
        }
    }
    proof {
        assert(r@ =~= bytes@);
    }
    r
}

/// Whether two byte strings hold the same bytes.
pub fn bytes_equal(a: &Vec<u8>, b: &Vec<u8>) -> (r: bool)
    ensures
        r == (a@ == b@),
{
    if a.len() != b.len() {
        proof {
            assert(a@.len() != b@.len());
        }
        return false;
    }
    let mut i: usize = 0;
    while i < a.len()
        invariant
            a@.len() == b@.len(),
            i <= a@.len(),
            forall|j: int| 0 <= j < i ==> a@[j] == b@[j],
        decreases a@.len() - i,
    {
        if a[i] != b[i] {
            return false;
        }
        i += 1;
    }
    proof {
        assert(a@ =~= b@);
    }
    true
}

/// What a catalog record turns into once its answer is hashed.
pub open spec fn record_to_clue(rec: on_disk::ClueDefinition) -> ClueVal {
    ClueVal {
        poem: rec.poem@,
        hint: rec.hint@,
        item: rec.item@,
        location: rec.location@,
        code: digest_of(rec.answer@),
    }
}

/// The immutable clue catalog, loaded once.
#[derive(Debug, Clone, PartialEq, Eq)]
pub struct Clues(pub Vec<Clue>);

impl View for Clues {
    type V = Seq<ClueVal>;

    open spec fn view(&self) -> Seq<ClueVal> {
        self.0@.map_values(|c: Clue| c@)
    }
}

impl Clues {
    /// Build the catalog from parsed records, hashing every answer at
    /// once; the plaintext answers are not retained.
    pub fn from_records(records: &on_disk::Clues) -> (r: Clues)
        ensures
            r@.len() == records.0@.len(),
            forall|i: int| 0 <= i < r@.len() ==> r@[i] == record_to_clue(records.0@[i]),
    {
        let mut out: Vec<Clue> = Vec::new();
        let mut i: usize = 0;
        while i < records.0.len()
            invariant
                i <= records.0@.len(),
                out@.len() == i,
                forall|j: int| 0 <= j < i ==> out@[j]@ == record_to_clue(records.0@[j]),
            decreases records.0@.len() - i,
        {
            let rec = &records.0[i];
            let clue = Clue {
                poem: rec.poem.clone(),
                hint: rec.hint.clone(),
                item: rec.item.clone(),
                location: rec.location.clone(),
                code: answer_to_code(rec.answer.as_str()),
            };
            out.push(clue);
            i += 1;
        }
        Clues(out)
    }

    /// A deep copy whose value is the same catalog.
    pub fn duplicate(&self) -> (r: Clues)
        ensures
            r@ == self@,
    {
        let copied = copy_clue_vec(&self.0);
        let r = Clues(copied);
        proof {
            assert(r@ =~= self@);
        }
        r
    }

    /// The fourteen-clue catalog over eight locations that the tests
    /// exercise.
    pub fn mock() -> (r: Clues)
        ensures
            r@.len() == 14,
    {
        let mut v: Vec<Clue> = Vec::new();
        v.push(Clue::mock(0, "A"));
        v.push(Clue::mock(1, "B"));
        v.push(Clue::mock(2, "C"));
        v.push(Clue::mock(3, "D"));
        v.push(Clue::mock(4, "D"));
        v.push(Clue::mock(5, "D"));
        v.push(Clue::mock(6, "E"));
        v.push(Clue::mock(7, "E"));
        v.push(Clue::mock(8, "F"));
        v.push(Clue::mock(9, "F"));
        v.push(Clue::mock(10, "G"));
        v.push(Clue::mock(11, "G"));
        v.push(Clue::mock(12, "H"));
        v.push(Clue::mock(13, "H"));
        Clues(v)
    }
}

/// An element-for-element deep copy of a clue list.
pub fn copy_clue_vec(clues: &Vec<Clue>) -> (r: Vec<Clue>)
    ensures
        r@.len() == clues@.len(),
        forall|i: int| 0 <= i < r@.len() ==> r@[i]@ == clues@[i]@,
{
    let mut r: Vec<Clue> = Vec::new();
    let mut i: usize = 0;
    while i < clues.len()
        invariant
            i <= clues@.len(),
            r@.len() == i,
            forall|j: int| 0 <= j < i ==> r@[j]@ == clues@[j]@,
        decreases clues@.len() - i,
    {
        r.push(clues[i].duplicate());
        i += 1;
    }
    r
}

/// Everything a caller may see about the team's current clue: the clue
/// itself, how much help the team has had, whether the clue was skipped
/// before, and for how many milliseconds it has been current.
#[derive(Debug, Clone, PartialEq, Eq)]
pub struct ClueView {
    pub clue: Clue,
    pub knowledge: KnowledgeKind,
    pub is_previously_skipped: bool,
    pub duration: u64,
}

impl ClueView {
    pub fn new(
        clue: Clue,
        knowledge: KnowledgeKind,
        is_previously_skipped: bool,
        duration: u64,
    ) -> (r: ClueView)
        ensures
            r.clue@ == clue@,
            r.knowledge == knowledge,
            r.is_previously_skipped == is_previously_skipped,
            r.duration == duration,
    {
        ClueView { clue, knowledge, is_previously_skipped, duration }
    }

    /// Asking for a hint only helps an unaided team; any later request
    /// changes nothing.
    pub fn hinted(&mut self)
        ensures
            final(self).knowledge == (if old(self).knowledge == KnowledgeKind::Unaided {
                KnowledgeKind::WithHint
            } else {
                old(self).knowledge
            }),
            final(self).clue@ == old(self).clue@,
            final(self).is_previously_skipped == old(self).is_previously_skipped,
            final(self).duration == old(self).duration,
    {
        if matches!(self.knowledge, KnowledgeKind::Unaided) {
            self.knowledge = KnowledgeKind::WithHint;
        }
    }

    /// Revealing the item only follows a hint; any other request
    /// changes nothing.
    pub fn revealed(&mut self)
        ensures
            final(self).knowledge == (if old(self).knowledge == KnowledgeKind::WithHint {
                KnowledgeKind::KnowingItem
            } else {
                old(self).knowledge
            }),
            final(self).clue@ == old(self).clue@,
            final(self).is_previously_skipped == old(self).is_previously_skipped,
            final(self).duration == old(self).duration,
    {
        if matches!(self.knowledge, KnowledgeKind::WithHint) {
            self.knowledge = KnowledgeKind::KnowingItem;
        }
    }
}

} // verus!
