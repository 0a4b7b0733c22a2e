use vstd::prelude::*;

use vstd::string::StringSliceAdditionalSpecFns;
use vstd::string::StrSliceExecFns;

use crate::clues::{bytes_equal, copy_bytes};
use crate::randomness::random_byte_in_range;

verus! {

/// The uppercase folding of one ASCII character, as a byte: the letters
/// 'a' through 'z' fold to 'A' through 'Z', everything else keeps its
/// own code.
pub open spec fn spec_upper_byte(c: char) -> u8 {
    if 'a' <= c && c <= 'z' {
        ((c as u8) - 32) as u8
    } else {
        c as u8
    }
}

/// A session code of `N` ASCII characters, folded to uppercase. It is
/// the public identifier a team types to come back to its session.
#[derive(Debug, Clone, PartialEq, Eq, Hash)]
pub struct GenericSessionId<const N: usize> {
    code: Vec<u8>,
}

impl<const N: usize> View for GenericSessionId<N> {
    type V = Seq<u8>;

    closed spec fn view(&self) -> Seq<u8> {
        self.code@
    }
}

/// A well-formed identifier of `n` characters: exactly `n` bytes, all
/// of them ASCII.
pub open spec fn spec_id_wf(bytes: Seq<u8>, n: int) -> bool {
    &&& bytes.len() == n
    &&& forall|i: int| 0 <= i < bytes.len() ==> bytes[i] < 128
}

impl<const N: usize> GenericSessionId<N> {
    /// Exactly `N` bytes, all of them ASCII.
    pub open spec fn wf(self) -> bool {
        spec_id_wf(self@, N as int)
    }

    /// Accept a code of exactly `N` ASCII characters and store it
    /// folded to uppercase; reject anything else.
    pub fn new(code: &str) -> (r: Option<Self>)
        ensures
            r is Some <==> (code.is_ascii() && code@.len() == N),
            r is Some ==> {
                &&& r->Some_0.wf()
                &&& r->Some_0@ == code@.map_values(|c: char| spec_upper_byte(c))
            },
    {
        if !code.is_ascii() {
            return None;
        }
        let bytes = code.as_bytes_vec();
        proof {
            broadcast use vstd::string::is_ascii_spec_bytes;

            assert(bytes@.len() == code@.len());
        }
        if bytes.len() != N {
            return None;
        }
        let mut out: Vec<u8> = Vec::new();
        let mut i: usize = 0;
        while i < bytes.len()
            invariant
                code.is_ascii(),
                bytes@ == code.spec_bytes(),
                bytes@.len() == code@.len(),
                forall|j: int| 0 <= j < bytes@.len() ==> bytes@[j] == code@[j] as u8,
                forall|j: int| 0 <= j < code@.len() ==> '\0' <= #[trigger] code@[j] <= '\u{7f}',
                i <= bytes@.len(),
                out@.len() == i,
                forall|j: int| 0 <= j < i ==> out@[j] == spec_upper_byte(code@[j]),
            decreases bytes@.len() - i,
        {
            let b = bytes[i];
            let ub: u8 = if b >= 97 && b <= 122 {
                b - 32
            } else {
                b
            };
            proof {
                let c = code@[i as int];
                assert(c as u8 == b);
                assert((c as nat) < 128);
                assert(('a' <= c && c <= 'z') <==> (97 <= b <= 122));
                assert(ub == spec_upper_byte(c));
            }
            out.push(ub);
            i += 1;
        }
        let id = GenericSessionId { code: out };
        proof {
            assert(id@ =~= code@.map_values(|c: char| spec_upper_byte(c)));
            assert forall|j: int| 0 <= j < id@.len() implies id@[j] < 128 by {
                assert(id@[j] == spec_upper_byte(code@[j]));
            }
        }
        Some(id)
    }

    /// Draw a fresh code of `N` uppercase letters.
    pub fn random(rng: &mut rand::rngs::ThreadRng) -> (r: Self)
        ensures
            r.wf(),
            forall|i: int| 0 <= i < r@.len() ==> 65 <= #[trigger] r@[i] <= 90,
    {
        let mut buf: Vec<u8> = Vec::new();
        let mut i: usize = 0;
        while i < N
            invariant
                i <= N,
                buf@.len() == i,
                forall|j: int| 0 <= j < i ==> 65 <= #[trigger] buf@[j] <= 90,
            decreases N - i,
        {
            // the uppercase letters: b'A' through b'Z'
            buf.push(random_byte_in_range(rng, 65, 90));
            i += 1;
        }
        GenericSessionId { code: buf }
    }

    /// The stored bytes, as a fresh vector.
    pub fn bytes(&self) -> (r: Vec<u8>)
        ensures
            r@ == self@,
    {
        copy_bytes(&self.code)
    }

    /// Whether two codes are the same identifier.
    pub fn matches(&self, other: &Self) -> (r: bool)
        ensures
            r == (self@ == other@),
    {
        bytes_equal(&self.code, &other.code)
    }

    /// A copy whose value is the same identifier.
    pub fn duplicate(&self) -> (r: Self)
        ensures
            r@ == self@,
    {
        GenericSessionId { code: copy_bytes(&self.code) }
    }
}

/// The four-letter code used throughout the hunt.
pub type SessionId = GenericSessionId<4>;

} // verus!
