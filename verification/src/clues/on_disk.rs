use vstd::prelude::*;

verus! {

/// One clue as it is written in the catalog file. The plaintext
/// `answer` exists only here: building the catalog hashes it at once
/// and keeps nothing but the digest.
#[derive(Debug, Clone, PartialEq, Eq)]
pub struct ClueDefinition {
    pub poem: String,
    pub hint: String,
    pub item: String,
    pub location: String,
    pub answer: String,
}

/// The catalog as it is written in the catalog file.
#[derive(Debug, Clone, PartialEq, Eq)]
pub struct Clues(pub Vec<ClueDefinition>);

} // verus!
