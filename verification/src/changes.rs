use vstd::prelude::*;

verus! {

/// A single-character edit, one step of a script that turns a source text
/// into a target text.
#[derive(Debug, Clone, Copy, PartialEq, Eq, Structural)]
pub enum Change {
    /// A character inserted into the text; the position is an index into the
    /// target text, where the character ends up.
    Insertion(char, usize),
    /// A character removed from the text; the position is an index into the
    /// source text, where the character stood.
    Deletion(char, usize),
    /// The character at a position of the source text replaced by another;
    /// the first payload is the character replaced, the second its replacement.
    Substitution(char, char, usize),
}

impl Change {
    /// The insertion of `c` at position `p` of the target text.
    pub open spec fn insertion_at(c: char, p: int) -> Change {
        Change::Insertion(c, p as usize)
    }

    /// The deletion of `c` from position `p` of the source text.
    pub open spec fn deletion_at(c: char, p: int) -> Change {
        Change::Deletion(c, p as usize)
    }

    /// The replacement of `c1` by `c2` at position `p` of the source text.
    pub open spec fn substitution_at(c1: char, c2: char, p: int) -> Change {
        Change::Substitution(c1, c2, p as usize)
    }
}

} // verus!
