use vstd::prelude::*;

verus! {

/// One symbol of a path in the word tree.
#[derive(Clone, Copy, Debug, PartialEq, Eq, Structural)]
pub enum WordElement {
    /// Held by the root only: the start of every word.
    BeginWord,
    /// One character of a word.
    Letter(char),
    /// Marks that the path down to its parent spells a whole stored word.
    EndWord,
}

} // verus!
