//! Why a set of selectors cannot be compiled.

use vstd::prelude::*;

verus! {

/// Why a set of selectors cannot be compiled.
#[derive(Clone, Copy, Debug, PartialEq, Eq, Structural)]
pub enum SelectorError {
    /// A selector does not have one combinator between each two of its
    /// compound selectors, or has no compound selector at all.
    MalformedSelector,
    /// A name or a value in a selector is longer than `MAX_TEXT_BYTES`.
    TextTooLong,
    /// The selectors need more instructions than can be addressed.
    ProgramTooLarge,
    /// A name or a value in a selector has a character that the document's
    /// encoding cannot express, so no document in that encoding can match it.
    UnencodableText,
}

} // verus!
