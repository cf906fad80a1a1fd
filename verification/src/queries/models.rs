//! The query model shared with the host side: the kinds of query a payload
//! can carry, and how a clause combines with its siblings.

use vstd::prelude::*;

verus! {

/// The kinds of query a payload can name.
///
/// This type carries no numbers: where a kind is numbered on the wire, the
/// serialiser numbers it by its position in this declaration, so kinds are
/// only ever appended, the typo-tolerant ones last.
#[derive(Debug, Clone, Copy, PartialEq, Eq, Structural)]
pub enum QueryType {
    BoolQuery,
    PhraseQuery,
    PhrasePrefixQuery,
    TermPrefixQuery,
    TermQuery,
    EveryTermQuery,
    OneOfTermQuery,
    AllQuery,
    FuzzyTermQuery,
    OneOfFuzzyTermQuery,
}

/// How a clause of a boolean query takes part in a match.
#[derive(Debug, Clone, Copy, PartialEq, Eq, Structural)]
pub enum QueryModifier {
    /// The clause must match.
    Must,
    /// The clause may match, and adds to the score when it does.
    Should,
    /// The clause must not match.
    MustNot,
}

} // verus!
