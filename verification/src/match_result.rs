//! What a grammar made of a run of tokens.

use vstd::prelude::*;

use crate::marker::Slice;

verus! {

/// The match of a grammar: the run of tokens that it covers, and whether part of
/// that did not parse.
#[derive(Clone, Copy, Debug, PartialEq, Eq, Structural)]
pub struct MatchResult {
    pub matched_slice: Slice,
    pub unparsable: bool,
}

impl MatchResult {
    /// The empty match at a place.
    pub open spec fn at(pos: usize) -> MatchResult {
        MatchResult { matched_slice: Slice { start: pos, stop: pos }, unparsable: false }
    }

    /// The empty match at a place.
    pub fn empty_at(pos: usize) -> (r: MatchResult)
        ensures
            r == MatchResult::at(pos),
    {
        MatchResult { matched_slice: Slice { start: pos, stop: pos }, unparsable: false }
    }

    /// The place just behind the match.
    pub fn end(&self) -> (r: usize)
        ensures
            r == self.matched_slice.stop,
    {
        self.matched_slice.stop
    }

    /// Whether the match covers nothing.
    pub fn is_empty(&self) -> (r: bool)
        ensures
            r == (self.matched_slice.start == self.matched_slice.stop),
    {
        self.matched_slice.is_empty()
    }

    /// Whether part of the match did not parse.
    pub fn contains_unparsable(&self) -> (r: bool)
        ensures
            r == self.unparsable,
    {
        self.unparsable
    }
}

} // verus!
