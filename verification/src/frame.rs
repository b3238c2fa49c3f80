//! The working state of the iterative parser.
//!
//! A grammar that drives others does not recurse: it puts a frame on a stack and
//! waits there for its children. Each frame carries where it is in its life
//! ([`FrameState`]) and what its kind of grammar has to remember
//! ([`FrameContext`]).
//!
//! Positions in the token stream have the same names everywhere:
//!
//! - `start_idx`: where the grammar began to match; it never moves.
//! - `matched_idx`: how far everything accepted so far reaches.
//! - `working_idx`: where the next child or delimiter is tried; it may run ahead
//!   of `matched_idx` and fall back.
//! - `max_idx`: how far the grammar may match at most.

use std::sync::Arc;

use vstd::prelude::*;

use crate::kind::MetaType;
use crate::match_result::MatchResult;
use crate::tables::IdMap;

verus! {

/// The number of a grammar in the grammar table.
#[derive(Clone, Copy, Debug, PartialEq, Eq, Structural)]
pub struct GrammarId(pub u32);

/// The kind of a grammar.
#[derive(Clone, Copy, Debug, PartialEq, Eq, Structural)]
pub enum GrammarVariant {
    OneOf,
    Sequence,
    Ref,
    Delimited,
    Bracketed,
    AnyNumberOf,
    StringParser,
    Token,
    Meta,
}

/// How far a grammar claims what follows it.
#[derive(Clone, Copy, Debug, PartialEq, Eq, Structural)]
pub enum ParseMode {
    Strict,
    Greedy,
    GreedyOnceStarted,
}

/// Where a frame is in its life: it starts, waits for children, combines what
/// they matched, and is complete.
pub enum FrameState {
    /// Nothing is done yet.
    Initial,
    /// A child runs; the context tells where to go on.
    WaitingForChild,
    /// All children are done.
    Combining,
    /// The result is there.
    Complete(Arc<MatchResult>),
}

/// What a frame remembers, by its kind of grammar.
pub enum FrameContext {
    /// Nothing yet.
    Unset,
    OneOf(OneOfState),
    Sequence(SequenceState),
    Ref(RefState),
    Delimited(DelimitedState),
    Bracketed(BracketedState),
    AnyNumberOf(AnyNumberOfState),
}

/// `AnyNumberOf` matches its elements again and again, keeps the best candidate
/// of each round and gathers what matched.
pub struct AnyNumberOfState {
    pub grammar_id: GrammarId,
    pub pruned_children: Vec<GrammarId>,
    pub count: usize,
    pub matched_idx: usize,
    pub working_idx: usize,
    /// How often each element matched.
    pub option_counter: IdMap,
    pub max_idx: usize,
    pub last_child_frame_id: Option<usize>,
    pub matched: Arc<MatchResult>,
    /// The best candidate of this round and its grammar; the one that ends last
    /// wins.
    pub longest_match: (Arc<MatchResult>, Option<GrammarId>),
    /// The number of elements tried in this round.
    pub tried_elements: usize,
}

/// `Delimited` matches elements and delimiters in turn, and holds each delimiter
/// back until an element follows it.
pub struct DelimitedState {
    pub grammar_id: GrammarId,
    pub delimiter_count: usize,
    pub matched_idx: usize,
    pub working_idx: usize,
    pub max_idx: usize,
    pub phase: DelimitedPhase,
    pub last_child_frame_id: Option<usize>,
    /// The delimiter that is held back.
    pub delimiter_match: Option<Arc<MatchResult>>,
    /// Where to fall back to if the delimiter ends the list.
    pub pos_before_delimiter: Option<usize>,
    /// The terminators for the elements.
    pub child_terminators: Vec<GrammarId>,
    pub working_match: Arc<MatchResult>,
}

/// `Bracketed` matches an opening bracket, the content in order, and a closing
/// bracket.
pub struct BracketedState {
    pub grammar_id: GrammarId,
    pub phase: BracketedPhase,
    pub last_child_frame_id: Option<usize>,
    pub bracket_max_idx: Option<usize>,
    /// The elements of the content.
    pub content_ids: Vec<GrammarId>,
    /// The element that is matched now.
    pub content_idx: usize,
    /// The parse mode of the content, where it is not its own.
    pub parse_mode_override: Option<ParseMode>,
    pub child_matches: Vec<Arc<MatchResult>>,
}

/// `Sequence` matches its elements in order.
pub struct SequenceState {
    pub seq_grammar_id: GrammarId,
    pub start_idx: usize,
    pub matched_idx: usize,
    pub max_idx: usize,
    /// `max_idx` before it was trimmed.
    pub original_max_idx: usize,
    pub last_child_frame_id: Option<usize>,
    /// The element that is matched now.
    pub current_element_idx: usize,
    /// Whether the first match is still to come.
    pub first_match: bool,
    /// The metas that wait for the next match.
    pub meta_buffer: Vec<MetaType>,
    /// The metas to insert, with their places.
    pub insert_segments: Vec<(usize, MetaType)>,
    pub child_matches: Vec<Arc<MatchResult>>,
    /// The terminators for the elements.
    pub child_terminators: Vec<GrammarId>,
}

/// `OneOf` tries each alternative at the same place and keeps the best.
pub struct OneOfState {
    pub pruned_children: Vec<GrammarId>,
    pub post_skip_pos: usize,
    /// The best candidate, the number of tokens that it takes, and its grammar.
    pub longest_match: Option<(Arc<MatchResult>, usize, GrammarId)>,
    pub tried_elements: usize,
    pub max_idx: usize,
    pub last_child_frame_id: Option<usize>,
    /// The alternative that is tried now.
    pub current_child_id: Option<GrammarId>,
}

/// `Ref` hands the match to the grammar that it names.
pub struct RefState {
    pub grammar_id: GrammarId,
    pub name: String,
    pub segment_class_name: Option<String>,
    pub segment_type: Option<String>,
    /// Where the child started.
    pub saved_pos: usize,
    pub last_child_frame_id: Option<usize>,
    pub match_result: Arc<MatchResult>,
}

/// What `Bracketed` matches now.
#[derive(Clone, Copy, Debug, PartialEq, Eq, Structural)]
pub enum BracketedPhase {
    MatchingOpen,
    MatchingContent,
    MatchingClose,
    Complete,
}

/// What `Delimited` matches now.
#[derive(Clone, Copy, Debug, PartialEq, Eq, Structural)]
pub enum DelimitedPhase {
    MatchingElement,
    MatchingDelimiter,
}

impl FrameContext {
    /// Whether the context is that of a grammar of the kind.
    pub open spec fn is_of(self, kind: GrammarVariant) -> bool {
        match self {
            FrameContext::Unset => false,
            FrameContext::OneOf(_) => kind == GrammarVariant::OneOf,
            FrameContext::Sequence(_) => kind == GrammarVariant::Sequence,
            FrameContext::Ref(_) => kind == GrammarVariant::Ref,
            FrameContext::Delimited(_) => kind == GrammarVariant::Delimited,
            FrameContext::Bracketed(_) => kind == GrammarVariant::Bracketed,
            FrameContext::AnyNumberOf(_) => kind == GrammarVariant::AnyNumberOf,
        }
    }

    /// The context with the frame of the child that is waited for; only where it
    /// is of the kind.
    pub open spec fn with_child(self, kind: GrammarVariant, id: usize) -> FrameContext {
        if !self.is_of(kind) {
            self
        } else {
            match self {
                FrameContext::Unset => self,
                FrameContext::OneOf(s) => FrameContext::OneOf(
                    OneOfState { last_child_frame_id: Some(id), ..s },
                ),
                FrameContext::Sequence(s) => FrameContext::Sequence(
                    SequenceState { last_child_frame_id: Some(id), ..s },
                ),
                FrameContext::Ref(s) => FrameContext::Ref(
                    RefState { last_child_frame_id: Some(id), ..s },
                ),
                FrameContext::Delimited(s) => FrameContext::Delimited(
                    DelimitedState { last_child_frame_id: Some(id), ..s },
                ),
                FrameContext::Bracketed(s) => FrameContext::Bracketed(
                    BracketedState { last_child_frame_id: Some(id), ..s },
                ),
                FrameContext::AnyNumberOf(s) => FrameContext::AnyNumberOf(
                    AnyNumberOfState { last_child_frame_id: Some(id), ..s },
                ),
            }
        }
    }

    /// Notes the frame of the child that is waited for. Tells whether the context
    /// was of the kind; if not, nothing changes.
    pub fn set_last_child_id(&mut self, context_type: GrammarVariant, child_frame_id: usize) -> (r:
        bool)
        ensures
            r == old(self).is_of(context_type),
            *final(self) == old(self).with_child(context_type, child_frame_id),
    {
        match self {
            FrameContext::OneOf(s) => if context_type == GrammarVariant::OneOf {
                s.last_child_frame_id = Some(child_frame_id);
                true
            } else {
                false
            },
            FrameContext::Sequence(s) => if context_type == GrammarVariant::Sequence {
                s.last_child_frame_id = Some(child_frame_id);
                true
            } else {
                false
            },
            FrameContext::Ref(s) => if context_type == GrammarVariant::Ref {
                s.last_child_frame_id = Some(child_frame_id);
                true
            } else {
                false
            },
            FrameContext::Delimited(s) => if context_type == GrammarVariant::Delimited {
                s.last_child_frame_id = Some(child_frame_id);
                true
            } else {
                false
            },
            FrameContext::Bracketed(s) => if context_type == GrammarVariant::Bracketed {
                s.last_child_frame_id = Some(child_frame_id);
                true
            } else {
                false
            },
            FrameContext::AnyNumberOf(s) => if context_type == GrammarVariant::AnyNumberOf {
                s.last_child_frame_id = Some(child_frame_id);
                true
            } else {
                false
            },
            FrameContext::Unset => false,
        }
    }
}

impl FrameContext {
    /// The child that is waited for, if one is noted.
    pub open spec fn noted(self) -> Option<usize> {
        match self {
            FrameContext::Unset => None,
            FrameContext::OneOf(s) => s.last_child_frame_id,
            FrameContext::Sequence(s) => s.last_child_frame_id,
            FrameContext::Ref(s) => s.last_child_frame_id,
            FrameContext::Delimited(s) => s.last_child_frame_id,
            FrameContext::Bracketed(s) => s.last_child_frame_id,
            FrameContext::AnyNumberOf(s) => s.last_child_frame_id,
        }
    }
}

/// Noting a child: it is found where the context is of the kind, which every context
/// but one that is not set is of one kind only; a second note replaces the first; and
/// nothing changes where the kind is another.
pub proof fn noted_child_is_found(
    c: FrameContext,
    kind: GrammarVariant,
    other: GrammarVariant,
    a: usize,
    b: usize,
)
    ensures
        c.is_of(kind) ==> c.with_child(kind, a).noted() == Some(a),
        c.is_of(kind) ==> c.with_child(kind, a).is_of(kind),
        c.is_of(kind) && c.is_of(other) ==> kind == other,
        c.with_child(kind, a).with_child(kind, b) == c.with_child(kind, b),
        !c.is_of(kind) ==> c.with_child(kind, a) == c,
        c.is_of(kind) && c.noted() == Some(a) ==> c.with_child(kind, a) == c,
        !c.is_of(GrammarVariant::OneOf) && !c.is_of(GrammarVariant::Sequence) && !c.is_of(
            GrammarVariant::Ref,
        ) && !c.is_of(GrammarVariant::Delimited) && !c.is_of(GrammarVariant::Bracketed)
            && !c.is_of(GrammarVariant::AnyNumberOf) ==> c is Unset,
{
}

} // verus!
