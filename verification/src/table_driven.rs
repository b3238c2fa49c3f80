//! The frame stack of the iterative parser.

use std::sync::Arc;

use vstd::prelude::*;

use crate::frame::{FrameContext, FrameState, GrammarId, GrammarVariant, ParseMode};
use crate::match_result::MatchResult;
use crate::tables::Table;

#[allow(unused_imports)]
use crate::frame::SequenceState;

verus! {

/// A `smallvec::SmallVec` of terminators: up to four need no allocation.
#[verifier::external_body]
pub struct TerminatorList {
    inner: smallvec::SmallVec<[u32; 4]>,
}

/// The terminators in a list.
pub uninterp spec fn terminator_ids(list: TerminatorList) -> Seq<u32>;

impl TerminatorList {
    /// `SmallVec::from_slice` copies the slice.
    #[verifier::external_body]
    fn from_slice(ids: &[u32]) -> (r: TerminatorList)
        ensures
            terminator_ids(r) == ids@,
    {
        TerminatorList { inner: smallvec::SmallVec::from_slice(ids) }
    }

    /// `SmallVec::as_slice` gives the members in order.
    #[verifier::external_body]
    fn as_slice(&self) -> (r: &[u32])
        ensures
            r@ == terminator_ids(*self),
    {
        self.inner.as_slice()
    }
}

/// What becomes of a frame that was processed.
pub enum TableFrameResult {
    /// It is done with.
    Done,
    /// It goes back on the stack.
    Push(TableParseFrame),
}

/// A parsing task: a grammar at a place in the token stream.
pub struct TableParseFrame {
    pub frame_id: usize,
    pub grammar_id: GrammarId,
    pub pos: usize,
    pub table_terminators: TerminatorList,
    pub state: FrameState,
    pub context: FrameContext,
    /// How far the parent lets the frame match.
    pub parent_max_idx: Option<usize>,
    /// How far the frame matches by its own reckoning; not known at first.
    pub calculated_max_idx: Option<usize>,
    /// Where the match ended.
    pub end_pos: Option<usize>,
    /// The element that matched, for grammars that count elements.
    pub element_key: Option<u64>,
    /// The parse mode, where it is not that of the grammar.
    pub parse_mode_override: Option<ParseMode>,
}

/// The numbers of grammars.
pub open spec fn grammar_ids(list: Seq<GrammarId>) -> Seq<u32> {
    list.map_values(|g: GrammarId| g.0)
}

impl TableParseFrame {
    /// A frame for a child.
    pub fn new_child(
        frame_id: usize,
        grammar_id: GrammarId,
        pos: usize,
        table_terminators: &[GrammarId],
        parent_max_idx: Option<usize>,
    ) -> (r: TableParseFrame)
        ensures
            r.frame_id == frame_id,
            r.grammar_id == grammar_id,
            r.pos == pos,
            terminator_ids(r.table_terminators) == grammar_ids(table_terminators@),
            r.state is Initial,
            r.context is Unset,
            r.parent_max_idx == parent_max_idx,
            r.calculated_max_idx is None,
            r.end_pos is None,
            r.element_key is None,
            r.parse_mode_override is None,
    {
        let mut ids: Vec<u32> = Vec::new();
        for i in 0..table_terminators.len()
            invariant
                ids@ == grammar_ids(table_terminators@.take(i as int)),
        {
            ids.push(table_terminators[i].0);
            assert(ids@ =~= grammar_ids(table_terminators@.take(i + 1)));
        }
        assert(table_terminators@.take(table_terminators@.len() as int) =~= table_terminators@);
        TableParseFrame {
            frame_id,
            grammar_id,
            pos,
            table_terminators: TerminatorList::from_slice(ids.as_slice()),
            state: FrameState::Initial,
            context: FrameContext::Unset,
            parent_max_idx,
            calculated_max_idx: None,
            end_pos: None,
            element_key: None,
            parse_mode_override: None,
        }
    }

    /// The terminators of the frame.
    pub fn terminators(&self) -> (r: Vec<GrammarId>)
        ensures
            grammar_ids(r@) == terminator_ids(self.table_terminators),
    {
        let ids = self.table_terminators.as_slice();
        let mut out: Vec<GrammarId> = Vec::new();
        for i in 0..ids.len()
            invariant
                grammar_ids(out@) == ids@.take(i as int),
        {
            let ghost had = grammar_ids(out@);
            out.push(GrammarId(ids[i]));
            assert(grammar_ids(out@) =~= had.push(ids@[i as int]));
            assert(grammar_ids(out@) =~= ids@.take(i + 1));
        }
        assert(ids@.take(ids@.len() as int) =~= ids@);
        out
    }

    /// The frame once all its children are done; a given end replaces its own.
    pub open spec fn combining(self, end_pos: Option<usize>) -> TableParseFrame {
        TableParseFrame {
            state: FrameState::Combining,
            end_pos: if end_pos is Some {
                end_pos
            } else {
                self.end_pos
            },
            ..self
        }
    }

    /// The frame with its result.
    pub open spec fn complete(self, result: Arc<MatchResult>) -> TableParseFrame {
        TableParseFrame {
            state: FrameState::Complete(result),
            end_pos: Some(result.matched_slice.stop),
            ..self
        }
    }

    /// The frame while a child runs.
    pub open spec fn waiting(self) -> TableParseFrame {
        TableParseFrame { state: FrameState::WaitingForChild, ..self }
    }

    fn transition_to_combining(&mut self, end_pos: Option<usize>)
        ensures
            *final(self) == old(self).combining(end_pos),
    {
        if let Some(pos) = end_pos {
            self.end_pos = Some(pos);
        }
        self.state = FrameState::Combining;
    }
}

/// What a child left for its parent: the match, where it ended, and the element
/// that matched.
pub type ChildResult = (Arc<MatchResult>, usize, Option<u64>);

/// The frames of the parser, and the results that wait for their parents.
pub struct TableParseFrameStack {
    stack: Vec<TableParseFrame>,
    /// The results of complete children, by frame.
    results: Table<ChildResult>,
    pub frame_id_counter: usize,
}

/// The mathematical form of [`TableParseFrameStack`].
#[verifier::ext_equal]
pub struct StackView {
    pub frames: Seq<TableParseFrame>,
    pub results: Map<u128, ChildResult>,
    pub counter: usize,
}

impl StackView {
    /// The stack with one more frame.
    pub open spec fn pushed(self, frame: TableParseFrame) -> StackView {
        StackView { frames: self.frames.push(frame), ..self }
    }

    /// The stack with the last frame replaced.
    pub open spec fn with_last(self, frame: TableParseFrame) -> StackView {
        StackView { frames: self.frames.update(self.frames.len() - 1, frame), ..self }
    }

    /// The stack with one more frame number used.
    pub open spec fn counted(self) -> StackView {
        StackView { counter: (self.counter + 1) as usize, ..self }
    }

    /// The stack with the result of a frame.
    pub open spec fn with_result(self, frame_id: usize, result: ChildResult) -> StackView {
        StackView { results: self.results.insert(frame_id as u128, result), ..self }
    }
}

impl Default for TableParseFrameStack {
    fn default() -> (r: TableParseFrameStack)
        ensures
            r.wf(),
            r@ == (StackView { frames: Seq::empty(), results: Map::empty(), counter: 0 }),
    {
        TableParseFrameStack::new()
    }
}

impl TableParseFrameStack {
    /// Whether the result table is well-formed.
    pub closed spec fn wf(self) -> bool {
        self.results.wf()
    }

    /// The mathematical form.
    pub closed spec fn view(self) -> StackView {
        StackView {
            frames: self.stack@,
            results: self.results@,
            counter: self.frame_id_counter,
        }
    }

    /// The empty stack.
    pub fn new() -> (r: TableParseFrameStack)
        ensures
            r.wf(),
            r@ == (StackView { frames: Seq::empty(), results: Map::empty(), counter: 0 }),
    {
        TableParseFrameStack { stack: Vec::new(), results: Table::new(), frame_id_counter: 0 }
    }

    /// Puts a frame on top.
    pub fn push(&mut self, frame: TableParseFrame)
        requires
            old(self).wf(),
        ensures
            final(self).wf(),
            final(self)@ == old(self)@.pushed(frame),
    {
        self.stack.push(frame);
    }

    /// Takes the frame on top.
    pub fn pop(&mut self) -> (r: Option<TableParseFrame>)
        requires
            old(self).wf(),
        ensures
            final(self).wf(),
            match r {
                Some(f) => old(self)@ == final(self)@.pushed(f),
                None => old(self)@.frames.len() == 0 && final(self)@ == old(self)@,
            },
    {
        let r = self.stack.pop();
        assert(r is Some ==> old(self)@ =~= self@.pushed(r->0));
        assert(r is None ==> old(self)@ =~= self@);
        r
    }

    /// The number of frames.
    pub fn len(&self) -> (r: usize)
        ensures
            r == self@.frames.len(),
    {
        self.stack.len()
    }

    /// The frame on top, to change it in place.
    pub fn last_mut(&mut self) -> (r: Option<&mut TableParseFrame>)
        requires
            old(self).wf(),
        ensures
            final(self).wf(),
            match r {
                Some(f) => old(self)@.frames.len() > 0 && *f == old(self)@.frames.last()
                    && final(self)@ == old(self)@.with_last(*final(f)),
                None => old(self)@.frames.len() == 0 && final(self)@ == old(self)@,
            },
    {
        let n: usize = self.stack.len();
        if n == 0 {
            None
        } else {
            Some(&mut self.stack[n - 1])
        }
    }

    /// The frames, the one on top last.
    pub fn frames(&self) -> (r: &[TableParseFrame])
        ensures
            r@ == self@.frames,
    {
        self.stack.as_slice()
    }

    /// The result that a child left.
    pub fn result(&self, frame_id: usize) -> (r: Option<&ChildResult>)
        requires
            self.wf(),
        ensures
            match r {
                Some(v) => self@.results.contains_key(frame_id as u128) && *v
                    == self@.results[frame_id as u128],
                None => !self@.results.contains_key(frame_id as u128),
            },
    {
        self.results.get(frame_id as u128)
    }

    /// Uses up one frame number.
    pub fn increment_frame_id_counter(&mut self)
        requires
            old(self).wf(),
            old(self)@.counter < usize::MAX,
        ensures
            final(self).wf(),
            final(self)@ == old(self)@.counted(),
    {
        self.frame_id_counter += 1;
    }

    /// Leaves the empty match at a place as the result of a frame.
    pub fn insert_empty_result(&mut self, frame_id: usize, pos: usize)
        requires
            old(self).wf(),
        ensures
            final(self).wf(),
            exists|m: Arc<MatchResult>|
                *m == MatchResult::at(pos) && final(self)@ == #[trigger] old(self)@.with_result(
                    frame_id,
                    (m, pos, None),
                ),
    {
        let m = Arc::new(MatchResult::empty_at(pos));
        self.insert_arc_result_with_key(frame_id, m, pos, None);
        assert(self@ == old(self)@.with_result(frame_id, (m, pos, None)));
    }

    /// Leaves a match as the result of a frame.
    pub fn insert_result(&mut self, frame_id: usize, match_result: MatchResult, end_pos: usize)
        requires
            old(self).wf(),
        ensures
            final(self).wf(),
            exists|m: Arc<MatchResult>|
                *m == match_result && final(self)@ == #[trigger] old(self)@.with_result(
                    frame_id,
                    (m, end_pos, None),
                ),
    {
        let m = Arc::new(match_result);
        self.insert_arc_result_with_key(frame_id, m, end_pos, None);
        assert(self@ == old(self)@.with_result(frame_id, (m, end_pos, None)));
    }

    /// Leaves a shared match as the result of a frame.
    pub fn insert_arc_result(
        &mut self,
        frame_id: usize,
        match_result: Arc<MatchResult>,
        end_pos: usize,
    )
        requires
            old(self).wf(),
        ensures
            final(self).wf(),
            final(self)@ == old(self)@.with_result(frame_id, (match_result, end_pos, None)),
    {
        self.insert_arc_result_with_key(frame_id, match_result, end_pos, None);
    }

    /// Leaves a shared match as the result of a frame, with the element that
    /// matched.
    pub fn insert_arc_result_with_key(
        &mut self,
        frame_id: usize,
        match_result: Arc<MatchResult>,
        end_pos: usize,
        element_key: Option<u64>,
    )
        requires
            old(self).wf(),
        ensures
            final(self).wf(),
            final(self)@ == old(self)@.with_result(
                frame_id,
                (match_result, end_pos, element_key),
            ),
    {
        self.results.insert(frame_id as u128, (match_result, end_pos, element_key));
    }

    /// Puts a parent and its child on the stack; the parent waits.
    pub fn push_child_and_wait(&mut self, parent: TableParseFrame, child: TableParseFrame) -> (r:
        TableFrameResult)
        requires
            old(self).wf(),
            old(self)@.counter < usize::MAX,
        ensures
            final(self).wf(),
            final(self)@ == old(self)@.pushed(parent.waiting()).pushed(child).counted(),
            r is Done,
    {
        let mut parent = parent;
        parent.state = FrameState::WaitingForChild;
        self.push(parent);
        self.push(child);
        self.increment_frame_id_counter();
        TableFrameResult::Done
    }

    /// Puts a frame back whose children are done.
    pub fn transition_to_combining(&mut self, frame: TableParseFrame, end_pos: Option<usize>) -> (r:
        TableFrameResult)
        requires
            old(self).wf(),
        ensures
            final(self).wf(),
            final(self)@ == old(self)@.pushed(frame.combining(end_pos)),
            r is Done,
    {
        let mut frame = frame;
        frame.transition_to_combining(end_pos);
        self.push(frame);
        TableFrameResult::Done
    }

    /// Puts a frame back with its result.
    pub fn complete_frame(&mut self, frame: TableParseFrame, result: Arc<MatchResult>) -> (r:
        TableFrameResult)
        requires
            old(self).wf(),
        ensures
            final(self).wf(),
            final(self)@ == old(self)@.pushed(frame.complete(result)),
            r is Done,
    {
        let mut frame = frame;
        let pos: usize = result.end();
        frame.end_pos = Some(pos);
        frame.state = FrameState::Complete(result);
        self.push(frame);
        TableFrameResult::Done
    }

    /// Leaves the empty match where the frame stands.
    pub fn complete_frame_empty(&mut self, frame: &TableParseFrame) -> (r: TableFrameResult)
        requires
            old(self).wf(),
        ensures
            final(self).wf(),
            exists|m: Arc<MatchResult>|
                *m == MatchResult::at(frame.pos) && final(self)@
                    == #[trigger] old(self)@.with_result(frame.frame_id, (m, frame.pos, None)),
            r is Done,
    {
        self.insert_empty_result(frame.frame_id, frame.pos);
        TableFrameResult::Done
    }

    /// Leaves the empty match at a place.
    pub fn complete_frame_empty_at_pos(&mut self, frame: &TableParseFrame, pos: usize) -> (r:
        TableFrameResult)
        requires
            old(self).wf(),
        ensures
            final(self).wf(),
            exists|m: Arc<MatchResult>|
                *m == MatchResult::at(pos) && final(self)@ == #[trigger] old(self)@.with_result(
                    frame.frame_id,
                    (m, pos, None),
                ),
            r is Done,
    {
        self.insert_empty_result(frame.frame_id, pos);
        TableFrameResult::Done
    }

    /// Tells the frame on top which child it waits for. Tells whether there was
    /// one, of the kind; if not, nothing changes.
    pub fn update_parent_last_child_id(
        &mut self,
        context_type: GrammarVariant,
        child_frame_id: usize,
    ) -> (r: bool)
        requires
            old(self).wf(),
        ensures
            final(self).wf(),
            r == (old(self)@.frames.len() > 0 && old(self)@.frames.last().context.is_of(
                context_type,
            )),
            final(self)@ == (if old(self)@.frames.len() > 0 {
                old(self)@.with_last(
                    TableParseFrame {
                        context: old(self)@.frames.last().context.with_child(
                            context_type,
                            child_frame_id,
                        ),
                        ..old(self)@.frames.last()
                    },
                )
            } else {
                old(self)@
            }),
    {
        match self.last_mut() {
            Some(parent) => parent.context.set_last_child_id(context_type, child_frame_id),
            None => false,
        }
    }

    /// Puts a parent and its child on the stack; the parent knows its child.
    pub fn push_child_and_update_parent(
        &mut self,
        parent_frame: TableParseFrame,
        child_frame: TableParseFrame,
        parent_context_type: GrammarVariant,
    )
        requires
            old(self).wf(),
            old(self)@.counter < usize::MAX,
        ensures
            final(self).wf(),
            final(self)@ == old(self)@.pushed(
                (TableParseFrame {
                    context: parent_frame.context.with_child(
                        parent_context_type,
                        child_frame.frame_id,
                    ),
                    ..parent_frame
                }),
            ).pushed(child_frame).counted(),
    {
        let mut parent = parent_frame;
        let child_id: usize = child_frame.frame_id;
        parent.context.set_last_child_id(parent_context_type, child_id);
        self.push(parent);
        self.increment_frame_id_counter();
        self.push(child_frame);
    }

    /// Puts a child on the stack; the frame on top waits for it, and where it is
    /// a sequence it notes the child and the element.
    pub fn update_sequence_parent_and_push_child(
        &mut self,
        child_frame: TableParseFrame,
        next_element_idx: usize,
    ) -> (r: TableFrameResult)
        requires
            old(self).wf(),
            old(self)@.counter < usize::MAX,
        ensures
            final(self).wf(),
            final(self)@ == (if old(self)@.frames.len() > 0 {
                old(self)@.with_last(
                    old(self)@.frames.last().waiting_at(child_frame.frame_id, next_element_idx),
                )
            } else {
                old(self)@
            }).pushed(child_frame).counted(),
            r is Done,
    {
        let child_id: usize = child_frame.frame_id;
        if let Some(parent) = self.last_mut() {
            if let FrameContext::Sequence(state) = &mut parent.context {
                state.last_child_frame_id = Some(child_id);
                state.current_element_idx = next_element_idx;
            }
            parent.state = FrameState::WaitingForChild;
        }
        self.increment_frame_id_counter();
        self.push(child_frame);
        TableFrameResult::Done
    }
}

impl TableParseFrame {
    /// The frame while a child runs; a sequence notes the child and the element.
    pub open spec fn waiting_at(self, child_id: usize, element: usize) -> TableParseFrame {
        TableParseFrame {
            state: FrameState::WaitingForChild,
            context: match self.context {
                FrameContext::Sequence(s) => FrameContext::Sequence(
                    SequenceState {
                        last_child_frame_id: Some(child_id),
                        current_element_idx: element,
                        ..s
                    },
                ),
                _ => self.context,
            },
            ..self
        }
    }
}

/// A pop gives back what was pushed, and the stack before it.
pub proof fn pop_undoes_push(s: StackView, frame: TableParseFrame, rest: StackView, top: TableParseFrame)
    requires
        rest.pushed(top) == s.pushed(frame),
    ensures
        top == frame,
        rest == s,
{
    let a = rest.frames.push(top);
    let b = s.frames.push(frame);
    assert(a == b);
    assert(a.last() == top && b.last() == frame);
    assert(a.drop_last() =~= rest.frames);
    assert(b.drop_last() =~= s.frames);
    assert(rest.results == s.results && rest.counter == s.counter);
}

/// What a child leaves is what its parent finds, until the frame leaves another.
pub proof fn result_is_found(s: StackView, frame_id: usize, result: ChildResult, other: usize)
    ensures
        s.with_result(frame_id, result).results[frame_id as u128] == result,
        other != frame_id && s.results.contains_key(other as u128) ==> s.with_result(
            frame_id,
            result,
        ).results[other as u128] == s.results[other as u128],
{
}

/// A frame moves on without changing what it is: only its state and its end change, and
/// the end only where a new one is known, which a result always brings. What follows
/// replaces what was.
pub proof fn frames_move_on(
    f: TableParseFrame,
    end: usize,
    result: Arc<MatchResult>,
    child: usize,
    element: usize,
)
    ensures
        f.combining(None).end_pos == f.end_pos,
        f.combining(Some(end)).end_pos == Some(end),
        f.complete(result).end_pos == Some(result.matched_slice.stop),
        f.waiting().end_pos == f.end_pos,
        f.combining(Some(end)).complete(result) == f.complete(result),
        f.waiting().complete(result) == f.complete(result),
        f.waiting().combining(Some(end)) == f.combining(Some(end)),
        f.combining(None).frame_id == f.frame_id,
        f.complete(result).context == f.context,
        f.waiting_at(child, element).waiting() == f.waiting_at(child, element),
        f.context is Sequence ==> f.waiting_at(child, element).context.noted() == Some(child),
        !(f.context is Sequence) ==> f.waiting_at(child, element) == f.waiting(),
{
}

} // verus!
