//! Re-validation: does an edited container still match its grammar?
//!
//! The grammar of the container is matched against the container's own leaves,
//! typed as they are, and not against text that is lexed again. A leaf of the
//! wrong type in its place makes the match incomplete, and the edit is rejected.

use vstd::prelude::*;

use crate::arena::state::{NodeId, PlannedChild};
use crate::arena::Arena;
use crate::match_result::MatchResult;
use crate::tables::Table;
use crate::text::clone_texts;
use crate::token::{compute_bracket_pairs, Token};

#[allow(unused_imports)]
use crate::arena::overlay::Overlay;
#[allow(unused_imports)]
use crate::arena::plan::grouped;
#[allow(unused_imports)]
use crate::arena::state::{ArenaState, NodeRecord, PlannedView};
#[allow(unused_imports)]
use crate::edit::{EditKind, EditOp, OpView};
#[allow(unused_imports)]
use crate::token::{BracketScan, TokenView};
#[allow(unused_imports)]
use crate::tree::LeafView;

verus! {

/// The verdict on a container.
#[derive(Clone, Copy, Debug, PartialEq, Eq, Structural)]
pub enum RevalidateOutcome {
    /// The grammar matched all leaves.
    Valid,
    /// The match was incomplete, or part of it did not parse.
    Invalid,
    /// The container has no grammar; there is nothing to check.
    Skipped,
}

/// What re-validation reads of a leaf.
#[derive(Debug)]
pub struct LeafDescriptor {
    pub raw: String,
    pub instance_types: Vec<String>,
    pub class_types: Vec<String>,
    pub is_code: bool,
    pub is_meta: bool,
}

impl LeafDescriptor {
    /// The mathematical form.
    pub open spec fn view(self) -> LeafView {
        LeafView {
            raw: self.raw@,
            instance_types: crate::text::texts(self.instance_types@),
            class_types: crate::text::texts(self.class_types@),
            is_code: self.is_code,
            is_meta: self.is_meta,
        }
    }

    /// The mathematical forms of a list.
    pub open spec fn views(list: Seq<LeafDescriptor>) -> Seq<LeafView> {
        Seq::new(list.len(), |i: int| list[i]@)
    }
}

/// Whether a class has a grammar.
pub type GrammarLookup = spec_fn(Seq<char>) -> bool;

/// What the grammar of a class makes of tokens; nothing where matching fails.
pub type GrammarMatch = spec_fn(Seq<char>, Seq<TokenView>) -> Option<MatchResult>;

/// Whether the function looks up grammars as `known` says.
pub open spec fn looks_up<F: Fn(&str) -> bool>(f: F, known: GrammarLookup) -> bool {
    forall|class: &str, r: bool| #[trigger]
        call_ensures(f, (class,), r) ==> r == known(class@)
}

/// Whether the function matches as `made` says.
pub open spec fn matches_as<G: Fn(&str, &Vec<Token>) -> Option<MatchResult>>(
    g: G,
    made: GrammarMatch,
) -> bool {
    forall|class: &str, tokens: &Vec<Token>, r: Option<MatchResult>| #[trigger]
        call_ensures(g, (class, tokens), r) ==> r == made(class@, Token::views(tokens@))
}

/// Whether the functions can be called on anything.
pub open spec fn callable<F: Fn(&str) -> bool, G: Fn(&str, &Vec<Token>) -> Option<MatchResult>>(
    f: F,
    g: G,
) -> bool {
    &&& forall|class: &str| #[trigger] call_requires(f, (class,))
    &&& forall|class: &str, tokens: &Vec<Token>| #[trigger] call_requires(g, (class, tokens))
}

impl LeafView {
    /// The token made from the leaf.
    pub open spec fn token(self) -> TokenView {
        TokenView::synthetic(
            self.raw,
            self.instance_types,
            self.class_types,
            self.is_code,
            self.is_meta,
        )
    }

    /// The leaves that are no metas.
    pub open spec fn solid(leaves: Seq<LeafView>) -> Seq<LeafView> {
        leaves.filter(|l: LeafView| !l.is_meta)
    }

    /// Which leaves are code.
    pub open spec fn code_flags(leaves: Seq<LeafView>) -> Seq<bool> {
        Seq::new(leaves.len(), |i: int| leaves[i].is_code)
    }

    /// The leaves from the first to the last that is code.
    pub open spec fn trimmed(leaves: Seq<LeafView>) -> Seq<LeafView> {
        let flags = LeafView::code_flags(leaves);
        leaves.take(crate::arena::plan::reach(flags) as int).skip(
            crate::arena::plan::lead(flags) as int,
        )
    }

    /// The tokens that the grammar is matched against: those of the leaves that
    /// are no metas, from the first to the last code, with brackets paired.
    pub open spec fn tokens(leaves: Seq<LeafView>) -> Seq<TokenView> {
        BracketScan::paired(
            LeafView::trimmed(LeafView::solid(leaves)).map_values(|l: LeafView| l.token()),
        )
    }

    /// Whether there is no code among the leaves.
    pub open spec fn codeless(leaves: Seq<LeafView>) -> bool {
        forall|i: int| 0 <= i < leaves.len() ==> !(#[trigger] leaves[i]).is_code || leaves[i].is_meta
    }

    /// The verdict on leaves whose class has a grammar: without code there is
    /// nothing to match; else the match has to cover all tokens, and none of
    /// them may be left unparsed.
    pub open spec fn verdict(
        leaves: Seq<LeafView>,
        class: Seq<char>,
        made: GrammarMatch,
    ) -> RevalidateOutcome {
        if LeafView::codeless(leaves) {
            RevalidateOutcome::Valid
        } else {
            let tokens = LeafView::tokens(leaves);
            match made(class, tokens) {
                Some(m) => if m.matched_slice.stop == tokens.len() && m.matched_slice.start
                    != m.matched_slice.stop && !m.unparsable {
                    RevalidateOutcome::Valid
                } else {
                    RevalidateOutcome::Invalid
                },
                None => RevalidateOutcome::Invalid,
            }
        }
    }

    /// The verdict on the leaves of a container of a class, if it has one.
    pub open spec fn outcome(
        leaves: Seq<LeafView>,
        class: Option<Seq<char>>,
        known: GrammarLookup,
        made: GrammarMatch,
    ) -> RevalidateOutcome {
        match class {
            None => RevalidateOutcome::Skipped,
            Some(c) => if known(c) {
                LeafView::verdict(leaves, c, made)
            } else {
                RevalidateOutcome::Skipped
            },
        }
    }
}

pub(crate) proof fn lead_all(flags: Seq<bool>)
    ensures
        forall|i: int| 0 <= i < crate::arena::plan::lead(flags) ==> !(#[trigger] flags[i]),
    decreases flags.len(),
{
    crate::arena::plan::lead_in_range(flags);
    if flags.len() > 0 && !flags[0] {
        let rest = flags.drop_first();
        lead_all(rest);
        assert forall|i: int| 0 <= i < crate::arena::plan::lead(flags) implies !(
        #[trigger] flags[i]) by {
            if i > 0 {
                assert(rest[i - 1] == flags[i]);
            }
        }
    }
}

proof fn filter_member(leaves: Seq<LeafView>, i: int)
    requires
        0 <= i < leaves.len(),
        !leaves[i].is_meta,
    ensures
        LeafView::solid(leaves).contains(leaves[i]),
    decreases leaves.len(),
{
    reveal(Seq::filter);
    let pred = |l: LeafView| !l.is_meta;
    let rest = leaves.drop_last();
    if i < leaves.len() - 1 {
        filter_member(rest, i);
        assert(rest[i] == leaves[i]);
        let j = choose|j: int|
            0 <= j < LeafView::solid(rest).len() && LeafView::solid(rest)[j] == leaves[i];
        assert(LeafView::solid(leaves)[j] == leaves[i]);
    } else {
        assert(LeafView::solid(leaves)[LeafView::solid(rest).len() as int] == leaves[i]);
    }
}

proof fn filter_origin(leaves: Seq<LeafView>, j: int)
    requires
        0 <= j < LeafView::solid(leaves).len(),
    ensures
        !LeafView::solid(leaves)[j].is_meta,
        leaves.contains(LeafView::solid(leaves)[j]),
    decreases leaves.len(),
{
    reveal(Seq::filter);
    if leaves.len() > 0 {
        let rest = leaves.drop_last();
        if j < LeafView::solid(rest).len() {
            filter_origin(rest, j);
            let i = choose|i: int| 0 <= i < rest.len() && rest[i] == LeafView::solid(rest)[j];
            assert(leaves[i] == LeafView::solid(leaves)[j]);
        } else {
            assert(leaves[leaves.len() - 1] == LeafView::solid(leaves)[j]);
        }
    }
}

/// The verdict on leaves whose class has a grammar.
pub fn revalidate_leaf_descriptors<G: Fn(&str, &Vec<Token>) -> Option<MatchResult>>(
    leaves: &Vec<LeafDescriptor>,
    class: &str,
    rematch: &G,
) -> (r: RevalidateOutcome)
    requires
        forall|class: &str, tokens: &Vec<Token>| #[trigger]
            call_requires(*rematch, (class, tokens)),
    ensures
        forall|made: GrammarMatch| #[trigger]
            matches_as(*rematch, made) ==> r == LeafView::verdict(
                LeafDescriptor::views(leaves@),
                class@,
                made,
            ),
{
    let ghost views = LeafDescriptor::views(leaves@);
    let ghost solid = LeafView::solid(views);
    let mut kept: Vec<&LeafDescriptor> = Vec::new();
    let ghost pred = |l: LeafView| !l.is_meta;
    proof {
        reveal(Seq::filter);
    }
    assert(views.take(0).filter(pred) =~= Seq::empty());
    for i in 0..leaves.len()
        invariant
            views == LeafDescriptor::views(leaves@),
            pred == (|l: LeafView| !l.is_meta),
            kept@.len() == views.take(i as int).filter(pred).len(),
            forall|j: int|
                0 <= j < kept@.len() ==> (#[trigger] kept@[j])@ == views.take(i as int).filter(
                    pred,
                )[j],
    {
        proof {
            reveal(Seq::filter);
            assert(views.take(i + 1).drop_last() =~= views.take(i as int));
            assert(views.take(i + 1).last() == leaves@[i as int]@);
        }
        if !leaves[i].is_meta {
            kept.push(&leaves[i]);
        }
    }
    assert(views.take(views.len() as int) =~= views);
    let ghost flags = LeafView::code_flags(solid);
    proof {
        crate::arena::plan::lead_in_range(flags);
        crate::arena::plan::reach_in_range(flags);
        lead_all(flags);
    }
    let mut start: usize = 0;
    assert(flags.skip(0) =~= flags);
    while start < kept.len() && !kept[start].is_code
        invariant
            kept@.len() == solid.len(),
            forall|j: int| 0 <= j < kept@.len() ==> (#[trigger] kept@[j])@ == solid[j],
            flags == LeafView::code_flags(solid),
            start <= kept@.len(),
            crate::arena::plan::lead(flags) == start + crate::arena::plan::lead(
                flags.skip(start as int),
            ),
        decreases kept@.len() - start,
    {
        assert(kept@[start as int]@ == solid[start as int]);
        assert(flags.skip(start as int)[0] == solid[start as int].is_code);
        assert(flags.skip(start as int).drop_first() =~= flags.skip(start + 1));
        start += 1;
    }
    if start == kept.len() {
        proof {
            assert forall|i: int| 0 <= i < views.len() implies !(#[trigger] views[i]).is_code
                || views[i].is_meta by {
                if !views[i].is_meta {
                    filter_member(views, i);
                    let j = choose|j: int| 0 <= j < solid.len() && solid[j] == views[i];
                    assert(!flags[j]);
                }
            }
        }
        return RevalidateOutcome::Valid;
    }
    assert(kept@[start as int]@ == solid[start as int]);
    assert(flags.skip(start as int)[0]);
    assert(crate::arena::plan::lead(flags) == start);
    proof {
        assert(!LeafView::codeless(views)) by {
            filter_origin(views, start as int);
            let i = choose|i: int| 0 <= i < views.len() && views[i] == solid[start as int];
            assert(views[i].is_code && !views[i].is_meta);
        }
    }
    let mut stop: usize = kept.len();
    assert(flags.take(stop as int) =~= flags);
    while stop > start && !kept[stop - 1].is_code
        invariant
            kept@.len() == solid.len(),
            forall|j: int| 0 <= j < kept@.len() ==> (#[trigger] kept@[j])@ == solid[j],
            flags == LeafView::code_flags(solid),
            start < kept@.len(),
            flags[start as int],
            start < stop <= kept@.len(),
            crate::arena::plan::reach(flags) == crate::arena::plan::reach(
                flags.take(stop as int),
            ),
        decreases stop,
    {
        assert(kept@[stop - 1]@ == solid[stop - 1]);
        assert(flags.take(stop as int).last() == solid[stop - 1].is_code);
        assert(flags.take(stop as int).drop_last() =~= flags.take(stop - 1));
        stop -= 1;
    }
    assert(kept@[stop - 1]@ == solid[stop - 1]);
    assert(flags.take(stop as int).last());
    assert(crate::arena::plan::reach(flags) == stop);
    let ghost trimmed = LeafView::trimmed(solid);
    let ghost made_tokens = trimmed.map_values(|l: LeafView| l.token());
    let mut tokens: Vec<Token> = Vec::new();
    let mut i: usize = start;
    assert(Token::views(tokens@) =~= made_tokens.take(0));
    while i < stop
        invariant
            kept@.len() == solid.len(),
            forall|j: int| 0 <= j < kept@.len() ==> (#[trigger] kept@[j])@ == solid[j],
            start <= i <= stop <= kept@.len(),
            trimmed == solid.take(stop as int).skip(start as int),
            made_tokens == trimmed.map_values(|l: LeafView| l.token()),
            Token::views(tokens@) == made_tokens.take(i - start),
        decreases stop - i,
    {
        let l = kept[i];
        let ghost before = Token::views(tokens@);
        assert(kept@[i as int]@ == solid[i as int]);
        assert(trimmed[i - start] == solid[i as int]);
        let token = Token::synthetic_leaf(
            l.raw.clone(),
            clone_texts(&l.instance_types),
            clone_texts(&l.class_types),
            l.is_code,
            l.is_meta,
        );
        let ghost view = token@;
        tokens.push(token);
        assert(view == made_tokens[i - start]);
        assert(Token::views(tokens@) =~= before.push(view));
        i += 1;
        assert(Token::views(tokens@) =~= made_tokens.take(i - start));
    }
    assert(made_tokens.take(made_tokens.len() as int) =~= made_tokens);
    compute_bracket_pairs(&mut tokens);
    assert(Token::views(tokens@) == LeafView::tokens(views));
    match rematch(class, &tokens) {
        Some(m) => if m.end() == tokens.len() && !m.is_empty() && !m.contains_unparsable() {
            RevalidateOutcome::Valid
        } else {
            RevalidateOutcome::Invalid
        },
        None => RevalidateOutcome::Invalid,
    }
}

impl ArenaState {
    /// The verdict on a container as child lists will leave it.
    pub open spec fn planned_outcome(
        self,
        lists: Map<u128, Seq<PlannedView>>,
        id: NodeId,
        known: GrammarLookup,
        made: GrammarMatch,
    ) -> RevalidateOutcome {
        LeafView::outcome(
            (Overlay { nodes: self.nodes, lists }).leaves(id.0 as int),
            self.node(id).kind.class_name(),
            known,
            made,
        )
    }

    /// Whether the walk up from a container ends well: the first clean match
    /// rescues the edits; what has no grammar has no say; the walk fails where
    /// it leaves the tree having seen an incomplete match.
    pub open spec fn chain_ok(
        self,
        lists: Map<u128, Seq<PlannedView>>,
        id: NodeId,
        known: GrammarLookup,
        made: GrammarMatch,
        failed: bool,
    ) -> bool
        decreases id.0,
    {
        let verdict = self.planned_outcome(lists, id, known, made);
        let failed_here = failed || verdict == RevalidateOutcome::Invalid;
        if verdict == RevalidateOutcome::Valid {
            true
        } else {
            match self.node(id).parent {
                Some(p) => if p.0 < id.0 {
                    self.chain_ok(lists, p, known, made, failed_here)
                } else {
                    false
                },
                None => !failed_here,
            }
        }
    }

    /// Whether the staged batch keeps the grammar: the walks up from all
    /// suspects end well. Without a staged batch there is nothing to break.
    pub open spec fn staged_valid(self, known: GrammarLookup, made: GrammarMatch) -> bool {
        match self.staged {
            None => true,
            Some(batch) => forall|i: int|
                0 <= i < batch.validate.len() ==> self.chain_ok(
                    batch.children_of,
                    #[trigger] batch.validate[i],
                    known,
                    made,
                    false,
                ),
        }
    }

    /// The leaves below a node, as re-validation reads them.
    pub open spec fn leaf_views(self, id: NodeId) -> Seq<LeafView> {
        NodeRecord::leaves(self.nodes, id.0 as int).map_values(|l: NodeId| self.at(l).leaf_view())
    }
}

impl Arena {
    /// The verdict on a container as it is.
    pub fn revalidate_container<
        F: Fn(&str) -> bool,
        G: Fn(&str, &Vec<Token>) -> Option<MatchResult>,
    >(&self, id: NodeId, has_grammar: &F, rematch: &G) -> (r: RevalidateOutcome)
        requires
            self.wf(),
            self@.has(id),
            callable(*has_grammar, *rematch),
        ensures
            forall|known: GrammarLookup, made: GrammarMatch| #[trigger]
                looks_up(*has_grammar, known) && #[trigger] matches_as(*rematch, made) ==> r
                    == LeafView::outcome(
                    self@.leaf_views(id),
                    self@.node(id).kind.class_name(),
                    known,
                    made,
                ),
    {
        match self.segment_class(id) {
            None => RevalidateOutcome::Skipped,
            Some(class) => {
                if !has_grammar(class.as_str()) {
                    return RevalidateOutcome::Skipped;
                }
                let ids = self.raw_segments(id);
                let ghost all = self@.leaf_views(id);
                let mut leaves: Vec<LeafDescriptor> = Vec::new();
                assert(LeafDescriptor::views(leaves@) =~= all.take(0));
                for i in 0..ids.len()
                    invariant
                        self.wf(),
                        forall|j: int| 0 <= j < ids@.len() ==> self@.has(#[trigger] ids@[j]),
                        ids@ == NodeRecord::leaves(self@.nodes, id.0 as int),
                        all == self@.leaf_views(id),
                        LeafDescriptor::views(leaves@) == all.take(i as int),
                {
                    assert(self@.has(ids@[i as int]));
                    self.push_leaf(ids[i], &mut leaves);
                    assert(LeafDescriptor::views(leaves@) =~= all.take(i + 1));
                }
                assert(all.take(all.len() as int) =~= all);
                revalidate_leaf_descriptors(&leaves, class.as_str(), rematch)
            },
        }
    }

    /// The verdict on a container as child lists will leave it.
    fn revalidate_planned_container<
        F: Fn(&str) -> bool,
        G: Fn(&str, &Vec<Token>) -> Option<MatchResult>,
    >(
        &self,
        id: NodeId,
        lists: &Table<Vec<PlannedChild>>,
        has_grammar: &F,
        rematch: &G,
    ) -> (r: RevalidateOutcome)
        requires
            self.wf(),
            self@.has(id),
            lists.wf(),
            self.under(lists@).behind(),
            callable(*has_grammar, *rematch),
        ensures
            forall|known: GrammarLookup, made: GrammarMatch| #[trigger]
                looks_up(*has_grammar, known) && #[trigger] matches_as(*rematch, made) ==> r
                    == self@.planned_outcome(
                    crate::arena::state::plan_view(lists@),
                    id,
                    known,
                    made,
                ),
    {
        match self.segment_class(id) {
            None => RevalidateOutcome::Skipped,
            Some(class) => {
                if !has_grammar(class.as_str()) {
                    return RevalidateOutcome::Skipped;
                }
                let mut leaves: Vec<LeafDescriptor> = Vec::new();
                self.planned_leaves(id, lists, &mut leaves);
                assert(LeafDescriptor::views(leaves@) =~= self.under(lists@).leaves(id.0 as int));
                revalidate_leaf_descriptors(&leaves, class.as_str(), rematch)
            },
        }
    }

    /// Whether the staged batch keeps the grammar. `has_grammar` tells whether a
    /// class has a grammar; `rematch` matches it against tokens.
    pub fn validate_staged<
        F: Fn(&str) -> bool,
        G: Fn(&str, &Vec<Token>) -> Option<MatchResult>,
    >(&self, has_grammar: &F, rematch: &G) -> (r: bool)
        requires
            self.wf(),
            callable(*has_grammar, *rematch),
        ensures
            forall|known: GrammarLookup, made: GrammarMatch| #[trigger]
                looks_up(*has_grammar, known) && #[trigger] matches_as(*rematch, made) ==> r
                    == self@.staged_valid(known, made),
    {
        match self.staged_batch() {
            None => true,
            Some(batch) => {
                let ghost view = batch@;
                let n: usize = batch.validate_containers.len();
                let mut i: usize = 0;
                while i < n
                    invariant
                        self.wf(),
                        callable(*has_grammar, *rematch),
                        self@.staged == Some(view),
                        view == batch@,
                        batch.wf(),
                        n == batch.validate_containers@.len(),
                        i <= n,
                        forall|known: GrammarLookup, made: GrammarMatch| #[trigger]
                            looks_up(*has_grammar, known) && #[trigger] matches_as(*rematch, made)
                                ==> forall|j: int|
                                0 <= j < i ==> self@.chain_ok(
                                    view.children_of,
                                    #[trigger] view.validate[j],
                                    known,
                                    made,
                                    false,
                                ),
                    decreases n - i,
                {
                    let at = batch.validate_containers[i];
                    assert(view.validate[i as int] == at);
                    let ok = self.validate_chain(
                        at,
                        &batch.children_of,
                        has_grammar,
                        rematch,
                        false,
                    );
                    if !ok {
                        assert forall|known: GrammarLookup, made: GrammarMatch| #[trigger]
                            looks_up(*has_grammar, known) && #[trigger] matches_as(
                                *rematch,
                                made,
                            ) implies !self@.staged_valid(known, made) by {
                            assert(!self@.chain_ok(
                                view.children_of,
                                view.validate[i as int],
                                known,
                                made,
                                false,
                            ));
                        }
                        return false;
                    }
                    i += 1;
                }
                true
            },
        }
    }

    /// Whether the walk up from a container ends well.
    fn validate_chain<
        F: Fn(&str) -> bool,
        G: Fn(&str, &Vec<Token>) -> Option<MatchResult>,
    >(
        &self,
        id: NodeId,
        lists: &Table<Vec<PlannedChild>>,
        has_grammar: &F,
        rematch: &G,
        failed: bool,
    ) -> (r: bool)
        requires
            self.wf(),
            self@.has(id),
            lists.wf(),
            self.under(lists@).behind(),
            callable(*has_grammar, *rematch),
        ensures
            forall|known: GrammarLookup, made: GrammarMatch| #[trigger]
                looks_up(*has_grammar, known) && #[trigger] matches_as(*rematch, made) ==> r
                    == self@.chain_ok(
                    crate::arena::state::plan_view(lists@),
                    id,
                    known,
                    made,
                    failed,
                ),
        decreases id.0,
    {
        let verdict = self.revalidate_planned_container(id, lists, has_grammar, rematch);
        if verdict == RevalidateOutcome::Valid {
            return true;
        }
        let failed_here = failed || verdict == RevalidateOutcome::Invalid;
        match self.parent(id) {
            Some(p) => {
                assert(self@.nodes[id.0 as int].parent == Some(p));
                self.validate_chain(p, lists, has_grammar, rematch, failed_here)
            },
            None => !failed_here,
        }
    }
}

/// Edits that cannot break the grammar are always valid: where no edit of a
/// batch may break its container, no container is a suspect, and the staged
/// batch is valid whatever the grammar.
pub proof fn harmless_batch_is_valid(
    s: ArenaState,
    ops: crate::arena::plan::Ops,
    staged: ArenaState,
    known: GrammarLookup,
    made: GrammarMatch,
)
    requires
        staged.staged is Some,
        (staged.staged->0).validate.to_set() == s.suspects(ops),
        forall|u: u128| #[trigger]
            ops.contains_key(u) && s.by_uuid.contains_key(u) ==> !crate::edit::OpView::any_may_break(
                ops[u],
                s.nodes[s.by_uuid[u] as int].kind.type_list().to_set(),
            ),
    ensures
        staged.staged_valid(known, made),
{
    let list = (staged.staged->0).validate;
    if list.len() > 0 {
        assert(list.contains(list[0]));
        assert(list.to_set().contains(list[0]));
        assert(s.suspects(ops).contains(list[0]));
    }
}

/// The edits of a batch are grouped by anchor, those of one anchor in the order of the
/// batch.
pub proof fn grouped_by_anchor(batch: Seq<EditOp>, u: u128)
    ensures
        grouped(batch).contains_key(u) <==> exists|j: int|
            0 <= j < batch.len() && (#[trigger] batch[j]).anchor_uuid == u,
        grouped(batch).contains_key(u) ==> grouped(batch)[u] == batch.filter(
            |o: EditOp| o.anchor_uuid == u,
        ).map_values(|o: EditOp| o@),
        !grouped(batch).contains_key(u) ==> batch.filter(
            |o: EditOp| o.anchor_uuid == u,
        ).len() == 0,
    decreases batch.len(),
{
    reveal(Seq::filter);
    let pred = |o: EditOp| o.anchor_uuid == u;
    let view = |o: EditOp| o@;
    if batch.len() > 0 {
        let rest = batch.drop_last();
        grouped_by_anchor(rest, u);
        let part = rest.filter(pred);
        let last = batch.last();
        assert(batch[batch.len() - 1] == last);
        if exists|j: int| 0 <= j < rest.len() && (#[trigger] rest[j]).anchor_uuid == u {
            let j = choose|j: int| 0 <= j < rest.len() && (#[trigger] rest[j]).anchor_uuid == u;
            assert(batch[j].anchor_uuid == u);
        }
        if exists|j: int| 0 <= j < batch.len() && (#[trigger] batch[j]).anchor_uuid == u {
            let j = choose|j: int|
                0 <= j < batch.len() && (#[trigger] batch[j]).anchor_uuid == u;
            if j < rest.len() {
                assert(rest[j].anchor_uuid == u);
            }
        }
        if last.anchor_uuid == u {
            assert(part.push(last).map_values(view) =~= part.map_values(view).push(last@));
            if !grouped(rest).contains_key(u) {
                assert(part.map_values(view) =~= Seq::empty());
            }
        }
    }
}

/// An edit stands among those of its anchor.
proof fn grouped_holds(batch: Seq<EditOp>, j: int)
    requires
        0 <= j < batch.len(),
    ensures
        grouped(batch).contains_key(batch[j].anchor_uuid),
        grouped(batch)[batch[j].anchor_uuid].contains(batch[j]@),
{
    let u = batch[j].anchor_uuid;
    grouped_by_anchor(batch, u);
    let pred = |o: EditOp| o.anchor_uuid == u;
    let part = batch.filter(pred);
    batch.lemma_filter_contains(pred, j);
    let i = choose|i: int| 0 <= i < part.len() && part[i] == batch[j];
    assert(grouped(batch)[u][i] == batch[j]@);
}

/// What is grouped under an anchor is an edit of the batch.
proof fn grouped_from(batch: Seq<EditOp>, u: u128, i: int) -> (j: int)
    requires
        grouped(batch).contains_key(u),
        0 <= i < grouped(batch)[u].len(),
    ensures
        0 <= j < batch.len(),
        batch[j].anchor_uuid == u,
        grouped(batch)[u][i] == batch[j]@,
{
    grouped_by_anchor(batch, u);
    let pred = |o: EditOp| o.anchor_uuid == u;
    let part = batch.filter(pred);
    batch.lemma_filter_pred(pred, i);
    assert(part.contains(part[i]));
    batch.lemma_filter_contains_rev(pred, part[i]);
    choose|j: int| 0 <= j < batch.len() && batch[j] == part[i]
}

/// Whether an edit changes which types follow each other around an anchor of the given
/// types: every edit does, but a replacement by one segment of these very types.
pub open spec fn changes_types(op: OpView, types: Set<Seq<char>>) -> bool {
    match op.kind {
        EditKind::Delete => true,
        EditKind::CreateBefore => true,
        EditKind::CreateAfter => true,
        EditKind::Replace => op.edits.len() != 1 || op.edits[0].declared_types() != types,
    }
}

/// Whether an edit of a batch is anchored at a child of a container and changes which
/// types follow each other there.
pub open spec fn changes_row(s: ArenaState, op: EditOp, p: NodeId) -> bool {
    let u = op.anchor_uuid;
    &&& s.by_uuid.contains_key(u)
    &&& s.nodes[s.by_uuid[u] as int].parent == Some(p)
    &&& changes_types(op@, s.nodes[s.by_uuid[u] as int].kind.type_list().to_set())
}

/// The containers to validate are those in which an edit of the batch changes which
/// types follow each other.
pub proof fn changed_rows_are_checked(s: ArenaState, batch: Seq<EditOp>, p: NodeId)
    ensures
        s.suspects(grouped(batch)).contains(p) <==> exists|j: int|
            0 <= j < batch.len() && changes_row(s, #[trigger] batch[j], p),
{
    let ops = grouped(batch);
    if exists|j: int| 0 <= j < batch.len() && changes_row(s, #[trigger] batch[j], p) {
        let j = choose|j: int| 0 <= j < batch.len() && changes_row(s, #[trigger] batch[j], p);
        let u = batch[j].anchor_uuid;
        grouped_holds(batch, j);
        let i = choose|i: int| 0 <= i < ops[u].len() && ops[u][i] == batch[j]@;
        let types = s.nodes[s.by_uuid[u] as int].kind.type_list().to_set();
        assert(ops[u][i].may_break(types));
        assert(OpView::any_may_break(ops[u], types));
        assert(ops.contains_key(u));
    }
    if s.suspects(ops).contains(p) {
        let u = choose|u: u128| #[trigger]
            ops.contains_key(u) && s.by_uuid.contains_key(u) && s.nodes[s.by_uuid[u] as int].parent
                == Some(p) && OpView::any_may_break(
                ops[u],
                s.nodes[s.by_uuid[u] as int].kind.type_list().to_set(),
            );
        let types = s.nodes[s.by_uuid[u] as int].kind.type_list().to_set();
        let i = choose|i: int| 0 <= i < ops[u].len() && (#[trigger] ops[u][i]).may_break(types);
        let j = grouped_from(batch, u, i);
        assert(changes_row(s, batch[j], p));
    }
}

/// Whether a node is a container or stands above it.
pub open spec fn at_or_above(s: ArenaState, a: NodeId, id: NodeId) -> bool {
    s.has(a) && (a == id || NodeRecord::above(s.nodes, id.0 as int).contains(a.key()))
}

/// The walk up from a container ends well just where something at or above it matches
/// cleanly, or nothing there fails to match.
pub proof fn walk_up_decides(
    s: ArenaState,
    lists: Map<u128, Seq<PlannedView>>,
    id: NodeId,
    known: GrammarLookup,
    made: GrammarMatch,
)
    requires
        s.coherent(),
        s.has(id),
    ensures
        s.chain_ok(lists, id, known, made, false) <==> (exists|a: NodeId| #[trigger]
            at_or_above(s, a, id) && s.planned_outcome(lists, a, known, made)
                == RevalidateOutcome::Valid) || (forall|a: NodeId| #[trigger]
            at_or_above(s, a, id) ==> s.planned_outcome(lists, a, known, made)
                != RevalidateOutcome::Invalid),
{
    walk_up_from(s, lists, id, known, made, false);
}

proof fn walk_up_from(
    s: ArenaState,
    lists: Map<u128, Seq<PlannedView>>,
    id: NodeId,
    known: GrammarLookup,
    made: GrammarMatch,
    failed: bool,
)
    requires
        s.coherent(),
        s.has(id),
    ensures
        s.chain_ok(lists, id, known, made, failed) <==> (exists|a: NodeId| #[trigger]
            at_or_above(s, a, id) && s.planned_outcome(lists, a, known, made)
                == RevalidateOutcome::Valid) || (!failed && forall|a: NodeId| #[trigger]
            at_or_above(s, a, id) ==> s.planned_outcome(lists, a, known, made)
                != RevalidateOutcome::Invalid),
    decreases id.0,
{
    let verdict = s.planned_outcome(lists, id, known, made);
    let failed_here = failed || verdict == RevalidateOutcome::Invalid;
    assert(at_or_above(s, id, id));
    match s.nodes[id.0 as int].parent {
        Some(p) => {
            assert(p.0 < id.0);
            walk_up_from(s, lists, p, known, made, failed_here);
            assert forall|a: NodeId| #[trigger] at_or_above(s, a, id) <==> a == id || at_or_above(
                s,
                a,
                p,
            ) by {}
            assert forall|a: NodeId| #[trigger] at_or_above(s, a, p) implies at_or_above(
                s,
                a,
                id,
            ) by {}
        },
        None => {
            assert forall|a: NodeId| #[trigger] at_or_above(s, a, id) implies a == id by {}
        },
    }
}

/// A staged batch is valid just where, for every container in which an edit changes
/// which types follow each other, something at or above the container matches cleanly,
/// or nothing there fails to match.
pub proof fn batch_is_checked(
    s: ArenaState,
    batch: Seq<EditOp>,
    staged: ArenaState,
    known: GrammarLookup,
    made: GrammarMatch,
)
    requires
        s.wf(),
        s.coherent(),
        staged == (ArenaState { staged: staged.staged, ..s }),
        staged.staged is Some,
        (staged.staged->0).validate.to_set() == s.suspects(grouped(batch)),
    ensures
        ({
            let lists = (staged.staged->0).children_of;
            staged.staged_valid(known, made) <==> forall|j: int, p: NodeId|
                0 <= j < batch.len() && #[trigger] changes_row(s, batch[j], p) ==> {
                    ||| exists|a: NodeId| #[trigger]
                        at_or_above(s, a, p) && staged.planned_outcome(lists, a, known, made)
                            == RevalidateOutcome::Valid
                    ||| forall|a: NodeId| #[trigger]
                        at_or_above(s, a, p) ==> staged.planned_outcome(lists, a, known, made)
                            != RevalidateOutcome::Invalid
                }
        }),
{
    let lists = (staged.staged->0).children_of;
    let list = (staged.staged->0).validate;
    assert forall|p: NodeId, a: NodeId| #[trigger] at_or_above(staged, a, p) == at_or_above(
        s,
        a,
        p,
    ) by {}
    if staged.staged_valid(known, made) {
        assert forall|j: int, p: NodeId|
            0 <= j < batch.len() && #[trigger] changes_row(s, batch[j], p) implies {
            ||| exists|a: NodeId| #[trigger]
                at_or_above(s, a, p) && staged.planned_outcome(lists, a, known, made)
                    == RevalidateOutcome::Valid
            ||| forall|a: NodeId| #[trigger]
                at_or_above(s, a, p) ==> staged.planned_outcome(lists, a, known, made)
                    != RevalidateOutcome::Invalid
        } by {
            changed_rows_are_checked(s, batch, p);
            assert(list.to_set().contains(p));
            let i = choose|i: int| 0 <= i < list.len() && list[i] == p;
            assert(staged.chain_ok(lists, list[i], known, made, false));
            assert(s.nodes[s.by_uuid[batch[j].anchor_uuid] as int].parent == Some(p));
            walk_up_decides(staged, lists, p, known, made);
            if exists|a: NodeId| #[trigger]
                at_or_above(staged, a, p) && staged.planned_outcome(lists, a, known, made)
                    == RevalidateOutcome::Valid {
                let a = choose|a: NodeId| #[trigger]
                    at_or_above(staged, a, p) && staged.planned_outcome(lists, a, known, made)
                        == RevalidateOutcome::Valid;
                assert(at_or_above(s, a, p));
            } else {
                assert forall|a: NodeId| #[trigger] at_or_above(s, a, p) implies
                    staged.planned_outcome(lists, a, known, made)
                    != RevalidateOutcome::Invalid by {
                    assert(at_or_above(staged, a, p));
                }
            }
        }
    } else {
        let i = choose|i: int|
            0 <= i < list.len() && !staged.chain_ok(
                lists,
                #[trigger] list[i],
                known,
                made,
                false,
            );
        let p = list[i];
        assert(list.to_set().contains(p));
        changed_rows_are_checked(s, batch, p);
        let j = choose|j: int| 0 <= j < batch.len() && changes_row(s, #[trigger] batch[j], p);
        assert(s.nodes[s.by_uuid[batch[j].anchor_uuid] as int].parent == Some(p));
        assert(s.has(p));
        walk_up_decides(staged, lists, p, known, made);
        assert forall|a: NodeId| #[trigger] at_or_above(s, a, p) implies at_or_above(
            staged,
            a,
            p,
        ) by {}
        assert(changes_row(s, batch[j], p));
    }
}

/// Whether a token is that of a leaf, up to its pair.
pub open spec fn token_of(t: TokenView, l: LeafView) -> bool {
    &&& t.raw == l.raw
    &&& t.instance_types == l.instance_types
    &&& t.class_types == l.class_types
    &&& t.code == l.is_code
    &&& t.meta == l.is_meta
    &&& t.class_name == "RawSegment"@
    &&& t.marker is None
}

/// The grammar is matched against the leaves that are no metas, from the first that is
/// code to the last that is code.
pub proof fn tokens_go_from_code_to_code(leaves: Seq<LeafView>) -> (lo: int)
    requires
        leaves.len() <= usize::MAX,
        exists|i: int|
            0 <= i < leaves.len() && (#[trigger] leaves[i]).is_code && !leaves[i].is_meta,
    ensures
        ({
            let solid = leaves.filter(|l: LeafView| !l.is_meta);
            let tokens = LeafView::tokens(leaves);
            &&& 0 <= lo <= lo + tokens.len() <= solid.len()
            &&& forall|i: int|
                0 <= i < tokens.len() ==> token_of(#[trigger] tokens[i], solid[lo + i])
            &&& forall|j: int|
                0 <= j < solid.len() && !(lo <= j < lo + tokens.len()) ==> !(
                #[trigger] solid[j]).is_code
            &&& tokens.len() > 0
            &&& solid[lo].is_code
            &&& solid[lo + tokens.len() - 1].is_code
        }),
{
    let solid = LeafView::solid(leaves);
    let flags = LeafView::code_flags(solid);
    crate::arena::plan::lead_in_range(flags);
    crate::arena::plan::reach_in_range(flags);
    lead_all(flags);
    reach_all(flags);
    lead_stops(flags);
    let lo = crate::arena::plan::lead(flags) as int;
    let hi = crate::arena::plan::reach(flags) as int;
    let trimmed = LeafView::trimmed(solid);
    let made = trimmed.map_values(|l: LeafView| l.token());
    leaves.lemma_filter_len(|l: LeafView| !l.is_meta);
    code_is_reached(leaves);
    assert forall|i: int| 0 <= i < made.len() implies token_of(
        #[trigger] LeafView::tokens(leaves)[i],
        solid[lo + i],
    ) by {
        crate::token::pairing_keeps_tokens(made, i);
    }
    crate::token::pairing_keeps_tokens(made, 0);
    assert(flags[hi - 1]);
    assert(flags[lo]);
    assert forall|j: int|
        0 <= j < solid.len() && !(lo <= j < lo + LeafView::tokens(leaves).len()) implies !(
    #[trigger] solid[j]).is_code by {
        if j < lo {
            assert(!flags[j]);
        } else if j >= hi {
            assert(!flags[j]);
        }
    }
    lo
}

/// Where a leaf is code, the first that is code stands before where the code ends.
proof fn code_is_reached(leaves: Seq<LeafView>)
    requires
        exists|i: int|
            0 <= i < leaves.len() && (#[trigger] leaves[i]).is_code && !leaves[i].is_meta,
    ensures
        ({
            let flags = LeafView::code_flags(LeafView::solid(leaves));
            crate::arena::plan::lead(flags) < crate::arena::plan::reach(flags) <= flags.len()
        }),
{
    let solid = LeafView::solid(leaves);
    let flags = LeafView::code_flags(solid);
    lead_all(flags);
    reach_all(flags);
    let i = choose|i: int|
        0 <= i < leaves.len() && (#[trigger] leaves[i]).is_code && !leaves[i].is_meta;
    filter_member(leaves, i);
    let j = choose|j: int| 0 <= j < solid.len() && solid[j] == leaves[i];
    assert(flags[j]);
}

pub(crate) proof fn lead_stops(flags: Seq<bool>)
    ensures
        crate::arena::plan::lead(flags) < flags.len() ==> flags[crate::arena::plan::lead(
            flags,
        ) as int],
    decreases flags.len(),
{
    if flags.len() > 0 && !flags[0] {
        lead_stops(flags.drop_first());
    }
}

pub(crate) proof fn reach_all(flags: Seq<bool>)
    ensures
        crate::arena::plan::reach(flags) <= flags.len(),
        forall|i: int|
            crate::arena::plan::reach(flags) <= i < flags.len() ==> !(#[trigger] flags[i]),
        crate::arena::plan::reach(flags) > 0 ==> flags[crate::arena::plan::reach(flags) - 1],
    decreases flags.len(),
{
    if flags.len() > 0 && !flags.last() {
        let rest = flags.drop_last();
        reach_all(rest);
        assert forall|i: int|
            crate::arena::plan::reach(flags) <= i < flags.len() implies !(#[trigger] flags[i]) by {
            if i < rest.len() {
                assert(rest[i] == flags[i]);
            }
        }
    }
}

/// Metas have no say: with or without one, the verdict is the same.
pub proof fn metas_have_no_say(
    a: Seq<LeafView>,
    m: LeafView,
    b: Seq<LeafView>,
    class: Seq<char>,
    made: GrammarMatch,
)
    requires
        m.is_meta,
    ensures
        LeafView::verdict(a + seq![m] + b, class, made) == LeafView::verdict(a + b, class, made),
{
    let pred = |l: LeafView| !l.is_meta;
    let with = a + seq![m] + b;
    let bare = a + b;
    Seq::filter_distributes_over_add(a, b, pred);
    Seq::filter_distributes_over_add(a + seq![m], b, pred);
    Seq::filter_distributes_over_add(a, seq![m], pred);
    assert(seq![m].filter(pred) =~= Seq::empty()) by {
        reveal(Seq::filter);
        assert(seq![m].drop_last() =~= Seq::empty());
        assert(seq![m].drop_last().filter(pred) =~= Seq::empty());
    }
    assert(a.filter(pred) + Seq::<LeafView>::empty() =~= a.filter(pred));
    assert(LeafView::solid(with) == LeafView::solid(bare));
    assert(LeafView::codeless(with) == LeafView::codeless(bare)) by {
        if LeafView::codeless(with) {
            assert forall|i: int| 0 <= i < bare.len() implies !(#[trigger] bare[i]).is_code
                || bare[i].is_meta by {
                let j = if i < a.len() {
                    i
                } else {
                    i + 1
                };
                assert(with[j] == bare[i]);
            }
        }
        if LeafView::codeless(bare) {
            assert forall|j: int| 0 <= j < with.len() implies !(#[trigger] with[j]).is_code
                || with[j].is_meta by {
                if j < a.len() {
                    assert(bare[j] == with[j]);
                } else if j > a.len() {
                    assert(bare[j - 1] == with[j]);
                }
            }
        }
    }
}

/// Non-code at the ends has no say: with or without it, the verdict is the same.
pub proof fn ends_have_no_say(
    l: LeafView,
    list: Seq<LeafView>,
    class: Seq<char>,
    made: GrammarMatch,
)
    requires
        !l.is_code,
    ensures
        LeafView::verdict(seq![l] + list, class, made) == LeafView::verdict(list, class, made),
        LeafView::verdict(list + seq![l], class, made) == LeafView::verdict(list, class, made),
{
    let none = Seq::<LeafView>::empty();
    assert(none + list =~= list);
    assert(list + none =~= list);
    if l.is_meta {
        metas_have_no_say(none, l, list, class, made);
        assert(none + seq![l] + list =~= seq![l] + list);
        metas_have_no_say(list, l, none, class, made);
        assert(list + seq![l] + none =~= list + seq![l]);
    } else {
        let pred = |x: LeafView| !x.is_meta;
        let solid = LeafView::solid(list);
        let flags = LeafView::code_flags(solid);
        assert(seq![l].filter(pred) =~= seq![l]) by {
            reveal(Seq::filter);
            assert(seq![l].drop_last() =~= none);
            assert(seq![l].drop_last().filter(pred) =~= none);
        }
        Seq::filter_distributes_over_add(seq![l], list, pred);
        Seq::filter_distributes_over_add(list, seq![l], pred);
        let first = seq![l] + solid;
        let last = solid + seq![l];
        assert(LeafView::solid(seq![l] + list) == first);
        assert(LeafView::solid(list + seq![l]) == last);
        let ff = LeafView::code_flags(first);
        let lf = LeafView::code_flags(last);
        assert(ff =~= seq![false] + flags);
        assert(lf =~= flags.push(false));
        assert(ff.drop_first() =~= flags);
        assert(lf.drop_last() =~= flags);
        reach_behind(flags);
        lead_before(flags);
        crate::arena::plan::lead_in_range(flags);
        reach_all(flags);
        codeless_ends(l, list);
        if !LeafView::codeless(list) {
            // Some leaf is code.
            code_is_reached(list);
            assert(LeafView::trimmed(first) =~= LeafView::trimmed(solid));
            assert(LeafView::trimmed(last) =~= LeafView::trimmed(solid));
        }
    }
}

proof fn codeless_ends(l: LeafView, list: Seq<LeafView>)
    requires
        !l.is_code,
    ensures
        LeafView::codeless(seq![l] + list) == LeafView::codeless(list),
        LeafView::codeless(list + seq![l]) == LeafView::codeless(list),
{
    let a = seq![l] + list;
    let b = list + seq![l];
    if LeafView::codeless(list) {
        assert forall|i: int| 0 <= i < a.len() implies !(#[trigger] a[i]).is_code
            || a[i].is_meta by {
            if i > 0 {
                assert(a[i] == list[i - 1]);
            }
        }
        assert forall|i: int| 0 <= i < b.len() implies !(#[trigger] b[i]).is_code
            || b[i].is_meta by {
            if i < list.len() {
                assert(b[i] == list[i]);
            }
        }
    }
    if LeafView::codeless(a) {
        assert forall|i: int| 0 <= i < list.len() implies !(#[trigger] list[i]).is_code
            || list[i].is_meta by {
            assert(a[i + 1] == list[i]);
        }
    }
    if LeafView::codeless(b) {
        assert forall|i: int| 0 <= i < list.len() implies !(#[trigger] list[i]).is_code
            || list[i].is_meta by {
            assert(b[i] == list[i]);
        }
    }
}

/// A flag that is not set adds one to how far the others reach, if any is set.
proof fn reach_behind(flags: Seq<bool>)
    ensures
        crate::arena::plan::reach(seq![false] + flags) == (if crate::arena::plan::reach(flags)
            == 0 {
            0
        } else {
            crate::arena::plan::reach(flags) + 1
        }),
    decreases flags.len(),
{
    let more = seq![false] + flags;
    if flags.len() == 0 {
        assert(more.drop_last() =~= Seq::empty());
        assert(crate::arena::plan::reach(more.drop_last()) == 0);
    } else {
        assert(more.last() == flags.last());
        if !flags.last() {
            assert(more.drop_last() =~= seq![false] + flags.drop_last());
            reach_behind(flags.drop_last());
        }
    }
}

/// A flag at the end that is not set changes the lead only where none is set.
proof fn lead_before(flags: Seq<bool>)
    ensures
        crate::arena::plan::lead(flags) < flags.len() ==> crate::arena::plan::lead(
            flags.push(false),
        ) == crate::arena::plan::lead(flags),
    decreases flags.len(),
{
    if flags.len() > 0 && !flags[0] {
        lead_before(flags.drop_first());
        assert(flags.push(false).drop_first() =~= flags.drop_first().push(false));
    }
}

/// A container with code is valid just where its grammar is met by all of the tokens
/// and none of them is left unparsed.
pub proof fn clean_match_decides(leaves: Seq<LeafView>, class: Seq<char>, made: GrammarMatch)
    requires
        exists|i: int|
            0 <= i < leaves.len() && (#[trigger] leaves[i]).is_code && !leaves[i].is_meta,
    ensures
        ({
            let tokens = LeafView::tokens(leaves);
            let m = made(class, tokens);
            LeafView::verdict(leaves, class, made) == (if m is Some && m->0.matched_slice.stop
                == tokens.len() && m->0.matched_slice.start != tokens.len() && !m->0.unparsable {
                RevalidateOutcome::Valid
            } else {
                RevalidateOutcome::Invalid
            })
        }),
{
}

/// A container without a class, or whose class has no grammar, has no say, whatever is in
/// it; any other is judged, and where nothing in it is code it is valid.
pub proof fn who_has_a_say(
    leaves: Seq<LeafView>,
    class: Option<Seq<char>>,
    known: GrammarLookup,
    made: GrammarMatch,
)
    ensures
        ({
            let got = LeafView::outcome(leaves, class, known, made);
            let judged = class is Some && known(class->0);
            &&& got == RevalidateOutcome::Skipped <==> !judged
            &&& judged && (forall|i: int|
                0 <= i < leaves.len() ==> (#[trigger] leaves[i]).is_meta || !leaves[i].is_code)
                ==> got == RevalidateOutcome::Valid
        }),
{
}

} // verus!
