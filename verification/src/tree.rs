//! The mathematical parse tree, and what its nodes mean.
//!
//! [`Tree`] is the model behind every concrete form of the tree: the nested
//! [`crate::node::Node`], the flattened [`crate::arena::Arena`] and the edit
//! segments that are still to be created.

use vstd::prelude::*;

use crate::kind::Kind;
use crate::marker::{PositionMarker, Slice};

verus! {

/// A source-level edit attached to a segment: the replacement text and the
/// regions that it rewrites.
#[derive(Debug, PartialEq)]
pub struct SourceFixSpec {
    pub edit: String,
    pub source_slice: Slice,
    pub templated_slice: Slice,
}

/// The text behind [`SourceFixSpec`].
pub struct FixView {
    pub edit: Seq<char>,
    pub source_slice: Slice,
    pub templated_slice: Slice,
}

impl SourceFixSpec {
    /// The text behind the fix.
    pub open spec fn view(self) -> FixView {
        FixView {
            edit: self.edit@,
            source_slice: self.source_slice,
            templated_slice: self.templated_slice,
        }
    }

    /// The texts behind a list of fixes.
    pub open spec fn views(list: Seq<SourceFixSpec>) -> Seq<FixView> {
        list.map_values(|f: SourceFixSpec| f@)
    }
}

impl Clone for SourceFixSpec {
    fn clone(&self) -> (r: SourceFixSpec)
        ensures
            r == *self,
    {
        SourceFixSpec {
            edit: self.edit.clone(),
            source_slice: self.source_slice,
            templated_slice: self.templated_slice,
        }
    }
}

/// Appends a copy of the fixes.
pub(crate) fn append_fixes(out: &mut Vec<SourceFixSpec>, list: &Vec<SourceFixSpec>)
    ensures
        final(out)@ == old(out)@ + list@,
{
    for i in 0..list.len()
        invariant
            out@ == old(out)@ + list@.take(i as int),
    {
        out.push(list[i].clone());
        assert(list@.take(i + 1) =~= list@.take(i as int).push(list@[i as int]));
        assert(out@ =~= old(out)@ + list@.take(i + 1));
    }
    assert(list@.take(list@.len() as int) =~= list@);
}

/// A parse tree.
#[verifier::ext_equal]
pub struct Tree {
    pub kind: Kind,
    pub marker: Option<PositionMarker>,
    /// The source fixes attached to this very node.
    pub fixes: Seq<FixView>,
    pub children: Seq<Tree>,
}

/// What re-validation reads of a leaf.
pub struct LeafView {
    pub raw: Seq<char>,
    pub instance_types: Seq<Seq<char>>,
    pub class_types: Seq<Seq<char>>,
    pub is_code: bool,
    pub is_meta: bool,
}

impl Tree {
    /// The source text of the tree: that of its raw segments, in order.
    pub open spec fn raw(self) -> Seq<char>
        decreases self,
    {
        match self.kind {
            Kind::Raw { raw, .. } => raw,
            Kind::Meta { .. } => Seq::empty(),
            Kind::Empty => Seq::empty(),
            _ => Tree::raws(self.children),
        }
    }

    /// The source text of a row of trees.
    pub open spec fn raws(row: Seq<Tree>) -> Seq<char>
        decreases row,
    {
        if row.len() == 0 {
            Seq::empty()
        } else {
            Tree::raws(row.drop_last()) + row.last().raw()
        }
    }

    /// Whether the tree holds code: a raw segment that is neither whitespace,
    /// newline nor comment, a segment with such a child, or anything that did
    /// not parse.
    pub open spec fn is_code(self) -> bool
        decreases self,
    {
        match self.kind {
            Kind::Meta { .. } => false,
            Kind::Empty => false,
            Kind::Raw { segment_type, instance_types, class_types, .. } => crate::kind::raw_code(
                segment_type,
                instance_types,
                class_types,
            ),
            Kind::Segment { .. } => exists|i: int|
                0 <= i < self.children.len() && (#[trigger] self.children[i]).is_code(),
            Kind::Unparsable { .. } => true,
        }
    }

    /// Whether the tree is a meta.
    pub open spec fn is_meta(self) -> bool {
        self.kind is Meta
    }

    /// Whether the tree is all whitespace or newlines, and not empty.
    pub open spec fn is_whitespace(self) -> bool
        decreases self,
    {
        match self.kind {
            Kind::Raw { segment_type, instance_types, .. } => segment_type == "whitespace"@
                || segment_type == "newline"@ || instance_types.contains("whitespace"@)
                || instance_types.contains("newline"@),
            Kind::Segment { .. } => self.children.len() > 0 && forall|i: int|
                0 <= i < self.children.len() ==> (#[trigger] self.children[i]).is_whitespace(),
            Kind::Unparsable { .. } => self.children.len() > 0 && forall|i: int|
                0 <= i < self.children.len() ==> (#[trigger] self.children[i]).is_whitespace(),
            _ => false,
        }
    }

    /// Whether the tree is all comments, and not empty.
    pub open spec fn is_comment(self) -> bool
        decreases self,
    {
        match self.kind {
            Kind::Raw { segment_type, class_types, .. } => crate::text::has_infix(
                segment_type,
                "comment"@,
            ) || class_types.contains("comment"@),
            Kind::Segment { .. } => self.children.len() > 0 && forall|i: int|
                0 <= i < self.children.len() ==> (#[trigger] self.children[i]).is_comment(),
            Kind::Unparsable { .. } => self.children.len() > 0 && forall|i: int|
                0 <= i < self.children.len() ==> (#[trigger] self.children[i]).is_comment(),
            _ => false,
        }
    }

    /// The source fixes of the tree in document order.
    pub open spec fn source_fixes(self) -> Seq<FixView>
        decreases self,
    {
        self.fixes + Tree::fixes_of(self.children)
    }

    /// The source fixes of a row of trees.
    pub open spec fn fixes_of(row: Seq<Tree>) -> Seq<FixView>
        decreases row,
    {
        if row.len() == 0 {
            Seq::empty()
        } else {
            Tree::fixes_of(row.drop_last()) + row.last().source_fixes()
        }
    }

    /// The types of the nodes below this one.
    pub open spec fn types_below(self) -> Set<Seq<char>>
        decreases self,
    {
        Tree::types_of(self.children)
    }

    /// The types of the nodes of a row of trees.
    pub open spec fn types_of(row: Seq<Tree>) -> Set<Seq<char>>
        decreases row,
    {
        if row.len() == 0 {
            Set::empty()
        } else {
            Tree::types_of(row.drop_last()).union(row.last().kind.type_list().to_set()).union(
                row.last().types_below(),
            )
        }
    }

    /// What re-validation reads of the tree as a leaf.
    pub open spec fn leaf_view(self) -> LeafView {
        LeafView {
            raw: self.raw(),
            instance_types: self.kind.instances(),
            class_types: self.kind.type_list(),
            is_code: self.is_code(),
            is_meta: self.is_meta(),
        }
    }

    /// The tree without its positions.
    pub open spec fn unplaced(self) -> Tree
        decreases self,
    {
        Tree {
            kind: self.kind,
            marker: None,
            fixes: self.fixes,
            children: Seq::new(
                self.children.len(),
                |i: int|
                    if 0 <= i < self.children.len() {
                        self.children[i].unplaced()
                    } else {
                        arbitrary()
                    },
            ),
        }
    }

    /// Whether only segments and what did not parse have children, here and below.
    pub open spec fn proper(self) -> bool
        decreases self,
    {
        &&& self.children.len() > 0 ==> self.kind is Segment || self.kind is Unparsable
        &&& forall|i: int| 0 <= i < self.children.len() ==> (#[trigger] self.children[i]).proper()
    }

    /// The number of nodes of the tree.
    pub open spec fn size(self) -> nat
        decreases self,
    {
        1 + Tree::sizes(self.children)
    }

    /// The number of nodes of a row of trees.
    pub open spec fn sizes(row: Seq<Tree>) -> nat
        decreases row,
    {
        if row.len() == 0 {
            0
        } else {
            Tree::sizes(row.drop_last()) + row.last().size()
        }
    }
}

/// A row has at least the nodes of any of its beginnings.
pub proof fn sizes_of_prefix(row: Seq<Tree>, n: int)
    requires
        0 <= n <= row.len(),
    ensures
        Tree::sizes(row.take(n)) <= Tree::sizes(row),
    decreases row.len(),
{
    if n < row.len() {
        sizes_of_prefix(row.drop_last(), n);
        assert(row.drop_last().take(n) =~= row.take(n));
    } else {
        assert(row.take(n) =~= row);
    }
}

/// Positions say nothing of the source text.
pub proof fn raw_ignores_positions(t: Tree)
    ensures
        t.unplaced().raw() == t.raw(),
    decreases t, 1int,
{
    raws_ignore_positions(t.children);
    assert(t.unplaced().children =~= unplaced_row(t.children));
}

/// A row of trees without their positions.
pub open spec fn unplaced_row(row: Seq<Tree>) -> Seq<Tree> {
    Seq::new(row.len(), |i: int| row[i].unplaced())
}

proof fn raws_ignore_positions(row: Seq<Tree>)
    ensures
        Tree::raws(unplaced_row(row)) == Tree::raws(row),
    decreases row, 0int,
{
    if row.len() > 0 {
        raws_ignore_positions(row.drop_last());
        raw_ignores_positions(row.last());
        assert(unplaced_row(row).drop_last() =~= unplaced_row(row.drop_last()));
    }
}

/// Positions say nothing of the source fixes.
pub proof fn fixes_ignore_positions(t: Tree)
    ensures
        t.unplaced().source_fixes() == t.source_fixes(),
    decreases t, 1int,
{
    fixes_of_ignore_positions(t.children);
    assert(t.unplaced().children =~= unplaced_row(t.children));
}

proof fn fixes_of_ignore_positions(row: Seq<Tree>)
    ensures
        Tree::fixes_of(unplaced_row(row)) == Tree::fixes_of(row),
    decreases row, 0int,
{
    if row.len() > 0 {
        fixes_of_ignore_positions(row.drop_last());
        fixes_ignore_positions(row.last());
        assert(unplaced_row(row).drop_last() =~= unplaced_row(row.drop_last()));
    }
}

/// Whether a part of a tree is reached through segments only.
pub open spec fn reaches(t: Tree, part: Tree) -> bool
    decreases t,
{
    part == t || (t.kind is Segment && exists|i: int|
        0 <= i < t.children.len() && reaches(#[trigger] t.children[i], part))
}

/// Whether a node is code by itself: it did not parse, or it is a raw segment whose
/// types name neither whitespace, a newline nor a comment.
pub open spec fn code_by_itself(t: Tree) -> bool {
    match t.kind {
        Kind::Unparsable { .. } => true,
        Kind::Raw { segment_type, instance_types, class_types, .. } => {
            &&& segment_type != "whitespace"@
            &&& segment_type != "newline"@
            &&& !crate::text::has_infix(segment_type, "comment"@)
            &&& !class_types.contains("comment"@)
            &&& !instance_types.contains("whitespace"@)
            &&& !instance_types.contains("newline"@)
            &&& !instance_types.contains("trailing_newline"@)
            &&& !instance_types.contains("comment"@)
            &&& !instance_types.contains("inline_comment"@)
            &&& !instance_types.contains("block_comment"@)
        },
        _ => false,
    }
}

/// A tree is code just where something in it, reached through segments, is code by
/// itself.
pub proof fn code_is_reached_through_segments(t: Tree)
    ensures
        t.is_code() <==> exists|part: Tree| #[trigger] reaches(t, part) && code_by_itself(part),
    decreases t,
{
    assert(reaches(t, t));
    match t.kind {
        Kind::Raw { segment_type, instance_types, class_types, .. } => {
            let flagged = exists|i: int|
                0 <= i < instance_types.len() && crate::kind::non_code_type(
                    #[trigger] instance_types[i],
                );
            if flagged {
                let i = choose|i: int|
                    0 <= i < instance_types.len() && crate::kind::non_code_type(
                        #[trigger] instance_types[i],
                    );
                assert(instance_types.contains(instance_types[i]));
            } else {
                assert forall|n: Seq<char>| crate::kind::non_code_type(n) implies
                    !instance_types.contains(n) by {
                    if instance_types.contains(n) {
                        let i = choose|i: int|
                            0 <= i < instance_types.len() && instance_types[i] == n;
                        assert(crate::kind::non_code_type(instance_types[i]));
                    }
                }
                assert(crate::kind::non_code_type("whitespace"@));
                assert(crate::kind::non_code_type("newline"@));
                assert(crate::kind::non_code_type("trailing_newline"@));
                assert(crate::kind::non_code_type("comment"@));
                assert(crate::kind::non_code_type("inline_comment"@));
                assert(crate::kind::non_code_type("block_comment"@));
            }
            assert(t.is_code() == code_by_itself(t));
        },
        Kind::Segment { .. } => {
            if t.is_code() {
                let i = choose|i: int|
                    0 <= i < t.children.len() && (#[trigger] t.children[i]).is_code();
                code_is_reached_through_segments(t.children[i]);
                let part = choose|part: Tree| #[trigger]
                    reaches(t.children[i], part) && code_by_itself(part);
                assert(reaches(t, part));
            }
            if exists|part: Tree| #[trigger] reaches(t, part) && code_by_itself(part) {
                let part = choose|part: Tree| #[trigger] reaches(t, part) && code_by_itself(part);
                let i = choose|i: int|
                    0 <= i < t.children.len() && reaches(#[trigger] t.children[i], part);
                code_is_reached_through_segments(t.children[i]);
            }
        },
        _ => {},
    }
}

/// Where everything parsed, whitespace and comments are never code.
pub proof fn spacing_and_comments_are_not_code(t: Tree)
    requires
        t.is_whitespace() || t.is_comment(),
        forall|part: Tree| #[trigger] reaches(t, part) ==> !(part.kind is Unparsable),
    ensures
        !t.is_code(),
    decreases t,
{
    assert(reaches(t, t));
    match t.kind {
        Kind::Raw { segment_type, instance_types, class_types, .. } => {
            if instance_types.contains("whitespace"@) {
                let i = choose|i: int|
                    0 <= i < instance_types.len() && instance_types[i] == "whitespace"@;
                assert(crate::kind::non_code_type(instance_types[i]));
            }
            if instance_types.contains("newline"@) {
                let i = choose|i: int|
                    0 <= i < instance_types.len() && instance_types[i] == "newline"@;
                assert(crate::kind::non_code_type(instance_types[i]));
            }
        },
        Kind::Segment { .. } => {
            assert forall|i: int| 0 <= i < t.children.len() implies !(
            #[trigger] t.children[i]).is_code() by {
                assert forall|part: Tree| #[trigger] reaches(t.children[i], part) implies !(
                part.kind is Unparsable) by {
                    assert(reaches(t, part));
                }
                spacing_and_comments_are_not_code(t.children[i]);
            }
        },
        _ => {},
    }
}

} // verus!
