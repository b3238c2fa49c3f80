//! Edits: what a fix asks of the tree, and the segments that it brings.

use std::sync::Arc;
use vstd::prelude::*;

use crate::kind::{clone_opt_text, raw_is_code, MetaType, RawSegmentKwargs};
use crate::marker::{PositionMarker, Slice, TemplatedFile};
use crate::revalidate::LeafDescriptor;
use crate::tables::TextSet;
use crate::text::{clone_texts, contains_text, same_text};
use crate::tree::{append_fixes, SourceFixSpec};

#[allow(unused_imports)]
use crate::kind::Kind;
#[allow(unused_imports)]
use crate::tree::{FixView, LeafView, Tree};

verus! {

/// What a fix does at its anchor.
#[derive(Clone, Copy, Debug, PartialEq, Eq, Structural)]
pub enum EditKind {
    Delete,
    Replace,
    CreateBefore,
    CreateAfter,
}

/// One fix to apply: the uuid of its anchor, what it does there, and the
/// segments that it brings.
#[derive(Debug)]
pub struct EditOp {
    pub anchor_uuid: u128,
    pub kind: EditKind,
    pub edits: Vec<NodeSpec>,
}

/// The payload of a segment to be created.
#[allow(inconsistent_fields)]
#[derive(Debug)]
pub enum SpecKind {
    Raw {
        segment_class: String,
        segment_type: String,
        class_type: String,
        raw: String,
        instance_types: Vec<String>,
        class_types: Vec<String>,
        kwargs: RawSegmentKwargs,
    },
    Segment { segment_class: String, segment_type: Option<String>, class_types: Vec<String> },
    Meta { meta_type: MetaType, block_uuid: Option<u128> },
}

/// A position as plain numbers: start and stop in the source, start and stop in
/// the templated text, working line and place.
pub type MarkerSpec = (usize, usize, usize, usize, usize, usize);

/// A segment to be created, with its children.
///
/// The uuid is kept when the segment enters a tree, unless the tree knows it
/// already. The marker is that of the segment it was copied from, if any.
#[derive(Debug)]
pub struct NodeSpec {
    pub uuid: u128,
    pub kind: SpecKind,
    pub marker: Option<MarkerSpec>,
    pub source_fixes: Vec<SourceFixSpec>,
    pub children: Vec<NodeSpec>,
}

/// The mathematical form of [`NodeSpec`].
#[verifier::ext_equal]
pub struct SpecTree {
    pub uuid: u128,
    pub kind: Kind,
    pub marker: Option<MarkerSpec>,
    pub fixes: Seq<FixView>,
    pub children: Seq<SpecTree>,
}

/// The mathematical form of [`EditOp`].
#[verifier::ext_equal]
pub struct OpView {
    pub kind: EditKind,
    pub edits: Seq<SpecTree>,
}

impl SpecKind {
    /// The mathematical payload.
    pub open spec fn view(self) -> Kind {
        match self {
            SpecKind::Raw {
                segment_class,
                segment_type,
                class_type,
                raw,
                instance_types,
                class_types,
                kwargs,
            } => Kind::Raw {
                segment_class: segment_class@,
                segment_type: segment_type@,
                class_type: class_type@,
                raw: raw@,
                instance_types: crate::text::texts(instance_types@),
                class_types: crate::text::texts(class_types@),
                kwargs: kwargs@,
            },
            SpecKind::Segment { segment_class, segment_type, class_types } => Kind::Segment {
                segment_class: segment_class@,
                segment_type: crate::kind::opt_text(segment_type),
                class_types: crate::text::texts(class_types@),
            },
            SpecKind::Meta { meta_type, block_uuid } => Kind::Meta { meta: meta_type@, block_uuid },
        }
    }
}

impl Clone for SpecKind {
    fn clone(&self) -> (r: SpecKind)
        ensures
            r@ == self@,
    {
        match self {
            SpecKind::Raw {
                segment_class,
                segment_type,
                class_type,
                raw,
                instance_types,
                class_types,
                kwargs,
            } => SpecKind::Raw {
                segment_class: segment_class.clone(),
                segment_type: segment_type.clone(),
                class_type: class_type.clone(),
                raw: raw.clone(),
                instance_types: clone_texts(instance_types),
                class_types: clone_texts(class_types),
                kwargs: kwargs.clone(),
            },
            SpecKind::Segment { segment_class, segment_type, class_types } => SpecKind::Segment {
                segment_class: segment_class.clone(),
                segment_type: clone_opt_text(segment_type),
                class_types: clone_texts(class_types),
            },
            SpecKind::Meta { meta_type, block_uuid } => SpecKind::Meta {
                meta_type: meta_type.clone(),
                block_uuid: *block_uuid,
            },
        }
    }
}

impl NodeSpec {
    /// The mathematical form.
    pub open spec fn view(self) -> SpecTree
        decreases self,
    {
        SpecTree {
            uuid: self.uuid,
            kind: self.kind@,
            marker: self.marker,
            fixes: SourceFixSpec::views(self.source_fixes@),
            children: Seq::new(
                self.children@.len(),
                |i: int|
                    if 0 <= i < self.children@.len() {
                        self.children@[i].view()
                    } else {
                        arbitrary()
                    },
            ),
        }
    }

    /// The mathematical forms of a list.
    pub open spec fn views(list: Seq<NodeSpec>) -> Seq<SpecTree> {
        Seq::new(list.len(), |i: int| list[i]@)
    }
}

impl Clone for NodeSpec {
    fn clone(&self) -> (r: NodeSpec)
        ensures
            r@ == self@,
        decreases self,
    {
        let mut children: Vec<NodeSpec> = Vec::new();
        for i in 0..self.children.len()
            invariant
                children@.len() == i,
                forall|j: int| 0 <= j < i ==> (#[trigger] children@[j])@ == self.children@[j]@,
        {
            let c = self.children[i].clone();
            children.push(c);
        }
        let mut source_fixes: Vec<SourceFixSpec> = Vec::new();
        append_fixes(&mut source_fixes, &self.source_fixes);
        assert(source_fixes@ =~= self.source_fixes@);
        let r = NodeSpec {
            uuid: self.uuid,
            kind: self.kind.clone(),
            marker: self.marker,
            source_fixes,
            children,
        };
        assert(r@.children =~= self@.children);
        r
    }
}

impl EditOp {
    /// The mathematical form.
    pub open spec fn view(self) -> OpView {
        OpView { kind: self.kind, edits: NodeSpec::views(self.edits@) }
    }

    /// The mathematical forms of a list.
    pub open spec fn views(list: Seq<EditOp>) -> Seq<OpView> {
        Seq::new(list.len(), |i: int| list[i]@)
    }
}

/// What re-validation reads of a raw segment to be created. Indents and
/// dedents may come as raw segments; their types tell them apart.
pub open spec fn raw_leaf(
    raw: Seq<char>,
    segment_type: Seq<char>,
    instance_types: Seq<Seq<char>>,
    class_types: Seq<Seq<char>>,
) -> LeafView {
    let is_meta = class_types.contains("meta"@) || segment_type == "indent"@ || segment_type
        == "dedent"@;
    LeafView {
        raw,
        instance_types,
        class_types,
        is_code: !is_meta && crate::kind::raw_code(segment_type, instance_types, class_types),
        is_meta,
    }
}

/// What re-validation reads of a meta to be created.
pub open spec fn meta_leaf() -> LeafView {
    LeafView {
        raw: Seq::empty(),
        instance_types: Seq::empty(),
        class_types: Seq::empty(),
        is_code: false,
        is_meta: true,
    }
}

impl SpecTree {
    /// The source text.
    pub open spec fn raw(self) -> Seq<char>
        decreases self,
    {
        match self.kind {
            Kind::Raw { raw, .. } => raw,
            Kind::Meta { .. } => Seq::empty(),
            Kind::Empty => Seq::empty(),
            _ => SpecTree::raws(self.children),
        }
    }

    /// The source text of a row.
    pub open spec fn raws(row: Seq<SpecTree>) -> Seq<char>
        decreases row,
    {
        if row.len() == 0 {
            Seq::empty()
        } else {
            SpecTree::raws(row.drop_last()) + row.last().raw()
        }
    }

    /// Whether it is a meta.
    pub open spec fn is_meta(self) -> bool {
        self.kind is Meta
    }

    /// Whether it holds code.
    pub open spec fn is_code(self) -> bool
        decreases self,
    {
        match self.kind {
            Kind::Meta { .. } => false,
            Kind::Empty => false,
            Kind::Raw { segment_type, instance_types, class_types, .. } => crate::kind::raw_code(
                segment_type,
                instance_types,
                class_types,
            ),
            Kind::Segment { .. } => exists|i: int|
                0 <= i < self.children.len() && (#[trigger] self.children[i]).is_code(),
            Kind::Unparsable { .. } => true,
        }
    }

    /// Whether it is code or a meta: what a container may start and end with.
    pub open spec fn anchors_end(self) -> bool {
        self.is_code() || self.is_meta()
    }

    /// The declared class types, as a set.
    pub open spec fn declared_types(self) -> Set<Seq<char>> {
        self.kind.declared().to_set()
    }

    /// The leaves, as re-validation reads them.
    pub open spec fn leaves(self) -> Seq<LeafView>
        decreases self,
    {
        match self.kind {
            Kind::Raw { raw, segment_type, instance_types, class_types, .. } => seq![
                raw_leaf(raw, segment_type, instance_types, class_types),
            ],
            Kind::Meta { .. } => seq![meta_leaf()],
            _ => SpecTree::leaves_of(self.children),
        }
    }

    /// The leaves of a row.
    pub open spec fn leaves_of(row: Seq<SpecTree>) -> Seq<LeafView>
        decreases row,
    {
        if row.len() == 0 {
            Seq::empty()
        } else {
            SpecTree::leaves_of(row.drop_last()) + row.last().leaves()
        }
    }

    /// The source fixes in document order.
    pub open spec fn source_fixes(self) -> Seq<FixView>
        decreases self,
    {
        self.fixes + SpecTree::fixes_of(self.children)
    }

    /// The source fixes of a row.
    pub open spec fn fixes_of(row: Seq<SpecTree>) -> Seq<FixView>
        decreases row,
    {
        if row.len() == 0 {
            Seq::empty()
        } else {
            SpecTree::fixes_of(row.drop_last()) + row.last().source_fixes()
        }
    }

    /// Whether only segments and what did not parse have children, here and below.
    pub open spec fn proper(self) -> bool
        decreases self,
    {
        &&& self.children.len() > 0 ==> self.kind is Segment || self.kind is Unparsable
        &&& forall|i: int| 0 <= i < self.children.len() ==> (#[trigger] self.children[i]).proper()
    }

    /// The uuids.
    pub open spec fn uuids(self) -> Set<u128>
        decreases self,
    {
        SpecTree::uuids_of(self.children).insert(self.uuid)
    }

    /// The uuids of a row.
    pub open spec fn uuids_of(row: Seq<SpecTree>) -> Set<u128>
        decreases row,
    {
        if row.len() == 0 {
            Set::empty()
        } else {
            SpecTree::uuids_of(row.drop_last()).union(row.last().uuids())
        }
    }

    /// How often a uuid occurs.
    pub open spec fn times(self, u: u128) -> nat
        decreases self,
    {
        SpecTree::times_in(self.children, u) + if self.uuid == u {
            1nat
        } else {
            0
        }
    }

    /// How often a uuid occurs in a row.
    pub open spec fn times_in(row: Seq<SpecTree>, u: u128) -> nat
        decreases row,
    {
        if row.len() == 0 {
            0
        } else {
            SpecTree::times_in(row.drop_last(), u) + row.last().times(u)
        }
    }

    /// The number of segments.
    pub open spec fn size(self) -> nat
        decreases self,
    {
        1 + SpecTree::sizes(self.children)
    }

    /// The number of segments of a row.
    pub open spec fn sizes(row: Seq<SpecTree>) -> nat
        decreases row,
    {
        if row.len() == 0 {
            0
        } else {
            SpecTree::sizes(row.drop_last()) + row.last().size()
        }
    }

    /// The position in a tree over the given file.
    pub open spec fn placed(self, file: Option<Arc<TemplatedFile>>) -> Option<PositionMarker> {
        match (self.marker, file) {
            (Some(m), Some(f)) => Some(
                PositionMarker::made(
                    Slice { start: m.0, stop: m.1 },
                    Slice { start: m.2, stop: m.3 },
                    f,
                    Some(m.4),
                    Some(m.5),
                ),
            ),
            _ => None,
        }
    }

    /// The tree that it becomes over the given file.
    pub open spec fn tree(self, file: Option<Arc<TemplatedFile>>) -> Tree
        decreases self,
    {
        Tree {
            kind: self.kind,
            marker: self.placed(file),
            fixes: self.fixes,
            children: Seq::new(
                self.children.len(),
                |i: int|
                    if 0 <= i < self.children.len() {
                        self.children[i].tree(file)
                    } else {
                        arbitrary()
                    },
            ),
        }
    }
}

/// A row has at least the segments of any of its beginnings.
pub proof fn spec_sizes_of_prefix(row: Seq<SpecTree>, n: int)
    requires
        0 <= n <= row.len(),
    ensures
        SpecTree::sizes(row.take(n)) <= SpecTree::sizes(row),
    decreases row.len(),
{
    if n < row.len() {
        spec_sizes_of_prefix(row.drop_last(), n);
        assert(row.drop_last().take(n) =~= row.take(n));
    } else {
        assert(row.take(n) =~= row);
    }
}

/// A uuid is among those of a segment where it occurs.
pub proof fn uuid_occurs(s: SpecTree, u: u128)
    ensures
        s.uuids().contains(u) <==> s.times(u) > 0,
    decreases s, 1int,
{
    uuid_occurs_in(s.children, u);
}

/// A uuid is among those of a row where it occurs.
pub proof fn uuid_occurs_in(row: Seq<SpecTree>, u: u128)
    ensures
        SpecTree::uuids_of(row).contains(u) <==> SpecTree::times_in(row, u) > 0,
    decreases row, 0int,
{
    if row.len() > 0 {
        uuid_occurs_in(row.drop_last(), u);
        uuid_occurs(row.last(), u);
    }
}

/// A uuid occurs in a member of a row and in those before it no more often than
/// in the row.
pub proof fn times_of_member(row: Seq<SpecTree>, i: int, u: u128)
    requires
        0 <= i < row.len(),
    ensures
        SpecTree::times_in(row.take(i), u) + row[i].times(u) <= SpecTree::times_in(row, u),
        row[i].uuids().contains(u) ==> SpecTree::uuids_of(row).contains(u),
    decreases row.len(),
{
    if i < row.len() - 1 {
        times_of_member(row.drop_last(), i, u);
        assert(row.drop_last().take(i) =~= row.take(i));
    } else {
        assert(row.take(i) =~= row.drop_last());
    }
}

/// A proper segment becomes a proper tree.
pub proof fn proper_tree(s: SpecTree, file: Option<Arc<TemplatedFile>>)
    requires
        s.proper(),
    ensures
        s.tree(file).proper(),
    decreases s,
{
    assert forall|i: int| 0 <= i < s.children.len() implies (
    #[trigger] s.tree(file).children[i]).proper() by {
        assert(s.children[i].proper());
        proper_tree(s.children[i], file);
    }
}

/// The trees that a row becomes.
pub open spec fn tree_row(row: Seq<SpecTree>, file: Option<Arc<TemplatedFile>>) -> Seq<Tree> {
    Seq::new(row.len(), |i: int| row[i].tree(file))
}

/// The source text of a segment to be created is that of the tree it becomes.
pub proof fn spec_raw_is_tree_raw(s: SpecTree, file: Option<Arc<TemplatedFile>>)
    ensures
        s.tree(file).raw() == s.raw(),
    decreases s, 1int,
{
    spec_raws_are_tree_raws(s.children, file);
    assert(s.tree(file).children =~= tree_row(s.children, file));
}

proof fn spec_raws_are_tree_raws(row: Seq<SpecTree>, file: Option<Arc<TemplatedFile>>)
    ensures
        Tree::raws(tree_row(row, file)) == SpecTree::raws(row),
    decreases row, 0int,
{
    if row.len() > 0 {
        spec_raws_are_tree_raws(row.drop_last(), file);
        spec_raw_is_tree_raw(row.last(), file);
        assert(tree_row(row, file).drop_last() =~= tree_row(row.drop_last(), file));
    }
}

/// The source fixes of a segment to be created are those of the tree it becomes.
pub proof fn spec_fixes_are_tree_fixes(s: SpecTree, file: Option<Arc<TemplatedFile>>)
    ensures
        s.tree(file).source_fixes() == s.source_fixes(),
    decreases s, 1int,
{
    spec_fixes_of_are_tree_fixes(s.children, file);
    assert(s.tree(file).children =~= tree_row(s.children, file));
}

proof fn spec_fixes_of_are_tree_fixes(row: Seq<SpecTree>, file: Option<Arc<TemplatedFile>>)
    ensures
        Tree::fixes_of(tree_row(row, file)) == SpecTree::fixes_of(row),
    decreases row, 0int,
{
    if row.len() > 0 {
        spec_fixes_of_are_tree_fixes(row.drop_last(), file);
        spec_fixes_are_tree_fixes(row.last(), file);
        assert(tree_row(row, file).drop_last() =~= tree_row(row.drop_last(), file));
    }
}

impl NodeSpec {
    /// The source text.
    pub fn spec_raw(&self) -> (r: String)
        ensures
            r@ == self@.raw(),
        decreases self,
    {
        match &self.kind {
            SpecKind::Raw { raw, .. } => raw.clone(),
            SpecKind::Meta { .. } => String::new(),
            SpecKind::Segment { .. } => {
                let mut s = String::new();
                let ghost kids = self@.children;
                assert(kids.take(0) =~= Seq::empty());
                for i in 0..self.children.len()
                    invariant
                        kids == self@.children,
                        s@ == SpecTree::raws(kids.take(i as int)),
                {
                    let part = self.children[i].spec_raw();
                    assert(kids.take(i + 1).drop_last() =~= kids.take(i as int));
                    s.push_str(part.as_str());
                }
                assert(kids.take(kids.len() as int) =~= kids);
                s
            },
        }
    }

    /// Whether it is a meta.
    pub fn is_meta(&self) -> (r: bool)
        ensures
            r == self@.is_meta(),
    {
        match &self.kind {
            SpecKind::Meta { .. } => true,
            _ => false,
        }
    }

    /// Whether it holds code.
    pub fn is_code(&self) -> (r: bool)
        ensures
            r == self@.is_code(),
        decreases self,
    {
        match &self.kind {
            SpecKind::Meta { .. } => false,
            SpecKind::Raw { segment_type, instance_types, class_types, .. } => raw_is_code(
                segment_type.as_str(),
                instance_types,
                class_types,
            ),
            SpecKind::Segment { .. } => {
                let mut i: usize = 0;
                while i < self.children.len()
                    invariant
                        i <= self.children@.len(),
                        self.kind is Segment,
                        forall|j: int| 0 <= j < i ==> !(#[trigger] self@.children[j]).is_code(),
                    decreases self.children@.len() - i,
                {
                    if self.children[i].is_code() {
                        assert(self@.children[i as int].is_code());
                        return true;
                    }
                    i += 1;
                }
                false
            },
        }
    }

    /// The declared class types.
    pub fn class_type_set(&self) -> (r: TextSet)
        ensures
            r@ == self@.declared_types(),
    {
        match &self.kind {
            SpecKind::Raw { class_types, .. } => TextSet::of_list(class_types),
            SpecKind::Segment { class_types, .. } => TextSet::of_list(class_types),
            SpecKind::Meta { .. } => {
                let r = TextSet::new();
                assert(r@ =~= self@.declared_types());
                r
            },
        }
    }

    /// Appends the leaves, as re-validation reads them.
    pub fn spec_leaves(&self, out: &mut Vec<LeafDescriptor>)
        ensures
            LeafDescriptor::views(final(out)@) == LeafDescriptor::views(old(out)@) + self@.leaves(),
        decreases self,
    {
        match &self.kind {
            SpecKind::Raw { raw, segment_type, instance_types, class_types, .. } => {
                let is_meta = contains_text(class_types, "meta") || same_text(
                    segment_type.as_str(),
                    "indent",
                ) || same_text(segment_type.as_str(), "dedent");
                let is_code = !is_meta && self.is_code();
                out.push(
                    LeafDescriptor {
                        raw: raw.clone(),
                        instance_types: clone_texts(instance_types),
                        class_types: clone_texts(class_types),
                        is_code,
                        is_meta,
                    },
                );
                assert(LeafDescriptor::views(out@) =~= LeafDescriptor::views(old(out)@)
                    + self@.leaves());
            },
            SpecKind::Meta { .. } => {
                out.push(
                    LeafDescriptor {
                        raw: String::new(),
                        instance_types: Vec::new(),
                        class_types: Vec::new(),
                        is_code: false,
                        is_meta: true,
                    },
                );
                assert(out@.last()@.instance_types =~= Seq::empty());
                assert(out@.last()@.class_types =~= Seq::empty());
                assert(out@.last()@.raw =~= Seq::empty());
                assert(LeafDescriptor::views(out@) =~= LeafDescriptor::views(old(out)@)
                    + self@.leaves());
            },
            SpecKind::Segment { .. } => {
                let ghost kids = self@.children;
                assert(kids.take(0) =~= Seq::empty());
                assert(LeafDescriptor::views(out@) =~= LeafDescriptor::views(old(out)@)
                    + SpecTree::leaves_of(kids.take(0)));
                for i in 0..self.children.len()
                    invariant
                        kids == self@.children,
                        LeafDescriptor::views(out@) == LeafDescriptor::views(old(out)@)
                            + SpecTree::leaves_of(kids.take(i as int)),
                {
                    self.children[i].spec_leaves(out);
                    assert(kids.take(i + 1).drop_last() =~= kids.take(i as int));
                    assert(LeafDescriptor::views(out@) =~= LeafDescriptor::views(old(out)@)
                        + SpecTree::leaves_of(kids.take(i + 1)));
                }
                assert(kids.take(kids.len() as int) =~= kids);
            },
        }
    }

    /// Appends the source fixes in document order.
    pub fn spec_source_fixes(&self, out: &mut Vec<SourceFixSpec>)
        ensures
            SourceFixSpec::views(final(out)@) == SourceFixSpec::views(old(out)@)
                + self@.source_fixes(),
        decreases self,
    {
        append_fixes(out, &self.source_fixes);
        let ghost kids = self@.children;
        let ghost start = SourceFixSpec::views(old(out)@);
        assert(kids.take(0) =~= Seq::empty());
        assert(SourceFixSpec::views(out@) =~= start + self@.fixes + SpecTree::fixes_of(
            kids.take(0),
        ));
        for i in 0..self.children.len()
            invariant
                kids == self@.children,
                SourceFixSpec::views(out@) == start + self@.fixes + SpecTree::fixes_of(
                    kids.take(i as int),
                ),
        {
            self.children[i].spec_source_fixes(out);
            assert(kids.take(i + 1).drop_last() =~= kids.take(i as int));
            assert(SourceFixSpec::views(out@) =~= start + self@.fixes + SpecTree::fixes_of(
                kids.take(i + 1),
            ));
        }
        assert(kids.take(kids.len() as int) =~= kids);
        assert(SourceFixSpec::views(out@) =~= start + self@.source_fixes());
    }
}

} // verus!
