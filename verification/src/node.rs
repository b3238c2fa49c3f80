//! The nested parse tree that a parser hands over.

use vstd::prelude::*;

use crate::kind::{raw_is_code, MetaType, RawSegmentKwargs};
use crate::marker::PositionMarker;
use crate::text::clone_texts;

#[allow(unused_imports)]
use crate::kind::Kind;
#[allow(unused_imports)]
use crate::tree::Tree;

verus! {

/// A node of the parse tree, with its children.
#[allow(inconsistent_fields)]
#[derive(Debug)]
pub enum Node {
    Raw {
        segment_class: String,
        segment_type: String,
        class_type: String,
        raw: String,
        pos_marker: Option<PositionMarker>,
        instance_types: Vec<String>,
        class_types: Vec<String>,
        segment_kwargs: RawSegmentKwargs,
    },
    Segment {
        segment_class: String,
        segment_type: Option<String>,
        pos_marker: Option<PositionMarker>,
        class_types: Vec<String>,
        children: Vec<Node>,
    },
    Meta { meta_type: MetaType, pos_marker: Option<PositionMarker>, block_uuid: Option<u128> },
    Unparsable { expected: String, pos_marker: Option<PositionMarker>, children: Vec<Node> },
    Empty,
}

impl Node {
    /// The payload of the node.
    pub open spec fn kind(self) -> Kind {
        match self {
            Node::Raw {
                segment_class,
                segment_type,
                class_type,
                raw,
                instance_types,
                class_types,
                segment_kwargs,
                ..
            } => Kind::Raw {
                segment_class: segment_class@,
                segment_type: segment_type@,
                class_type: class_type@,
                raw: raw@,
                instance_types: crate::text::texts(instance_types@),
                class_types: crate::text::texts(class_types@),
                kwargs: segment_kwargs@,
            },
            Node::Segment { segment_class, segment_type, class_types, .. } => Kind::Segment {
                segment_class: segment_class@,
                segment_type: crate::kind::opt_text(segment_type),
                class_types: crate::text::texts(class_types@),
            },
            Node::Meta { meta_type, block_uuid, .. } => Kind::Meta { meta: meta_type@, block_uuid },
            Node::Unparsable { expected, .. } => Kind::Unparsable { expected: expected@ },
            Node::Empty => Kind::Empty,
        }
    }

    /// The position of the node.
    pub open spec fn marker(self) -> Option<PositionMarker> {
        match self {
            Node::Raw { pos_marker, .. } => pos_marker,
            Node::Segment { pos_marker, .. } => pos_marker,
            Node::Meta { pos_marker, .. } => pos_marker,
            Node::Unparsable { pos_marker, .. } => pos_marker,
            Node::Empty => None,
        }
    }

    /// The children of the node.
    pub open spec fn kids(self) -> Seq<Node> {
        match self {
            Node::Segment { children, .. } => children@,
            Node::Unparsable { children, .. } => children@,
            _ => Seq::empty(),
        }
    }

    /// The tree that the node stands for.
    pub open spec fn tree(self) -> Tree
        decreases self,
    {
        match self {
            Node::Segment { children, .. } => Tree {
                kind: self.kind(),
                marker: self.marker(),
                fixes: Seq::empty(),
                children: Seq::new(
                    children@.len(),
                    |i: int|
                        if 0 <= i < children@.len() {
                            children@[i].tree()
                        } else {
                            arbitrary()
                        },
                ),
            },
            Node::Unparsable { children, .. } => Tree {
                kind: self.kind(),
                marker: self.marker(),
                fixes: Seq::empty(),
                children: Seq::new(
                    children@.len(),
                    |i: int|
                        if 0 <= i < children@.len() {
                            children@[i].tree()
                        } else {
                            arbitrary()
                        },
                ),
            },
            _ => Tree {
                kind: self.kind(),
                marker: self.marker(),
                fixes: Seq::empty(),
                children: Seq::empty(),
            },
        }
    }

    /// A raw segment whose class-level type is its type, without declared types.
    pub fn new_raw(
        segment_class: String,
        segment_type: String,
        raw: String,
        pos_marker: Option<PositionMarker>,
        instance_types: Vec<String>,
        segment_kwargs: RawSegmentKwargs,
    ) -> (r: Node)
        ensures
            r.tree() == (Tree {
                kind: Kind::Raw {
                    segment_class: segment_class@,
                    segment_type: segment_type@,
                    class_type: segment_type@,
                    raw: raw@,
                    instance_types: crate::text::texts(instance_types@),
                    class_types: Seq::empty(),
                    kwargs: segment_kwargs@,
                },
                marker: pos_marker,
                fixes: Seq::empty(),
                children: Seq::empty(),
            }),
    {
        let class_type = segment_type.clone();
        let class_types: Vec<String> = Vec::new();
        assert(crate::text::texts(class_types@) =~= Seq::empty());
        Node::Raw {
            segment_class,
            segment_type,
            class_type,
            raw,
            pos_marker,
            instance_types,
            class_types,
            segment_kwargs,
        }
    }

    /// A raw segment with its class-level type and its declared types.
    pub fn new_raw_with_class_types(
        segment_class: String,
        segment_type: String,
        class_type: String,
        raw: String,
        pos_marker: Option<PositionMarker>,
        instance_types: Vec<String>,
        class_types: &Vec<String>,
        segment_kwargs: RawSegmentKwargs,
    ) -> (r: Node)
        ensures
            r.tree() == (Tree {
                kind: Kind::Raw {
                    segment_class: segment_class@,
                    segment_type: segment_type@,
                    class_type: class_type@,
                    raw: raw@,
                    instance_types: crate::text::texts(instance_types@),
                    class_types: crate::text::texts(class_types@),
                    kwargs: segment_kwargs@,
                },
                marker: pos_marker,
                fixes: Seq::empty(),
                children: Seq::empty(),
            }),
    {
        Node::Raw {
            segment_class,
            segment_type,
            class_type,
            raw,
            pos_marker,
            instance_types,
            class_types: clone_texts(class_types),
            segment_kwargs,
        }
    }

    /// Whether the node holds code.
    pub fn is_code(&self) -> (r: bool)
        ensures
            r == self.tree().is_code(),
        decreases self,
    {
        match self {
            Node::Meta { .. } => false,
            Node::Empty => false,
            Node::Raw { segment_type, instance_types, class_types, .. } => raw_is_code(
                segment_type.as_str(),
                instance_types,
                class_types,
            ),
            Node::Segment { children, .. } => {
                let mut i: usize = 0;
                while i < children.len()
                    invariant
                        i <= children@.len(),
                        self is Segment,
                        children == self->Segment_children,
                        forall|j: int| 0 <= j < i ==> !(#[trigger] self.tree().children[j]).is_code(),
                    decreases children@.len() - i,
                {
                    if children[i].is_code() {
                        assert(self.tree().children[i as int].is_code());
                        return true;
                    }
                    i += 1;
                }
                false
            },
            Node::Unparsable { .. } => true,
        }
    }

    /// The source text of the node.
    pub fn raw(&self) -> (r: String)
        ensures
            r@ == self.tree().raw(),
        decreases self,
    {
        match self {
            Node::Raw { raw, .. } => raw.clone(),
            Node::Meta { .. } => String::new(),
            Node::Empty => String::new(),
            Node::Segment { children, .. } | Node::Unparsable { children, .. } => {
                let mut s = String::new();
                let ghost kids = self.tree().children;
                assert(kids.take(0) =~= Seq::empty());
                for i in 0..children.len()
                    invariant
                        self is Segment ==> children == self->Segment_children,
                        self is Unparsable ==> children == self->Unparsable_children,
                        self is Segment || self is Unparsable,
                        kids == self.tree().children,
                        s@ == Tree::raws(kids.take(i as int)),
                {
                    let part = children[i].raw();
                    assert(kids.take(i + 1).drop_last() =~= kids.take(i as int));
                    s.push_str(part.as_str());
                }
                assert(kids.take(kids.len() as int) =~= kids);
                s
            },
        }
    }
}

} // verus!
