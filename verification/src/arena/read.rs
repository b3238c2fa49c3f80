//! Reading nodes: links, payload and what follows from the tree below.

use vstd::prelude::*;

use crate::arena::state::NodeId;
use crate::arena::Arena;
use crate::kind::{clone_opt_pair, clone_opt_pairs, clone_opt_texts, raw_is_code, CaseFold, MetaType, NodeKind};
use crate::marker::PositionMarker;
use crate::tables::TextSet;
use crate::text::{clone_texts, contains_str, contains_text, same_text, upper_text};
use crate::tree::{append_fixes, SourceFixSpec};

#[allow(unused_imports)]
use crate::kind::{Kind, MetaView};
#[allow(unused_imports)]
use crate::tree::Tree;

verus! {

impl Arena {
    /// The root of the tree.
    pub fn root(&self) -> (r: NodeId)
        ensures
            r == self@.root,
    {
        self.root
    }

    /// The number of nodes, removed ones included.
    pub fn len(&self) -> (r: usize)
        ensures
            r == self@.nodes.len(),
    {
        self.nodes.len()
    }

    /// Whether there are no nodes.
    pub fn is_empty(&self) -> (r: bool)
        ensures
            r == (self@.nodes.len() == 0),
    {
        self.nodes.len() == 0
    }

    /// The node that has the uuid; retired uuids lead nowhere.
    pub fn node_by_uuid(&self, uuid: u128) -> (r: Option<NodeId>)
        requires
            self.wf(),
        ensures
            match r {
                Some(id) => self@.by_uuid.contains_key(uuid) && self@.by_uuid[uuid] == id.0
                    && self@.has(id) && self@.node(id).uuid == uuid,
                None => !self@.by_uuid.contains_key(uuid),
            },
    {
        match self.by_uuid.get(uuid) {
            Some(i) => {
                assert(self@.by_uuid.contains_key(uuid));
                Some(NodeId(i as u32))
            },
            None => None,
        }
    }

    /// The number of committed edit batches.
    pub fn epoch(&self) -> (r: u64)
        ensures
            r == self@.epoch,
    {
        self.epoch
    }

    /// Counts one more committed edit batch.
    pub fn bump_epoch(&mut self)
        requires
            old(self)@.epoch < u64::MAX,
        ensures
            final(self)@ == (crate::arena::state::ArenaState {
                epoch: (old(self)@.epoch + 1) as u64,
                ..old(self)@
            }),
            final(self).tables_ok() == old(self).tables_ok(),
    {
        self.epoch += 1;
        assert(self@.nodes =~= old(self)@.nodes);
    }

    /// Whether the node was cut off the tree. Its payload still reads. The root
    /// is never cut off.
    pub fn is_detached(&self, id: NodeId) -> (r: bool)
        requires
            self@.has(id),
        ensures
            r == (id != self@.root && self@.node(id).parent is None),
    {
        id != self.root && self.nodes[id.idx()].parent.is_none()
    }

    /// The children of a node.
    pub fn children(&self, id: NodeId) -> (r: &[NodeId])
        requires
            self@.has(id),
        ensures
            r@ == self@.node(id).children,
    {
        self.nodes[id.idx()].children.as_slice()
    }

    /// The container of a node.
    pub fn parent(&self, id: NodeId) -> (r: Option<NodeId>)
        requires
            self@.has(id),
        ensures
            r == self@.node(id).parent,
    {
        self.nodes[id.idx()].parent
    }

    /// The uuid of a node.
    pub fn uuid(&self, id: NodeId) -> (r: u128)
        requires
            self@.has(id),
        ensures
            r == self@.node(id).uuid,
    {
        self.nodes[id.idx()].uuid
    }

    /// The position of a node.
    pub fn pos_marker(&self, id: NodeId) -> (r: Option<PositionMarker>)
        requires
            self@.has(id),
        ensures
            r == self@.node(id).marker,
    {
        match &self.nodes[id.idx()].pos_marker {
            Some(m) => Some(m.clone()),
            None => None,
        }
    }

    /// The payload of a node.
    pub(crate) fn payload(&self, id: NodeId) -> (r: &NodeKind)
        requires
            self@.has(id),
        ensures
            r@ == self@.node(id).kind,
    {
        &self.nodes[id.idx()].kind
    }

    /// The source text below a node.
    pub fn raw(&self, id: NodeId) -> (r: String)
        requires
            self.wf(),
            self@.has(id),
        ensures
            r@ == self@.at(id).raw(),
        decreases self@.nodes.len() - id.0,
    {
        proof {
            self@.lemma_at(id);
        }
        match self.payload(id) {
            NodeKind::Raw { raw, .. } => raw.clone(),
            NodeKind::Meta { .. } => String::new(),
            NodeKind::Empty => String::new(),
            _ => {
                let kids = self.children(id);
                let ghost trees = self@.at(id).children;
                let mut s = String::new();
                assert(trees.take(0) =~= Seq::empty());
                for i in 0..kids.len()
                    invariant
                        self.wf(),
                        self@.has(id),
                        kids@ == self@.node(id).children,
                        trees == self@.at(id).children,
                        trees.len() == kids@.len(),
                        s@ == Tree::raws(trees.take(i as int)),
                {
                    proof {
                        self@.lemma_at(id);
                    }
                    assert(trees.take(i + 1).drop_last() =~= trees.take(i as int));
                    let part = self.raw(kids[i]);
                    s.push_str(part.as_str());
                }
                assert(trees.take(trees.len() as int) =~= trees);
                s
            },
        }
    }

    /// The source text below a node in upper case.
    pub fn raw_upper(&self, id: NodeId) -> (r: String)
        requires
            self.wf(),
            self@.has(id),
        ensures
            r@ == crate::text::uppercase(self@.at(id).raw()),
    {
        let raw = self.raw(id);
        upper_text(raw.as_str())
    }

    /// The semantic type of a node.
    pub fn get_type(&self, id: NodeId) -> (r: String)
        requires
            self@.has(id),
        ensures
            r@ == self@.node(id).kind.semantic_type(),
    {
        self.payload(id).type_text()
    }

    /// The class-level type of a node.
    pub fn class_type(&self, id: NodeId) -> (r: String)
        requires
            self@.has(id),
        ensures
            r@ == self@.node(id).kind.class_level_type(),
    {
        match self.payload(id) {
            NodeKind::Raw { class_type, .. } => class_type.clone(),
            _ => self.payload(id).type_text(),
        }
    }

    /// Whether a node is of the type.
    pub fn is_type(&self, id: NodeId, target: &str) -> (r: bool)
        requires
            self@.has(id),
        ensures
            r == self@.node(id).kind.is_type(target@),
    {
        self.payload(id).is_type(target)
    }

    /// Whether a node is of one of the types.
    pub fn is_any_type(&self, id: NodeId, targets: &[String]) -> (r: bool)
        requires
            self@.has(id),
        ensures
            r == self@.node(id).kind.is_any_type(crate::text::texts(targets@)),
    {
        self.payload(id).is_any_type(targets)
    }

    /// All types of a node.
    pub fn class_types(&self, id: NodeId) -> (r: Vec<String>)
        requires
            self@.has(id),
        ensures
            crate::text::texts(r@) == self@.node(id).kind.type_list(),
    {
        self.payload(id).type_list()
    }

    /// The instance types of a node.
    pub fn instance_types(&self, id: NodeId) -> (r: Vec<String>)
        requires
            self@.has(id),
        ensures
            crate::text::texts(r@) == self@.node(id).kind.instances(),
    {
        match self.payload(id) {
            NodeKind::Raw { instance_types, .. } => clone_texts(instance_types),
            _ => {
                let r: Vec<String> = Vec::new();
                assert(crate::text::texts(r@) =~= Seq::empty());
                r
            },
        }
    }

    /// The class name of a node that has one.
    pub fn segment_class(&self, id: NodeId) -> (r: Option<String>)
        requires
            self@.has(id),
        ensures
            crate::kind::opt_text(r) == self@.node(id).kind.class_name(),
    {
        match self.payload(id) {
            NodeKind::Raw { segment_class, .. } => Some(segment_class.clone()),
            NodeKind::Segment { segment_class, .. } => Some(segment_class.clone()),
            _ => None,
        }
    }

    /// Whether an indent or dedent is implicit.
    pub fn is_implicit(&self, id: NodeId) -> (r: Option<bool>)
        requires
            self@.has(id),
        ensures
            r == (match self@.node(id).kind {
                Kind::Meta { meta: MetaView::Indent { is_implicit }, .. } => Some(is_implicit),
                Kind::Meta { meta: MetaView::Dedent { is_implicit }, .. } => Some(is_implicit),
                _ => None,
            }),
    {
        match self.payload(id) {
            NodeKind::Meta { meta_type: MetaType::Indent { is_implicit }, .. } => Some(
                *is_implicit,
            ),
            NodeKind::Meta { meta_type: MetaType::Dedent { is_implicit }, .. } => Some(
                *is_implicit,
            ),
            _ => None,
        }
    }

    /// The characters to trim off both ends of a raw segment.
    pub fn trim_chars(&self, id: NodeId) -> (r: Option<Vec<String>>)
        requires
            self@.has(id),
        ensures
            crate::kind::opt_texts(r) == (match self@.node(id).kind {
                Kind::Raw { kwargs, .. } => kwargs.trim_chars,
                _ => None,
            }),
    {
        match self.payload(id) {
            NodeKind::Raw { kwargs, .. } => clone_opt_texts(&kwargs.trim_chars),
            _ => None,
        }
    }

    /// Pattern and group by which a quoted raw segment yields its value.
    pub fn quoted_value(&self, id: NodeId) -> (r: Option<(String, String)>)
        requires
            self@.has(id),
        ensures
            crate::kind::opt_pair(r) == (match self@.node(id).kind {
                Kind::Raw { kwargs, .. } => kwargs.quoted_value,
                _ => None,
            }),
    {
        match self.payload(id) {
            NodeKind::Raw { kwargs, .. } => clone_opt_pair(&kwargs.quoted_value),
            _ => None,
        }
    }

    /// Patterns and replacements that undo the escapes of a raw segment.
    pub fn escape_replacements(&self, id: NodeId) -> (r: Option<Vec<(String, String)>>)
        requires
            self@.has(id),
        ensures
            crate::kind::opt_pairs(r) == (match self@.node(id).kind {
                Kind::Raw { kwargs, .. } => kwargs.escape_replacements,
                _ => None,
            }),
    {
        match self.payload(id) {
            NodeKind::Raw { kwargs, .. } => clone_opt_pairs(&kwargs.escape_replacements),
            _ => None,
        }
    }

    /// The prefixes to strip off a raw segment before trimming.
    pub fn trim_start(&self, id: NodeId) -> (r: Option<Vec<String>>)
        requires
            self@.has(id),
        ensures
            crate::kind::opt_texts(r) == (match self@.node(id).kind {
                Kind::Raw { kwargs, .. } => kwargs.trim_start,
                _ => None,
            }),
    {
        match self.payload(id) {
            NodeKind::Raw { kwargs, .. } => clone_opt_texts(&kwargs.trim_start),
            _ => None,
        }
    }

    /// How the dialect folds the case of a raw segment: `upper`, `lower` or not
    /// at all.
    pub fn casefold(&self, id: NodeId) -> (r: Option<String>)
        requires
            self@.has(id),
        ensures
            crate::kind::opt_text(r) == (match self@.node(id).kind {
                Kind::Raw { kwargs, .. } => match kwargs.casefold {
                    CaseFold::Upper => Some("upper"@),
                    CaseFold::Lower => Some("lower"@),
                    CaseFold::NoFold => None,
                },
                _ => None,
            }),
    {
        match self.payload(id) {
            NodeKind::Raw { kwargs, .. } => match kwargs.casefold {
                CaseFold::Upper => Some("upper".to_owned()),
                CaseFold::Lower => Some("lower".to_owned()),
                CaseFold::NoFold => None,
            },
            _ => None,
        }
    }

    /// The source that a placeholder stands for.
    pub fn meta_source_str(&self, id: NodeId) -> (r: Option<String>)
        requires
            self@.has(id),
        ensures
            crate::kind::opt_text(r) == (match self@.node(id).kind {
                Kind::Meta { meta: MetaView::Template { source_str, .. }, .. } => Some(source_str),
                _ => None,
            }),
    {
        match self.payload(id) {
            NodeKind::Meta { meta_type: MetaType::Template { source_str, .. }, .. } => Some(
                source_str.clone(),
            ),
            _ => None,
        }
    }

    /// The kind of template block that a placeholder stands for.
    pub fn block_type(&self, id: NodeId) -> (r: Option<String>)
        requires
            self@.has(id),
        ensures
            crate::kind::opt_text(r) == self@.node(id).kind.block_type(),
    {
        match self.payload(id) {
            NodeKind::Meta { meta_type: MetaType::Template { block_type, .. }, .. } => Some(
                block_type.clone(),
            ),
            _ => None,
        }
    }

    /// The template block that a meta came from.
    pub fn block_uuid(&self, id: NodeId) -> (r: Option<u128>)
        requires
            self@.has(id),
        ensures
            r == (match self@.node(id).kind {
                Kind::Meta { block_uuid, .. } => block_uuid,
                _ => None,
            }),
    {
        match self.payload(id) {
            NodeKind::Meta { block_uuid, .. } => *block_uuid,
            _ => None,
        }
    }

    /// Whether a node is a leaf.
    pub fn is_raw(&self, id: NodeId) -> (r: bool)
        requires
            self@.has(id),
        ensures
            r == (self@.node(id).children.len() == 0),
    {
        self.children(id).len() == 0
    }

    /// Whether a node is a meta.
    pub fn is_meta(&self, id: NodeId) -> (r: bool)
        requires
            self@.has(id),
        ensures
            r == (self@.node(id).kind is Meta),
    {
        match self.payload(id) {
            NodeKind::Meta { .. } => true,
            _ => false,
        }
    }

    /// Whether there is code below a node.
    pub fn is_code(&self, id: NodeId) -> (r: bool)
        requires
            self.wf(),
            self@.has(id),
        ensures
            r == self@.at(id).is_code(),
        decreases self@.nodes.len() - id.0,
    {
        proof {
            self@.lemma_at(id);
        }
        match self.payload(id) {
            NodeKind::Meta { .. } => false,
            NodeKind::Empty => false,
            NodeKind::Raw { segment_type, instance_types, class_types, .. } => raw_is_code(
                segment_type.as_str(),
                instance_types,
                class_types,
            ),
            NodeKind::Segment { .. } => {
                let kids = self.children(id);
                let mut i: usize = 0;
                while i < kids.len()
                    invariant
                        self.wf(),
                        self@.has(id),
                        self@.node(id).kind is Segment,
                        kids@ == self@.node(id).children,
                        i <= kids@.len(),
                        forall|j: int|
                            0 <= j < i ==> !(#[trigger] self@.at(id).children[j]).is_code(),
                    decreases kids@.len() - i,
                {
                    proof {
                        self@.lemma_at(id);
                    }
                    if self.is_code(kids[i]) {
                        assert(self@.at(id).children[i as int].is_code());
                        return true;
                    }
                    i += 1;
                }
                false
            },
            NodeKind::Unparsable { .. } => true,
        }
    }

    /// Whether all below a node is whitespace or newlines.
    pub fn is_whitespace(&self, id: NodeId) -> (r: bool)
        requires
            self.wf(),
            self@.has(id),
        ensures
            r == self@.at(id).is_whitespace(),
        decreases self@.nodes.len() - id.0,
    {
        proof {
            self@.lemma_at(id);
        }
        match self.payload(id) {
            NodeKind::Raw { segment_type, instance_types, .. } => same_text(
                segment_type.as_str(),
                "whitespace",
            ) || same_text(segment_type.as_str(), "newline") || contains_text(
                instance_types,
                "whitespace",
            ) || contains_text(instance_types, "newline"),
            NodeKind::Meta { .. } => false,
            NodeKind::Empty => false,
            _ => {
                let kids = self.children(id);
                if kids.len() == 0 {
                    return false;
                }
                let mut i: usize = 0;
                while i < kids.len()
                    invariant
                        self.wf(),
                        self@.has(id),
                        self@.node(id).kind is Segment || self@.node(id).kind is Unparsable,
                        kids@ == self@.node(id).children,
                        i <= kids@.len(),
                        forall|j: int|
                            0 <= j < i ==> (#[trigger] self@.at(id).children[j]).is_whitespace(),
                    decreases kids@.len() - i,
                {
                    proof {
                        self@.lemma_at(id);
                    }
                    if !self.is_whitespace(kids[i]) {
                        assert(!self@.at(id).children[i as int].is_whitespace());
                        return false;
                    }
                    i += 1;
                }
                true
            },
        }
    }

    /// Whether all below a node is comments.
    pub fn is_comment(&self, id: NodeId) -> (r: bool)
        requires
            self.wf(),
            self@.has(id),
        ensures
            r == self@.at(id).is_comment(),
        decreases self@.nodes.len() - id.0,
    {
        proof {
            self@.lemma_at(id);
        }
        match self.payload(id) {
            NodeKind::Raw { segment_type, class_types, .. } => contains_str(
                segment_type.as_str(),
                "comment",
            ) || contains_text(class_types, "comment"),
            NodeKind::Meta { .. } => false,
            NodeKind::Empty => false,
            _ => {
                let kids = self.children(id);
                if kids.len() == 0 {
                    return false;
                }
                let mut i: usize = 0;
                while i < kids.len()
                    invariant
                        self.wf(),
                        self@.has(id),
                        self@.node(id).kind is Segment || self@.node(id).kind is Unparsable,
                        kids@ == self@.node(id).children,
                        i <= kids@.len(),
                        forall|j: int|
                            0 <= j < i ==> (#[trigger] self@.at(id).children[j]).is_comment(),
                    decreases kids@.len() - i,
                {
                    proof {
                        self@.lemma_at(id);
                    }
                    if !self.is_comment(kids[i]) {
                        assert(!self@.at(id).children[i as int].is_comment());
                        return false;
                    }
                    i += 1;
                }
                true
            },
        }
    }

    /// Whether a node covers templated source.
    pub fn is_templated(&self, id: NodeId) -> (r: bool)
        requires
            self@.has(id),
        ensures
            r == (match self@.node(id).marker {
                Some(m) => !m.literal() && !m.point(),
                None => false,
            }),
    {
        match &self.nodes[id.idx()].pos_marker {
            Some(m) => !m.is_literal() && !m.is_point(),
            None => false,
        }
    }

    /// The types of the nodes below a node.
    pub fn descendant_type_set(&self, id: NodeId) -> (r: TextSet)
        requires
            self.wf(),
            self@.has(id),
        ensures
            r@ == self@.at(id).types_below(),
        decreases self@.nodes.len() - id.0,
    {
        proof {
            self@.lemma_at(id);
        }
        let kids = self.children(id);
        let ghost trees = self@.at(id).children;
        let mut set = TextSet::new();
        assert(trees.take(0) =~= Seq::empty());
        for i in 0..kids.len()
            invariant
                self.wf(),
                self@.has(id),
                kids@ == self@.node(id).children,
                trees == self@.at(id).children,
                trees.len() == kids@.len(),
                set@ == Tree::types_of(trees.take(i as int)),
        {
            proof {
                self@.lemma_at(id);
                self@.lemma_at(kids@[i as int]);
            }
            assert(trees.take(i + 1).drop_last() =~= trees.take(i as int));
            let types = self.class_types(kids[i]);
            set.add_all(&types);
            let below = self.descendant_type_set(kids[i]);
            set.add_set(below);
        }
        assert(trees.take(trees.len() as int) =~= trees);
        set
    }

    /// The source fixes below a node in document order.
    pub fn node_source_fixes(&self, id: NodeId) -> (r: Vec<SourceFixSpec>)
        requires
            self.wf(),
            self@.has(id),
        ensures
            SourceFixSpec::views(r@) == self@.at(id).source_fixes(),
    {
        let mut out: Vec<SourceFixSpec> = Vec::new();
        self.collect_source_fixes(id, &mut out);
        assert(SourceFixSpec::views(out@) =~= self@.at(id).source_fixes());
        out
    }

    /// Appends the source fixes of the node itself.
    pub(crate) fn own_source_fixes(&self, id: NodeId, out: &mut Vec<SourceFixSpec>)
        requires
            self.tables_ok(),
            self@.has(id),
        ensures
            SourceFixSpec::views(final(out)@) == SourceFixSpec::views(old(out)@) + self@.node(
                id,
            ).fixes,
    {
        if let Some(fixes) = self.source_fixes.get(id.table_key()) {
            append_fixes(out, fixes);
        }
        assert(SourceFixSpec::views(out@) =~= SourceFixSpec::views(old(out)@) + self@.node(
            id,
        ).fixes);
    }

    fn collect_source_fixes(&self, id: NodeId, out: &mut Vec<SourceFixSpec>)
        requires
            self.wf(),
            self@.has(id),
        ensures
            SourceFixSpec::views(final(out)@) == SourceFixSpec::views(old(out)@) + self@.at(
                id,
            ).source_fixes(),
        decreases self@.nodes.len() - id.0,
    {
        proof {
            self@.lemma_at(id);
        }
        self.own_source_fixes(id, out);
        let kids = self.children(id);
        let ghost trees = self@.at(id).children;
        let ghost start = SourceFixSpec::views(old(out)@) + self@.node(id).fixes;
        assert(trees.take(0) =~= Seq::empty());
        assert(SourceFixSpec::views(out@) =~= start + Tree::fixes_of(trees.take(0)));
        for i in 0..kids.len()
            invariant
                self.wf(),
                self@.has(id),
                kids@ == self@.node(id).children,
                trees == self@.at(id).children,
                trees.len() == kids@.len(),
                SourceFixSpec::views(out@) == start + Tree::fixes_of(trees.take(i as int)),
        {
            proof {
                self@.lemma_at(id);
            }
            assert(trees.take(i + 1).drop_last() =~= trees.take(i as int));
            self.collect_source_fixes(kids[i], out);
            assert(SourceFixSpec::views(out@) =~= start + Tree::fixes_of(trees.take(i + 1)));
        }
        assert(trees.take(trees.len() as int) =~= trees);
        assert(SourceFixSpec::views(out@) =~= SourceFixSpec::views(old(out)@) + self@.at(
            id,
        ).source_fixes());
    }

    /// Whether the container may start and end with non-code: only a file and
    /// what did not parse may.
    pub(crate) fn can_start_end_non_code(&self, id: NodeId) -> (r: bool)
        requires
            self@.has(id),
        ensures
            r == self@.node(id).kind.allows_non_code_ends(),
    {
        self.is_type(id, "file") || self.is_type(id, "unparsable")
    }
}

} // verus!
