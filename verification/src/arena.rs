//! A flattened, parent-linked parse tree whose nodes are addressed by id.
//!
//! Nodes are never freed: a node that an edit removes stays allocated, with its
//! payload, so that outstanding ids keep reading. Every node lies behind its
//! parent in the arena, which is what makes every walk terminate.

pub mod coherence;
pub mod commit;
pub mod depth;
pub mod effect;
pub mod history;
pub mod laws;
pub mod overlay;
pub mod plan;
pub mod position;
pub mod read;
pub mod search;
pub mod stage;
pub mod state;
pub mod tidy;
pub mod walk;

#[allow(unused_imports)]
use std::sync::Arc;

use vstd::prelude::*;

use crate::arena::state::{NodeId, StagedBatch};
use crate::edit::{NodeSpec, SpecKind};
use crate::kind::{clone_opt_text, NodeKind};
use crate::marker::{PositionMarker, Slice};
use crate::node::Node;
use crate::tables::{IdMap, IdSet, Table};
use crate::text::clone_texts;
use crate::tree::{append_fixes, SourceFixSpec};

#[allow(unused_imports)]
use crate::arena::state::{ArenaState, NodeRecord};
#[allow(unused_imports)]
use crate::edit::SpecTree;
#[allow(unused_imports)]
use crate::marker::TemplatedFile;
#[allow(unused_imports)]
use crate::tree::Tree;

verus! {

/// A node of the arena: payload, links and position.
pub struct ArenaNode {
    pub uuid: u128,
    pub parent: Option<NodeId>,
    pub parent_idx: usize,
    pub children: Vec<NodeId>,
    pub pos_marker: Option<PositionMarker>,
    pub kind: NodeKind,
}

/// A flattened, parent-linked, id-addressable parse tree.
pub struct Arena {
    nodes: Vec<ArenaNode>,
    root: NodeId,
    by_uuid: IdMap,
    /// The uuids of removed nodes, which are never given to another node.
    retired_uuids: IdSet,
    /// Counts the committed edit batches.
    epoch: u64,
    /// The source fixes of the few nodes that have any.
    source_fixes: Table<Vec<SourceFixSpec>>,
    /// An edit batch that is planned and not yet committed.
    staged: Option<StagedBatch>,
}

/// Where minted uuids start; edit segments bring uuids of another range.
pub const MINTED: u128 = 0x0200_0000_0000_0000_0000_0000_0000_0000;

impl Arena {
    /// The record of a node.
    pub closed spec fn record(&self, i: int) -> NodeRecord {
        let n = self.nodes@[i];
        NodeRecord {
            uuid: n.uuid,
            parent: n.parent,
            parent_idx: n.parent_idx,
            children: n.children@,
            marker: n.pos_marker,
            kind: n.kind@,
            fixes: if self.source_fixes@.contains_key(i as u128) {
                SourceFixSpec::views(self.source_fixes@[i as u128]@)
            } else {
                Seq::empty()
            },
        }
    }

    /// The state that the arena stands for.
    pub closed spec fn view(&self) -> ArenaState {
        ArenaState {
            nodes: Seq::new(self.nodes@.len(), |i: int| self.record(i)),
            root: self.root,
            by_uuid: self.by_uuid@,
            retired: self.retired_uuids@,
            epoch: self.epoch,
            staged: match self.staged {
                Some(s) => Some(s@),
                None => None,
            },
        }
    }

    /// The tables are in order.
    pub closed spec fn tables_ok(&self) -> bool {
        &&& self.source_fixes.wf()
        &&& forall|k: u128| #[trigger]
            self.source_fixes@.contains_key(k) ==> k < self.nodes@.len()
        &&& self.staged is Some ==> self.staged->0.wf()
    }

    /// The arena is in order.
    pub open spec fn wf(&self) -> bool {
        self.tables_ok() && self@.wf()
    }

    /// A uuid that no node of the arena has or had: the first such from the
    /// start of the minted range plus the number of nodes.
    fn next_uuid(&self) -> (r: u128)
        requires
            self@.ids_ok(),
            self@.nodes.len() <= u32::MAX,
        ensures
            !self@.known(r),
            MINTED + self@.nodes.len() <= r,
            forall|u: u128| MINTED + self@.nodes.len() <= u < r ==> #[trigger] self@.known(u),
    {
        let base: u128 = MINTED + self.nodes.len() as u128;
        let mut u: u128 = base;
        while self.by_uuid.get(u).is_some() || self.retired_uuids.contains(u)
            invariant
                self@.ids_ok(),
                self@.nodes.len() <= u32::MAX,
                base == MINTED + self@.nodes.len(),
                base <= u <= base + self@.nodes.len(),
                forall|v: u128| base <= v < u ==> #[trigger] self@.known(v),
            decreases base + self@.nodes.len() - u,
        {
            assert(self@.known(u)) by {
                self@.lemma_known(u);
            }
            proof {
                let uuids = self@.uuids();
                assert forall|j: int| 0 <= j <= u - base implies uuids.contains(
                    #[trigger] (base + j) as u128,
                ) by {
                    let v = (base + j) as u128;
                    assert(self@.known(v));
                    let i = choose|i: int| 0 <= i < self@.nodes.len() && self@.nodes[i].uuid == v;
                    assert(uuids[i] == v);
                }
                crate::arena::state::pigeonhole(uuids, base, (u - base + 1) as nat);
            }
            u += 1;
        }
        proof {
            self@.lemma_known(u);
        }
        u
    }

    /// Adds a node without children under a fresh or the given uuid.
    fn push_node(
        &mut self,
        kind: NodeKind,
        pos_marker: Option<PositionMarker>,
        parent: Option<NodeId>,
        parent_idx: usize,
        uuid: u128,
    ) -> (id: NodeId)
        requires
            old(self).tables_ok(),
            old(self)@.ids_ok(),
            old(self)@.nodes.len() < u32::MAX,
            !old(self)@.known(uuid),
        ensures
            final(self).tables_ok(),
            final(self)@.ids_ok(),
            id.0 == old(self)@.nodes.len(),
            final(self)@ == old(self)@.pushed(
                NodeRecord {
                    uuid,
                    parent,
                    parent_idx,
                    children: Seq::empty(),
                    marker: pos_marker,
                    kind: kind@,
                    fixes: Seq::empty(),
                },
            ),
    {
        let n: usize = self.nodes.len();
        let id = NodeId(n as u32);
        self.nodes.push(
            ArenaNode { uuid, parent, parent_idx, children: Vec::new(), pos_marker, kind },
        );
        self.by_uuid.insert(uuid, n);
        proof {
            let rec = NodeRecord {
                uuid,
                parent,
                parent_idx,
                children: Seq::empty(),
                marker: pos_marker,
                kind: kind@,
                fixes: Seq::empty(),
            };
            assert(self.record(n as int) == rec) by {
                assert(self.nodes@[n as int].children@ =~= Seq::empty());
            }
            assert(self@.nodes =~= old(self)@.nodes.push(rec));
            assert(self@ =~= old(self)@.pushed(rec));
            old(self)@.lemma_pushed(rec);
        }
        id
    }

    /// Adds a node without children under a fresh uuid.
    fn add_node(
        &mut self,
        kind: NodeKind,
        pos_marker: Option<PositionMarker>,
        parent: Option<NodeId>,
        parent_idx: usize,
    ) -> (id: NodeId)
        requires
            old(self).tables_ok(),
            old(self)@.ids_ok(),
            old(self)@.nodes.len() < u32::MAX,
        ensures
            final(self).tables_ok(),
            final(self)@.ids_ok(),
            id.0 == old(self)@.nodes.len(),
            exists|uuid: u128|
                uuid >= MINTED && !old(self)@.known(uuid) && final(self)@
                    == #[trigger] old(self)@.pushed(
                    NodeRecord {
                        uuid,
                        parent,
                        parent_idx,
                        children: Seq::empty(),
                        marker: pos_marker,
                        kind: kind@,
                        fixes: Seq::empty(),
                    },
                ),
    {
        let uuid = self.next_uuid();
        self.push_node(kind, pos_marker, parent, parent_idx, uuid)
    }

    /// Adds a node without children under the given uuid, or under a fresh one
    /// where a node of the arena has or had the given one.
    fn add_node_with_uuid(
        &mut self,
        kind: NodeKind,
        pos_marker: Option<PositionMarker>,
        parent: Option<NodeId>,
        parent_idx: usize,
        uuid: u128,
    ) -> (id: NodeId)
        requires
            old(self).tables_ok(),
            old(self)@.ids_ok(),
            old(self)@.nodes.len() < u32::MAX,
        ensures
            final(self).tables_ok(),
            final(self)@.ids_ok(),
            id.0 == old(self)@.nodes.len(),
            exists|u: u128|
                !old(self)@.known(u) && (!old(self)@.known(uuid) ==> u == uuid) && (u == uuid || u
                    >= MINTED) && final(self)@ == #[trigger] old(self)@.pushed(
                    NodeRecord {
                        uuid: u,
                        parent,
                        parent_idx,
                        children: Seq::empty(),
                        marker: pos_marker,
                        kind: kind@,
                        fixes: Seq::empty(),
                    },
                ),
    {
        let taken = self.by_uuid.get(uuid).is_some() || self.retired_uuids.contains(uuid);
        proof {
            self@.lemma_known(uuid);
        }
        let uuid = if taken {
            self.next_uuid()
        } else {
            uuid
        };
        self.push_node(kind, pos_marker, parent, parent_idx, uuid)
    }

    /// Gives a node its children.
    fn set_children(&mut self, id: NodeId, children: Vec<NodeId>)
        requires
            old(self).tables_ok(),
            old(self)@.ids_ok(),
            id.0 < old(self)@.nodes.len(),
        ensures
            final(self).tables_ok(),
            final(self)@.ids_ok(),
            final(self)@ == old(self)@.with_node(
                id.0 as int,
                NodeRecord { children: children@, ..old(self)@.nodes[id.0 as int] },
            ),
    {
        let i = id.idx();
        self.nodes[i].children = children;
        proof {
            let rec = NodeRecord { children: children@, ..old(self)@.nodes[i as int] };
            assert(self@.nodes =~= old(self)@.nodes.update(i as int, rec));
            old(self)@.lemma_with_node(i as int, rec);
        }
    }

    /// Hangs a node below another.
    fn set_parent(&mut self, id: NodeId, parent: Option<NodeId>, parent_idx: usize)
        requires
            old(self).tables_ok(),
            old(self)@.ids_ok(),
            id.0 < old(self)@.nodes.len(),
        ensures
            final(self).tables_ok(),
            final(self)@.ids_ok(),
            final(self)@ == old(self)@.with_node(
                id.0 as int,
                NodeRecord { parent, parent_idx, ..old(self)@.nodes[id.0 as int] },
            ),
    {
        let i = id.idx();
        self.nodes[i].parent = parent;
        self.nodes[i].parent_idx = parent_idx;
        proof {
            let rec = NodeRecord { parent, parent_idx, ..old(self)@.nodes[i as int] };
            assert(self@.nodes =~= old(self)@.nodes.update(i as int, rec));
            old(self)@.lemma_with_node(i as int, rec);
        }
    }

    /// Places a node.
    fn set_marker(&mut self, id: NodeId, marker: Option<PositionMarker>)
        requires
            old(self).tables_ok(),
            old(self)@.ids_ok(),
            id.0 < old(self)@.nodes.len(),
        ensures
            final(self).tables_ok(),
            final(self)@.ids_ok(),
            final(self)@ == old(self)@.with_node(
                id.0 as int,
                NodeRecord { marker, ..old(self)@.nodes[id.0 as int] },
            ),
    {
        let i = id.idx();
        self.nodes[i].pos_marker = marker;
        proof {
            let rec = NodeRecord { marker, ..old(self)@.nodes[i as int] };
            assert(self@.nodes =~= old(self)@.nodes.update(i as int, rec));
            old(self)@.lemma_with_node(i as int, rec);
        }
    }

    /// Stages a batch, or none.
    fn set_staged(&mut self, staged: Option<StagedBatch>)
        requires
            old(self).tables_ok(),
            staged is Some ==> staged->0.wf(),
        ensures
            final(self).tables_ok(),
            final(self)@ == (ArenaState {
                staged: match staged {
                    Some(s) => Some(s@),
                    None => None,
                },
                ..old(self)@
            }),
    {
        self.staged = staged;
        assert(self@.nodes =~= old(self)@.nodes);
    }

    /// Attaches source fixes to a node, in place of any that it had.
    pub fn set_source_fixes(&mut self, id: NodeId, fixes: Vec<SourceFixSpec>)
        requires
            old(self).tables_ok(),
            old(self)@.ids_ok(),
            id.0 < old(self)@.nodes.len(),
        ensures
            final(self).tables_ok(),
            final(self)@.ids_ok(),
            final(self)@ == old(self)@.with_node(
                id.0 as int,
                NodeRecord {
                    fixes: SourceFixSpec::views(fixes@),
                    ..old(self)@.nodes[id.0 as int]
                },
            ),
    {
        let n: usize = self.nodes.len();
        let ghost i = id.0 as int;
        if fixes.len() == 0 {
            self.source_fixes.remove(id.table_key());
            assert(SourceFixSpec::views(fixes@) =~= Seq::empty());
        } else {
            self.source_fixes.insert(id.table_key(), fixes);
        }
        proof {
            let rec = NodeRecord {
                fixes: SourceFixSpec::views(fixes@),
                ..old(self)@.nodes[i]
            };
            assert forall|j: int| 0 <= j < self@.nodes.len() implies self@.nodes[j]
                == #[trigger] old(self)@.nodes.update(i, rec)[j] by {
                if j != i {
                    assert(i < n && j < n && j as u128 != i as u128);
                }
            }
            assert(self@.nodes =~= old(self)@.nodes.update(i, rec));
            old(self)@.lemma_with_node(i, rec);
        }
    }

    /// Adds a parsed tree below `parent`; the nodes of a tree follow one another.
    fn ingest(&mut self, node: &Node, parent: Option<NodeId>, parent_idx: usize) -> (id: NodeId)
        requires
            old(self).tables_ok(),
            old(self)@.ids_ok(),
            old(self)@.nodes.len() + node.tree().size() <= u32::MAX,
        ensures
            final(self).tables_ok(),
            final(self)@.ids_ok(),
            old(self)@.grew_to(final(self)@),
            id.0 == old(self)@.nodes.len(),
            final(self)@.nodes.len() == old(self)@.nodes.len() + node.tree().size(),
            final(self)@.nodes[id.0 as int].parent == parent,
            final(self)@.nodes[id.0 as int].parent_idx == parent_idx,
            NodeRecord::block_linked(final(self)@.nodes, id.0 as int),
            NodeRecord::tree_of(final(self)@.nodes, id.0 as int) == node.tree(),
            forall|i: int|
                id.0 <= i < final(self)@.nodes.len() ==> (#[trigger] final(self)@.nodes[i]).uuid
                    >= MINTED,
        decreases node,
    {
        match node {
            Node::Raw {
                segment_class,
                segment_type,
                class_type,
                raw,
                pos_marker,
                instance_types,
                class_types,
                segment_kwargs,
            } => {
                let id = self.add_node(
                    NodeKind::Raw {
                        segment_class: segment_class.clone(),
                        segment_type: segment_type.clone(),
                        class_type: class_type.clone(),
                        raw: raw.clone(),
                        instance_types: clone_texts(instance_types),
                        class_types: clone_texts(class_types),
                        kwargs: segment_kwargs.clone(),
                    },
                    pos_marker.clone(),
                    parent,
                    parent_idx,
                );
                assert(NodeRecord::tree_of(self@.nodes, id.0 as int).children =~= Seq::empty());
                id
            },
            Node::Segment { segment_class, segment_type, pos_marker, class_types, children } => {
                let id = self.add_node(
                    NodeKind::Segment {
                        segment_class: segment_class.clone(),
                        segment_type: clone_opt_text(segment_type),
                        class_types: clone_texts(class_types),
                    },
                    pos_marker.clone(),
                    parent,
                    parent_idx,
                );
                self.ingest_children(id, node, children);
                id
            },
            Node::Unparsable { expected, pos_marker, children } => {
                let id = self.add_node(
                    NodeKind::Unparsable { expected: expected.clone() },
                    pos_marker.clone(),
                    parent,
                    parent_idx,
                );
                self.ingest_children(id, node, children);
                id
            },
            Node::Meta { meta_type, pos_marker, block_uuid } => {
                let id = self.add_node(
                    NodeKind::Meta { meta_type: meta_type.clone(), block_uuid: *block_uuid },
                    pos_marker.clone(),
                    parent,
                    parent_idx,
                );
                assert(NodeRecord::tree_of(self@.nodes, id.0 as int).children =~= Seq::empty());
                id
            },
            Node::Empty => {
                let id = self.add_node(NodeKind::Empty, None, parent, parent_idx);
                assert(NodeRecord::tree_of(self@.nodes, id.0 as int).children =~= Seq::empty());
                id
            },
        }
    }

    /// Adds the children of a parsed node below the node just added for it.
    fn ingest_children(&mut self, id: NodeId, node: &Node, children: &Vec<Node>)
        requires
            old(self).tables_ok(),
            old(self)@.ids_ok(),
            id.0 + 1 == old(self)@.nodes.len(),
            node is Segment || node is Unparsable,
            children@ == node.kids(),
            old(self)@.nodes.len() + Tree::sizes(node.tree().children) <= u32::MAX,
            old(self)@.nodes[id.0 as int].kind == node.kind(),
            old(self)@.nodes[id.0 as int].marker == node.marker(),
            old(self)@.nodes[id.0 as int].fixes.len() == 0,
            old(self)@.nodes[id.0 as int].children.len() == 0,
            old(self)@.nodes[id.0 as int].uuid >= MINTED,
        ensures
            final(self).tables_ok(),
            final(self)@.ids_ok(),
            final(self)@.nodes.len() == old(self)@.nodes.len() + Tree::sizes(
                node.tree().children,
            ),
            final(self)@.root == old(self)@.root,
            final(self)@.retired == old(self)@.retired,
            final(self)@.epoch == old(self)@.epoch,
            final(self)@.staged == old(self)@.staged,
            forall|i: int|
                0 <= i < id.0 ==> #[trigger] final(self)@.nodes[i] == old(self)@.nodes[i],
            final(self)@.nodes[id.0 as int].parent == old(self)@.nodes[id.0 as int].parent,
            final(self)@.nodes[id.0 as int].parent_idx == old(self)@.nodes[id.0 as int].parent_idx,
            NodeRecord::block_linked(final(self)@.nodes, id.0 as int),
            NodeRecord::tree_of(final(self)@.nodes, id.0 as int) == node.tree(),
            forall|i: int|
                id.0 <= i < final(self)@.nodes.len() ==> (#[trigger] final(self)@.nodes[i]).uuid
                    >= MINTED,
        decreases children,
    {
        let ghost from = id.0 as int;
        let ghost kids = node.tree().children;
        let mut ids: Vec<NodeId> = Vec::new();
        assert(kids.take(0) =~= Seq::empty());
        for i in 0..children.len()
            invariant
                self.tables_ok(),
                self@.ids_ok(),
                old(self)@.grew_to(self@),
                from == id.0,
                from + 1 == old(self)@.nodes.len(),
                old(self)@.nodes[from].children.len() == 0,
                old(self)@.nodes[from].uuid >= MINTED,
                forall|j: int|
                    from < j < self@.nodes.len() ==> (#[trigger] self@.nodes[j]).uuid >= MINTED,
                node is Segment || node is Unparsable,
                children@ == node.kids(),
                kids == node.tree().children,
                old(self)@.nodes.len() + Tree::sizes(kids) <= u32::MAX,
                self@.nodes.len() == old(self)@.nodes.len() + Tree::sizes(kids.take(i as int)),
                ids@.len() == i,
                NodeRecord::row_linked(self@.nodes, from, ids@),
                forall|j: int|
                    0 <= j < i ==> NodeRecord::tree_of(self@.nodes, (#[trigger] ids@[j]).0 as int) == kids[j],
        {
            proof {
                crate::tree::sizes_of_prefix(kids, i + 1);
                assert(kids.take(i + 1).drop_last() =~= kids.take(i as int));
            }
            let ghost before = self@;
            let c = self.ingest(&children[i], Some(id), i);
            ids.push(c);
            proof {
                crate::arena::state::row_linked_grows(
                    before.nodes,
                    self@.nodes,
                    from,
                    ids@.drop_last(),
                );
                assert(ids@ =~= ids@.drop_last().push(NodeId(before.nodes.len() as u32)));
                assert forall|j: int| 0 <= j < i + 1 implies NodeRecord::tree_of(
                    self@.nodes,
                    (#[trigger] ids@[j]).0 as int,
                ) == kids[j] by {
                    if j < i {
                        assert(ids@.drop_last()[j] == ids@[j]);
                        crate::arena::state::tree_frame(
                            before.nodes,
                            self@.nodes,
                            ids@[j].0 as int,
                        );
                    }
                }
            }
        }
        assert(kids.take(kids.len() as int) =~= kids);
        let ghost before = self@;
        let ghost row = ids@;
        self.set_children(id, ids);
        proof {
            crate::arena::state::row_linked_closes(before.nodes, from, row);
            let t = NodeRecord::tree_of(self@.nodes, from);
            assert forall|j: int| 0 <= j < row.len() implies #[trigger] t.children[j] == kids[j] by {
                let c = row[j].0 as int;
                assert(from < c < before.nodes.len());
                crate::arena::state::tree_frame(before.nodes, self@.nodes, c);
            }
            assert(t.children =~= kids);
            assert(t.fixes =~= Seq::empty());
        }
    }

    /// The payload that a segment to be created brings.
    fn kind_of_spec(kind: &SpecKind) -> (r: NodeKind)
        ensures
            r@ == kind@,
    {
        match kind {
            SpecKind::Raw {
                segment_class,
                segment_type,
                class_type,
                raw,
                instance_types,
                class_types,
                kwargs,
            } => NodeKind::Raw {
                segment_class: segment_class.clone(),
                segment_type: segment_type.clone(),
                class_type: class_type.clone(),
                raw: raw.clone(),
                instance_types: clone_texts(instance_types),
                class_types: clone_texts(class_types),
                kwargs: kwargs.clone(),
            },
            SpecKind::Segment { segment_class, segment_type, class_types } => NodeKind::Segment {
                segment_class: segment_class.clone(),
                segment_type: clone_opt_text(segment_type),
                class_types: clone_texts(class_types),
            },
            SpecKind::Meta { meta_type, block_uuid } => NodeKind::Meta {
                meta_type: meta_type.clone(),
                block_uuid: *block_uuid,
            },
        }
    }

    /// Adds a segment to be created, with all below it. It hangs below `parent`
    /// by its own link only: whoever calls gives `parent` its new child.
    ///
    /// A segment keeps its uuid unless a node of the arena has or had it; it
    /// keeps its position where the tree has one to refer it to.
    pub fn ingest_spec(&mut self, spec: &NodeSpec, parent: Option<NodeId>, parent_idx: usize) -> (id:
        NodeId)
        requires
            old(self).tables_ok(),
            old(self)@.ids_ok(),
            old(self)@.root.0 < old(self)@.nodes.len(),
            old(self)@.nodes.len() + spec@.size() <= u32::MAX,
        ensures
            final(self).tables_ok(),
            final(self)@.ids_ok(),
            old(self)@.grew_to(final(self)@),
            id.0 == old(self)@.nodes.len(),
            final(self)@.nodes.len() == old(self)@.nodes.len() + spec@.size(),
            final(self)@.nodes[id.0 as int].parent == parent,
            final(self)@.nodes[id.0 as int].parent_idx == parent_idx,
            !old(self)@.known(spec@.uuid) ==> final(self)@.nodes[id.0 as int].uuid == spec@.uuid,
            forall|i: int|
                id.0 <= i < final(self)@.nodes.len() ==> (#[trigger] final(self)@.nodes[i]).uuid
                    >= MINTED || spec@.uuids().contains(final(self)@.nodes[i].uuid),
            NodeRecord::named(
                final(self)@.nodes,
                id.0 as int,
                spec@,
                old(self)@.frees(spec@),
            ),
            forall|u: u128| #[trigger] spec@.uuids().contains(u) ==> final(self)@.known(u),
            NodeRecord::block_linked(final(self)@.nodes, id.0 as int),
            NodeRecord::tree_of(final(self)@.nodes, id.0 as int) == spec@.tree(old(self)@.file()),
        decreases spec,
    {
        let ghost before = self@;
        let ghost file = before.file();
        let ghost free = before.frees(spec@);
        let id = self.add_spec_node(spec, parent, parent_idx);
        let ghost from = id.0 as int;
        let ghost start = self@;
        let mut ids: Vec<NodeId> = Vec::new();
        assert(spec@.children.take(0) =~= Seq::empty());
        proof {
            brought_none(start, from, spec@, file, free);
            assert(ids@ =~= Seq::empty());
        }
        for i in 0..spec.children.len()
            invariant
                self.tables_ok(),
                self@.ids_ok(),
                start.root.0 < from,
                start.file() == file,
                before.nodes.len() == from,
                before == old(self)@,
                from == id.0,
                from + 1 == start.nodes.len(),
                free == before.frees(spec@),
                spec_node_added(before, from, spec@, start),
                start.nodes.len() + SpecTree::sizes(spec@.children) <= u32::MAX,
                self@.nodes.len() == start.nodes.len() + SpecTree::sizes(
                    spec@.children.take(i as int),
                ),
                start.grew_to(self@),
                ids@.len() == i,
                brought(start, from, spec@, file, i as int, self@, ids@, free),
        {
            let ghost now = self@;
            let ghost kids = ids@;
            proof {
                crate::edit::spec_sizes_of_prefix(spec@.children, i + 1);
                assert(spec@.children.take(i + 1).drop_last() =~= spec@.children.take(i as int));
                assert(spec@.children.take(i + 1).last() == spec@.children[i as int]);
                child_keeps_free(before, start, from, spec@, file, i as int, now, kids);
                assert(now.nodes[start.root.0 as int] == start.nodes[start.root.0 as int]);
            }
            let c = self.ingest_spec(&spec.children[i], Some(id), i);
            ids.push(c);
            proof {
                brought_step(start, from, spec@, file, i as int, now, self@, kids, c, free);
            }
        }
        assert(spec@.children.take(spec@.children.len() as int) =~= spec@.children);
        let ghost grown = self@;
        let ghost row = ids@;
        self.set_children(id, ids);
        proof {
            brought_closes(before, start, from, spec@, file, grown, row, self@);
        }
        id
    }

    /// Adds the node of a segment to be created, without those below it.
    fn add_spec_node(&mut self, spec: &NodeSpec, parent: Option<NodeId>, parent_idx: usize) -> (id:
        NodeId)
        requires
            old(self).tables_ok(),
            old(self)@.ids_ok(),
            old(self)@.root.0 < old(self)@.nodes.len(),
            old(self)@.nodes.len() < u32::MAX,
        ensures
            final(self).tables_ok(),
            final(self)@.ids_ok(),
            id.0 == old(self)@.nodes.len(),
            spec_node_added(old(self)@, id.0 as int, spec@, final(self)@),
            final(self)@.nodes[id.0 as int].parent == parent,
            final(self)@.nodes[id.0 as int].parent_idx == parent_idx,
    {
        let kind = Arena::kind_of_spec(&spec.kind);
        let id = self.add_node_with_uuid(kind, None, parent, parent_idx, spec.uuid);
        let ghost from = id.0 as int;
        let ghost file = old(self)@.file();
        let root = self.root.idx();
        assert(self@.nodes[root as int] == old(self)@.nodes[root as int]);
        if let Some((s0, s1, t0, t1, line_no, line_pos)) = spec.marker {
            if let Some(root_marker) = &self.nodes[root].pos_marker {
                let marker = PositionMarker::new(
                    Slice { start: s0, stop: s1 },
                    Slice { start: t0, stop: t1 },
                    &root_marker.templated_file,
                    Some(line_no),
                    Some(line_pos),
                );
                self.set_marker(id, Some(marker));
            }
        }
        assert(self@.nodes[from].marker == spec@.placed(file));
        if spec.source_fixes.len() > 0 {
            let mut fixes: Vec<SourceFixSpec> = Vec::new();
            append_fixes(&mut fixes, &spec.source_fixes);
            assert(fixes@ =~= spec.source_fixes@);
            self.set_source_fixes(id, fixes);
        }
        assert(self@.nodes[from].fixes =~= spec@.fixes);
        id
    }

    /// An arena that holds the tree of `node`.
    pub fn from_node(node: &Node) -> (r: Arena)
        requires
            node.tree().size() <= u32::MAX,
        ensures
            r.wf(),
            r@.tree() == node.tree(),
            r@.root.0 == 0,
            r@.nodes.len() == node.tree().size(),
            r@.coherent(),
            r@.proper(),
            forall|i: int| 0 < i < r@.nodes.len() ==> (#[trigger] r@.nodes[i]).parent is Some,
            forall|i: int| 0 <= i < r@.nodes.len() ==> (#[trigger] r@.nodes[i]).uuid >= MINTED,
            r@.retired == Set::<u128>::empty(),
            r@.epoch == 0,
            r@.staged is None,
    {
        let mut arena = Arena {
            nodes: Vec::new(),
            root: NodeId(0),
            by_uuid: IdMap::new(),
            retired_uuids: IdSet::new(),
            epoch: 0,
            source_fixes: Table::new(),
            staged: None,
        };
        let root = arena.ingest(node, None, 0);
        assert(root == arena@.root);
        proof {
            crate::arena::laws::parsed_is_proper(*node);
            crate::arena::laws::block_is_proper(arena@.nodes);
            assert forall|i: int| 0 < i < arena@.nodes.len() implies (
            #[trigger] arena@.nodes[i]).parent is Some by {
                let p = arena@.nodes[i].parent;
            }
        }
        arena
    }
}

/// Whether the node of a segment to be created was added, without those below it.
spec fn spec_node_added(before: ArenaState, from: int, spec: SpecTree, start: ArenaState) -> bool {
    let rec = start.nodes[from];
    &&& before.grew_to(start)
    &&& start.nodes.len() == from + 1
    &&& before.nodes.len() == from
    &&& rec.kind == spec.kind
    &&& rec.marker == spec.placed(before.file())
    &&& rec.fixes == spec.fixes
    &&& rec.children.len() == 0
    &&& rec.uuid >= MINTED || rec.uuid == spec.uuid
    &&& !before.known(spec.uuid) ==> rec.uuid == spec.uuid
}

/// Whether the first `i` children of a segment to be created were added behind it.
#[verifier::opaque]
spec fn brought(
    start: ArenaState,
    from: int,
    spec: SpecTree,
    file: Option<Arc<TemplatedFile>>,
    i: int,
    now: ArenaState,
    ids: Seq<NodeId>,
    free: Set<u128>,
) -> bool {
    &&& ids.len() == i
    &&& NodeRecord::row_linked(now.nodes, from, ids)
    &&& forall|j: int|
        0 <= j < i ==> NodeRecord::tree_of(now.nodes, (#[trigger] ids[j]).0 as int)
            == spec.tree(file).children[j]
    &&& forall|j: int|
        from < j < now.nodes.len() ==> (#[trigger] now.nodes[j]).uuid >= MINTED
            || SpecTree::uuids_of(spec.children.take(i)).contains(now.nodes[j].uuid)
    &&& forall|j: int|
        0 <= j < i ==> NodeRecord::named(
            now.nodes,
            (#[trigger] ids[j]).0 as int,
            spec.children[j],
            free,
        )
    &&& forall|u: u128| #[trigger]
        SpecTree::uuids_of(spec.children.take(i)).contains(u) ==> now.known(u)
}

proof fn brought_none(
    start: ArenaState,
    from: int,
    spec: SpecTree,
    file: Option<Arc<TemplatedFile>>,
    free: Set<u128>,
)
    requires
        from + 1 == start.nodes.len(),
    ensures
        brought(start, from, spec, file, 0, start, Seq::empty(), free),
{
    reveal(brought);
}

/// What the segment keeps of the uuids of a child, the child keeps.
proof fn child_keeps_free(
    before: ArenaState,
    start: ArenaState,
    from: int,
    spec: SpecTree,
    file: Option<Arc<TemplatedFile>>,
    i: int,
    now: ArenaState,
    ids: Seq<NodeId>,
)
    requires
        spec_node_added(before, from, spec, start),
        start.grew_to(now),
        0 <= i < spec.children.len(),
        brought(start, from, spec, file, i, now, ids, before.frees(spec)),
    ensures
        forall|u: u128| #[trigger]
            before.frees(spec).contains(u) && spec.children[i].uuids().contains(u)
                ==> now.frees(spec.children[i]).contains(u),
{
    reveal(brought);
    let child = spec.children[i];
    assert forall|u: u128| #[trigger] before.frees(spec).contains(u) && child.uuids().contains(
        u,
    ) implies now.frees(child).contains(u) by {
        crate::edit::times_of_member(spec.children, i, u);
        crate::edit::uuid_occurs(child, u);
        crate::edit::uuid_occurs_in(spec.children.take(i), u);
        if now.known(u) {
            let j = choose|j: int|
                0 <= j < now.nodes.len() && (#[trigger] now.nodes[j]).uuid == u;
            if j < from {
                assert(now.nodes[j] == start.nodes[j]);
                assert(before.nodes[j].uuid == u);
            } else if j == from {
                assert(now.nodes[j] == start.nodes[j]);
            }
        }
    }
}

/// One more child is added.
proof fn brought_step(
    start: ArenaState,
    from: int,
    spec: SpecTree,
    file: Option<Arc<TemplatedFile>>,
    i: int,
    before: ArenaState,
    now: ArenaState,
    ids: Seq<NodeId>,
    c: NodeId,
    free: Set<u128>,
)
    requires
        0 <= i < spec.children.len(),
        0 <= from < before.nodes.len() < now.nodes.len() <= u32::MAX,
        brought(start, from, spec, file, i, before, ids, free),
        before.grew_to(now),
        c.0 == before.nodes.len(),
        now.nodes[c.0 as int].parent == Some(NodeId(from as u32)),
        now.nodes[c.0 as int].parent_idx == i,
        forall|j: int|
            c.0 <= j < now.nodes.len() ==> (#[trigger] now.nodes[j]).uuid >= MINTED
                || spec.children[i].uuids().contains(now.nodes[j].uuid),
        NodeRecord::named(
            now.nodes,
            c.0 as int,
            spec.children[i],
            before.frees(spec.children[i]),
        ),
        forall|u: u128| #[trigger]
            free.contains(u) && spec.children[i].uuids().contains(u) ==> before.frees(
                spec.children[i],
            ).contains(u),
        forall|u: u128| #[trigger] spec.children[i].uuids().contains(u) ==> now.known(u),
        NodeRecord::block_linked(now.nodes, c.0 as int),
        NodeRecord::tree_of(now.nodes, c.0 as int) == spec.children[i].tree(file),
    ensures
        brought(start, from, spec, file, i + 1, now, ids.push(c), free),
{
    reveal(brought);
    let more = ids.push(c);
    assert(spec.children.take(i + 1).drop_last() =~= spec.children.take(i));
    assert(spec.children.take(i + 1).last() == spec.children[i]);
    assert(c == NodeId(before.nodes.len() as u32));
    crate::arena::state::row_linked_grows(before.nodes, now.nodes, from, ids);
    assert forall|j: int| 0 <= j < i + 1 implies NodeRecord::tree_of(
        now.nodes,
        (#[trigger] more[j]).0 as int,
    ) == spec.tree(file).children[j] by {
        if j < i {
            assert(more[j] == ids[j]);
            crate::arena::state::tree_frame(before.nodes, now.nodes, ids[j].0 as int);
        }
    }
    assert forall|j: int| 0 <= j < i + 1 implies NodeRecord::named(
        now.nodes,
        (#[trigger] more[j]).0 as int,
        spec.children[j],
        free,
    ) by {
        if j < i {
            assert(more[j] == ids[j]);
            crate::arena::state::named_frame(
                before.nodes,
                now.nodes,
                ids[j].0 as int,
                spec.children[j],
                free,
            );
        } else {
            crate::arena::state::named_of_fewer(
                now.nodes,
                c.0 as int,
                spec.children[i],
                before.frees(spec.children[i]),
                free,
            );
        }
    }
    assert forall|u: u128| #[trigger]
        SpecTree::uuids_of(spec.children.take(i + 1)).contains(u) implies now.known(u) by {
        if !spec.children[i].uuids().contains(u) {
            assert(SpecTree::uuids_of(spec.children.take(i)).contains(u));
            before.known_grows(now, u);
        }
    }
    assert forall|j: int| from < j < now.nodes.len() implies (#[trigger] now.nodes[j]).uuid >= MINTED
        || SpecTree::uuids_of(spec.children.take(i + 1)).contains(now.nodes[j].uuid) by {
        if j < before.nodes.len() {
            assert(now.nodes[j] == before.nodes[j]);
        }
    }
}

/// The segment gets its children, and stands as it should.
proof fn brought_closes(
    before: ArenaState,
    start: ArenaState,
    from: int,
    spec: SpecTree,
    file: Option<Arc<TemplatedFile>>,
    grown: ArenaState,
    row: Seq<NodeId>,
    done: ArenaState,
)
    requires
        spec_node_added(before, from, spec, start),
        file == before.file(),
        0 <= from < start.nodes.len(),
        start.grew_to(grown),
        grown.nodes.len() <= u32::MAX,
        brought(
            start,
            from,
            spec,
            file,
            spec.children.len() as int,
            grown,
            row,
            before.frees(spec),
        ),
        done == grown.with_node(from, NodeRecord { children: row, ..grown.nodes[from] }),
    ensures
        before.grew_to(done),
        forall|j: int|
            from <= j < done.nodes.len() ==> (#[trigger] done.nodes[j]).uuid >= MINTED
                || spec.uuids().contains(done.nodes[j].uuid),
        NodeRecord::named(done.nodes, from, spec, before.frees(spec)),
        forall|u: u128| #[trigger] spec.uuids().contains(u) ==> done.known(u),
        NodeRecord::block_linked(done.nodes, from),
        NodeRecord::tree_of(done.nodes, from) == spec.tree(file),
{
    reveal(brought);
    let kids = spec.tree(file).children;
    assert(spec.children.take(spec.children.len() as int) =~= spec.children);
    crate::arena::state::row_linked_closes(grown.nodes, from, row);
    assert(grown.nodes[from] == start.nodes[from]);
    let t = NodeRecord::tree_of(done.nodes, from);
    assert forall|j: int| 0 <= j < row.len() implies #[trigger] t.children[j] == kids[j] by {
        let c = row[j].0 as int;
        assert(from < c < grown.nodes.len());
        crate::arena::state::tree_frame(grown.nodes, done.nodes, c);
    }
    assert(t.children =~= kids);
    assert forall|j: int| from <= j < done.nodes.len() implies (#[trigger] done.nodes[j]).uuid
        >= MINTED || spec.uuids().contains(done.nodes[j].uuid) by {
        assert(done.nodes[j].uuid == grown.nodes[j].uuid);
    }
    let free = before.frees(spec);
    assert forall|j: int| 0 <= j < spec.children.len() implies NodeRecord::named(
        done.nodes,
        (#[trigger] done.nodes[from].children[j]).0 as int,
        spec.children[j],
        free,
    ) by {
        assert(done.nodes[from].children[j] == row[j]);
        crate::arena::state::named_frame(
            grown.nodes,
            done.nodes,
            row[j].0 as int,
            spec.children[j],
            free,
        );
    }
    assert forall|u: u128| #[trigger] spec.uuids().contains(u) implies done.known(u) by {
        if SpecTree::uuids_of(spec.children).contains(u) {
            assert(grown.known(u));
            let j = choose|j: int|
                0 <= j < grown.nodes.len() && (#[trigger] grown.nodes[j]).uuid == u;
            assert(done.nodes[j].uuid == u);
        } else if before.known(u) {
            before.known_grows(done, u);
        } else {
            assert(done.nodes[from].uuid == u);
        }
    }
}

} // verus!
