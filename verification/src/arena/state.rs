//! The mathematical state of an arena.

use std::sync::Arc;
use vstd::prelude::*;

use crate::edit::NodeSpec;
use crate::marker::{PositionMarker, TemplatedFile};
use crate::tables::Table;

#[allow(unused_imports)]
use crate::edit::SpecTree;
#[allow(unused_imports)]
use crate::kind::Kind;
#[allow(unused_imports)]
use crate::tree::{FixView, Tree};

verus! {

/// The identity of a node within its arena: its place there. Ids stay valid for
/// as long as the arena lives.
#[derive(Clone, Copy, Debug, PartialEq, Eq, Hash, Structural)]
pub struct NodeId(pub u32);

impl NodeId {
    /// The place of the node.
    pub fn idx(self) -> (r: usize)
        ensures
            r == self.0,
    {
        self.0 as usize
    }

    /// The key of the node in tables and sets.
    pub open spec fn key(self) -> u128 {
        self.0 as u128
    }

    /// The key of the node in tables and sets.
    pub(crate) fn table_key(self) -> (r: u128)
        ensures
            r == self.key(),
    {
        self.0 as u128
    }
}

/// An entry of a planned child list: a node that is kept, or a segment to be
/// created, with the position that it takes over from its anchor, if any.
#[derive(Debug)]
pub enum PlannedChild {
    Existing(NodeId),
    New(Box<NodeSpec>, Option<PositionMarker>),
}

/// The mathematical form of [`PlannedChild`].
#[verifier::ext_equal]
pub enum PlannedView {
    Existing(NodeId),
    New(SpecTree, Option<PositionMarker>),
}

impl PlannedChild {
    /// The mathematical form.
    pub open spec fn view(self) -> PlannedView {
        match self {
            PlannedChild::Existing(id) => PlannedView::Existing(id),
            PlannedChild::New(spec, marker) => PlannedView::New(spec@, marker),
        }
    }

    /// The mathematical forms of a list.
    pub open spec fn views(list: Seq<PlannedChild>) -> Seq<PlannedView> {
        Seq::new(list.len(), |i: int| list[i]@)
    }
}

impl PlannedView {
    /// The uuid of the segment to be created.
    pub open spec fn brings(self) -> u128 {
        match self {
            PlannedView::New(spec, _) => spec.uuid,
            PlannedView::Existing(_) => arbitrary(),
        }
    }
}

/// The planned child lists of a table.
pub open spec fn plan_view(table: Map<u128, Vec<PlannedChild>>) -> Map<u128, Seq<PlannedView>> {
    Map::new(|k: u128| table.contains_key(k), |k: u128| PlannedChild::views(table[k]@))
}

/// A planned edit batch: the new child list of every container that changes,
/// and the roots of the subtrees that it removes.
pub struct StagedBatch {
    pub(crate) children_of: Table<Vec<PlannedChild>>,
    pub(crate) tombstones: Vec<NodeId>,
    /// The parents of the anchors whose edits may break the grammar.
    pub(crate) validate_containers: Vec<NodeId>,
}

/// The mathematical form of [`StagedBatch`].
#[verifier::ext_equal]
pub struct StagedView {
    pub children_of: Map<u128, Seq<PlannedView>>,
    pub tombstones: Seq<NodeId>,
    pub validate: Seq<NodeId>,
}

impl StagedView {
    /// The batch speaks of nodes of the arena, and every new child list lies
    /// behind its container.
    pub open spec fn fits(self, nodes: Seq<NodeRecord>) -> bool {
        &&& crate::arena::plan::lists_behind(self.children_of, 0, nodes)
        &&& crate::arena::plan::stones_behind(self.tombstones, -1, nodes)
        &&& forall|i: int|
            0 <= i < self.validate.len() ==> (#[trigger] self.validate[i]).0 < nodes.len()
    }
}

impl StagedBatch {
    /// The mathematical form.
    pub(crate) open(crate) spec fn view(&self) -> StagedView {
        StagedView {
            children_of: plan_view(self.children_of@),
            tombstones: self.tombstones@,
            validate: self.validate_containers@,
        }
    }

    /// The table is in order.
    pub(crate) open(crate) spec fn wf(&self) -> bool {
        self.children_of.wf()
    }
}

/// A node of the state.
#[verifier::ext_equal]
pub struct NodeRecord {
    pub uuid: u128,
    pub parent: Option<NodeId>,
    pub parent_idx: usize,
    pub children: Seq<NodeId>,
    pub marker: Option<PositionMarker>,
    pub kind: Kind,
    pub fixes: Seq<FixView>,
}

impl NodeRecord {
    /// Children lie behind their container.
    pub open spec fn kids_behind(nodes: Seq<NodeRecord>) -> bool {
        forall|p: int, i: int|
            0 <= p < nodes.len() && 0 <= i < nodes[p].children.len() ==> p < (
            #[trigger] nodes[p].children[i]).0 < nodes.len()
    }

    /// Parents lie before their children.
    pub open spec fn parents_before(nodes: Seq<NodeRecord>) -> bool {
        forall|c: int|
            0 <= c < nodes.len() && (#[trigger] nodes[c]).parent is Some ==> (nodes[c].parent->0).0 < c
    }

    /// The tree below a node.
    pub open spec fn tree_of(nodes: Seq<NodeRecord>, id: int) -> Tree
        decreases nodes.len() - id,
    {
        if 0 <= id < nodes.len() {
            let n = nodes[id];
            Tree {
                kind: n.kind,
                marker: n.marker,
                fixes: n.fixes,
                children: Seq::new(
                    n.children.len(),
                    |i: int|
                        {
                            let c = n.children[i].0 as int;
                            if id < c < nodes.len() {
                                NodeRecord::tree_of(nodes, c)
                            } else {
                                arbitrary()
                            }
                        },
                ),
            }
        } else {
            arbitrary()
        }
    }

    /// The keys of the nodes above a node.
    pub open spec fn above(nodes: Seq<NodeRecord>, id: int) -> Set<u128>
        decreases id,
    {
        if 0 <= id < nodes.len() && nodes[id].parent is Some && (nodes[id].parent->0).0 < id {
            let p = nodes[id].parent->0;
            NodeRecord::above(nodes, p.0 as int).insert(p.key())
        } else {
            Set::empty()
        }
    }

    /// The keys of a node, if any, and of the nodes above it.
    pub open spec fn chain(nodes: Seq<NodeRecord>, at: Option<NodeId>) -> Set<u128> {
        match at {
            Some(p) => NodeRecord::above(nodes, p.0 as int).insert(p.key()),
            None => Set::empty(),
        }
    }

    /// Whether every node from `id` down has the uuid of the segment it was made
    /// from, or a minted one; never a minted one where the uuid is in `free`.
    pub open spec fn named(
        nodes: Seq<NodeRecord>,
        id: int,
        spec: SpecTree,
        free: Set<u128>,
    ) -> bool
        decreases spec,
    {
        &&& nodes[id].uuid == spec.uuid || nodes[id].uuid >= crate::arena::MINTED
        &&& free.contains(spec.uuid) ==> nodes[id].uuid == spec.uuid
        &&& nodes[id].children.len() == spec.children.len()
        &&& forall|i: int|
            0 <= i < spec.children.len() ==> NodeRecord::named(
                nodes,
                (#[trigger] nodes[id].children[i]).0 as int,
                spec.children[i],
                free,
            )
    }

    /// Two records agree on what the tree below a node is made of.
    pub open spec fn same_payload(a: NodeRecord, b: NodeRecord) -> bool {
        a.kind == b.kind && a.marker == b.marker && a.fixes == b.fixes && a.children == b.children
    }

    /// The nodes from `from` on form one tree: links down and up agree, and every
    /// node but the first hangs below another of them.
    pub open spec fn block_linked(nodes: Seq<NodeRecord>, from: int) -> bool {
        &&& forall|p: int, i: int|
            from <= p < nodes.len() && 0 <= i < nodes[p].children.len() ==> {
                let c = (#[trigger] nodes[p].children[i]).0 as int;
                p < c < nodes.len() && nodes[c].parent == Some(NodeId(p as u32)) && nodes[c].parent_idx
                    == i
            }
        &&& forall|c: int|
            from < c < nodes.len() ==> {
                let p = #[trigger] nodes[c].parent;
                p is Some && from <= (p->0).0 < c && nodes[c].parent_idx < nodes[(p->0).0 as
                    int].children.len() && nodes[(p->0).0 as int].children[nodes[c].parent_idx as int]
                    == NodeId(c as u32)
            }
    }

    /// The nodes behind `from` form trees whose roots are the children that the
    /// node `from` is about to get.
    pub open spec fn row_linked(nodes: Seq<NodeRecord>, from: int, kids: Seq<NodeId>) -> bool {
        &&& forall|p: int, i: int|
            from < p < nodes.len() && 0 <= i < nodes[p].children.len() ==> {
                let c = (#[trigger] nodes[p].children[i]).0 as int;
                p < c < nodes.len() && nodes[c].parent == Some(NodeId(p as u32)) && nodes[c].parent_idx
                    == i
            }
        &&& forall|i: int|
            0 <= i < kids.len() ==> {
                let c = (#[trigger] kids[i]).0 as int;
                from < c < nodes.len() && nodes[c].parent == Some(NodeId(from as u32))
                    && nodes[c].parent_idx == i
            }
        &&& forall|c: int|
            from < c < nodes.len() ==> {
                let p = #[trigger] nodes[c].parent;
                let list = if (p->0).0 == from {
                    kids
                } else {
                    nodes[(p->0).0 as int].children
                };
                p is Some && from <= (p->0).0 < c && nodes[c].parent_idx < list.len()
                    && list[nodes[c].parent_idx as int] == NodeId(c as u32)
            }
    }
}

/// The state of an arena.
#[verifier::ext_equal]
pub struct ArenaState {
    pub nodes: Seq<NodeRecord>,
    pub root: NodeId,
    pub by_uuid: Map<u128, usize>,
    pub retired: Set<u128>,
    pub epoch: u64,
    pub staged: Option<StagedView>,
}

/// The tree below a node depends on nothing before the node, and on nothing
/// added behind.
pub proof fn tree_frame(a: Seq<NodeRecord>, b: Seq<NodeRecord>, id: int)
    requires
        0 <= id < a.len() <= b.len(),
        forall|p: int, i: int|
            id <= p < a.len() && 0 <= i < a[p].children.len() ==> p < (
            #[trigger] a[p].children[i]).0 < a.len(),
        forall|p: int| id <= p < a.len() ==> #[trigger] NodeRecord::same_payload(a[p], b[p]),
    ensures
        NodeRecord::tree_of(a, id) == NodeRecord::tree_of(b, id),
    decreases a.len() - id,
{
    assert(NodeRecord::same_payload(a[id], b[id]));
    let ta = NodeRecord::tree_of(a, id);
    let tb = NodeRecord::tree_of(b, id);
    assert forall|i: int| 0 <= i < ta.children.len() implies ta.children[i] == tb.children[i] by {
        let c = a[id].children[i].0 as int;
        tree_frame(a, b, c);
    }
    assert(ta.children =~= tb.children);
}

/// What lies above a node lies above all below it.
pub proof fn above_transitive(nodes: Seq<NodeRecord>, id: int, k: u128)
    requires
        NodeRecord::above(nodes, id).contains(k),
    ensures
        k < id,
        NodeRecord::above(nodes, k as int).subset_of(NodeRecord::above(nodes, id)),
    decreases id,
{
    let p = nodes[id].parent->0;
    if k != p.key() {
        above_transitive(nodes, p.0 as int, k);
    }
}

/// Names depend on uuids and children only, from the first named node on.
pub proof fn named_frame(
    a: Seq<NodeRecord>,
    b: Seq<NodeRecord>,
    id: int,
    spec: SpecTree,
    free: Set<u128>,
)
    requires
        0 <= id < a.len() <= b.len(),
        NodeRecord::named(a, id, spec, free),
        forall|p: int, i: int|
            id <= p < a.len() && 0 <= i < a[p].children.len() ==> p < (
            #[trigger] a[p].children[i]).0 < a.len(),
        forall|p: int|
            id <= p < a.len() ==> (#[trigger] b[p]).uuid == a[p].uuid && b[p].children
                == a[p].children,
    ensures
        NodeRecord::named(b, id, spec, free),
    decreases spec,
{
    assert(b[id].children == a[id].children);
    assert forall|i: int| 0 <= i < spec.children.len() implies NodeRecord::named(
        b,
        (#[trigger] b[id].children[i]).0 as int,
        spec.children[i],
        free,
    ) by {
        let c = a[id].children[i].0 as int;
        assert(id < c < a.len());
        named_frame(a, b, c, spec.children[i], free);
    }
}

/// Fewer free uuids ask for less.
pub proof fn named_of_fewer(
    nodes: Seq<NodeRecord>,
    id: int,
    spec: SpecTree,
    more: Set<u128>,
    free: Set<u128>,
)
    requires
        NodeRecord::named(nodes, id, spec, more),
        forall|u: u128| #[trigger] free.contains(u) && spec.uuids().contains(u) ==> more.contains(u),
    ensures
        NodeRecord::named(nodes, id, spec, free),
    decreases spec,
{
    assert(spec.uuids().contains(spec.uuid));
    assert forall|i: int| 0 <= i < spec.children.len() implies NodeRecord::named(
        nodes,
        (#[trigger] nodes[id].children[i]).0 as int,
        spec.children[i],
        free,
    ) by {
        assert forall|u: u128| #[trigger] free.contains(u) && spec.children[i].uuids().contains(
            u,
        ) implies more.contains(u) by {
            crate::edit::times_of_member(spec.children, i, u);
        }
        named_of_fewer(nodes, nodes[id].children[i].0 as int, spec.children[i], more, free);
    }
}

/// One more child with its tree.
pub proof fn row_linked_grows(
    before: Seq<NodeRecord>,
    after: Seq<NodeRecord>,
    from: int,
    kids: Seq<NodeId>,
)
    requires
        0 <= from < before.len() < after.len() <= u32::MAX,
        NodeRecord::row_linked(before, from, kids),
        forall|i: int| 0 <= i < before.len() ==> after[i] == before[i],
        NodeRecord::block_linked(after, before.len() as int),
        after[before.len() as int].parent == Some(NodeId(from as u32)),
        after[before.len() as int].parent_idx == kids.len(),
    ensures
        NodeRecord::row_linked(after, from, kids.push(NodeId(before.len() as u32))),
{
    let s = before.len() as int;
    let more = kids.push(NodeId(s as u32));
    assert forall|p: int, i: int|
        from < p < after.len() && 0 <= i < after[p].children.len() implies {
        let c = (#[trigger] after[p].children[i]).0 as int;
        p < c < after.len() && after[c].parent == Some(NodeId(p as u32)) && after[c].parent_idx == i
    } by {
        if p < s {
            let c = before[p].children[i].0 as int;
            assert(after[c] == before[c]);
        }
    }
    assert forall|i: int| 0 <= i < more.len() implies {
        let c = (#[trigger] more[i]).0 as int;
        from < c < after.len() && after[c].parent == Some(NodeId(from as u32))
            && after[c].parent_idx == i
    } by {
        if i < kids.len() {
            let c = kids[i].0 as int;
            assert(after[c] == before[c]);
        }
    }
    assert forall|c: int| from < c < after.len() implies {
        let p = #[trigger] after[c].parent;
        let list = if (p->0).0 == from {
            more
        } else {
            after[(p->0).0 as int].children
        };
        p is Some && from <= (p->0).0 < c && after[c].parent_idx < list.len()
            && list[after[c].parent_idx as int] == NodeId(c as u32)
    } by {
        if c < s {
            assert(after[c] == before[c]);
            let p = before[c].parent;
            if (p->0).0 != from {
                assert(after[(p->0).0 as int] == before[(p->0).0 as int]);
            }
        }
    }
}

/// The children handed over make the row one tree.
pub proof fn row_linked_closes(before: Seq<NodeRecord>, from: int, kids: Seq<NodeId>)
    requires
        0 <= from < before.len() <= u32::MAX,
        NodeRecord::row_linked(before, from, kids),
    ensures
        NodeRecord::block_linked(before.update(from, NodeRecord { children: kids, ..before[from] }), from),
{
    let after = before.update(from, NodeRecord { children: kids, ..before[from] });
    assert forall|c: int| from < c < after.len() implies {
        let p = #[trigger] after[c].parent;
        p is Some && from <= (p->0).0 < c && after[c].parent_idx < after[(p->0).0 as
            int].children.len() && after[(p->0).0 as int].children[after[c].parent_idx as int]
            == NodeId(c as u32)
    } by {
        assert(before[c].parent == after[c].parent);
    }
}

impl ArenaState {
    /// The state with another record for a node.
    pub open spec fn with_node(self, i: int, rec: NodeRecord) -> ArenaState {
        ArenaState { nodes: self.nodes.update(i, rec), ..self }
    }

    /// Records that keep their uuid keep the uuids in order.
    pub proof fn lemma_with_node(self, i: int, rec: NodeRecord)
        requires
            self.ids_ok(),
            0 <= i < self.nodes.len(),
            rec.uuid == self.nodes[i].uuid,
        ensures
            self.with_node(i, rec).ids_ok(),
    {
        let s = self.with_node(i, rec);
        assert forall|j: int| 0 <= j < s.nodes.len() implies (#[trigger] s.nodes[j]).uuid
            == self.nodes[j].uuid by {}
        assert forall|u: u128| #[trigger] s.retired.contains(u) implies !s.by_uuid.contains_key(u)
            && s.known(u) by {
            let j = choose|j: int| 0 <= j < self.nodes.len() && (#[trigger] self.nodes[j]).uuid == u;
            assert(s.nodes[j].uuid == u);
        }
    }

    /// Whether the state grew into `next` by nodes added at the end.
    pub open spec fn grew_to(self, next: ArenaState) -> bool {
        &&& self.nodes.len() <= next.nodes.len()
        &&& forall|i: int| 0 <= i < self.nodes.len() ==> #[trigger] next.nodes[i] == self.nodes[i]
        &&& next.root == self.root
        &&& next.retired == self.retired
        &&& next.epoch == self.epoch
        &&& next.staged == self.staged
    }

    /// The uuids of the nodes.
    pub open spec fn uuids(self) -> Seq<u128> {
        Seq::new(self.nodes.len(), |i: int| self.nodes[i].uuid)
    }

    /// Whether a node of the arena has or had the uuid.
    pub open spec fn known(self, u: u128) -> bool {
        exists|i: int| 0 <= i < self.nodes.len() && (#[trigger] self.nodes[i]).uuid == u
    }

    /// Every node has a uuid of its own, which either leads to it or is retired.
    pub open spec fn ids_ok(self) -> bool {
        &&& forall|u: u128| #[trigger]
            self.by_uuid.contains_key(u) ==> self.by_uuid[u] < self.nodes.len()
                && self.nodes[self.by_uuid[u] as int].uuid == u
        &&& forall|i: int|
            0 <= i < self.nodes.len() ==> {
                let u = (#[trigger] self.nodes[i]).uuid;
                self.retired.contains(u) || (self.by_uuid.contains_key(u) && self.by_uuid[u] == i)
            }
        &&& forall|u: u128| #[trigger]
            self.retired.contains(u) ==> !self.by_uuid.contains_key(u) && self.known(u)
        &&& forall|i: int, j: int|
            0 <= i < j < self.nodes.len() ==> (#[trigger] self.nodes[i]).uuid != (
            #[trigger] self.nodes[j]).uuid
    }

    /// The state is in order.
    pub open spec fn wf(self) -> bool {
        &&& self.nodes.len() <= u32::MAX
        &&& self.root.0 < self.nodes.len()
        &&& NodeRecord::kids_behind(self.nodes)
        &&& NodeRecord::parents_before(self.nodes)
        &&& self.ids_ok()
        &&& self.staged is Some ==> (self.staged->0).fits(self.nodes)
    }

    /// Links down and up agree: every child knows its container and its place
    /// there, and every node that knows a container stands in that place. The
    /// root has no container.
    pub open spec fn coherent(self) -> bool {
        &&& forall|p: int, i: int|
            0 <= p < self.nodes.len() && 0 <= i < self.nodes[p].children.len() ==> {
                let c = (#[trigger] self.nodes[p].children[i]).0 as int;
                p < c < self.nodes.len() && self.nodes[c].parent == Some(NodeId(p as u32))
                    && self.nodes[c].parent_idx == i
            }
        &&& forall|c: int|
            0 <= c < self.nodes.len() && (#[trigger] self.nodes[c].parent) is Some ==> {
                let p = (self.nodes[c].parent->0).0 as int;
                p < c && self.nodes[c].parent_idx < self.nodes[p].children.len()
                    && self.nodes[p].children[self.nodes[c].parent_idx as int] == NodeId(c as u32)
            }
        &&& self.nodes[self.root.0 as int].parent is None
    }

    /// Whether the id is one of the arena's.
    pub open spec fn has(self, id: NodeId) -> bool {
        id.0 < self.nodes.len()
    }

    /// The record of a node.
    pub open spec fn node(self, id: NodeId) -> NodeRecord {
        self.nodes[id.0 as int]
    }

    /// The tree below a node.
    pub open spec fn at(self, id: NodeId) -> Tree {
        NodeRecord::tree_of(self.nodes, id.0 as int)
    }

    /// The children of a tree are the trees of the children.
    pub proof fn lemma_at(self, id: NodeId)
        requires
            NodeRecord::kids_behind(self.nodes),
            self.has(id),
        ensures
            self.at(id).kind == self.node(id).kind,
            self.at(id).marker == self.node(id).marker,
            self.at(id).fixes == self.node(id).fixes,
            self.at(id).children.len() == self.node(id).children.len(),
            forall|i: int|
                0 <= i < self.node(id).children.len() ==> #[trigger] self.at(id).children[i]
                    == self.at(self.node(id).children[i]),
            forall|i: int|
                0 <= i < self.node(id).children.len() ==> id.0 < (
                #[trigger] self.node(id).children[i]).0 < self.nodes.len(),
    {
        assert forall|i: int| 0 <= i < self.node(id).children.len() implies #[trigger] self.at(
            id,
        ).children[i] == self.at(self.node(id).children[i]) by {
            let c = self.nodes[id.0 as int].children[i];
            assert(id.0 < c.0 < self.nodes.len());
        }
        assert forall|i: int| 0 <= i < self.node(id).children.len() implies id.0 < (
        #[trigger] self.node(id).children[i]).0 < self.nodes.len() by {
            let c = self.nodes[id.0 as int].children[i];
        }
    }

    /// The containers on the way from the root to the anchors of the edits.
    pub open spec fn dirty(self, ops: crate::arena::plan::Ops) -> Set<u128> {
        Set::new(
            |k: u128|
                exists|u: u128|
                    ops.contains_key(u) && self.by_uuid.contains_key(u) && #[trigger]
                    NodeRecord::above(self.nodes, self.by_uuid[u] as int).contains(k),
        )
    }

    /// The containers whose grammar the edits may break: those of the anchors
    /// of such edits.
    pub open spec fn suspects(self, ops: crate::arena::plan::Ops) -> Set<NodeId> {
        Set::new(
            |p: NodeId|
                exists|u: u128| #[trigger]
                    ops.contains_key(u) && self.by_uuid.contains_key(u)
                        && self.nodes[self.by_uuid[u] as int].parent == Some(p)
                        && crate::edit::OpView::any_may_break(
                        ops[u],
                        self.nodes[self.by_uuid[u] as int].kind.type_list().to_set(),
                    ),
        )
    }

    /// The plan for the edits.
    pub open spec fn plan(self, ops: crate::arena::plan::Ops, fix_even_unparsable: bool) ->
        crate::arena::plan::SubPlanView {
        crate::arena::plan::SubPlanView::of(
            self.nodes,
            self.root,
            ops,
            self.dirty(ops),
            fix_even_unparsable,
        )
    }

    /// The child lists of the plan; what moves out of the root stays in it.
    pub open spec fn plan_lists(
        self,
        ops: crate::arena::plan::Ops,
        fix_even_unparsable: bool,
    ) -> Map<u128, Seq<PlannedView>> {
        let p = self.plan(ops, fix_even_unparsable);
        if p.pre.len() == 0 && p.post.len() == 0 {
            p.children_of
        } else {
            let row = if p.children_of.contains_key(self.root.key()) {
                p.children_of[self.root.key()]
            } else {
                PlannedView::kept_row(self.nodes[self.root.0 as int].children)
            };
            p.children_of.insert(self.root.key(), p.pre + row + p.post)
        }
    }

    /// The tree of the arena.
    pub open spec fn tree(self) -> Tree {
        NodeRecord::tree_of(self.nodes, self.root.0 as int)
    }

    /// The file that the positions of the tree refer to.
    pub open spec fn file(self) -> Option<Arc<TemplatedFile>> {
        match self.nodes[self.root.0 as int].marker {
            Some(m) => Some(m.templated_file),
            None => None,
        }
    }

    /// The state with one more node.
    pub open spec fn pushed(self, rec: NodeRecord) -> ArenaState {
        ArenaState {
            nodes: self.nodes.push(rec),
            by_uuid: self.by_uuid.insert(rec.uuid, self.nodes.len() as usize),
            ..self
        }
    }

    /// The uuids that a segment keeps: those below the minted range that no node
    /// has or had and that do not occur in it twice.
    pub open spec fn frees(self, spec: SpecTree) -> Set<u128> {
        Set::new(
            |u: u128| u < crate::arena::MINTED && !self.known(u) && spec.times(u) <= 1,
        )
    }

    /// What is known stays known when nodes are added.
    pub proof fn known_grows(self, next: ArenaState, u: u128)
        requires
            self.grew_to(next),
            self.known(u),
        ensures
            next.known(u),
    {
        let i = choose|i: int| 0 <= i < self.nodes.len() && (#[trigger] self.nodes[i]).uuid == u;
        assert(next.nodes[i].uuid == u);
    }

    /// The known uuids are those in use and those retired.
    pub proof fn lemma_known(self, u: u128)
        requires
            self.ids_ok(),
        ensures
            self.known(u) == (self.by_uuid.contains_key(u) || self.retired.contains(u)),
    {
        if self.by_uuid.contains_key(u) {
            assert(self.nodes[self.by_uuid[u] as int].uuid == u);
        }
    }

    /// One more node under a new uuid keeps the uuids in order.
    pub proof fn lemma_pushed(self, rec: NodeRecord)
        requires
            self.ids_ok(),
            !self.known(rec.uuid),
            self.nodes.len() < u32::MAX,
        ensures
            self.pushed(rec).ids_ok(),
    {
        let s = self.pushed(rec);
        let n = self.nodes.len() as int;
        assert(s.nodes[n] == rec);
        assert forall|i: int| 0 <= i < n implies s.nodes[i] == self.nodes[i] by {}
        self.lemma_known(rec.uuid);
        assert forall|u: u128| #[trigger] s.retired.contains(u) implies !s.by_uuid.contains_key(u)
            && s.known(u) by {
            let i = choose|i: int| 0 <= i < n && (#[trigger] self.nodes[i]).uuid == u;
            assert(s.nodes[i].uuid == u);
        }
    }
}

/// Distinct places hold a run of `k` values only where there are as many.
pub proof fn pigeonhole(values: Seq<u128>, base: u128, k: nat)
    requires
        base + k <= u128::MAX,
        forall|j: int| 0 <= j < k ==> values.contains(#[trigger] (base + j) as u128),
    ensures
        k <= values.len(),
    decreases k,
{
    if k > 0 {
        let last = (base + (k - 1)) as u128;
        assert(values.contains(last));
        let at = choose|i: int| 0 <= i < values.len() && values[i] == last;
        let rest = values.remove(at);
        assert forall|j: int| 0 <= j < k - 1 implies rest.contains(
            #[trigger] (base + j) as u128,
        ) by {
            let v = (base + j) as u128;
            assert(values.contains(v));
            let i = choose|i: int| 0 <= i < values.len() && values[i] == v;
            assert(i != at);
            if i < at {
                assert(rest[i] == v);
            } else {
                assert(rest[i - 1] == v);
            }
        }
        pigeonhole(rest, base, (k - 1) as nat);
    }
}

} // verus!
