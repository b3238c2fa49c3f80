//! Committing a staged edit batch.

use std::sync::Arc;
use vstd::prelude::*;

use crate::arena::state::{NodeId, PlannedChild, StagedBatch};
use crate::arena::Arena;
use crate::edit::NodeSpec;
use crate::marker::{PositionMarker, TemplatedFile};
use crate::tables::{IdSet, Table};

#[allow(unused_imports)]
use crate::arena::state::{ArenaState, NodeRecord, PlannedView, StagedView};
#[allow(unused_imports)]
use crate::edit::SpecTree;

verus! {

impl PlannedView {
    /// The number of nodes that the entries of a row bring.
    pub open spec fn new_nodes(row: Seq<PlannedView>) -> nat
        decreases row.len(),
    {
        if row.len() == 0 {
            0
        } else {
            PlannedView::new_nodes(row.drop_last()) + match row.last() {
                PlannedView::Existing(_) => 0,
                PlannedView::New(spec, _) => spec.size(),
            }
        }
    }

    /// The uuids that the entries of a row bring.
    pub open spec fn new_uuids(row: Seq<PlannedView>) -> Set<u128>
        decreases row.len(),
    {
        if row.len() == 0 {
            Set::empty()
        } else {
            let before = PlannedView::new_uuids(row.drop_last());
            match row.last() {
                PlannedView::Existing(_) => before,
                PlannedView::New(spec, _) => before.union(spec.uuids()),
            }
        }
    }

    /// How often the entries of a row bring a uuid.
    pub open spec fn new_times(row: Seq<PlannedView>, u: u128) -> nat
        decreases row.len(),
    {
        if row.len() == 0 {
            0
        } else {
            PlannedView::new_times(row.drop_last(), u) + match row.last() {
                PlannedView::Existing(_) => 0,
                PlannedView::New(spec, _) => spec.times(u),
            }
        }
    }

    /// Whether the child lists do not bring a uuid twice.
    pub open spec fn not_twice(lists: Map<u128, Seq<PlannedView>>, u: u128) -> bool {
        &&& forall|k: u128| #[trigger]
            lists.contains_key(k) ==> PlannedView::new_times(lists[k], u) <= 1
        &&& forall|k: u128, m: u128|
            #[trigger] lists.contains_key(k) && #[trigger] lists.contains_key(m)
                && PlannedView::new_uuids(lists[k]).contains(u) && PlannedView::new_uuids(
                lists[m],
            ).contains(u) ==> k == m
    }

    /// The number of nodes that new child lists bring.
    pub open spec fn all_new_nodes(lists: Map<u128, Seq<PlannedView>>) -> nat
        decreases lists.dom().len(),
    {
        if lists.dom().finite() && lists.dom().len() > 0 {
            let k = lists.dom().choose();
            PlannedView::new_nodes(lists[k]) + PlannedView::all_new_nodes(lists.remove(k))
        } else {
            0
        }
    }
}

/// The number of nodes that child lists bring does not depend on the order.
proof fn new_nodes_without(lists: Map<u128, Seq<PlannedView>>, k: u128)
    requires
        lists.dom().finite(),
        lists.contains_key(k),
    ensures
        PlannedView::all_new_nodes(lists) == PlannedView::new_nodes(lists[k])
            + PlannedView::all_new_nodes(lists.remove(k)),
    decreases lists.dom().len(),
{
    let c = lists.dom().choose();
    assert(lists.dom().contains(k));
    if c != k {
        let rest = lists.remove(c);
        assert(rest.dom() =~= lists.dom().remove(c));
        new_nodes_without(rest, k);
        let less = lists.remove(k);
        assert(less.dom() =~= lists.dom().remove(k));
        new_nodes_without(less, c);
        assert(rest.remove(k) =~= less.remove(c));
    }
}

/// What holds of the new nodes of a row holds of any of its beginnings.
proof fn new_nodes_prefix(row: Seq<PlannedView>, n: int)
    requires
        0 <= n <= row.len(),
    ensures
        PlannedView::new_nodes(row.take(n)) <= PlannedView::new_nodes(row),
        PlannedView::new_uuids(row.take(n)).subset_of(PlannedView::new_uuids(row)),
    decreases row.len(),
{
    if n < row.len() {
        new_nodes_prefix(row.drop_last(), n);
        assert(row.drop_last().take(n) =~= row.take(n));
    } else {
        assert(row.take(n) =~= row);
    }
}

/// A row brings the uuids that occur in it.
proof fn new_uuid_occurs(row: Seq<PlannedView>, u: u128)
    ensures
        PlannedView::new_uuids(row).contains(u) <==> PlannedView::new_times(row, u) > 0,
    decreases row.len(),
{
    if row.len() > 0 {
        new_uuid_occurs(row.drop_last(), u);
        if let PlannedView::New(spec, _) = row.last() {
            crate::edit::uuid_occurs(spec, u);
        }
    }
}

impl NodeRecord {
    /// The nodes that stand for the new entries of a row are named after those.
    pub open spec fn named_row(
        nodes: Seq<NodeRecord>,
        kids: Seq<NodeId>,
        row: Seq<PlannedView>,
        free: Set<u128>,
    ) -> bool {
        forall|j: int|
            0 <= j < kids.len() && 0 <= j < row.len() ==> (row[j] matches PlannedView::New(
                spec,
                _,
            ) ==> NodeRecord::named(nodes, (#[trigger] kids[j]).0 as int, spec, free))
    }

    /// A node and the nodes below it.
    pub open spec fn below(nodes: Seq<NodeRecord>, id: int) -> Set<int>
        decreases nodes.len() - id, 1int, 0nat,
    {
        if 0 <= id < nodes.len() {
            NodeRecord::row_below(nodes, id, nodes[id].children).insert(id)
        } else {
            Set::empty()
        }
    }

    /// The nodes of a row behind `lo` and the nodes below them.
    pub open spec fn row_below(nodes: Seq<NodeRecord>, lo: int, row: Seq<NodeId>) -> Set<int>
        decreases nodes.len() - lo, 0int, row.len(),
    {
        if row.len() == 0 {
            Set::empty()
        } else {
            let before = NodeRecord::row_below(nodes, lo, row.drop_last());
            let c = row.last().0 as int;
            if lo < c < nodes.len() {
                before.union(NodeRecord::below(nodes, c))
            } else {
                before
            }
        }
    }

    /// The record keeps its identity, payload and position.
    pub open spec fn same_self(self, other: NodeRecord) -> bool {
        self.uuid == other.uuid && self.kind == other.kind && self.marker == other.marker
            && self.fixes == other.fixes
    }

    /// Whether the node `c` stands in `b` for the planned entry; nodes from
    /// `start` on are new.
    pub open spec fn stands_for(
        entry: PlannedView,
        start: int,
        file: Option<Arc<TemplatedFile>>,
        b: Seq<NodeRecord>,
        c: NodeId,
    ) -> bool {
        match entry {
            PlannedView::Existing(e) => c == e,
            PlannedView::New(spec, marker) => start <= c.0 < b.len() && NodeRecord::tree_of(
                b,
                c.0 as int,
            ) == PlannedView::new_tree(spec, marker, file),
        }
    }

    /// Whether the children stand for the entries of the row.
    pub open spec fn row_stands(
        row: Seq<PlannedView>,
        start: int,
        file: Option<Arc<TemplatedFile>>,
        b: Seq<NodeRecord>,
        kids: Seq<NodeId>,
    ) -> bool {
        &&& kids.len() == row.len()
        &&& forall|j: int|
            0 <= j < kids.len() ==> NodeRecord::stands_for(
                row[j],
                start,
                file,
                b,
                #[trigger] kids[j],
            )
    }

    /// Whether the row keeps the node `c` at place `j`.
    pub open spec fn keeps(row: Seq<PlannedView>, j: int, c: int) -> bool {
        0 <= j < row.len() && row[j] == PlannedView::Existing(NodeId(c as u32))
    }

    /// Whether one of the lists keeps the node `c`, at place `j` of `k`.
    pub open spec fn listed(
        lists: Map<u128, Seq<PlannedView>>,
        k: u128,
        j: int,
        c: int,
    ) -> bool {
        lists.contains_key(k) && NodeRecord::keeps(lists[k], j, c)
    }

    /// A node that a list keeps hangs below the container of a list that keeps
    /// it, at its place there; any other hangs where it did.
    pub open spec fn rehung(
        a: Seq<NodeRecord>,
        lists: Map<u128, Seq<PlannedView>>,
        b: Seq<NodeRecord>,
        c: int,
    ) -> bool {
        ||| (forall|k: u128, j: int| !(#[trigger] NodeRecord::listed(lists, k, j, c)))
            && b[c].parent == a[c].parent && b[c].parent_idx == a[c].parent_idx
        ||| exists|k: u128, j: int|
            #[trigger] NodeRecord::listed(lists, k, j, c) && b[c].parent == Some(
                NodeId(k as u32),
            ) && b[c].parent_idx == j
    }

    /// The nodes from `start` on are linked: every child knows its container
    /// and its place, and every node stands in the place that it knows.
    pub open spec fn new_linked(b: Seq<NodeRecord>, start: int) -> bool {
        &&& forall|p: int, i: int|
            start <= p < b.len() && 0 <= i < b[p].children.len() ==> {
                let c = (#[trigger] b[p].children[i]).0 as int;
                p < c < b.len() && b[c].parent == Some(NodeId(p as u32)) && b[c].parent_idx == i
            }
        &&& forall|c: int|
            start <= c < b.len() ==> {
                let p = #[trigger] b[c].parent;
                p is Some && (p->0).0 < c && b[c].parent_idx < b[(p->0).0 as int].children.len()
                    && b[(p->0).0 as int].children[b[c].parent_idx as int] == NodeId(c as u32)
            }
    }

    /// The nodes `a` with the child lists installed are the nodes `b`: old nodes
    /// keep identity, payload and position; new nodes follow behind.
    pub open spec fn installed(
        a: Seq<NodeRecord>,
        lists: Map<u128, Seq<PlannedView>>,
        file: Option<Arc<TemplatedFile>>,
        b: Seq<NodeRecord>,
    ) -> bool {
        &&& a.len() <= b.len()
        &&& forall|i: int| 0 <= i < a.len() ==> a[i].same_self(#[trigger] b[i])
        &&& forall|i: int|
            0 <= i < a.len() ==> if lists.contains_key(i as u128) {
                NodeRecord::row_stands(
                    lists[i as u128],
                    a.len() as int,
                    file,
                    b,
                    #[trigger] b[i].children,
                )
            } else {
                b[i].children == a[i].children
            }
        &&& forall|i: int|
            0 <= i < a.len() && lists.contains_key(i as u128) ==> NodeRecord::new_hang(
                lists[i as u128],
                i,
                b,
                #[trigger] b[i].children,
            )
        &&& forall|c: int| 0 <= c < a.len() ==> #[trigger] NodeRecord::rehung(a, lists, b, c)
        &&& NodeRecord::new_linked(b, a.len() as int)
    }

    /// The nodes that stand for new entries hang below the container, each at
    /// its place.
    pub open spec fn new_hang(
        row: Seq<PlannedView>,
        container: int,
        b: Seq<NodeRecord>,
        kids: Seq<NodeId>,
    ) -> bool {
        forall|j: int|
            0 <= j < kids.len() && 0 <= j < row.len() && row[j] is New ==> {
                let c = (#[trigger] kids[j]).0 as int;
                b[c].parent == Some(NodeId(container as u32)) && b[c].parent_idx == j
            }
    }

    /// The nodes from `start` on are linked, where `container`, which lies
    /// before them, is about to get the children `kids`.
    pub open spec fn grown_linked(
        b: Seq<NodeRecord>,
        start: int,
        container: int,
        kids: Seq<NodeId>,
    ) -> bool {
        &&& forall|p: int, i: int|
            start <= p < b.len() && 0 <= i < b[p].children.len() ==> {
                let c = (#[trigger] b[p].children[i]).0 as int;
                p < c < b.len() && b[c].parent == Some(NodeId(p as u32)) && b[c].parent_idx == i
            }
        &&& forall|c: int|
            start <= c < b.len() ==> {
                let p = #[trigger] b[c].parent;
                let list = if (p->0).0 == container {
                    kids
                } else {
                    b[(p->0).0 as int].children
                };
                p is Some && ((p->0).0 == container || start <= (p->0).0 < c) && b[c].parent_idx
                    < list.len() && list[b[c].parent_idx as int] == NodeId(c as u32)
            }
    }
}

/// One more new child with its tree.
proof fn grown_linked_grows(
    before: Seq<NodeRecord>,
    after: Seq<NodeRecord>,
    start: int,
    container: int,
    kids: Seq<NodeId>,
)
    requires
        0 <= container < start <= before.len() < after.len() <= u32::MAX,
        NodeRecord::grown_linked(before, start, container, kids),
        forall|i: int| 0 <= i < before.len() ==> after[i] == before[i],
        NodeRecord::block_linked(after, before.len() as int),
        after[before.len() as int].parent == Some(NodeId(container as u32)),
        after[before.len() as int].parent_idx == kids.len(),
    ensures
        NodeRecord::grown_linked(after, start, container, kids.push(NodeId(before.len() as u32))),
{
    let s = before.len() as int;
    let more = kids.push(NodeId(s as u32));
    assert forall|p: int, i: int|
        start <= p < after.len() && 0 <= i < after[p].children.len() implies {
        let c = (#[trigger] after[p].children[i]).0 as int;
        p < c < after.len() && after[c].parent == Some(NodeId(p as u32)) && after[c].parent_idx == i
    } by {
        if p < s {
            let c = before[p].children[i].0 as int;
            assert(after[c] == before[c]);
        }
    }
    assert forall|c: int| start <= c < after.len() implies {
        let p = #[trigger] after[c].parent;
        let list = if (p->0).0 == container {
            more
        } else {
            after[(p->0).0 as int].children
        };
        p is Some && ((p->0).0 == container || start <= (p->0).0 < c) && after[c].parent_idx
            < list.len() && list[after[c].parent_idx as int] == NodeId(c as u32)
    } by {
        if c < s {
            assert(after[c] == before[c]);
            let p = before[c].parent;
            if (p->0).0 != container {
                assert(after[(p->0).0 as int] == before[(p->0).0 as int]);
            }
        }
    }
}

/// A kept child changes nothing for the new nodes.
proof fn grown_linked_kept(
    b: Seq<NodeRecord>,
    start: int,
    container: int,
    kids: Seq<NodeId>,
    c: NodeId,
)
    requires
        NodeRecord::grown_linked(b, start, container, kids),
    ensures
        NodeRecord::grown_linked(b, start, container, kids.push(c)),
{
}

impl ArenaState {
    /// The uuids that the new segments of a row keep.
    pub open spec fn frees_row(self, row: Seq<PlannedView>) -> Set<u128> {
        Set::new(
            |u: u128|
                u < crate::arena::MINTED && !self.known(u) && PlannedView::new_times(row, u) <= 1,
        )
    }

    /// The uuids that the new segments of the child lists keep: those below the
    /// minted range that no node has or had and that the lists do not bring twice.
    pub open spec fn frees_lists(self, lists: Map<u128, Seq<PlannedView>>) -> Set<u128> {
        Set::new(
            |u: u128|
                u < crate::arena::MINTED && !self.known(u) && PlannedView::not_twice(lists, u),
        )
    }

    /// The uuids of the nodes of `dead` lead nowhere any more.
    pub open spec fn retire(self, dead: Set<int>) -> ArenaState {
        ArenaState {
            by_uuid: Map::new(
                |u: u128| self.by_uuid.contains_key(u) && !dead.contains(self.by_uuid[u] as int),
                |u: u128| self.by_uuid[u],
            ),
            retired: self.retired.union(
                Set::new(
                    |u: u128| self.by_uuid.contains_key(u) && dead.contains(
                        self.by_uuid[u] as int,
                    ),
                ),
            ),
            ..self
        }
    }

    /// Retiring keeps the uuids in order.
    proof fn lemma_retire(self, dead: Set<int>)
        requires
            self.ids_ok(),
        ensures
            self.retire(dead).ids_ok(),
    {
        let s = self.retire(dead);
        assert forall|u: u128| #[trigger] s.retired.contains(u) implies !s.by_uuid.contains_key(u)
            && s.known(u) by {
            if self.by_uuid.contains_key(u) {
                assert(self.nodes[self.by_uuid[u] as int].uuid == u);
                assert(s.nodes[self.by_uuid[u] as int].uuid == u);
            } else {
                let i = choose|i: int| 0 <= i < self.nodes.len() && (#[trigger] self.nodes[i]).uuid == u;
                assert(s.nodes[i].uuid == u);
            }
        }
    }

    /// Retiring in two steps is retiring at once.
    proof fn lemma_retire_twice(self, a: Set<int>, b: Set<int>)
        ensures
            self.retire(a).retire(b) == self.retire(a.union(b)),
    {
        let x = self.retire(a).retire(b);
        let y = self.retire(a.union(b));
        assert(x.by_uuid =~= y.by_uuid);
        assert(x.retired =~= y.retired);
    }

    /// The state after the subtrees were cut off: their roots hang nowhere, and
    /// the uuids in them are retired.
    pub open spec fn buried(self, stones: Seq<NodeId>) -> ArenaState {
        ArenaState {
            nodes: Seq::new(
                self.nodes.len(),
                |i: int|
                    if stones.contains(NodeId(i as u32)) {
                        NodeRecord { parent: None, ..self.nodes[i] }
                    } else {
                        self.nodes[i]
                    },
            ),
            ..self.retire(NodeRecord::row_below(self.nodes, -1, stones))
        }
    }

    /// The containers with a new child list, and those above them.
    pub open spec fn touched(
        nodes: Seq<NodeRecord>,
        lists: Map<u128, Seq<PlannedView>>,
    ) -> Set<u128> {
        Set::new(
            |k: u128|
                exists|c: u128| #[trigger]
                    lists.contains_key(c) && (k == c || NodeRecord::above(
                        nodes,
                        c as int,
                    ).contains(k)),
        )
    }

    /// The nodes after the position pass from the root.
    pub open spec fn positioned(
        nodes: Seq<NodeRecord>,
        root: NodeId,
        lists: Map<u128, Seq<PlannedView>>,
    ) -> Seq<NodeRecord> {
        match nodes[root.0 as int].marker {
            Some(m) => NodeRecord::placed_below(
                nodes,
                root.0 as int,
                m,
                ArenaState::touched(nodes, lists),
            ),
            None => nodes,
        }
    }

    /// Whether committing the batch leads from this state to `next`, by way of
    /// the spliced nodes: cut off what is removed, install the child lists, run
    /// the position pass, count the batch.
    pub open spec fn commits_via(
        self,
        batch: StagedView,
        spliced: Seq<NodeRecord>,
        next: ArenaState,
    ) -> bool {
        let buried = self.buried(batch.tombstones);
        &&& NodeRecord::installed(buried.nodes, batch.children_of, self.file(), spliced)
        &&& NodeRecord::same_but_markers(spliced, next.nodes)
        &&& next.nodes == ArenaState::positioned(spliced, self.root, batch.children_of)
        &&& next.retired == buried.retired
        &&& next.root == self.root
        &&& next.epoch == self.epoch + 1
        &&& next.staged is None
    }
}

impl Arena {
    /// Retires the uuids of a node and of all below it; the nodes still read.
    fn purge_uuids(&mut self, id: NodeId)
        requires
            old(self).tables_ok(),
            old(self)@.ids_ok(),
            NodeRecord::kids_behind(old(self)@.nodes),
            old(self)@.nodes.len() <= u32::MAX,
            old(self)@.has(id),
        ensures
            final(self).tables_ok(),
            final(self)@.ids_ok(),
            final(self)@ == old(self)@.retire(
                NodeRecord::below(old(self)@.nodes, id.0 as int),
            ),
        decreases old(self)@.nodes.len() - id.0,
    {
        let ghost start = self@;
        let ghost nodes = self@.nodes;
        let uuid = self.uuid(id);
        let mine = match self.by_uuid.get(uuid) {
            Some(i) => i == id.idx(),
            None => false,
        };
        let ghost own = set![id.0 as int];
        proof {
            start.lemma_retire(own);
            assert forall|u: u128| #[trigger] start.by_uuid.contains_key(u) && start.by_uuid[u]
                == id.0 implies u == uuid by {}
        }
        if mine {
            self.by_uuid.remove(uuid);
            self.retired_uuids.insert(uuid);
            proof {
                assert(self@.by_uuid =~= start.retire(own).by_uuid);
                assert(self@.retired =~= start.retire(own).retired);
                assert(self@.nodes =~= nodes);
            }
        } else {
            proof {
                assert(self@.by_uuid =~= start.retire(own).by_uuid);
                assert(self@.retired =~= start.retire(own).retired);
            }
        }
        assert(self@ == start.retire(own));
        let ghost row = start.node(id).children;
        let mut kids: Vec<NodeId> = Vec::new();
        let list = self.children(id);
        for i in 0..list.len()
            invariant
                list@ == row,
                kids@ == row.take(i as int),
        {
            kids.push(list[i]);
            assert(kids@ =~= row.take(i + 1));
        }
        assert(kids@ =~= row);
        assert(row.take(0) =~= Seq::empty());
        assert(own.union(NodeRecord::row_below(nodes, id.0 as int, row.take(0))) =~= own);
        for i in 0..kids.len()
            invariant
                self.tables_ok(),
                self@.ids_ok(),
                kids@ == row,
                row == start.node(id).children,
                start.has(id),
                start == old(self)@,
                start.nodes.len() <= u32::MAX,
                nodes == start.nodes,
                NodeRecord::kids_behind(nodes),
                self@ == start.retire(
                    own.union(NodeRecord::row_below(nodes, id.0 as int, row.take(i as int))),
                ),
        {
            let ghost done = own.union(
                NodeRecord::row_below(nodes, id.0 as int, row.take(i as int)),
            );
            proof {
                start.lemma_at(id);
                assert(start.node(id).children[i as int] == kids@[i as int]);
                assert(row.take(i + 1).drop_last() =~= row.take(i as int));
                start.lemma_retire_twice(
                    done,
                    NodeRecord::below(nodes, kids@[i as int].0 as int),
                );
            }
            self.purge_uuids(kids[i]);
            assert(done.union(NodeRecord::below(nodes, kids@[i as int].0 as int)) =~= own.union(
                NodeRecord::row_below(nodes, id.0 as int, row.take(i + 1)),
            ));
        }
        assert(row.take(row.len() as int) =~= row);
        assert(own.union(NodeRecord::row_below(nodes, id.0 as int, row)) =~= NodeRecord::below(
            nodes,
            id.0 as int,
        ));
    }

    /// Cuts off the subtrees of the stones.
    fn bury(&mut self, stones: &Vec<NodeId>)
        requires
            old(self).tables_ok(),
            old(self)@.ids_ok(),
            NodeRecord::kids_behind(old(self)@.nodes),
            old(self)@.nodes.len() <= u32::MAX,
            crate::arena::plan::stones_behind(stones@, -1, old(self)@.nodes),
        ensures
            final(self).tables_ok(),
            final(self)@.ids_ok(),
            final(self)@ == old(self)@.buried(stones@),
    {
        let ghost start = self@;
        let ghost nodes = self@.nodes;
        proof {
            assert(stones@.take(0) =~= Seq::empty());
            let b = start.buried(stones@.take(0));
            assert(b.nodes =~= nodes);
            assert(b.by_uuid =~= start.by_uuid);
            assert(b.retired =~= start.retired);
        }
        for i in 0..stones.len()
            invariant
                self.tables_ok(),
                self@.ids_ok(),
                start == old(self)@,
                nodes == start.nodes,
                start.nodes.len() <= u32::MAX,
                NodeRecord::kids_behind(nodes),
                crate::arena::plan::stones_behind(stones@, -1, nodes),
                self@ == start.buried(stones@.take(i as int)),
        {
            let t = stones[i];
            let ghost before = self@;
            let ghost done = NodeRecord::row_below(nodes, -1, stones@.take(i as int));
            proof {
                assert(stones@[i as int] == t);
                assert(stones@.take(i + 1).drop_last() =~= stones@.take(i as int));
                assert(NodeRecord::kids_behind(before.nodes)) by {
                    assert forall|p: int, j: int|
                        0 <= p < before.nodes.len() && 0 <= j
                            < before.nodes[p].children.len() implies p < (
                    #[trigger] before.nodes[p].children[j]).0 < before.nodes.len() by {
                        let c = nodes[p].children[j];
                    }
                }
                below_frame(nodes, before.nodes, t.0 as int);
            }
            self.purge_uuids(t);
            let idx: usize = self.nodes[t.idx()].parent_idx;
            let ghost purged = self@;
            self.set_parent(t, None, idx);
            proof {
                let b = start.buried(stones@.take(i + 1));
                start.lemma_retire_twice(done, NodeRecord::below(nodes, t.0 as int));
                assert forall|j: int| 0 <= j < nodes.len() implies self@.nodes[j]
                    == #[trigger] b.nodes[j] by {
                    let was = stones@.take(i as int).contains(NodeId(j as u32));
                    if was {
                        let m = choose|m: int|
                            0 <= m < i && stones@.take(i as int)[m] == NodeId(j as u32);
                        assert(stones@.take(i + 1)[m] == NodeId(j as u32));
                    }
                    assert(stones@.take(i + 1)[i as int] == t);
                    if stones@.take(i + 1).contains(NodeId(j as u32)) && !was {
                        let m = choose|m: int|
                            0 <= m < i + 1 && #[trigger] stones@.take(i + 1)[m] == NodeId(j as u32);
                        if m < i {
                            assert(stones@.take(i as int)[m] == NodeId(j as u32));
                        }
                        assert(m == i);
                    }
                }
                assert(self@.nodes =~= b.nodes);
                assert(self@.by_uuid =~= b.by_uuid);
                assert(self@.retired =~= b.retired);
            }
        }
        assert(stones@.take(stones@.len() as int) =~= stones@);
    }
}

/// The nodes below a node depend on the children only.
proof fn below_frame(a: Seq<NodeRecord>, b: Seq<NodeRecord>, id: int)
    requires
        a.len() == b.len(),
        forall|i: int| 0 <= i < a.len() ==> (#[trigger] b[i]).children == a[i].children,
    ensures
        NodeRecord::below(a, id) == NodeRecord::below(b, id),
    decreases a.len() - id, 1int, 0nat,
{
    if 0 <= id < a.len() {
        assert(b[id].children == a[id].children);
        row_below_frame(a, b, id, a[id].children);
    }
}

proof fn row_below_frame(a: Seq<NodeRecord>, b: Seq<NodeRecord>, lo: int, row: Seq<NodeId>)
    requires
        a.len() == b.len(),
        forall|i: int| 0 <= i < a.len() ==> (#[trigger] b[i]).children == a[i].children,
    ensures
        NodeRecord::row_below(a, lo, row) == NodeRecord::row_below(b, lo, row),
    decreases a.len() - lo, 0int, row.len(),
{
    if row.len() > 0 {
        row_below_frame(a, b, lo, row.drop_last());
        let c = row.last().0 as int;
        if lo < c < a.len() {
            below_frame(a, b, c);
        }
    }
}

/// A child list is installed: `kids` stand for the row below `container`, and
/// the rest is as it was.
spec fn list_installed(
    a: Seq<NodeRecord>,
    container: int,
    row: Seq<PlannedView>,
    file: Option<Arc<TemplatedFile>>,
    b: Seq<NodeRecord>,
) -> bool {
    &&& a.len() <= b.len()
    &&& forall|i: int| 0 <= i < a.len() ==> a[i].same_self(#[trigger] b[i])
    &&& forall|i: int|
        0 <= i < a.len() && i != container ==> (#[trigger] b[i]).children == a[i].children
    &&& NodeRecord::row_stands(row, a.len() as int, file, b, b[container].children)
    &&& NodeRecord::new_hang(row, container, b, b[container].children)
    &&& forall|c: int|
        0 <= c < a.len() ==> {
            ||| (forall|j: int| !(#[trigger] NodeRecord::keeps(row, j, c))) && (
            #[trigger] b[c]).parent == a[c].parent && b[c].parent_idx == a[c].parent_idx
            ||| exists|j: int| #[trigger]
                NodeRecord::keeps(row, j, c) && b[c].parent == Some(NodeId(container as u32))
                    && b[c].parent_idx == j
        }
    &&& NodeRecord::new_linked(b, a.len() as int)
}

/// One more list installed.
proof fn installed_grows(
    a: Seq<NodeRecord>,
    done: Map<u128, Seq<PlannedView>>,
    file: Option<Arc<TemplatedFile>>,
    mid: Seq<NodeRecord>,
    k: u128,
    row: Seq<PlannedView>,
    b: Seq<NodeRecord>,
)
    requires
        NodeRecord::installed(a, done, file, mid),
        a.len() <= u32::MAX,
        b.len() <= u32::MAX,
        k < a.len(),
        !done.contains_key(k),
        forall|i: u128| #[trigger] done.contains_key(i) ==> i < a.len(),
        PlannedView::row_behind(row, k as int, a),
        list_installed(mid, k as int, row, file, b),
        NodeRecord::kids_behind(mid),
        NodeRecord::kids_behind(a),
        mid.len() <= b.len(),
    ensures
        NodeRecord::installed(a, done.insert(k, row), file, b),
{
    let lists = done.insert(k, row);
    let n = a.len() as int;
    assert forall|i: int| 0 <= i < n implies a[i].same_self(#[trigger] b[i]) by {
        assert(a[i].same_self(mid[i]));
        assert(mid[i].same_self(b[i]));
    }
    assert forall|i: int| 0 <= i < n implies if lists.contains_key(i as u128) {
        NodeRecord::row_stands(lists[i as u128], n, file, b, #[trigger] b[i].children)
    } else {
        b[i].children == a[i].children
    } by {
        if i == k {
            assert forall|j: int| 0 <= j < b[i].children.len() implies NodeRecord::stands_for(
                row[j],
                n,
                file,
                b,
                #[trigger] b[i].children[j],
            ) by {
                assert(NodeRecord::stands_for(row[j], mid.len() as int, file, b, b[i].children[j]));
            }
        } else {
            assert(b[i].children == mid[i].children);
            if done.contains_key(i as u128) {
                let kids = mid[i].children;
                assert(NodeRecord::row_stands(done[i as u128], n, file, mid, mid[i].children));
                assert forall|j: int| 0 <= j < kids.len() implies NodeRecord::stands_for(
                    done[i as u128][j],
                    n,
                    file,
                    b,
                    #[trigger] b[i].children[j],
                ) by {
                    let c = kids[j];
                    assert(NodeRecord::stands_for(done[i as u128][j], n, file, mid, kids[j]));
                    if done[i as u128][j] is New {
                        assert forall|p: int| c.0 <= p < mid.len() implies
                            #[trigger] NodeRecord::same_payload(mid[p], b[p]) by {
                            assert(mid[p].same_self(b[p]));
                            assert(b[p].children == mid[p].children);
                        }
                        crate::arena::state::tree_frame(mid, b, c.0 as int);
                    }
                }
            }
        }
    }
    assert forall|i: int| 0 <= i < n && lists.contains_key(i as u128) implies NodeRecord::new_hang(
        lists[i as u128],
        i,
        b,
        #[trigger] b[i].children,
    ) by {
        if i != k {
            assert(b[i].children == mid[i].children);
            let kids = mid[i].children;
            let old_row = done[i as u128];
            assert(NodeRecord::new_hang(old_row, i, mid, mid[i].children));
            assert(NodeRecord::row_stands(old_row, n, file, mid, mid[i].children));
            assert forall|j: int|
                0 <= j < kids.len() && 0 <= j < old_row.len() && old_row[j] is New implies {
                let c = (#[trigger] kids[j]).0 as int;
                b[c].parent == Some(NodeId(i as u32)) && b[c].parent_idx == j
            } by {
                assert(NodeRecord::stands_for(old_row[j], n, file, mid, kids[j]));
                new_node_unmoved(a, k, row, mid, b, file, kids[j].0 as int);
            }
        }
    }
    assert forall|c: int| 0 <= c < n implies #[trigger] NodeRecord::rehung(a, lists, b, c) by {
        assert(NodeRecord::rehung(a, done, mid, c));
        assert(a[c].same_self(b[c]));
        if exists|j: int| #[trigger]
            NodeRecord::keeps(row, j, c) && b[c].parent == Some(NodeId(k as u32))
                && b[c].parent_idx == j {
            let j = choose|j: int| #[trigger]
                NodeRecord::keeps(row, j, c) && b[c].parent == Some(NodeId(k as u32))
                    && b[c].parent_idx == j;
            assert(NodeRecord::listed(lists, k, j, c));
        } else {
            assert(b[c].parent == mid[c].parent && b[c].parent_idx == mid[c].parent_idx);
            assert(forall|j: int| !(#[trigger] NodeRecord::keeps(row, j, c)));
            if exists|m: u128, j: int|
                #[trigger] NodeRecord::listed(done, m, j, c) && mid[c].parent == Some(
                    NodeId(m as u32),
                ) && mid[c].parent_idx == j {
                let (m, j) = choose|m: u128, j: int|
                    #[trigger] NodeRecord::listed(done, m, j, c) && mid[c].parent == Some(
                        NodeId(m as u32),
                    ) && mid[c].parent_idx == j;
                assert(NodeRecord::listed(lists, m, j, c));
            } else {
                assert forall|m: u128, j: int| !(#[trigger] NodeRecord::listed(
                    lists,
                    m,
                    j,
                    c,
                )) by {
                    if m == k {
                        assert(!NodeRecord::keeps(row, j, c));
                    } else {
                        assert(!NodeRecord::listed(done, m, j, c));
                    }
                }
            }
        }
    }
    assert(NodeRecord::new_linked(b, n)) by {
        assert forall|p: int, i: int|
            n <= p < b.len() && 0 <= i < b[p].children.len() implies {
            let c = (#[trigger] b[p].children[i]).0 as int;
            p < c < b.len() && b[c].parent == Some(NodeId(p as u32)) && b[c].parent_idx == i
        } by {
            if p < mid.len() {
                assert(b[p].children == mid[p].children);
                let c = mid[p].children[i].0 as int;
                assert(p < c < mid.len() && mid[c].parent == Some(NodeId(p as u32)));
                new_node_unmoved(a, k, row, mid, b, file, c);
            }
        }
        assert forall|c: int| n <= c < b.len() implies {
            let p = #[trigger] b[c].parent;
            p is Some && (p->0).0 < c && b[c].parent_idx < b[(p->0).0 as int].children.len()
                && b[(p->0).0 as int].children[b[c].parent_idx as int] == NodeId(c as u32)
        } by {
            if c < mid.len() {
                new_node_unmoved(a, k, row, mid, b, file, c);
                let p = mid[c].parent;
                assert(p is Some && (p->0).0 < c);
                let q = (p->0).0 as int;
                if q == k {
                    // The container of a list that is not yet installed has no new child.
                    assert(mid[q].children == a[q].children);
                    old_children_old(a, done, file, mid, q, mid[c].parent_idx as int, c);
                } else {
                    assert(b[q].children == mid[q].children);
                }
            }
        }
    }
}

/// A new node is not among the children that a container without a list had.
proof fn old_children_old(
    a: Seq<NodeRecord>,
    done: Map<u128, Seq<PlannedView>>,
    file: Option<Arc<TemplatedFile>>,
    mid: Seq<NodeRecord>,
    q: int,
    i: int,
    c: int,
)
    requires
        NodeRecord::installed(a, done, file, mid),
        0 <= q < a.len(),
        !done.contains_key(q as u128),
        0 <= i < mid[q].children.len(),
        mid[q].children[i] == NodeId(c as u32),
        a.len() <= c < mid.len() <= u32::MAX,
    ensures
        !(forall|j: int| 0 <= j < a[q].children.len() ==> (#[trigger] a[q].children[j]).0 < a.len()),
{
    assert(mid[q].children == a[q].children);
    assert(a[q].children[i].0 == c);
}

/// A new node is in no list, so a later list does not move it.
proof fn new_node_unmoved(
    a: Seq<NodeRecord>,
    k: u128,
    row: Seq<PlannedView>,
    mid: Seq<NodeRecord>,
    b: Seq<NodeRecord>,
    file: Option<Arc<TemplatedFile>>,
    c: int,
)
    requires
        PlannedView::row_behind(row, k as int, a),
        list_installed(mid, k as int, row, file, b),
        a.len() <= c < mid.len() <= u32::MAX,
    ensures
        b[c].parent == mid[c].parent,
        b[c].parent_idx == mid[c].parent_idx,
{
    assert(mid[c].same_self(b[c]));
    assert forall|j: int| !(#[trigger] NodeRecord::keeps(row, j, c)) by {
        if NodeRecord::keeps(row, j, c) {
            let e = row[j];
            assert(NodeId(c as u32).0 < a.len());
        }
    }
}

/// One more entry of a row is created.
proof fn created_step(
    start: ArenaState,
    container: NodeId,
    pre: Seq<PlannedView>,
    entry: PlannedView,
    before: ArenaState,
    now: ArenaState,
    kids: Seq<NodeId>,
    id: NodeId,
)
    requires
        children_created(start, container, pre, before, kids),
        container.0 < start.nodes.len(),
        before.grew_to(now),
        now.nodes.len() <= u32::MAX,
        match entry {
            PlannedView::Existing(e) => id == e && now == before,
            PlannedView::New(spec, _) => {
                &&& now.nodes.len() == before.nodes.len() + spec.size()
                &&& id.0 == before.nodes.len()
                &&& now.nodes[id.0 as int].parent == Some(container)
                &&& now.nodes[id.0 as int].parent_idx == kids.len()
                &&& NodeRecord::stands_for(
                    entry,
                    start.nodes.len() as int,
                    start.file(),
                    now.nodes,
                    id,
                )
                &&& NodeRecord::grown_linked(
                    now.nodes,
                    start.nodes.len() as int,
                    container.0 as int,
                    kids.push(id),
                )
                &&& forall|j: int|
                    before.nodes.len() <= j < now.nodes.len() ==> (#[trigger] now.nodes[j]).uuid
                        >= crate::arena::MINTED || spec.uuids().contains(now.nodes[j].uuid)
                &&& NodeRecord::named(
                    now.nodes,
                    id.0 as int,
                    spec,
                    start.frees_row(pre.push(entry)),
                )
                &&& forall|u: u128| #[trigger] spec.uuids().contains(u) ==> now.known(u)
            },
        },
    ensures
        children_created(start, container, pre.push(entry), now, kids.push(id)),
{
    reveal(children_created);
    let n = start.nodes.len() as int;
    let row = pre.push(entry);
    let ids = kids.push(id);
    let file = start.file();
    assert(row.drop_last() =~= pre);
    assert(row.last() == entry);
    if entry is Existing {
        grown_linked_kept(before.nodes, n, container.0 as int, kids, id);
    }
    assert forall|p: int, i: int|
        n <= p < before.nodes.len() && 0 <= i < before.nodes[p].children.len() implies p < (
    #[trigger] before.nodes[p].children[i]).0 < before.nodes.len() by {}
    assert forall|j: int| 0 <= j < ids.len() implies NodeRecord::stands_for(
        row[j],
        n,
        file,
        now.nodes,
        #[trigger] ids[j],
    ) by {
        if j < kids.len() {
            assert(ids[j] == kids[j]);
            assert(row[j] == pre[j]);
            assert(NodeRecord::stands_for(pre[j], n, file, before.nodes, kids[j]));
            if pre[j] is New {
                crate::arena::state::tree_frame(before.nodes, now.nodes, kids[j].0 as int);
            }
        }
    }
    assert forall|j: int| 0 <= j < ids.len() && row[j] is New implies (#[trigger] ids[j]).0 >= n
        && now.nodes[ids[j].0 as int].parent == Some(container)
        && now.nodes[ids[j].0 as int].parent_idx == j by {
        if j < kids.len() {
            assert(ids[j] == kids[j]);
            assert(row[j] == pre[j]);
            assert(NodeRecord::stands_for(pre[j], n, file, before.nodes, kids[j]));
            assert(now.nodes[kids[j].0 as int] == before.nodes[kids[j].0 as int]);
        }
    }
    assert forall|j: int| n <= j < now.nodes.len() implies (#[trigger] now.nodes[j]).uuid
        >= crate::arena::MINTED || PlannedView::new_uuids(row).contains(now.nodes[j].uuid) by {
        if j < before.nodes.len() {
            assert(now.nodes[j] == before.nodes[j]);
        }
    }
    let free = start.frees_row(row);
    assert forall|j: int| 0 <= j < ids.len() && 0 <= j < row.len() implies (row[j] matches
        PlannedView::New(spec, _) ==> NodeRecord::named(
        now.nodes,
        (#[trigger] ids[j]).0 as int,
        spec,
        free,
    )) by {
        if j < kids.len() {
            assert(ids[j] == kids[j]);
            assert(row[j] == pre[j]);
            if let PlannedView::New(spec, _) = pre[j] {
                assert(NodeRecord::stands_for(pre[j], n, file, before.nodes, kids[j]));
                let more = start.frees_row(pre);
                crate::arena::state::named_frame(
                    before.nodes,
                    now.nodes,
                    kids[j].0 as int,
                    spec,
                    more,
                );
                crate::arena::state::named_of_fewer(
                    now.nodes,
                    kids[j].0 as int,
                    spec,
                    more,
                    free,
                );
            }
        }
    }
    assert forall|u: u128| #[trigger] PlannedView::new_uuids(row).contains(u) implies now.known(
        u,
    ) by {
        if PlannedView::new_uuids(pre).contains(u) {
            before.known_grows(now, u);
        }
    }
}

/// What a row keeps of the uuids of its last segment, the segment keeps.
proof fn new_keeps_free(
    start: ArenaState,
    container: NodeId,
    pre: Seq<PlannedView>,
    spec: SpecTree,
    marker: Option<PositionMarker>,
    before: ArenaState,
    kids: Seq<NodeId>,
)
    requires
        children_created(start, container, pre, before, kids),
    ensures
        forall|u: u128| #[trigger]
            start.frees_row(pre.push(PlannedView::New(spec, marker))).contains(u)
                && spec.uuids().contains(u) ==> before.frees(spec).contains(u),
{
    reveal(children_created);
    let row = pre.push(PlannedView::New(spec, marker));
    assert(row.drop_last() =~= pre);
    assert forall|u: u128| #[trigger] start.frees_row(row).contains(u) && spec.uuids().contains(
        u,
    ) implies before.frees(spec).contains(u) by {
        new_uuid_occurs(pre, u);
        crate::edit::uuid_occurs(spec, u);
        if before.known(u) {
            let j = choose|j: int|
                0 <= j < before.nodes.len() && (#[trigger] before.nodes[j]).uuid == u;
            if j < start.nodes.len() {
                assert(start.nodes[j].uuid == u);
            }
        }
    }
}

impl Arena {
    /// Adds a new segment of a planned row; gives the node that stands for it.
    fn create_child(
        &mut self,
        container: NodeId,
        spec: &NodeSpec,
        marker: &Option<PositionMarker>,
        place: usize,
        Ghost(start): Ghost<ArenaState>,
        Ghost(pre): Ghost<Seq<PlannedView>>,
        Ghost(kids): Ghost<Seq<NodeId>>,
    ) -> (id: NodeId)
        requires
            old(self).tables_ok(),
            old(self)@.ids_ok(),
            start.root.0 < start.nodes.len(),
            start.has(container),
            children_created(start, container, pre, old(self)@, kids),
            place == kids.len(),
            old(self)@.nodes.len() + spec@.size() <= u32::MAX,
        ensures
            final(self).tables_ok(),
            final(self)@.ids_ok(),
            final(self)@.nodes.len() == old(self)@.nodes.len() + spec@.size(),
            children_created(
                start,
                container,
                pre.push(PlannedView::New(spec@, *marker)),
                final(self)@,
                kids.push(id),
            ),
    {
        let ghost before = self@;
        let ghost n = start.nodes.len() as int;
        let ghost k = container.0 as int;
        let ghost entry = PlannedView::New(spec@, *marker);
        let ghost free = start.frees_row(pre.push(entry));
        proof {
            new_keeps_free(start, container, pre, spec@, *marker, before, kids);
            reveal(children_created);
            assert(before.nodes[start.root.0 as int] == start.nodes[start.root.0 as int]);
        }
        let id = self.ingest_spec(spec, Some(container), place);
        let ghost grown = self@;
        proof {
            grown_linked_grows(before.nodes, grown.nodes, n, k, kids);
        }
        if let Some(m) = marker {
            self.set_marker(id, Some(m.clone()));
        }
        proof {
            let s = before.nodes.len() as int;
            assert(NodeRecord::same_but_markers(grown.nodes, self@.nodes));
            assert(id == NodeId(s as u32));
            relinked(grown.nodes, self@.nodes, n, k, kids.push(id));
            new_top_tree(grown.nodes, self@.nodes, s, spec@, *marker, start.file());
            let more = before.frees(spec@);
            crate::arena::state::named_frame(grown.nodes, self@.nodes, s, spec@, more);
            crate::arena::state::named_of_fewer(self@.nodes, s, spec@, more, free);
            assert forall|u: u128| #[trigger] spec@.uuids().contains(u) implies self@.known(u) by {
                assert(grown.known(u));
                let j = choose|j: int|
                    0 <= j < grown.nodes.len() && (#[trigger] grown.nodes[j]).uuid == u;
                assert(self@.nodes[j].uuid == u);
            }
            created_step(start, container, pre, entry, before, self@, kids, id);
        }
        id
    }

    /// Adds the new segments of a planned row; gives the nodes that stand for
    /// the entries.
    fn create_children(&mut self, container: NodeId, planned: &Vec<PlannedChild>) -> (ids: Vec<
        NodeId,
    >)
        requires
            old(self).tables_ok(),
            old(self)@.ids_ok(),
            old(self)@.root.0 < old(self)@.nodes.len(),
            old(self)@.has(container),
            old(self)@.nodes.len() + PlannedView::new_nodes(PlannedChild::views(planned@))
                <= u32::MAX,
        ensures
            final(self).tables_ok(),
            final(self)@.ids_ok(),
            children_created(
                old(self)@,
                container,
                PlannedChild::views(planned@),
                final(self)@,
                ids@,
            ),
    {
        let ghost start = self@;
        let ghost row = PlannedChild::views(planned@);
        let mut ids: Vec<NodeId> = Vec::new();
        assert(row.take(0) =~= Seq::empty());
        proof {
            reveal(children_created);
            assert(children_created(start, container, row.take(0), self@, ids@));
        }
        for i in 0..planned.len()
            invariant
                self.tables_ok(),
                self@.ids_ok(),
                start.root.0 < start.nodes.len(),
                start.has(container),
                row == PlannedChild::views(planned@),
                start.nodes.len() + PlannedView::new_nodes(row) <= u32::MAX,
                self@.nodes.len() == start.nodes.len() + PlannedView::new_nodes(
                    row.take(i as int),
                ),
                ids@.len() == i,
                children_created(start, container, row.take(i as int), self@, ids@),
        {
            let ghost pre = row.take(i as int);
            let ghost kids = ids@;
            proof {
                new_nodes_prefix(row, i + 1);
                assert(row.take(i + 1) =~= pre.push(row[i as int]));
                assert(pre.push(row[i as int]).drop_last() =~= pre);
                assert(row[i as int] == planned@[i as int]@);
            }
            match &planned[i] {
                PlannedChild::Existing(c) => {
                    proof {
                        created_step(start, container, pre, row[i as int], self@, self@, kids, *c);
                    }
                    ids.push(*c);
                },
                PlannedChild::New(spec, marker) => {
                    let id = self.create_child(
                        container,
                        spec,
                        marker,
                        i,
                        Ghost(start),
                        Ghost(pre),
                        Ghost(kids),
                    );
                    ids.push(id);
                },
            }
        }
        assert(row.take(row.len() as int) =~= row);
        ids
    }

    /// Hangs nodes below a container, in order.
    fn hang(&mut self, container: NodeId, ids: &Vec<NodeId>)
        requires
            old(self).tables_ok(),
            old(self)@.ids_ok(),
            old(self)@.nodes.len() <= u32::MAX,
            forall|i: int| 0 <= i < ids@.len() ==> old(self)@.has(#[trigger] ids@[i]),
        ensures
            final(self).tables_ok(),
            final(self)@.ids_ok(),
            children_hung(old(self)@, container, ids@, final(self)@),
    {
        let ghost grown = self@;
        for i in 0..ids.len()
            invariant
                self.tables_ok(),
                self@.ids_ok(),
                grown.nodes.len() <= u32::MAX,
                forall|j: int| 0 <= j < ids@.len() ==> grown.has(#[trigger] ids@[j]),
                self@ == (ArenaState { nodes: self@.nodes, ..grown }),
                self@.nodes.len() == grown.nodes.len(),
                forall|c: int|
                    0 <= c < self@.nodes.len() ==> (#[trigger] self@.nodes[c]) == (NodeRecord {
                        parent: self@.nodes[c].parent,
                        parent_idx: self@.nodes[c].parent_idx,
                        ..grown.nodes[c]
                    }),
                forall|c: int|
                    0 <= c < self@.nodes.len() ==> rehung_to(
                        grown.nodes,
                        ids@,
                        i as int,
                        container,
                        #[trigger] self@.nodes[c],
                        c,
                    ),
        {
            let cid = ids[i];
            assert(grown.has(ids@[i as int]));
            let ghost before = self@;
            self.set_parent(cid, Some(container), i);
            assert forall|c: int| 0 <= c < self@.nodes.len() implies rehung_to(
                grown.nodes,
                ids@,
                i + 1,
                container,
                #[trigger] self@.nodes[c],
                c,
            ) by {
                assert(rehung_to(grown.nodes, ids@, i as int, container, before.nodes[c], c));
                if c == cid.0 {
                    assert(ids@[i as int] == NodeId(c as u32));
                } else if exists|j: int|
                    0 <= j < i && #[trigger] ids@[j] == NodeId(c as u32)
                        && before.nodes[c].parent == Some(container) && before.nodes[c].parent_idx
                        == j {
                    let j = choose|j: int|
                        0 <= j < i && #[trigger] ids@[j] == NodeId(c as u32)
                            && before.nodes[c].parent == Some(container)
                            && before.nodes[c].parent_idx == j;
                    assert(0 <= j < i + 1 && ids@[j] == NodeId(c as u32));
                }
            }
        }
    }

    /// Gives a container the planned children: new segments are added behind
    /// all nodes, and every child hangs below the container.
    fn install(&mut self, container: NodeId, planned: &Vec<PlannedChild>)
        requires
            old(self).tables_ok(),
            old(self)@.ids_ok(),
            old(self)@.root.0 < old(self)@.nodes.len(),
            NodeRecord::kids_behind(old(self)@.nodes),
            NodeRecord::parents_before(old(self)@.nodes),
            old(self)@.has(container),
            PlannedView::row_behind(
                PlannedChild::views(planned@),
                container.0 as int,
                old(self)@.nodes,
            ),
            old(self)@.nodes.len() + PlannedView::new_nodes(PlannedChild::views(planned@))
                <= u32::MAX,
        ensures
            final(self).tables_ok(),
            final(self)@.ids_ok(),
            final(self)@ == (ArenaState {
                nodes: final(self)@.nodes,
                by_uuid: final(self)@.by_uuid,
                ..old(self)@
            }),
            NodeRecord::kids_behind(final(self)@.nodes),
            NodeRecord::parents_before(final(self)@.nodes),
            final(self)@.nodes.len() == old(self)@.nodes.len() + PlannedView::new_nodes(
                PlannedChild::views(planned@),
            ),
            list_installed(
                old(self)@.nodes,
                container.0 as int,
                PlannedChild::views(planned@),
                old(self)@.file(),
                final(self)@.nodes,
            ),
            forall|i: int|
                old(self)@.nodes.len() <= i < final(self)@.nodes.len() ==> (
                #[trigger] final(self)@.nodes[i]).uuid >= crate::arena::MINTED
                    || PlannedView::new_uuids(PlannedChild::views(planned@)).contains(
                    final(self)@.nodes[i].uuid,
                ),
            NodeRecord::named_row(
                final(self)@.nodes,
                final(self)@.node(container).children,
                PlannedChild::views(planned@),
                old(self)@.frees_row(PlannedChild::views(planned@)),
            ),
            forall|u: u128| #[trigger]
                PlannedView::new_uuids(PlannedChild::views(planned@)).contains(u)
                    ==> final(self)@.known(u),
    {
        let ghost row = PlannedChild::views(planned@);
        let ids = self.create_children(container, planned);
        let ghost grown = self@;
        let ghost kids = ids@;
        proof {
            created_in_range(old(self)@, container, row, grown, kids);
        }
        self.hang(container, &ids);
        let ghost hung = self@;
        self.set_children(container, ids);
        proof {
            list_is_installed(old(self)@, container, row, grown, kids, hung, self@);
        }
    }
}

/// The new segments of a row were added, and `kids` stand for its entries.
#[verifier::opaque]
spec fn children_created(
    start: ArenaState,
    container: NodeId,
    row: Seq<PlannedView>,
    grown: ArenaState,
    kids: Seq<NodeId>,
) -> bool {
    let n = start.nodes.len() as int;
    &&& start.grew_to(grown)
    &&& grown.nodes.len() == n + PlannedView::new_nodes(row)
    &&& NodeRecord::grown_linked(grown.nodes, n, container.0 as int, kids)
    &&& NodeRecord::row_stands(row, n, start.file(), grown.nodes, kids)
    &&& forall|j: int|
        0 <= j < kids.len() && row[j] is New ==> (#[trigger] kids[j]).0 >= n
            && grown.nodes[kids[j].0 as int].parent == Some(container)
            && grown.nodes[kids[j].0 as int].parent_idx == j
    &&& forall|j: int|
        n <= j < grown.nodes.len() ==> (#[trigger] grown.nodes[j]).uuid >= crate::arena::MINTED
            || PlannedView::new_uuids(row).contains(grown.nodes[j].uuid)
    &&& NodeRecord::named_row(grown.nodes, kids, row, start.frees_row(row))
    &&& forall|u: u128| #[trigger] PlannedView::new_uuids(row).contains(u) ==> grown.known(u)
}

/// What stands for the entries of a row is in the grown arena.
proof fn created_in_range(
    start: ArenaState,
    container: NodeId,
    row: Seq<PlannedView>,
    grown: ArenaState,
    kids: Seq<NodeId>,
)
    requires
        start.has(container),
        PlannedView::row_behind(row, container.0 as int, start.nodes),
        children_created(start, container, row, grown, kids),
    ensures
        start.grew_to(grown),
        grown.nodes.len() == start.nodes.len() + PlannedView::new_nodes(row),
        forall|i: int| 0 <= i < kids.len() ==> grown.has(#[trigger] kids[i]),
{
    reveal(children_created);
    assert forall|i: int| 0 <= i < kids.len() implies grown.has(#[trigger] kids[i]) by {
        assert(NodeRecord::stands_for(
            row[i],
            start.nodes.len() as int,
            start.file(),
            grown.nodes,
            kids[i],
        ));
        let e = row[i];
    }
}

/// The nodes were hung below the container.
spec fn children_hung(
    grown: ArenaState,
    container: NodeId,
    kids: Seq<NodeId>,
    hung: ArenaState,
) -> bool {
    &&& hung == (ArenaState { nodes: hung.nodes, ..grown })
    &&& hung.nodes.len() == grown.nodes.len()
    &&& forall|c: int|
        0 <= c < hung.nodes.len() ==> (#[trigger] hung.nodes[c]) == (NodeRecord {
            parent: hung.nodes[c].parent,
            parent_idx: hung.nodes[c].parent_idx,
            ..grown.nodes[c]
        })
    &&& forall|c: int|
        0 <= c < hung.nodes.len() ==> rehung_to(
            grown.nodes,
            kids,
            kids.len() as int,
            container,
            #[trigger] hung.nodes[c],
            c,
        )
}

/// Adding, hanging and linking install the list.
proof fn list_is_installed(
    start: ArenaState,
    container: NodeId,
    row: Seq<PlannedView>,
    grown: ArenaState,
    kids: Seq<NodeId>,
    hung: ArenaState,
    done: ArenaState,
)
    requires
        start.has(container),
        grown.nodes.len() <= u32::MAX,
        NodeRecord::kids_behind(start.nodes),
        NodeRecord::parents_before(start.nodes),
        PlannedView::row_behind(row, container.0 as int, start.nodes),
        children_created(start, container, row, grown, kids),
        children_hung(grown, container, kids, hung),
        done == hung.with_node(
            container.0 as int,
            NodeRecord { children: kids, ..hung.nodes[container.0 as int] },
        ),
    ensures
        NodeRecord::kids_behind(done.nodes),
        NodeRecord::parents_before(done.nodes),
        list_installed(start.nodes, container.0 as int, row, start.file(), done.nodes),
        forall|i: int|
            start.nodes.len() <= i < done.nodes.len() ==> (#[trigger] done.nodes[i]).uuid
                >= crate::arena::MINTED || PlannedView::new_uuids(row).contains(
                done.nodes[i].uuid,
            ),
        NodeRecord::named_row(
            done.nodes,
            done.node(container).children,
            row,
            start.frees_row(row),
        ),
        forall|u: u128| #[trigger] PlannedView::new_uuids(row).contains(u) ==> done.known(u),
{
    reveal(children_created);
    let n = start.nodes.len() as int;
    let k = container.0 as int;
    let file = start.file();
    let b = done.nodes;
    assert forall|c: int| n <= c < grown.nodes.len() implies #[trigger] hung.nodes[c]
        == grown.nodes[c] by {
        assert(rehung_to(grown.nodes, kids, kids.len() as int, container, hung.nodes[c], c));
        if exists|j: int|
            0 <= j < kids.len() && #[trigger] kids[j] == NodeId(c as u32) && hung.nodes[c].parent
                == Some(container) && hung.nodes[c].parent_idx == j {
            let j = choose|j: int|
                0 <= j < kids.len() && #[trigger] kids[j] == NodeId(c as u32)
                    && hung.nodes[c].parent == Some(container) && hung.nodes[c].parent_idx == j;
            assert(NodeRecord::stands_for(row[j], n, file, grown.nodes, kids[j]));
            if row[j] is Existing {
                let e = row[j];
            }
            assert(row[j] is New);
        }
    }
    assert forall|i: int| 0 <= i < n implies start.nodes[i].same_self(#[trigger] b[i]) by {
        assert(grown.nodes[i] == start.nodes[i]);
        assert(hung.nodes[i].same_self(grown.nodes[i]));
    }
    assert forall|i: int| 0 <= i < n && i != k implies (#[trigger] b[i]).children
        == start.nodes[i].children by {
        assert(grown.nodes[i] == start.nodes[i]);
        assert(hung.nodes[i].children == grown.nodes[i].children);
    }
    assert(b[k].children == kids);
    assert forall|i: int| n <= i < b.len() implies #[trigger] b[i] == grown.nodes[i] by {
        assert(hung.nodes[i] == grown.nodes[i]);
    }
    assert forall|j: int| 0 <= j < kids.len() implies NodeRecord::stands_for(
        row[j],
        n,
        file,
        b,
        #[trigger] kids[j],
    ) by {
        assert(NodeRecord::stands_for(row[j], n, file, grown.nodes, kids[j]));
        if row[j] is New {
            crate::arena::state::tree_frame(grown.nodes, b, kids[j].0 as int);
        }
    }
    let free = start.frees_row(row);
    assert forall|j: int| 0 <= j < kids.len() implies (row[j] matches PlannedView::New(spec, _)
        ==> NodeRecord::named(b, (#[trigger] kids[j]).0 as int, spec, free)) by {
        if let PlannedView::New(spec, _) = row[j] {
            assert(NodeRecord::stands_for(row[j], n, file, grown.nodes, kids[j]));
            crate::arena::state::named_frame(grown.nodes, b, kids[j].0 as int, spec, free);
        }
    }
    assert forall|u: u128| #[trigger] PlannedView::new_uuids(row).contains(u) implies done.known(
        u,
    ) by {
        assert(grown.known(u));
        let j = choose|j: int|
            0 <= j < grown.nodes.len() && (#[trigger] grown.nodes[j]).uuid == u;
        assert(hung.nodes[j].uuid == u);
        assert(b[j].uuid == u);
    }
    assert forall|c: int| 0 <= c < n implies {
        ||| (forall|j: int| !(#[trigger] NodeRecord::keeps(row, j, c))) && (
        #[trigger] b[c]).parent == start.nodes[c].parent && b[c].parent_idx
            == start.nodes[c].parent_idx
        ||| exists|j: int| #[trigger]
            NodeRecord::keeps(row, j, c) && b[c].parent == Some(NodeId(k as u32))
                && b[c].parent_idx == j
    } by {
        let h = hung.nodes[c];
        assert(rehung_to(grown.nodes, kids, kids.len() as int, container, h, c));
        assert(grown.nodes[c] == start.nodes[c]);
        assert forall|j: int| #[trigger] NodeRecord::keeps(row, j, c) implies kids[j]
            == NodeId(c as u32) by {
            assert(NodeRecord::stands_for(row[j], n, file, b, kids[j]));
        }
        assert forall|j: int| 0 <= j < kids.len() && kids[j] == NodeId(
            c as u32,
        ) implies NodeRecord::keeps(row, j, c) by {
            assert(NodeRecord::stands_for(row[j], n, file, b, kids[j]));
        }
        if exists|j: int|
            0 <= j < kids.len() && #[trigger] kids[j] == NodeId(c as u32) && h.parent
                == Some(container) && h.parent_idx == j {
            let j = choose|j: int|
                0 <= j < kids.len() && #[trigger] kids[j] == NodeId(c as u32) && h.parent
                    == Some(container) && h.parent_idx == j;
            assert(NodeRecord::keeps(row, j, c));
        }
    }
    assert(NodeRecord::new_linked(b, n)) by {
        assert forall|c: int| n <= c < b.len() implies {
            let p = #[trigger] b[c].parent;
            p is Some && (p->0).0 < c && b[c].parent_idx < b[(p->0).0 as
                int].children.len() && b[(p->0).0 as int].children[b[c].parent_idx as int]
                == NodeId(c as u32)
        } by {
            assert(b[c] == grown.nodes[c]);
            let p = grown.nodes[c].parent;
            if (p->0).0 != k {
                assert(b[(p->0).0 as int] == grown.nodes[(p->0).0 as int]);
            }
        }
        assert forall|p: int, i: int|
            n <= p < b.len() && 0 <= i < b[p].children.len() implies {
            let c = (#[trigger] b[p].children[i]).0 as int;
            p < c < b.len() && b[c].parent == Some(NodeId(p as u32)) && b[c].parent_idx
                == i
        } by {
            assert(b[p] == grown.nodes[p]);
            let c = grown.nodes[p].children[i].0 as int;
            assert(b[c] == grown.nodes[c]);
        }
    }
    assert forall|p: int, i: int|
        0 <= p < b.len() && 0 <= i < b[p].children.len() implies p < (
    #[trigger] b[p].children[i]).0 < b.len() by {
        if p == k {
            assert(NodeRecord::stands_for(row[i], n, file, b, kids[i]));
            let e = row[i];
        } else if p < n {
            assert(b[p].children == start.nodes[p].children);
            let c = start.nodes[p].children[i];
        }
    }
    assert forall|c: int| 0 <= c < b.len() && (#[trigger] b[c]).parent is Some implies (
    b[c].parent->0).0 < c by {
        if c < n {
            if exists|j: int| #[trigger]
                NodeRecord::keeps(row, j, c) && b[c].parent == Some(NodeId(k as u32))
                    && b[c].parent_idx == j {
                let j = choose|j: int| #[trigger]
                    NodeRecord::keeps(row, j, c) && b[c].parent == Some(NodeId(k as u32))
                        && b[c].parent_idx == j;
                let e = row[j];
            } else {
                assert(start.nodes[c].parent == b[c].parent);
            }
        } else {
            let p = b[c].parent;
        }
    }
}

/// After the first `upto` children were hung below the container, the node `c`
/// hangs at a place of one of those, or where it did.
spec fn rehung_to(
    grown: Seq<NodeRecord>,
    kids: Seq<NodeId>,
    upto: int,
    container: NodeId,
    now: NodeRecord,
    c: int,
) -> bool {
    ||| (forall|j: int| 0 <= j < upto ==> #[trigger] kids[j] != NodeId(c as u32)) && now.parent
        == grown[c].parent && now.parent_idx == grown[c].parent_idx
    ||| exists|j: int|
        0 <= j < upto && #[trigger] kids[j] == NodeId(c as u32) && now.parent == Some(container)
            && now.parent_idx == j
}

/// Links do not depend on markers.
proof fn relinked(a: Seq<NodeRecord>, b: Seq<NodeRecord>, start: int, container: int, kids: Seq<NodeId>)
    requires
        NodeRecord::same_but_markers(a, b),
        0 <= start,
        0 <= container < start <= a.len(),
        NodeRecord::grown_linked(a, start, container, kids),
    ensures
        NodeRecord::grown_linked(b, start, container, kids),
{
    assert forall|p: int, i: int|
        start <= p < b.len() && 0 <= i < b[p].children.len() implies {
        let c = (#[trigger] b[p].children[i]).0 as int;
        p < c < b.len() && b[c].parent == Some(NodeId(p as u32)) && b[c].parent_idx == i
    } by {
        assert(b[p].children == a[p].children);
        let c = a[p].children[i].0 as int;
        assert(b[c].parent == a[c].parent);
    }
    assert forall|c: int| start <= c < b.len() implies {
        let p = #[trigger] b[c].parent;
        let list = if (p->0).0 == container {
            kids
        } else {
            b[(p->0).0 as int].children
        };
        p is Some && ((p->0).0 == container || start <= (p->0).0 < c) && b[c].parent_idx
            < list.len() && list[b[c].parent_idx as int] == NodeId(c as u32)
    } by {
        assert(b[c].parent == a[c].parent);
        let p = a[c].parent;
        if (p->0).0 != container {
            assert(b[(p->0).0 as int].children == a[(p->0).0 as int].children);
        }
    }
}

/// The tree of a new segment at the position that it takes over.
proof fn new_top_tree(
    a: Seq<NodeRecord>,
    b: Seq<NodeRecord>,
    s: int,
    spec: SpecTree,
    marker: Option<PositionMarker>,
    file: Option<Arc<TemplatedFile>>,
)
    requires
        0 <= s < a.len(),
        NodeRecord::block_linked(a, s),
        NodeRecord::tree_of(a, s) == spec.tree(file),
        marker is None ==> b == a,
        marker is Some ==> b == a.update(s, NodeRecord { marker, ..a[s] }),
    ensures
        NodeRecord::tree_of(b, s) == PlannedView::new_tree(spec, marker, file),
{
    if marker is Some {
        let ta = NodeRecord::tree_of(a, s);
        let tb = NodeRecord::tree_of(b, s);
        assert forall|i: int| 0 <= i < ta.children.len() implies ta.children[i]
            == tb.children[i] by {
            let c = a[s].children[i].0 as int;
            assert(s < c < a.len());
            assert forall|p: int| c <= p < a.len() implies #[trigger] NodeRecord::same_payload(
                a[p],
                b[p],
            ) by {}
            crate::arena::state::tree_frame(a, b, c);
        }
        assert(ta.children =~= tb.children);
    }
}

/// The lists at the first places of a table.
spec fn lists_at(table: Table<Vec<PlannedChild>>, places: int) -> Map<u128, Seq<PlannedView>> {
    Map::new(
        |k: u128| exists|i: int| 0 <= i < places && #[trigger] table.key_at(i) == Some(k),
        |k: u128| PlannedChild::views(table@[k]@),
    )
}

/// One place more.
proof fn lists_at_grow(table: Table<Vec<PlannedChild>>, i: int)
    requires
        table.wf(),
        0 <= i < table.slots(),
    ensures
        table.key_at(i) is None ==> lists_at(table, i + 1) == lists_at(table, i),
        table.key_at(i) is Some ==> {
            let k = table.key_at(i)->0;
            &&& table@.contains_key(k)
            &&& !lists_at(table, i).contains_key(k)
            &&& lists_at(table, i + 1) == lists_at(table, i).insert(
                k,
                PlannedChild::views(table@[k]@),
            )
        },
{
    table.places();
    let a = lists_at(table, i);
    let b = lists_at(table, i + 1);
    assert forall|k: u128| a.contains_key(k) implies b.contains_key(k) by {
        let j = choose|j: int| 0 <= j < i && #[trigger] table.key_at(j) == Some(k);
        assert(0 <= j < i + 1 && table.key_at(j) == Some(k));
    }
    assert forall|k: u128| b.contains_key(k) && !a.contains_key(k) implies table.key_at(i)
        == Some(k) by {
        let j = choose|j: int| 0 <= j < i + 1 && #[trigger] table.key_at(j) == Some(k);
        if j < i {
            assert(a.contains_key(k));
        }
    }
    match table.key_at(i) {
        None => {
            assert(a =~= b);
        },
        Some(k) => {
            if a.contains_key(k) {
                let j = choose|j: int| 0 <= j < i && #[trigger] table.key_at(j) == Some(k);
                assert(table.key_at(j) is Some);
                assert(false);
            }
            assert(b.contains_key(k));
            assert(b =~= a.insert(k, PlannedChild::views(table@[k]@)));
        },
    }
}

/// All places hold the whole table.
proof fn lists_at_all(table: Table<Vec<PlannedChild>>)
    requires
        table.wf(),
    ensures
        lists_at(table, table.slots() as int) == crate::arena::state::plan_view(table@),
        crate::arena::state::plan_view(table@).dom().finite(),
        lists_at(table, 0) == Map::<u128, Seq<PlannedView>>::empty(),
{
    table.places();
    let a = lists_at(table, table.slots() as int);
    let b = crate::arena::state::plan_view(table@);
    assert forall|k: u128| a.contains_key(k) == b.contains_key(k) by {
        if a.contains_key(k) {
            let j = choose|j: int| 0 <= j < table.slots() && #[trigger] table.key_at(j) == Some(k);
            assert(table.key_at(j) is Some);
        }
        if b.contains_key(k) {
            assert(table@.contains_key(k));
        }
    }
    assert(a =~= b);
    assert(b.dom() =~= table@.dom());
    assert(lists_at(table, 0) =~= Map::<u128, Seq<PlannedView>>::empty());
}

/// The lists not yet installed bring the nodes that the others leave.
proof fn new_nodes_part(
    all: Map<u128, Seq<PlannedView>>,
    done: Map<u128, Seq<PlannedView>>,
    k: u128,
)
    requires
        all.dom().finite(),
        done.dom().subset_of(all.dom()),
        all.contains_key(k),
        !done.contains_key(k),
        done == all.restrict(done.dom()),
    ensures
        PlannedView::all_new_nodes(done.insert(k, all[k])) == PlannedView::all_new_nodes(done)
            + PlannedView::new_nodes(all[k]),
        PlannedView::all_new_nodes(done.insert(k, all[k])) <= PlannedView::all_new_nodes(all),
{
    vstd::set_lib::lemma_len_subset(done.dom(), all.dom());
    let more = done.insert(k, all[k]);
    assert(more.dom() =~= done.dom().insert(k));
    new_nodes_without(more, k);
    assert(more.remove(k) =~= done);
    assert(more =~= all.restrict(more.dom()));
    new_nodes_fewer(all, more);
}

/// Fewer lists bring no more nodes.
proof fn new_nodes_fewer(all: Map<u128, Seq<PlannedView>>, some: Map<u128, Seq<PlannedView>>)
    requires
        all.dom().finite(),
        some.dom().subset_of(all.dom()),
        some == all.restrict(some.dom()),
    ensures
        PlannedView::all_new_nodes(some) <= PlannedView::all_new_nodes(all),
    decreases all.dom().len(),
{
    vstd::set_lib::lemma_len_subset(some.dom(), all.dom());
    if some.dom() == all.dom() {
        assert(some =~= all);
    } else {
        let k = choose|k: u128| all.dom().contains(k) && !some.dom().contains(k);
        assert(exists|k: u128| all.dom().contains(k) && !some.dom().contains(k)) by {
            if forall|k: u128| all.dom().contains(k) ==> some.dom().contains(k) {
                assert(some.dom() =~= all.dom());
            }
        }
        new_nodes_without(all, k);
        let less = all.remove(k);
        assert(less.dom() =~= all.dom().remove(k));
        assert(some =~= less.restrict(some.dom()));
        new_nodes_fewer(less, some);
    }
}

impl Arena {
    /// Installs all child lists.
    fn install_all(&mut self, lists: &Table<Vec<PlannedChild>>)
        requires
            old(self).wf(),
            old(self)@.staged is None,
            lists.wf(),
            crate::arena::plan::lists_behind(
                crate::arena::state::plan_view(lists@),
                0,
                old(self)@.nodes,
            ),
            old(self)@.nodes.len() + PlannedView::all_new_nodes(
                crate::arena::state::plan_view(lists@),
            ) <= u32::MAX,
        ensures
            final(self).wf(),
            final(self)@ == (ArenaState {
                nodes: final(self)@.nodes,
                by_uuid: final(self)@.by_uuid,
                ..old(self)@
            }),
            NodeRecord::installed(
                old(self)@.nodes,
                crate::arena::state::plan_view(lists@),
                old(self)@.file(),
                final(self)@.nodes,
            ),
            NodeRecord::named_lists(
                final(self)@.nodes,
                crate::arena::state::plan_view(lists@),
                old(self)@.frees_lists(crate::arena::state::plan_view(lists@)),
            ),
            final(self)@.knows_all(crate::arena::state::plan_view(lists@)),
    {
        let ghost start = self@;
        let ghost a = start.nodes;
        let ghost all = crate::arena::state::plan_view(lists@);
        let ghost file = start.file();
        let n: usize = lists.slot_count();
        proof {
            lists_at_all(*lists);
            assert(PlannedView::all_new_nodes(lists_at(*lists, 0)) == 0);
            assert(NodeRecord::installed(a, lists_at(*lists, 0), file, a)) by {
                assert forall|c: int| 0 <= c < a.len() implies #[trigger] NodeRecord::rehung(
                    a,
                    lists_at(*lists, 0),
                    a,
                    c,
                ) by {}
            }
        }
        for i in 0..n
            invariant
                self.tables_ok(),
                self@.ids_ok(),
                NodeRecord::kids_behind(self@.nodes),
                NodeRecord::parents_before(self@.nodes),
                start.wf(),
                start.staged is None,
                a == start.nodes,
                file == start.file(),
                lists.wf(),
                n == lists.slots(),
                all == crate::arena::state::plan_view(lists@),
                all == lists_at(*lists, n as int),
                all.dom().finite(),
                crate::arena::plan::lists_behind(all, 0, a),
                a.len() + PlannedView::all_new_nodes(all) <= u32::MAX,
                self@.nodes.len() == a.len() + PlannedView::all_new_nodes(
                    lists_at(*lists, i as int),
                ),
                lists_at(*lists, i as int) == all.restrict(lists_at(*lists, i as int).dom()),
                lists_at(*lists, i as int).dom().subset_of(all.dom()),
                self@ == (ArenaState {
                    nodes: self@.nodes,
                    by_uuid: self@.by_uuid,
                    ..start
                }),
                NodeRecord::installed(a, lists_at(*lists, i as int), file, self@.nodes),
                forall|j: int|
                    a.len() <= j < self@.nodes.len() ==> brought(
                        lists_at(*lists, i as int),
                        (#[trigger] self@.nodes[j]).uuid,
                    ),
                NodeRecord::named_lists(
                    self@.nodes,
                    lists_at(*lists, i as int),
                    start.frees_lists(all),
                ),
                self@.knows_all(lists_at(*lists, i as int)),
        {
            let ghost done = lists_at(*lists, i as int);
            let ghost before = self@;
            proof {
                lists_at_grow(*lists, i as int);
                lists_at_all(*lists);
            }
            if let Some((k, planned)) = lists.at(i) {
                let ghost row = PlannedChild::views(planned@);
                proof {
                    assert(all.contains_key(k));
                    assert(all[k] == row);
                    new_nodes_part(all, done, k);
                    assert(k < a.len());
                    assert(before.nodes[start.root.0 as int].marker == a[start.root.0 as
                        int].marker) by {
                        assert(a[start.root.0 as int].same_self(
                            before.nodes[start.root.0 as int],
                        ));
                    }
                    row_keeps_free(start, all, done, before, k);
                    assert forall|j: int| 0 <= j < row.len() implies match #[trigger] row[j] {
                        PlannedView::Existing(c) => k < c.0 < before.nodes.len(),
                        PlannedView::New(..) => true,
                    } by {}
                }
                self.install(NodeId(k as u32), planned);
                proof {
                    installed_grows(a, done, file, before.nodes, k, row, self@.nodes);
                    assert forall|j: int| a.len() <= j < self@.nodes.len() implies brought(
                        lists_at(*lists, i + 1),
                        (#[trigger] self@.nodes[j]).uuid,
                    ) by {
                        if j < before.nodes.len() {
                            assert(before.nodes[j].same_self(self@.nodes[j]));
                            assert(brought(done, before.nodes[j].uuid));
                            if before.nodes[j].uuid < crate::arena::MINTED {
                                let m = choose|m: u128| #[trigger]
                                    done.contains_key(m) && PlannedView::new_uuids(
                                        done[m],
                                    ).contains(before.nodes[j].uuid);
                                assert(lists_at(*lists, i + 1).contains_key(m));
                            }
                        } else {
                            assert(lists_at(*lists, i + 1).contains_key(k));
                        }
                    }
                    let free = start.frees_lists(all);
                    let kids = self@.nodes[k as int].children;
                    row_of_fewer(self@.nodes, kids, row, before.frees_row(row), free);
                    names_kept(a, done, file, before.nodes, k, row, self@.nodes, free);
                    all_still_known(before, done, k, row, self@);
                    assert(lists_at(*lists, i + 1) =~= all.restrict(
                        lists_at(*lists, i + 1).dom(),
                    ));
                }
            }
        }
    }
}

/// Whether the uuid is minted or brought by one of the lists.
spec fn brought(lists: Map<u128, Seq<PlannedView>>, u: u128) -> bool {
    u >= crate::arena::MINTED || exists|m: u128| #[trigger]
        lists.contains_key(m) && PlannedView::new_uuids(lists[m]).contains(u)
}

impl ArenaState {
    /// Whether every uuid that the child lists bring is known.
    pub open spec fn knows_all(self, lists: Map<u128, Seq<PlannedView>>) -> bool {
        forall|k: u128, u: u128| #[trigger]
            lists.contains_key(k) && #[trigger] PlannedView::new_uuids(lists[k]).contains(u)
                ==> self.known(u)
    }
}

/// What the lists keep of the uuids of one of them, that list keeps after others
/// were installed.
proof fn row_keeps_free(
    start: ArenaState,
    all: Map<u128, Seq<PlannedView>>,
    done: Map<u128, Seq<PlannedView>>,
    now: ArenaState,
    k: u128,
)
    requires
        all.contains_key(k),
        !done.contains_key(k),
        done.dom().subset_of(all.dom()),
        done == all.restrict(done.dom()),
        start.nodes.len() <= now.nodes.len(),
        forall|i: int|
            0 <= i < start.nodes.len() ==> start.nodes[i].same_self(#[trigger] now.nodes[i]),
        forall|j: int|
            start.nodes.len() <= j < now.nodes.len() ==> brought(
                done,
                (#[trigger] now.nodes[j]).uuid,
            ),
    ensures
        forall|u: u128| #[trigger]
            start.frees_lists(all).contains(u) && PlannedView::new_uuids(all[k]).contains(u)
                ==> now.frees_row(all[k]).contains(u),
{
    assert forall|u: u128| #[trigger] start.frees_lists(all).contains(u) && PlannedView::new_uuids(
        all[k],
    ).contains(u) implies now.frees_row(all[k]).contains(u) by {
        if now.known(u) {
            let j = choose|j: int| 0 <= j < now.nodes.len() && (#[trigger] now.nodes[j]).uuid == u;
            if j < start.nodes.len() {
                assert(start.nodes[j].same_self(now.nodes[j]));
                assert(start.nodes[j].uuid == u);
            } else {
                assert(brought(done, now.nodes[j].uuid));
                let m = choose|m: u128| #[trigger]
                    done.contains_key(m) && PlannedView::new_uuids(done[m]).contains(u);
                assert(all.contains_key(m) && all[m] == done[m]);
            }
        }
    }
}

/// Fewer free uuids ask for less of a row.
proof fn row_of_fewer(
    nodes: Seq<NodeRecord>,
    kids: Seq<NodeId>,
    row: Seq<PlannedView>,
    more: Set<u128>,
    free: Set<u128>,
)
    requires
        NodeRecord::named_row(nodes, kids, row, more),
        forall|u: u128| #[trigger]
            free.contains(u) && PlannedView::new_uuids(row).contains(u) ==> more.contains(u),
    ensures
        NodeRecord::named_row(nodes, kids, row, free),
{
    assert forall|j: int| 0 <= j < kids.len() && 0 <= j < row.len() implies (row[j] matches
        PlannedView::New(spec, _) ==> NodeRecord::named(
        nodes,
        (#[trigger] kids[j]).0 as int,
        spec,
        free,
    )) by {
        if let PlannedView::New(spec, marker) = row[j] {
            assert forall|u: u128| #[trigger] free.contains(u) && spec.uuids().contains(
                u,
            ) implies more.contains(u) by {
                uuid_of_entry(row, j, spec, marker, u);
            }
            crate::arena::state::named_of_fewer(nodes, kids[j].0 as int, spec, more, free);
        }
    }
}

/// The uuids of an entry are among those of its row.
proof fn uuid_of_entry(
    row: Seq<PlannedView>,
    j: int,
    spec: SpecTree,
    marker: Option<PositionMarker>,
    u: u128,
)
    requires
        0 <= j < row.len(),
        row[j] == PlannedView::New(spec, marker),
        spec.uuids().contains(u),
    ensures
        PlannedView::new_uuids(row).contains(u),
    decreases row.len(),
{
    if j < row.len() - 1 {
        uuid_of_entry(row.drop_last(), j, spec, marker, u);
    }
}

/// With another list installed, every uuid of the lists is known.
proof fn all_still_known(
    before: ArenaState,
    done: Map<u128, Seq<PlannedView>>,
    k: u128,
    row: Seq<PlannedView>,
    now: ArenaState,
)
    requires
        before.knows_all(done),
        before.nodes.len() <= now.nodes.len(),
        forall|i: int|
            0 <= i < before.nodes.len() ==> before.nodes[i].same_self(#[trigger] now.nodes[i]),
        forall|u: u128| #[trigger] PlannedView::new_uuids(row).contains(u) ==> now.known(u),
    ensures
        now.knows_all(done.insert(k, row)),
{
    let lists = done.insert(k, row);
    assert forall|m: u128, u: u128| #[trigger]
        lists.contains_key(m) && #[trigger] PlannedView::new_uuids(lists[m]).contains(
            u,
        ) implies now.known(u) by {
        if m != k {
            assert(done.contains_key(m) && PlannedView::new_uuids(done[m]).contains(u));
            let i = choose|i: int|
                0 <= i < before.nodes.len() && (#[trigger] before.nodes[i]).uuid == u;
            assert(before.nodes[i].same_self(now.nodes[i]));
        }
    }
}

/// Names stay when another list is installed.
proof fn names_kept(
    a: Seq<NodeRecord>,
    done: Map<u128, Seq<PlannedView>>,
    file: Option<Arc<TemplatedFile>>,
    mid: Seq<NodeRecord>,
    k: u128,
    row: Seq<PlannedView>,
    b: Seq<NodeRecord>,
    free: Set<u128>,
)
    requires
        NodeRecord::installed(a, done, file, mid),
        NodeRecord::kids_behind(mid),
        NodeRecord::named_lists(mid, done, free),
        forall|i: u128| #[trigger] done.contains_key(i) ==> i < a.len(),
        k < a.len(),
        !done.contains_key(k),
        list_installed(mid, k as int, row, file, b),
        NodeRecord::named_row(b, b[k as int].children, row, free),
    ensures
        NodeRecord::named_lists(b, done.insert(k, row), free),
{
    let lists = done.insert(k, row);
    assert forall|m: u128| #[trigger] lists.contains_key(m) implies NodeRecord::named_row(
        b,
        b[m as int].children,
        lists[m],
        free,
    ) by {
        if m != k {
            assert(done.contains_key(m));
            let kids = mid[m as int].children;
            assert(b[m as int].children == kids);
            assert(NodeRecord::named_row(mid, kids, done[m], free));
            assert(NodeRecord::row_stands(
                done[m as int as u128],
                a.len() as int,
                file,
                mid,
                mid[m as int].children,
            ));
            assert forall|j: int| 0 <= j < kids.len() && 0 <= j < lists[m].len() implies (
            lists[m][j] matches PlannedView::New(spec, _) ==> NodeRecord::named(
                b,
                (#[trigger] kids[j]).0 as int,
                spec,
                free,
            )) by {
                if let PlannedView::New(spec, _) = lists[m][j] {
                    let c = kids[j].0 as int;
                    assert(NodeRecord::stands_for(
                        done[m][j],
                        a.len() as int,
                        file,
                        mid,
                        kids[j],
                    ));
                    assert forall|p: int| c <= p < mid.len() implies (#[trigger] b[p]).uuid
                        == mid[p].uuid && b[p].children == mid[p].children by {
                        assert(mid[p].same_self(b[p]));
                    }
                    crate::arena::state::named_frame(mid, b, c, spec, free);
                }
            }
        }
    }
}

impl NodeRecord {
    /// The nodes that stand for the new entries of the lists are named after those.
    pub open spec fn named_lists(
        nodes: Seq<NodeRecord>,
        lists: Map<u128, Seq<PlannedView>>,
        free: Set<u128>,
    ) -> bool {
        forall|k: u128| #[trigger]
            lists.contains_key(k) ==> NodeRecord::named_row(
                nodes,
                nodes[k as int].children,
                lists[k],
                free,
            )
    }
}

impl Arena {
    /// Whether a list at one of the first places touches the node with key `k`.
    spec fn touches(
        nodes: Seq<NodeRecord>,
        lists: Table<Vec<PlannedChild>>,
        place: int,
        k: u128,
    ) -> bool {
        lists.key_at(place) is Some && (k == lists.key_at(place)->0 || NodeRecord::above(
            nodes,
            (lists.key_at(place)->0) as int,
        ).contains(k))
    }

    /// The containers with a new child list, and those above them.
    fn touched_containers(&self, lists: &Table<Vec<PlannedChild>>) -> (r: IdSet)
        requires
            self.wf(),
            lists.wf(),
            forall|k: u128| #[trigger] lists@.contains_key(k) ==> k < self@.nodes.len(),
        ensures
            r@ == ArenaState::touched(self@.nodes, crate::arena::state::plan_view(lists@)),
    {
        let ghost nodes = self@.nodes;
        let mut marked = IdSet::new();
        let n: usize = lists.slot_count();
        for i in 0..n
            invariant
                self.wf(),
                lists.wf(),
                nodes == self@.nodes,
                n == lists.slots(),
                forall|k: u128| #[trigger] lists@.contains_key(k) ==> k < self@.nodes.len(),
                forall|k: u128| #[trigger]
                    marked@.contains(k) <==> exists|j: int|
                        0 <= j < i && #[trigger] Arena::touches(nodes, *lists, j, k),
        {
            let ghost before = marked@;
            proof {
                assert forall|k: u128| #[trigger] before.contains(k) implies NodeRecord::above(
                    nodes,
                    k as int,
                ).subset_of(before) by {
                    let j = choose|j: int|
                        0 <= j < i && #[trigger] Arena::touches(nodes, *lists, j, k);
                    let c = lists.key_at(j)->0;
                    if k != c {
                        crate::arena::state::above_transitive(nodes, c as int, k);
                    }
                    assert forall|m: u128| NodeRecord::above(nodes, k as int).contains(
                        m,
                    ) implies before.contains(m) by {
                        assert(Arena::touches(nodes, *lists, j, m));
                    }
                }
            }
            if let Some((c, _)) = lists.at(i) {
                self.mark_chain(Some(NodeId(c as u32)), &mut marked);
                assert(lists.key_at(i as int) == Some(c));
            }
            assert forall|k: u128| #[trigger] marked@.contains(k) <==> exists|j: int|
                0 <= j < i + 1 && #[trigger] Arena::touches(nodes, *lists, j, k) by {
                if marked@.contains(k) && !before.contains(k) {
                    assert(Arena::touches(nodes, *lists, i as int, k));
                }
                if before.contains(k) {
                    let j = choose|j: int|
                        0 <= j < i && #[trigger] Arena::touches(nodes, *lists, j, k);
                    assert(0 <= j < i + 1 && Arena::touches(nodes, *lists, j, k));
                }
                if exists|j: int| 0 <= j < i + 1 && #[trigger] Arena::touches(nodes, *lists, j, k) {
                    let j = choose|j: int|
                        0 <= j < i + 1 && #[trigger] Arena::touches(nodes, *lists, j, k);
                    if j < i {
                        assert(before.contains(k));
                    }
                }
            }
        }
        proof {
            lists.places();
            let view = crate::arena::state::plan_view(lists@);
            let all = ArenaState::touched(nodes, view);
            assert forall|k: u128| marked@.contains(k) == all.contains(k) by {
                if marked@.contains(k) {
                    let j = choose|j: int|
                        0 <= j < n && #[trigger] Arena::touches(nodes, *lists, j, k);
                    assert(lists.key_at(j) is Some);
                    assert(view.contains_key(lists.key_at(j)->0));
                }
                if all.contains(k) {
                    let c = choose|c: u128| #[trigger]
                        view.contains_key(c) && (k == c || NodeRecord::above(
                            nodes,
                            c as int,
                        ).contains(k));
                    assert(lists@.contains_key(c));
                    let j = choose|j: int|
                        0 <= j < lists.slots() && #[trigger] lists.key_at(j) == Some(c);
                    assert(Arena::touches(nodes, *lists, j, k));
                }
            }
            assert(marked@ =~= all);
        }
        marked
    }

    /// Takes the staged batch out of the arena.
    fn take_staged(&mut self) -> (r: Option<StagedBatch>)
        requires
            old(self).wf(),
        ensures
            final(self).wf(),
            final(self)@ == (ArenaState { staged: None, ..old(self)@ }),
            match r {
                Some(s) => s.wf() && old(self)@.staged == Some(s@),
                None => old(self)@.staged is None,
            },
    {
        let mut taken: Option<StagedBatch> = None;
        std::mem::swap(&mut self.staged, &mut taken);
        assert(self@.nodes =~= old(self)@.nodes);
        taken
    }

    /// Installs the staged batch and gives the new epoch; without a staged batch
    /// nothing happens.
    ///
    /// Removed subtrees are cut off: their nodes still read, their uuids are
    /// retired. Kept nodes keep id, uuid and payload. A new segment keeps its uuid
    /// unless a node has or had it, or another new segment brings it too; then it
    /// may get a minted one. Every uuid that is brought is known afterwards, so of
    /// segments that bring the same new one, one keeps it: which of them is left
    /// open, as is the order in which new nodes of different containers are
    /// numbered.
    pub fn commit_staged(&mut self) -> (r: Option<u64>)
        requires
            old(self).wf(),
            old(self)@.epoch < u64::MAX,
            old(self)@.staged is Some ==> old(self)@.nodes.len() + PlannedView::all_new_nodes(
                (old(self)@.staged->0).children_of,
            ) <= u32::MAX,
        ensures
            final(self).wf(),
            match old(self)@.staged {
                None => r is None && final(self)@ == old(self)@,
                Some(batch) => {
                    &&& r == Some((old(self)@.epoch + 1) as u64)
                    &&& exists|spliced: Seq<NodeRecord>| #[trigger]
                        old(self)@.commits_via(batch, spliced, final(self)@)
                    &&& NodeRecord::named_lists(
                        final(self)@.nodes,
                        batch.children_of,
                        old(self)@.frees_lists(batch.children_of),
                    )
                    &&& final(self)@.knows_all(batch.children_of)
                },
            },
    {
        let ghost start = self@;
        match self.take_staged() {
            None => {
                assert(self@ == start);
                None
            },
            Some(batch) => {
                let ghost view = batch@;
                let ghost fresh = self@;
                self.bury(&batch.tombstones);
                proof {
                    assert(fresh.buried(view.tombstones).nodes =~= start.buried(
                        view.tombstones,
                    ).nodes);
                    assert(fresh.buried(view.tombstones).retired =~= start.buried(
                        view.tombstones,
                    ).retired);
                    buried_still_wf(fresh, view);
                }
                let ghost buried = self@;
                let lists = &batch.children_of;
                assert(crate::arena::plan::lists_behind(view.children_of, 0, buried.nodes)) by {
                    assert forall|k: u128| #[trigger] view.children_of.contains_key(k) implies 0
                        <= k < buried.nodes.len() && PlannedView::row_behind(
                        view.children_of[k],
                        k as int,
                        buried.nodes,
                    ) by {
                        assert(PlannedView::row_behind(
                            view.children_of[k],
                            k as int,
                            start.nodes,
                        ));
                    }
                }
                self.install_all(lists);
                let ghost spliced = self@.nodes;
                proof {
                    assert(buried.file() == start.file());
                    buried_keeps_free(start, buried, view.children_of);
                    let root = start.root.0 as int;
                    assert(buried.nodes[root].same_self(spliced[root]));
                    assert forall|k: u128| #[trigger] lists@.contains_key(k) implies k
                        < spliced.len() by {
                        assert(view.children_of.contains_key(k));
                    }
                }
                let dirty = self.touched_containers(lists);
                let root = self.root();
                if let Some(pos) = self.pos_marker(root) {
                    self.position_children(root, &pos, &dirty);
                }
                let ghost placed = self@;
                self.bump_epoch();
                proof {
                    assert(start.commits_via(view, spliced, self@));
                    names_survive_positions(
                        spliced,
                        self@.nodes,
                        view.children_of,
                        start.frees_lists(view.children_of),
                    );
                    assert(self@.knows_all(view.children_of)) by {
                        assert forall|k: u128, u: u128| #[trigger]
                            view.children_of.contains_key(k) && #[trigger] PlannedView::new_uuids(
                                view.children_of[k],
                            ).contains(u) implies self@.known(u) by {
                            let i = choose|i: int|
                                0 <= i < spliced.len() && (#[trigger] spliced[i]).uuid == u;
                            assert(self@.nodes[i].uuid == u);
                        }
                    }
                }
                Some(self.epoch)
            },
        }
    }
}

/// Burying keeps the state in order.
proof fn buried_still_wf(state: ArenaState, batch: StagedView)
    requires
        state.wf(),
        state.staged is None,
        state.buried(batch.tombstones).ids_ok(),
    ensures
        state.buried(batch.tombstones).wf(),
{
    let b = state.buried(batch.tombstones);
    assert forall|p: int, j: int|
        0 <= p < b.nodes.len() && 0 <= j < b.nodes[p].children.len() implies p < (
    #[trigger] b.nodes[p].children[j]).0 < b.nodes.len() by {
        let c = state.nodes[p].children[j];
    }
    assert forall|c: int| 0 <= c < b.nodes.len() && (#[trigger] b.nodes[c]).parent is Some implies (
    b.nodes[c].parent->0).0 < c by {
        let p = state.nodes[c].parent;
    }
}

/// Burying retires uuids and brings none.
proof fn buried_keeps_free(
    start: ArenaState,
    buried: ArenaState,
    lists: Map<u128, Seq<PlannedView>>,
)
    requires
        start.nodes.len() == buried.nodes.len(),
        forall|i: int|
            0 <= i < start.nodes.len() ==> (#[trigger] buried.nodes[i]).uuid == start.nodes[i].uuid,
    ensures
        buried.frees_lists(lists) == start.frees_lists(lists),
{
    assert forall|u: u128| buried.known(u) == start.known(u) by {
        if buried.known(u) {
            let j = choose|j: int|
                0 <= j < buried.nodes.len() && (#[trigger] buried.nodes[j]).uuid == u;
            assert(start.nodes[j].uuid == u);
        }
        if start.known(u) {
            let j = choose|j: int|
                0 <= j < start.nodes.len() && (#[trigger] start.nodes[j]).uuid == u;
            assert(buried.nodes[j].uuid == u);
        }
    }
    assert(buried.frees_lists(lists) =~= start.frees_lists(lists));
}

/// Names do not depend on positions.
proof fn names_survive_positions(
    a: Seq<NodeRecord>,
    b: Seq<NodeRecord>,
    lists: Map<u128, Seq<PlannedView>>,
    free: Set<u128>,
)
    requires
        NodeRecord::same_but_markers(a, b),
        NodeRecord::kids_behind(a),
        NodeRecord::named_lists(a, lists, free),
        forall|k: u128| #[trigger] lists.contains_key(k) ==> k < a.len(),
    ensures
        NodeRecord::named_lists(b, lists, free),
{
    assert forall|k: u128| #[trigger] lists.contains_key(k) implies NodeRecord::named_row(
        b,
        b[k as int].children,
        lists[k],
        free,
    ) by {
        let kids = a[k as int].children;
        assert(b[k as int].children == kids);
        assert(NodeRecord::named_row(a, kids, lists[k], free));
        assert forall|j: int| 0 <= j < kids.len() && 0 <= j < lists[k].len() implies (
        lists[k][j] matches PlannedView::New(spec, _) ==> NodeRecord::named(
            b,
            (#[trigger] kids[j]).0 as int,
            spec,
            free,
        )) by {
            if let PlannedView::New(spec, _) = lists[k][j] {
                let c = a[k as int].children[j];
                assert(k < c.0 < a.len());
                crate::arena::state::named_frame(a, b, kids[j].0 as int, spec, free);
            }
        }
    }
}

} // verus!
