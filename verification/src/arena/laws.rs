//! Laws of editing: what staging, committing and discarding keep and promise.

use std::sync::Arc;
use vstd::prelude::*;

use crate::marker::TemplatedFile;

#[allow(unused_imports)]
use crate::arena::overlay::Overlay;
#[allow(unused_imports)]
use crate::arena::plan::{
    Ops, RowPlanView, SpecPlan, SpecRowPlan, SpecSpliced, Spliced, SubPlanView,
};
#[allow(unused_imports)]
use crate::arena::state::{ArenaState, NodeId, NodeRecord, PlannedView, StagedView};
#[allow(unused_imports)]
use crate::edit::{EditKind, OpView, SpecTree};
#[allow(unused_imports)]
use crate::tree::{LeafView, Tree};

verus! {

impl ArenaState {
    /// Only segments and what did not parse have children.
    pub open spec fn proper(self) -> bool {
        forall|i: int|
            0 <= i < self.nodes.len() && (#[trigger] self.nodes[i]).children.len() > 0
                ==> self.nodes[i].kind is Segment || self.nodes[i].kind is Unparsable
    }

    /// The state with the edits staged, up to the order of the suspects.
    pub open spec fn stages(self, ops: Ops, fix_even_unparsable: bool, batch: StagedView) -> bool {
        &&& batch.children_of == self.plan_lists(ops, fix_even_unparsable)
        &&& batch.tombstones == self.plan(ops, fix_even_unparsable).tombstones
    }

    /// The tree as the staged edits will leave it.
    pub open spec fn overlay(self, ops: Ops, fix_even_unparsable: bool) -> Overlay {
        Overlay { nodes: self.nodes, lists: self.plan_lists(ops, fix_even_unparsable) }
    }
}

/// The trees that the entries of a row become.
spec fn overlay_row(
    o: Overlay,
    file: Option<Arc<TemplatedFile>>,
    lo: int,
    row: Seq<PlannedView>,
) -> Seq<Tree> {
    Seq::new(
        row.len(),
        |i: int|
            match row[i] {
                PlannedView::Existing(c) => if lo < c.0 < o.nodes.len() {
                    o.tree(file, c.0 as int)
                } else {
                    arbitrary()
                },
                PlannedView::New(spec, marker) => PlannedView::new_tree(spec, marker, file),
            },
    )
}

/// Once the lists are installed, the tree is the one that they were laid over.
proof fn installed_tree(
    a: Seq<NodeRecord>,
    lists: Map<u128, Seq<PlannedView>>,
    file: Option<Arc<TemplatedFile>>,
    b: Seq<NodeRecord>,
    id: int,
)
    requires
        NodeRecord::installed(a, lists, file, b),
        crate::arena::plan::lists_behind(lists, 0, a),
        NodeRecord::kids_behind(a),
        NodeRecord::kids_behind(b),
        a.len() <= u32::MAX,
        0 <= id < a.len(),
    ensures
        NodeRecord::tree_of(b, id) == (Overlay { nodes: a, lists }).tree(file, id),
    decreases a.len() - id,
{
    let o = Overlay { nodes: a, lists };
    let t = NodeRecord::tree_of(b, id);
    let u = o.tree(file, id);
    let row = o.row(id);
    assert(a[id].same_self(b[id]));
    let kids = b[id].children;
    assert(kids.len() == row.len());
    assert forall|i: int| 0 <= i < kids.len() implies t.children[i] == u.children[i] by {
        let c = kids[i].0 as int;
        assert(id < b[id].children[i].0 < b.len());
        if lists.contains_key(id as u128) {
            assert(NodeRecord::row_stands(
                lists[id as u128],
                a.len() as int,
                file,
                b,
                b[id].children,
            ));
            assert(NodeRecord::stands_for(row[i], a.len() as int, file, b, kids[i]));
            match row[i] {
                PlannedView::Existing(e) => {
                    assert(PlannedView::row_behind(lists[id as u128], id, a));
                    installed_tree(a, lists, file, b, c);
                },
                PlannedView::New(..) => {},
            }
        } else {
            assert(kids == a[id].children);
            assert(id < a[id].children[i].0 < a.len());
            assert(row[i] == PlannedView::Existing(kids[i]));
            installed_tree(a, lists, file, b, c);
        }
    }
    assert(t.children =~= u.children);
}

/// The overlay does not look at parents.
proof fn overlay_ignores_parents(
    a: Seq<NodeRecord>,
    b: Seq<NodeRecord>,
    lists: Map<u128, Seq<PlannedView>>,
    file: Option<Arc<TemplatedFile>>,
    id: int,
)
    requires
        a.len() == b.len(),
        forall|i: int| 0 <= i < a.len() ==> #[trigger] NodeRecord::same_payload(a[i], b[i]),
        0 <= id < a.len(),
    ensures
        (Overlay { nodes: a, lists }).tree(file, id) == (Overlay { nodes: b, lists }).tree(
            file,
            id,
        ),
    decreases a.len() - id,
{
    let oa = Overlay { nodes: a, lists };
    let ob = Overlay { nodes: b, lists };
    assert(NodeRecord::same_payload(a[id], b[id]));
    let ta = oa.tree(file, id);
    let tb = ob.tree(file, id);
    let row = oa.row(id);
    assert(row == ob.row(id));
    assert forall|i: int| 0 <= i < row.len() implies ta.children[i] == tb.children[i] by {
        if let PlannedView::Existing(c) = row[i] {
            if id < c.0 < a.len() {
                overlay_ignores_parents(a, b, lists, file, c.0 as int);
            }
        }
    }
    assert(ta.children =~= tb.children);
}

/// Whether new child lists lie over segments and what did not parse only.
pub open spec fn lists_over_containers(o: Overlay) -> bool {
    forall|k: u128| #[trigger]
        o.lists.contains_key(k) && k < o.nodes.len() ==> o.nodes[k as int].kind is Segment
            || o.nodes[k as int].kind is Unparsable
}

/// A node with a list hangs below a node with a list.
spec fn sparse(o: Overlay) -> bool {
    forall|k: u128| #[trigger]
        o.lists.contains_key(k) && k < o.nodes.len() && o.nodes[k as int].parent is Some
            ==> o.lists.contains_key((o.nodes[k as int].parent->0).key())
}

/// Children know their containers.
pub open spec fn kids_know(nodes: Seq<NodeRecord>) -> bool {
    forall|p: int, i: int|
        0 <= p < nodes.len() && 0 <= i < nodes[p].children.len() ==> {
            let c = (#[trigger] nodes[p].children[i]).0 as int;
            p < c < nodes.len() && nodes[c].parent == Some(NodeId(p as u32))
        }
}

/// Where no list lies over a node, none lies over what is below it.
proof fn untouched_tree(o: Overlay, file: Option<Arc<TemplatedFile>>, id: int)
    requires
        kids_know(o.nodes),
        o.nodes.len() <= u32::MAX,
        sparse(o),
        0 <= id < o.nodes.len(),
        !o.lists.contains_key(id as u128),
    ensures
        o.tree(file, id) == NodeRecord::tree_of(o.nodes, id),
    decreases o.nodes.len() - id,
{
    let t = o.tree(file, id);
    let u = NodeRecord::tree_of(o.nodes, id);
    let kids = o.nodes[id].children;
    assert forall|i: int| 0 <= i < kids.len() implies t.children[i] == u.children[i] by {
        let c = o.nodes[id].children[i];
        assert(o.nodes[c.0 as int].parent == Some(NodeId(id as u32)));
        assert(NodeId(id as u32).key() == id as u128);
        assert(!o.lists.contains_key(c.key()));
        untouched_tree(o, file, c.0 as int);
    }
    assert(t.children =~= u.children);
}

/// The overlay is sound: lists lie behind their containers, over segments and
/// what did not parse, and below lists.
spec fn sound(o: Overlay) -> bool {
    &&& kids_know(o.nodes)
    &&& o.nodes.len() <= u32::MAX
    &&& o.behind()
    &&& lists_over_containers(o)
    &&& sparse(o)
}

/// What the overlay tells of the text is the text of the tree that it lays out.
proof fn overlay_text(o: Overlay, file: Option<Arc<TemplatedFile>>, id: int)
    requires
        sound(o),
        0 <= id < o.nodes.len(),
    ensures
        o.tree(file, id).raw() == o.raw(id),
        o.tree(file, id).source_fixes() == o.fixes(id),
    decreases o.nodes.len() - id, 1int, 0nat,
{
    let t = o.tree(file, id);
    let row = o.row(id);
    assert(t.children =~= overlay_row(o, file, id, row));
    if o.lists.contains_key(id as u128) {
        assert(PlannedView::row_behind(row, id, o.nodes));
    } else {
        assert forall|i: int| 0 <= i < row.len() implies match #[trigger] row[i] {
            PlannedView::Existing(c) => id < c.0 < o.nodes.len(),
            PlannedView::New(..) => true,
        } by {
            let c = o.nodes[id].children[i];
        }
        untouched_tree(o, file, id);
    }
    overlay_row_text(o, file, id, row);
}

/// The same of a row.
proof fn overlay_row_text(
    o: Overlay,
    file: Option<Arc<TemplatedFile>>,
    lo: int,
    row: Seq<PlannedView>,
)
    requires
        sound(o),
        0 <= lo < o.nodes.len(),
        PlannedView::row_behind(row, lo, o.nodes),
    ensures
        Tree::raws(overlay_row(o, file, lo, row)) == o.row_raw(lo, row),
        Tree::fixes_of(overlay_row(o, file, lo, row)) == o.row_fixes(lo, row),
    decreases o.nodes.len() - lo, 0int, row.len(),
{
    if row.len() > 0 {
        let trees = overlay_row(o, file, lo, row);
        assert(trees.drop_last() =~= overlay_row(o, file, lo, row.drop_last()));
        assert(PlannedView::row_behind(row.drop_last(), lo, o.nodes)) by {
            assert forall|i: int| 0 <= i < row.len() - 1 implies match
            #[trigger] row.drop_last()[i] {
                PlannedView::Existing(c) => lo < c.0 < o.nodes.len(),
                PlannedView::New(..) => true,
            } by {
                let e = row[i];
            }
        }
        overlay_row_text(o, file, lo, row.drop_last());
        let last = row[row.len() - 1];
        match row.last() {
            PlannedView::Existing(c) => {
                overlay_text(o, file, c.0 as int);
            },
            PlannedView::New(spec, marker) => {
                crate::edit::spec_raw_is_tree_raw(spec, file);
                crate::edit::spec_fixes_are_tree_fixes(spec, file);
                let t = PlannedView::new_tree(spec, marker, file);
                assert(t.raw() == spec.tree(file).raw());
                assert(t.source_fixes() == spec.tree(file).source_fixes());
            },
        }
    }
}

/// Whether the row keeps the node with key `k`.
pub(crate) open(crate) spec fn row_keeps(row: Seq<PlannedView>, k: u128) -> bool {
    exists|j: int|
        0 <= j < row.len() && (#[trigger] row[j]) is Existing && (row[j]->Existing_0).key() == k
}

/// The rows of edits keep nothing but their anchor.
proof fn rows_keep(list: Seq<OpView>, anchor: NodeId, tree: Tree, n: nat, k: u128)
    ensures
        row_keeps(OpView::rows(list, anchor, tree, n), k) ==> k == anchor.key(),
    decreases list.len(),
{
    if list.len() > 0 {
        rows_keep(list.drop_last(), anchor, tree, n, k);
        let a = OpView::rows(list.drop_last(), anchor, tree, n);
        let b = list.last().row(anchor, tree, n);
        if row_keeps(a + b, k) {
            let j = choose|j: int|
                0 <= j < (a + b).len() && (#[trigger] (a + b)[j]) is Existing && ((a
                    + b)[j]->Existing_0).key() == k;
            if j < a.len() {
                assert(a[j] == (a + b)[j]);
                assert(row_keeps(a, k));
            } else {
                assert(b[j - a.len()] == (a + b)[j]);
            }
        }
    }
}

/// A spliced row keeps nothing but the children.
pub(crate) proof fn splice_keeps(nodes: Seq<NodeRecord>, kids: Seq<NodeId>, ops: Ops, k: u128)
    ensures
        row_keeps(Spliced::of(nodes, kids, ops).row, k) ==> exists|i: int|
            0 <= i < kids.len() && (#[trigger] kids[i]).key() == k,
        !Spliced::of(nodes, kids, ops).hit ==> Spliced::of(nodes, kids, ops).tombstones.len() == 0,
    decreases kids.len(),
{
    if kids.len() > 0 {
        splice_keeps(nodes, kids.drop_last(), ops, k);
        let s = Spliced::of(nodes, kids.drop_last(), ops);
        let t = Spliced::of(nodes, kids, ops);
        let c = kids.last();
        let u = nodes[c.0 as int].uuid;
        let more = if s.ops.contains_key(u) {
            let list = OpView::paired(s.ops[u]);
            rows_keep(list, c, NodeRecord::tree_of(nodes, c.0 as int), list.len(), k);
            OpView::rows(list, c, NodeRecord::tree_of(nodes, c.0 as int), list.len())
        } else {
            seq![PlannedView::Existing(c)]
        };
        assert(t.row =~= s.row + more);
        if row_keeps(t.row, k) {
            let j = choose|j: int|
                0 <= j < t.row.len() && (#[trigger] t.row[j]) is Existing && (
                t.row[j]->Existing_0).key() == k;
            if j < s.row.len() {
                assert(s.row[j] == t.row[j]);
                assert(row_keeps(s.row, k));
                let i = choose|i: int|
                    0 <= i < kids.drop_last().len() && (#[trigger] kids.drop_last()[i]).key() == k;
                assert(kids[i].key() == k);
            } else {
                assert(more[j - s.row.len()] == t.row[j]);
                assert(row_keeps(more, k));
                assert(kids[kids.len() - 1].key() == k);
            }
        }
    }
}

/// Plans are sparse: a node gets a list only where its container gets one, and
/// what does not change gets none.
pub(crate) proof fn plan_sparse(
    nodes: Seq<NodeRecord>,
    id: NodeId,
    ops: Ops,
    dirty: Set<u128>,
    feu: bool,
)
    requires
        kids_know(nodes),
        id.0 < nodes.len() <= u32::MAX,
    ensures
        ({
            let p = SubPlanView::of(nodes, id, ops, dirty, feu);
            &&& !p.changed ==> p.children_of == Map::<u128, Seq<PlannedView>>::empty()
                && p.tombstones.len() == 0 && p.pre.len() == 0 && p.post.len() == 0
            &&& p.changed ==> p.children_of.contains_key(id.key())
            &&& forall|k: u128| #[trigger]
                p.children_of.contains_key(k) ==> {
                    &&& k < nodes.len()
                    &&& nodes[k as int].children.len() > 0
                    &&& k == id.key() || (nodes[k as int].parent is Some
                        && p.children_of.contains_key((nodes[k as int].parent->0).key()))
                }
        }),
    decreases nodes.len() - id.0, 1int, 0nat,
{
    let kids = nodes[id.0 as int].children;
    if kids.len() > 0 && dirty.contains(id.key()) {
        let s = Spliced::of(nodes, kids, ops);
        splice_keeps(nodes, kids, ops, 0);
        assert forall|k: u128| row_keeps(s.row, k) implies exists|i: int|
            0 <= i < kids.len() && (#[trigger] kids[i]).key() == k by {
            splice_keeps(nodes, kids, ops, k);
        }
        row_plan_sparse(nodes, id, s.row, s.ops, dirty, feu);
        let r = RowPlanView::of(nodes, id, s.row, s.ops, dirty, feu);
        let p = SubPlanView::of(nodes, id, ops, dirty, feu);
        assert(p == SubPlanView::finish(nodes, id, s, r, feu));
        if !p.changed {
            assert(p.children_of =~= Map::<u128, Seq<PlannedView>>::empty());
        }
        assert forall|k: u128| #[trigger] p.children_of.contains_key(k) implies {
            &&& k < nodes.len()
            &&& nodes[k as int].children.len() > 0
            &&& k == id.key() || (nodes[k as int].parent is Some && p.children_of.contains_key(
                (nodes[k as int].parent->0).key(),
            ))
        } by {
            if k != id.key() {
                assert(r.children_of.contains_key(k));
                if row_keeps(s.row, k) {
                    let i = choose|i: int| 0 <= i < kids.len() && (#[trigger] kids[i]).key() == k;
                    let c = nodes[id.0 as int].children[i];
                    assert(nodes[c.0 as int].parent == Some(NodeId(id.0)));
                }
            }
        }
    }
}

/// The same of a row: a node gets a list only where its container gets one or
/// where the row keeps it.
proof fn row_plan_sparse(
    nodes: Seq<NodeRecord>,
    lo: NodeId,
    row: Seq<PlannedView>,
    ops: Ops,
    dirty: Set<u128>,
    feu: bool,
)
    requires
        kids_know(nodes),
        lo.0 < nodes.len() <= u32::MAX,
    ensures
        ({
            let r = RowPlanView::of(nodes, lo, row, ops, dirty, feu);
            &&& !r.changed ==> r.children_of == Map::<u128, Seq<PlannedView>>::empty()
                && r.tombstones.len() == 0
            &&& forall|k: u128| #[trigger]
                r.children_of.contains_key(k) ==> {
                    &&& k < nodes.len()
                    &&& nodes[k as int].children.len() > 0
                    &&& row_keeps(row, k) || (nodes[k as int].parent is Some
                        && r.children_of.contains_key((nodes[k as int].parent->0).key()))
                }
        }),
    decreases nodes.len() - lo.0, 0int, row.len(),
{
    if row.len() > 0 {
        row_plan_sparse(nodes, lo, row.drop_last(), ops, dirty, feu);
        let q = RowPlanView::of(nodes, lo, row.drop_last(), ops, dirty, feu);
        let r = RowPlanView::of(nodes, lo, row, ops, dirty, feu);
        assert forall|k: u128| row_keeps(row.drop_last(), k) implies row_keeps(row, k) by {
            let j = choose|j: int|
                0 <= j < row.drop_last().len() && (#[trigger] row.drop_last()[j]) is Existing && (
                row.drop_last()[j]->Existing_0).key() == k;
            assert(row[j] is Existing && (row[j]->Existing_0).key() == k);
        }
        match row.last() {
            PlannedView::Existing(c) => {
                if lo.0 < c.0 < nodes.len() {
                    plan_sparse(nodes, c, q.ops, dirty, feu);
                    let p = SubPlanView::of(nodes, c, q.ops, dirty, feu);
                    assert(r == q.with_kept(c, p));
                    assert(row[row.len() - 1] == PlannedView::Existing(c));
                    assert(row_keeps(row, c.key()));
                    if !r.changed {
                        assert(r.children_of =~= Map::<u128, Seq<PlannedView>>::empty());
                    }
                }
            },
            PlannedView::New(spec, marker) => {},
        }
    }
}

/// The overlay of staged edits is sound.
proof fn plan_sound(s: ArenaState, ops: Ops, feu: bool)
    requires
        s.wf(),
        kids_know(s.nodes),
        s.node(s.root).parent is None,
        lists_over_containers(s.overlay(ops, feu)),
    ensures
        sound(s.overlay(ops, feu)),
{
    let o = s.overlay(ops, feu);
    let p = s.plan(ops, feu);
    let root = s.root;
    plan_sparse(s.nodes, root, ops, s.dirty(ops), feu);
    crate::arena::plan::plan_behind(s.nodes, root, ops, s.dirty(ops), feu);
    assert forall|k: u128| #[trigger] o.lists.contains_key(k) implies p.children_of.contains_key(
        k,
    ) by {}
}

/// Committing brings about what staging predicted: the source text and the
/// source fixes of the whole tree. No edit may reach into a raw segment or a meta,
/// whose text is its own and not that of what hangs below it.
pub proof fn commit_brings_the_prediction(
    s: ArenaState,
    ops: Ops,
    fix_even_unparsable: bool,
    batch: StagedView,
    spliced: Seq<NodeRecord>,
    next: ArenaState,
)
    requires
        s.wf(),
        kids_know(s.nodes),
        s.node(s.root).parent is None,
        lists_over_containers(s.overlay(ops, fix_even_unparsable)),
        s.stages(ops, fix_even_unparsable, batch),
        s.commits_via(batch, spliced, next),
        next.wf(),
    ensures
        next.tree().raw() == s.overlay(ops, fix_even_unparsable).raw(s.root.0 as int),
        next.tree().source_fixes() == s.overlay(ops, fix_even_unparsable).fixes(s.root.0 as int),
{
    let o = s.overlay(ops, fix_even_unparsable);
    let root = s.root.0 as int;
    plan_sound(s, ops, fix_even_unparsable);
    let buried = s.buried(batch.tombstones);
    assert forall|k: u128| #[trigger] o.lists.contains_key(k) implies PlannedView::row_behind(
        o.lists[k],
        k as int,
        buried.nodes,
    ) by {
        assert(PlannedView::row_behind(o.lists[k], k as int, s.nodes));
    }
    assert(crate::arena::plan::lists_behind(o.lists, 0, buried.nodes));
    assert(NodeRecord::kids_behind(spliced)) by {
        assert forall|p: int, i: int|
            0 <= p < spliced.len() && 0 <= i < spliced[p].children.len() implies p < (
        #[trigger] spliced[p].children[i]).0 < spliced.len() by {
            assert(next.nodes[p].children == spliced[p].children);
            let c = next.nodes[p].children[i];
        }
    }
    assert(NodeRecord::kids_behind(buried.nodes)) by {
        assert forall|p: int, i: int|
            0 <= p < buried.nodes.len() && 0 <= i < buried.nodes[p].children.len() implies p < (
        #[trigger] buried.nodes[p].children[i]).0 < buried.nodes.len() by {
            let c = s.nodes[p].children[i];
        }
    }
    installed_tree(buried.nodes, o.lists, s.file(), spliced, root);
    assert forall|i: int| 0 <= i < s.nodes.len() implies #[trigger] NodeRecord::same_payload(
        s.nodes[i],
        buried.nodes[i],
    ) by {}
    overlay_ignores_parents(s.nodes, buried.nodes, o.lists, s.file(), root);
    overlay_text(o, s.file(), root);
    crate::arena::position::same_but_markers_tree(spliced, next.nodes, root);
}

/// Discarding undoes staging.
pub proof fn discard_undoes_stage(
    before: ArenaState,
    batch: Option<StagedView>,
    staged: ArenaState,
    after: ArenaState,
)
    requires
        before.staged is None,
        staged == (ArenaState { staged: batch, ..before }),
        after == (ArenaState { staged: None, ..staged }),
    ensures
        after == before,
{
}

/// An empty batch changes nothing: no edit applies, no container changes, and
/// the prediction is the tree as it is.
pub proof fn empty_batch_changes_nothing(s: ArenaState, fix_even_unparsable: bool)
    requires
        s.wf(),
    ensures
        ({
            let none = Map::<u128, Seq<OpView>>::empty();
            let p = s.plan(none, fix_even_unparsable);
            &&& p == SubPlanView::unchanged(none)
            &&& s.plan_lists(none, fix_even_unparsable) == Map::<u128, Seq<PlannedView>>::empty()
            &&& s.overlay(none, fix_even_unparsable).raw(s.root.0 as int) == s.tree().raw()
        }),
{
    let none = Map::<u128, Seq<OpView>>::empty();
    assert(!s.dirty(none).contains(s.root.key()));
}

/// Committing keeps every node: its id, uuid, payload and source fixes, and its
/// children unless the batch plans a new list for it.
pub proof fn commit_keeps_nodes(
    s: ArenaState,
    batch: StagedView,
    spliced: Seq<NodeRecord>,
    next: ArenaState,
    id: NodeId,
)
    requires
        s.wf(),
        s.commits_via(batch, spliced, next),
        s.has(id),
    ensures
        next.has(id),
        next.node(id).uuid == s.node(id).uuid,
        next.node(id).kind == s.node(id).kind,
        next.node(id).fixes == s.node(id).fixes,
        !batch.children_of.contains_key(id.key()) ==> next.node(id).children
            == s.node(id).children,
{
    let i = id.0 as int;
    let buried = s.buried(batch.tombstones);
    assert(buried.nodes[i].same_self(spliced[i]));
    assert(next.nodes[i] == (NodeRecord { marker: next.nodes[i].marker, ..spliced[i] }));
    assert(id.key() == i as u128);
    if !batch.children_of.contains_key(id.key()) {
        assert(spliced[i].children == buried.nodes[i].children);
    }
}

/// A retired uuid is never in use again: it stays retired, leads nowhere, and
/// no node that is added later gets it.
pub proof fn retired_stay_retired(
    s: ArenaState,
    batch: StagedView,
    spliced: Seq<NodeRecord>,
    next: ArenaState,
    u: u128,
)
    requires
        s.wf(),
        s.commits_via(batch, spliced, next),
        next.wf(),
        s.retired.contains(u),
    ensures
        next.retired.contains(u),
        !next.by_uuid.contains_key(u),
        forall|i: int|
            s.nodes.len() <= i < next.nodes.len() ==> (#[trigger] next.nodes[i]).uuid != u,
{
    let i = choose|i: int| 0 <= i < s.nodes.len() && (#[trigger] s.nodes[i]).uuid == u;
    commit_keeps_nodes(s, batch, spliced, next, NodeId(i as u32));
    assert(next.nodes[i].uuid == u);
}

/// The uuids of a removed subtree are retired by the commit.
pub proof fn removed_are_retired(
    s: ArenaState,
    batch: StagedView,
    spliced: Seq<NodeRecord>,
    next: ArenaState,
    id: NodeId,
)
    requires
        s.wf(),
        s.commits_via(batch, spliced, next),
        next.wf(),
        s.has(id),
        NodeRecord::row_below(s.nodes, -1, batch.tombstones).contains(id.0 as int),
    ensures
        next.retired.contains(s.node(id).uuid),
        !next.by_uuid.contains_key(s.node(id).uuid),
{
    let u = s.nodes[id.0 as int].uuid;
    assert(s.retired.contains(u) || (s.by_uuid.contains_key(u) && s.by_uuid[u] == id.0));
}

/// A new segment whose uuid can be kept is found under it after the commit.
pub proof fn new_segment_is_found(
    s: ArenaState,
    batch: StagedView,
    spliced: Seq<NodeRecord>,
    next: ArenaState,
    k: u128,
    j: int,
)
    requires
        s.wf(),
        crate::arena::plan::lists_behind(batch.children_of, 0, s.nodes),
        s.commits_via(batch, spliced, next),
        next.wf(),
        NodeRecord::named_lists(
            next.nodes,
            batch.children_of,
            s.frees_lists(batch.children_of),
        ),
        batch.children_of.contains_key(k),
        0 <= j < batch.children_of[k].len(),
        batch.children_of[k][j] is New,
        s.frees_lists(batch.children_of).contains(batch.children_of[k][j].brings()),
    ensures
        j < next.nodes[k as int].children.len(),
        ({
            let u = batch.children_of[k][j].brings();
            next.by_uuid.contains_key(u) && next.by_uuid[u] == next.nodes[k as int].children[j].0
        }),
{
    let u = batch.children_of[k][j].brings();
    let kids = spliced[k as int].children;
    let n = s.nodes.len() as int;
    assert(next.nodes[k as int].children == kids);
    assert(NodeRecord::row_stands(batch.children_of[k], n, s.file(), spliced, kids)) by {
        assert(0 <= k < s.nodes.len());
        assert(k as int as u128 == k);
    }
    assert(NodeRecord::stands_for(batch.children_of[k][j], n, s.file(), spliced, kids[j]));
    assert(NodeRecord::named_row(
        next.nodes,
        next.nodes[k as int].children,
        batch.children_of[k],
        s.frees_lists(batch.children_of),
    ));
    let c = next.nodes[k as int].children[j];
    assert(next.nodes[c.0 as int].uuid == u);
    if next.retired.contains(u) {
        if s.by_uuid.contains_key(u) {
            assert(s.nodes[s.by_uuid[u] as int].uuid == u);
        }
        assert(s.known(u));
    }
}

/// A parsed tree is proper.
pub(crate) proof fn parsed_is_proper(node: crate::node::Node)
    ensures
        node.tree().proper(),
    decreases node,
{
    match node {
        crate::node::Node::Segment { children, .. } => {
            assert forall|i: int| 0 <= i < children@.len() implies (
            #[trigger] node.tree().children[i]).proper() by {
                parsed_is_proper(children@[i]);
            }
        },
        crate::node::Node::Unparsable { children, .. } => {
            assert forall|i: int| 0 <= i < children@.len() implies (
            #[trigger] node.tree().children[i]).proper() by {
                parsed_is_proper(children@[i]);
            }
        },
        _ => {},
    }
}

/// The nodes of a proper tree are proper.
pub(crate) proof fn block_is_proper(nodes: Seq<NodeRecord>)
    requires
        0 < nodes.len() <= u32::MAX,
        NodeRecord::block_linked(nodes, 0),
        NodeRecord::tree_of(nodes, 0).proper(),
    ensures
        forall|i: int|
            0 <= i < nodes.len() && (#[trigger] nodes[i]).children.len() > 0 ==> nodes[i].kind
                is Segment || nodes[i].kind is Unparsable,
{
    assert forall|i: int| 0 <= i < nodes.len() implies #[trigger] NodeRecord::tree_of(
        nodes,
        i,
    ).proper() by {
        block_member_proper(nodes, i);
    }
    assert forall|i: int|
        0 <= i < nodes.len() && (#[trigger] nodes[i]).children.len() > 0 implies nodes[i].kind
        is Segment || nodes[i].kind is Unparsable by {
        assert(NodeRecord::tree_of(nodes, i).proper());
        assert(NodeRecord::tree_of(nodes, i).children.len() > 0);
    }
}

proof fn block_member_proper(nodes: Seq<NodeRecord>, i: int)
    requires
        0 <= i < nodes.len() <= u32::MAX,
        NodeRecord::block_linked(nodes, 0),
        NodeRecord::tree_of(nodes, 0).proper(),
    ensures
        NodeRecord::tree_of(nodes, i).proper(),
    decreases i,
{
    if i > 0 {
        let p = (nodes[i].parent->0).0 as int;
        assert(nodes[i].parent is Some);
        block_member_proper(nodes, p);
        let at = nodes[i].parent_idx as int;
        assert(nodes[p].children[at].0 == i);
        assert(NodeRecord::tree_of(nodes, p).children[at] == NodeRecord::tree_of(nodes, i));
    }
}

/// Committing proper segments keeps the tree proper.
pub proof fn commit_keeps_proper(
    s: ArenaState,
    batch: StagedView,
    spliced: Seq<NodeRecord>,
    next: ArenaState,
)
    requires
        s.wf(),
        s.proper(),
        s.commits_via(batch, spliced, next),
        next.wf(),
        crate::arena::plan::lists_behind(batch.children_of, 0, s.nodes),
        forall|k: u128, j: int|
            #[trigger] batch.children_of.contains_key(k) && 0 <= j < batch.children_of[k].len()
                ==> (#[trigger] batch.children_of[k][j] matches PlannedView::New(spec, _)
                ==> spec.proper()),
        forall|k: u128| #[trigger]
            batch.children_of.contains_key(k) ==> s.nodes[k as int].children.len() > 0,
    ensures
        next.proper(),
{
    let b = next.nodes;
    let n = s.nodes.len() as int;
    assert forall|i: int| 0 <= i < b.len() && (#[trigger] b[i]).children.len() > 0 implies b[i].kind
        is Segment || b[i].kind is Unparsable by {
        assert(b[i].children == spliced[i].children && b[i].kind == spliced[i].kind);
        if i < n {
            commit_keeps_nodes(s, batch, spliced, next, NodeId(i as u32));
            assert(NodeId(i as u32).key() == i as u128);
        } else {
            assert(NodeRecord::kids_behind(spliced)) by {
                assert forall|p: int, j: int|
                    0 <= p < spliced.len() && 0 <= j < spliced[p].children.len() implies p < (
                #[trigger] spliced[p].children[j]).0 < spliced.len() by {
                    assert(b[p].children == spliced[p].children);
                    let c = b[p].children[j];
                }
            }
            new_node_proper(s, batch, spliced, i);
            assert(NodeRecord::tree_of(spliced, i).children.len() > 0);
        }
    }
}

/// A new node has a proper tree.
proof fn new_node_proper(s: ArenaState, batch: StagedView, b: Seq<NodeRecord>, x: int)
    requires
        s.wf(),
        crate::arena::plan::lists_behind(batch.children_of, 0, s.nodes),
        NodeRecord::installed(
            s.buried(batch.tombstones).nodes,
            batch.children_of,
            s.file(),
            b,
        ),
        NodeRecord::kids_behind(b),
        b.len() <= u32::MAX,
        forall|k: u128, j: int|
            #[trigger] batch.children_of.contains_key(k) && 0 <= j < batch.children_of[k].len()
                ==> (#[trigger] batch.children_of[k][j] matches PlannedView::New(spec, _)
                ==> spec.proper()),
        s.nodes.len() <= x < b.len(),
    ensures
        NodeRecord::tree_of(b, x).proper(),
    decreases x,
{
    let n = s.nodes.len() as int;
    let p = (b[x].parent->0).0 as int;
    let at = b[x].parent_idx as int;
    assert(b[x].parent is Some);
    assert(b[p].children[at] == NodeId(x as u32));
    if p >= n {
        new_node_proper(s, batch, b, p);
        assert(NodeRecord::tree_of(b, p).children[at] == NodeRecord::tree_of(b, x));
    } else {
        let buried = s.buried(batch.tombstones).nodes;
        if batch.children_of.contains_key(p as u128) {
            let row = batch.children_of[p as u128];
            assert(NodeRecord::row_stands(row, n, s.file(), b, b[p].children));
            assert(NodeRecord::stands_for(row[at], n, s.file(), b, b[p].children[at]));
            assert(PlannedView::row_behind(row, p, s.nodes));
            match row[at] {
                PlannedView::Existing(e) => {},
                PlannedView::New(spec, marker) => {
                    assert(batch.children_of[p as u128][at] == row[at]);
                    assert(spec.proper());
                    crate::edit::proper_tree(spec, s.file());
                    let t = PlannedView::new_tree(spec, marker, s.file());
                    assert(t.children == spec.tree(s.file()).children);
                },
            }
        } else {
            assert(b[p].children == buried[p].children);
            assert(s.nodes[p].children[at].0 < n);
        }
    }
}

/// No segment of the edits has the uuid.
pub(crate) open(crate) spec fn unheard(ops: Ops, u: u128) -> bool {
    forall|v: u128, i: int, j: int|
        ops.contains_key(v) && 0 <= i < ops[v].len() && 0 <= j < ops[v][i].edits.len() ==> !(
        #[trigger] ops[v][i].edits[j]).uuids().contains(u)
}

/// No segment of the row has the uuid.
pub(crate) open(crate) spec fn row_unheard(row: Seq<SpecTree>, u: u128) -> bool {
    forall|i: int| 0 <= i < row.len() ==> !(#[trigger] row[i]).uuids().contains(u)
}

pub(crate) open(crate) spec fn planned_unheard(row: Seq<PlannedView>, u: u128) -> bool {
    forall|i: int|
        0 <= i < row.len() ==> (#[trigger] row[i] matches PlannedView::New(spec, _)
            ==> !spec.uuids().contains(u))
}

/// The edits at `u` are still there.
pub(crate) open(crate) spec fn waits(before: Ops, after: Ops, u: u128) -> bool {
    &&& before.contains_key(u) ==> after.contains_key(u) && after[u] == before[u]
    &&& unheard(after, u)
}

pub(crate) proof fn uuids_of_row(row: Seq<SpecTree>, u: u128)
    ensures
        SpecTree::uuids_of(row).contains(u) <==> exists|i: int|
            0 <= i < row.len() && (#[trigger] row[i]).uuids().contains(u),
    decreases row.len(),
{
    if row.len() > 0 {
        uuids_of_row(row.drop_last(), u);
        if SpecTree::uuids_of(row.drop_last()).contains(u) {
            let i = choose|i: int|
                0 <= i < row.drop_last().len() && (#[trigger] row.drop_last()[i]).uuids().contains(
                    u,
                );
            assert(row[i].uuids().contains(u));
        }
        if row.last().uuids().contains(u) {
            assert(row[row.len() - 1].uuids().contains(u));
        }
        if exists|i: int| 0 <= i < row.len() && (#[trigger] row[i]).uuids().contains(u) {
            let i = choose|i: int| 0 <= i < row.len() && (#[trigger] row[i]).uuids().contains(u);
            if i < row.len() - 1 {
                assert(row.drop_last()[i].uuids().contains(u));
            }
        }
    }
}

proof fn spec_rows_unheard(list: Seq<OpView>, anchor: SpecTree, n: nat, u: u128)
    requires
        !anchor.uuids().contains(u),
        forall|i: int, j: int|
            0 <= i < list.len() && 0 <= j < list[i].edits.len() ==> !(
            #[trigger] list[i].edits[j]).uuids().contains(u),
    ensures
        row_unheard(OpView::spec_rows(list, anchor, n), u),
    decreases list.len(),
{
    if list.len() > 0 {
        let rest = list.drop_last();
        assert forall|i: int, j: int|
            0 <= i < rest.len() && 0 <= j < rest[i].edits.len() implies !(
        #[trigger] rest[i].edits[j]).uuids().contains(u) by {
            assert(list[i].edits[j] == rest[i].edits[j]);
        }
        spec_rows_unheard(rest, anchor, n, u);
        let last = list[list.len() - 1];
        let row = last.spec_row(anchor, n);
        assert forall|i: int| 0 <= i < row.len() implies !(#[trigger] row[i]).uuids().contains(
            u,
        ) by {
            match last.kind {
                EditKind::Delete => {},
                EditKind::Replace => {
                    assert(row[i] == list[list.len() - 1].edits[i]);
                },
                EditKind::CreateBefore => {
                    if i < last.edits.len() {
                        assert(row[i] == list[list.len() - 1].edits[i]);
                    }
                },
                EditKind::CreateAfter => {
                    if n == 1 {
                        if i > 0 {
                            assert(row[i] == list[list.len() - 1].edits[i - 1]);
                        }
                    } else {
                        assert(row[i] == list[list.len() - 1].edits[i]);
                    }
                },
            }
        }
    }
}

proof fn paired_unheard(list: Seq<OpView>, u: u128)
    requires
        forall|i: int, j: int|
            0 <= i < list.len() && 0 <= j < list[i].edits.len() ==> !(
            #[trigger] list[i].edits[j]).uuids().contains(u),
    ensures
        forall|i: int, j: int|
            0 <= i < OpView::paired(list).len() && 0 <= j < OpView::paired(list)[i].edits.len()
                ==> !(#[trigger] OpView::paired(list)[i].edits[j]).uuids().contains(u),
{
    let l = OpView::paired(list);
    assert forall|i: int, j: int| 0 <= i < l.len() && 0 <= j < l[i].edits.len() implies !(
    #[trigger] l[i].edits[j]).uuids().contains(u) by {
        if list.len() == 2 && list[0].kind == EditKind::CreateAfter {
            assert(l[i].edits[j] == list[1 - i].edits[j]);
        } else {
            assert(l[i].edits[j] == list[i].edits[j]);
        }
    }
}

proof fn spec_splice_waits(kids: Seq<SpecTree>, ops: Ops, u: u128)
    requires
        unheard(ops, u),
        row_unheard(kids, u),
    ensures
        waits(ops, SpecSpliced::of(kids, ops).ops, u),
        row_unheard(SpecSpliced::of(kids, ops).row, u),
    decreases kids.len(),
{
    if kids.len() > 0 {
        let rest = kids.drop_last();
        assert forall|i: int| 0 <= i < rest.len() implies !(#[trigger] rest[i]).uuids().contains(
            u,
        ) by {
            assert(kids[i] == rest[i]);
        }
        spec_splice_waits(rest, ops, u);
        let s = SpecSpliced::of(rest, ops);
        let c = kids[kids.len() - 1];
        assert(!c.uuids().contains(u));
        assert(c.uuid != u);
        if s.ops.contains_key(c.uuid) {
            let list = s.ops[c.uuid];
            assert forall|i: int, j: int|
                0 <= i < list.len() && 0 <= j < list[i].edits.len() implies !(
            #[trigger] list[i].edits[j]).uuids().contains(u) by {
                assert(!s.ops[c.uuid][i].edits[j].uuids().contains(u));
            }
            paired_unheard(list, u);
            let l = OpView::paired(list);
            spec_rows_unheard(l, c, l.len(), u);
            let after = s.ops.remove(c.uuid);
            assert forall|v: u128, i: int, j: int|
                after.contains_key(v) && 0 <= i < after[v].len() && 0 <= j
                    < after[v][i].edits.len() implies !(
            #[trigger] after[v][i].edits[j]).uuids().contains(u) by {
                assert(!s.ops[v][i].edits[j].uuids().contains(u));
            }
        }
    }
}

pub(crate) proof fn spec_plan_waits(spec: SpecTree, ops: Ops, u: u128)
    requires
        unheard(ops, u),
        !spec.uuids().contains(u),
    ensures
        waits(ops, SpecPlan::of(spec, ops).ops, u),
        !SpecPlan::of(spec, ops).spec.uuids().contains(u),
        row_unheard(SpecPlan::of(spec, ops).pre, u),
        row_unheard(SpecPlan::of(spec, ops).post, u),
    decreases ops.dom().len(), spec, 1int,
{
    if !(spec.children.len() == 0 || ops.dom().len() == 0 || !ops.dom().finite()) {
        crate::arena::plan::spec_splice_uses_up(spec.children, ops);
        uuids_of_row(spec.children, u);
        assert(row_unheard(spec.children, u));
        spec_splice_waits(spec.children, ops, u);
        let s = SpecSpliced::of(spec.children, ops);
        spec_row_plan_waits(s.row, s.ops, u);
        let r = SpecRowPlan::of(s.row, s.ops);
        let flags = crate::arena::plan::spec_end_flags(r.row);
        crate::arena::plan::lead_in_range(flags);
        let start = crate::arena::plan::lead(flags) as int;
        crate::arena::plan::reach_in_range(flags.skip(start));
        let parts = crate::arena::plan::Parted::of(r.row, flags);
        let stop = parts.mid.len() as int;
        assert forall|i: int| 0 <= i < parts.pre.len() implies !(
        #[trigger] parts.pre[i]).uuids().contains(u) by {
            assert(parts.pre[i] == r.row[i]);
        }
        assert forall|i: int| 0 <= i < parts.mid.len() implies !(
        #[trigger] parts.mid[i]).uuids().contains(u) by {
            assert(parts.mid[i] == r.row[start + i]);
        }
        assert forall|i: int| 0 <= i < parts.post.len() implies !(
        #[trigger] parts.post[i]).uuids().contains(u) by {
            assert(parts.post[i] == r.row[start + stop + i]);
        }
        uuids_of_row(parts.mid, u);
    } else {
        assert(row_unheard(Seq::<SpecTree>::empty(), u));
    }
}

proof fn spec_row_plan_waits(row: Seq<SpecTree>, ops: Ops, u: u128)
    requires
        unheard(ops, u),
        row_unheard(row, u),
    ensures
        waits(ops, SpecRowPlan::of(row, ops).ops, u),
        row_unheard(SpecRowPlan::of(row, ops).row, u),
    decreases ops.dom().len(), row, 0int,
{
    if row.len() > 0 {
        let rest = row.drop_last();
        assert forall|i: int| 0 <= i < rest.len() implies !(#[trigger] rest[i]).uuids().contains(
            u,
        ) by {
            assert(row[i] == rest[i]);
        }
        spec_row_plan_waits(rest, ops, u);
        let r = SpecRowPlan::of(rest, ops);
        if r.ops.dom().finite() && r.ops.dom().len() <= ops.dom().len() {
            let last = row[row.len() - 1];
            assert(!last.uuids().contains(u));
            spec_plan_waits(row.last(), r.ops, u);
        }
    }
}

proof fn rows_unheard(list: Seq<OpView>, anchor: NodeId, tree: Tree, n: nat, u: u128)
    requires
        forall|i: int, j: int|
            0 <= i < list.len() && 0 <= j < list[i].edits.len() ==> !(
            #[trigger] list[i].edits[j]).uuids().contains(u),
    ensures
        planned_unheard(OpView::rows(list, anchor, tree, n), u),
    decreases list.len(),
{
    if list.len() > 0 {
        let rest = list.drop_last();
        assert forall|i: int, j: int|
            0 <= i < rest.len() && 0 <= j < rest[i].edits.len() implies !(
        #[trigger] rest[i].edits[j]).uuids().contains(u) by {
            assert(list[i].edits[j] == rest[i].edits[j]);
        }
        rows_unheard(rest, anchor, tree, n, u);
        let last = list[list.len() - 1];
        let row = last.row(anchor, tree, n);
        assert forall|i: int| 0 <= i < row.len() implies (#[trigger] row[i] matches
            PlannedView::New(spec, _) ==> !spec.uuids().contains(u)) by {
            if let PlannedView::New(spec, _) = row[i] {
                match last.kind {
                    EditKind::Delete => {},
                    EditKind::Replace => {
                        assert(spec == list[list.len() - 1].edits[i]);
                    },
                    EditKind::CreateBefore => {
                        assert(spec == list[list.len() - 1].edits[i]);
                    },
                    EditKind::CreateAfter => {
                        if n == 1 {
                            assert(spec == list[list.len() - 1].edits[i - 1]);
                        } else {
                            assert(spec == list[list.len() - 1].edits[i]);
                        }
                    },
                }
            }
        }
    }
}

pub(crate) proof fn splice_waits(nodes: Seq<NodeRecord>, kids: Seq<NodeId>, ops: Ops, u: u128)
    requires
        unheard(ops, u),
        forall|i: int| 0 <= i < kids.len() ==> nodes[(#[trigger] kids[i]).0 as int].uuid != u,
    ensures
        waits(ops, Spliced::of(nodes, kids, ops).ops, u),
        planned_unheard(Spliced::of(nodes, kids, ops).row, u),
    decreases kids.len(),
{
    if kids.len() > 0 {
        let rest = kids.drop_last();
        assert forall|i: int| 0 <= i < rest.len() implies nodes[(
        #[trigger] rest[i]).0 as int].uuid != u by {
            assert(kids[i] == rest[i]);
        }
        splice_waits(nodes, rest, ops, u);
        let s = Spliced::of(nodes, rest, ops);
        let c = kids[kids.len() - 1];
        let v = nodes[c.0 as int].uuid;
        if s.ops.contains_key(v) {
            let list = s.ops[v];
            assert forall|i: int, j: int|
                0 <= i < list.len() && 0 <= j < list[i].edits.len() implies !(
            #[trigger] list[i].edits[j]).uuids().contains(u) by {
                assert(!s.ops[v][i].edits[j].uuids().contains(u));
            }
            paired_unheard(list, u);
            let l = OpView::paired(list);
            rows_unheard(l, c, NodeRecord::tree_of(nodes, c.0 as int), l.len(), u);
            let after = s.ops.remove(v);
            assert forall|w: u128, i: int, j: int|
                after.contains_key(w) && 0 <= i < after[w].len() && 0 <= j
                    < after[w][i].edits.len() implies !(
            #[trigger] after[w][i].edits[j]).uuids().contains(u) by {
                assert(!s.ops[w][i].edits[j].uuids().contains(u));
            }
        }
    }
}

proof fn plan_waits(nodes: Seq<NodeRecord>, id: NodeId, ops: Ops, dirty: Set<u128>, feu: bool, u: u128)
    requires
        NodeRecord::kids_behind(nodes),
        unheard(ops, u),
        forall|i: int| id.0 < i < nodes.len() ==> (#[trigger] nodes[i]).uuid != u,
    ensures
        waits(ops, SubPlanView::of(nodes, id, ops, dirty, feu).ops, u),
    decreases nodes.len() - id.0, 1int, 0nat,
{
    if id.0 < nodes.len() && nodes[id.0 as int].children.len() > 0 && dirty.contains(id.key()) {
        let kids = nodes[id.0 as int].children;
        assert forall|i: int| 0 <= i < kids.len() implies nodes[(
        #[trigger] kids[i]).0 as int].uuid != u by {
            let c = nodes[id.0 as int].children[i];
            assert(nodes[c.0 as int].uuid != u);
        }
        splice_waits(nodes, kids, ops, u);
        let s = Spliced::of(nodes, kids, ops);
        row_plan_waits(nodes, id, s.row, s.ops, dirty, feu, u);
    }
}

proof fn row_plan_waits(
    nodes: Seq<NodeRecord>,
    lo: NodeId,
    row: Seq<PlannedView>,
    ops: Ops,
    dirty: Set<u128>,
    feu: bool,
    u: u128,
)
    requires
        NodeRecord::kids_behind(nodes),
        unheard(ops, u),
        planned_unheard(row, u),
        forall|i: int| lo.0 < i < nodes.len() ==> (#[trigger] nodes[i]).uuid != u,
    ensures
        waits(ops, RowPlanView::of(nodes, lo, row, ops, dirty, feu).ops, u),
    decreases nodes.len() - lo.0, 0int, row.len(),
{
    if row.len() > 0 {
        let rest = row.drop_last();
        assert forall|i: int| 0 <= i < rest.len() implies (#[trigger] rest[i] matches
            PlannedView::New(spec, _) ==> !spec.uuids().contains(u)) by {
            assert(row[i] == rest[i]);
        }
        row_plan_waits(nodes, lo, rest, ops, dirty, feu, u);
        let r = RowPlanView::of(nodes, lo, rest, ops, dirty, feu);
        let last = row[row.len() - 1];
        match row.last() {
            PlannedView::Existing(c) => {
                if lo.0 < c.0 < nodes.len() {
                    plan_waits(nodes, c, r.ops, dirty, feu, u);
                }
            },
            PlannedView::New(spec, marker) => {
                spec_plan_waits(spec, r.ops, u);
            },
        }
    }
}

/// Edits anchored at the root, or at nothing in the tree, never apply: they are
/// left over as they came, unless a segment that other edits bring has the
/// anchor's uuid.
pub proof fn unmatched_anchor_is_left(
    s: ArenaState,
    ops: Ops,
    fix_even_unparsable: bool,
    u: u128,
)
    requires
        s.wf(),
        ops.contains_key(u),
        forall|id: NodeId| s.has(id) && id != s.root ==> (#[trigger] s.node(id)).uuid != u,
        forall|v: u128, i: int, j: int|
            ops.contains_key(v) && 0 <= i < ops[v].len() && 0 <= j < ops[v][i].edits.len() ==> !(
            #[trigger] ops[v][i].edits[j]).uuids().contains(u),
    ensures
        s.plan(ops, fix_even_unparsable).ops.contains_key(u),
        s.plan(ops, fix_even_unparsable).ops[u] == ops[u],
{
    assert forall|i: int| s.root.0 < i < s.nodes.len() implies (#[trigger] s.nodes[i]).uuid
        != u by {
        assert(s.has(NodeId(i as u32)));
        assert(s.node(NodeId(i as u32)) == s.nodes[i]);
    }
    plan_waits(s.nodes, s.root, ops, s.dirty(ops), fix_even_unparsable, u);
}

/// Whether a container's planned list starts and ends as it may.
spec fn ends_ok(nodes: Seq<NodeRecord>, k: u128, row: Seq<PlannedView>) -> bool {
    nodes[k as int].kind.allows_non_code_ends() || row.len() == 0 || (row[0].anchors_end(nodes)
        && row.last().anchors_end(nodes))
}

proof fn lead_flag(flags: Seq<bool>)
    ensures
        crate::arena::plan::lead(flags) < flags.len() ==> flags[crate::arena::plan::lead(
            flags,
        ) as int],
    decreases flags.len(),
{
    if flags.len() > 0 && !flags[0] {
        lead_flag(flags.drop_first());
    }
}

proof fn reach_flag(flags: Seq<bool>)
    ensures
        crate::arena::plan::reach(flags) > 0 ==> flags[crate::arena::plan::reach(flags) - 1],
        (exists|i: int| 0 <= i < flags.len() && #[trigger] flags[i]) ==> crate::arena::plan::reach(
            flags,
        ) > 0,
    decreases flags.len(),
{
    if flags.len() > 0 && !flags.last() {
        let rest = flags.drop_last();
        reach_flag(rest);
        crate::arena::plan::reach_in_range(rest);
        if exists|i: int| 0 <= i < flags.len() && #[trigger] flags[i] {
            let i = choose|i: int| 0 <= i < flags.len() && #[trigger] flags[i];
            assert(rest[i]);
        }
    }
}

/// The middle of a parted row starts and ends with flagged entries.
proof fn parted_ends(row: Seq<PlannedView>, nodes: Seq<NodeRecord>)
    ensures
        ({
            let mid = crate::arena::plan::Parted::of(
                row,
                PlannedView::end_flags(row, nodes),
            ).mid;
            mid.len() == 0 || (mid[0].anchors_end(nodes) && mid.last().anchors_end(nodes))
        }),
{
    let flags = PlannedView::end_flags(row, nodes);
    crate::arena::plan::lead_in_range(flags);
    lead_flag(flags);
    let start = crate::arena::plan::lead(flags) as int;
    let rest = flags.skip(start);
    crate::arena::plan::reach_in_range(rest);
    reach_flag(rest);
    let stop = crate::arena::plan::reach(rest) as int;
    let mid = crate::arena::plan::Parted::of(row, flags).mid;
    assert(mid.len() == stop);
    if stop > 0 {
        assert(mid[0] == row[start]);
        assert(flags[start]);
        assert(mid.last() == row[start + stop - 1]);
        assert(rest[stop - 1] == flags[start + stop - 1]);
    }
}

proof fn plan_ends(nodes: Seq<NodeRecord>, id: NodeId, ops: Ops, dirty: Set<u128>, feu: bool)
    ensures
        forall|k: u128| #[trigger]
            SubPlanView::of(nodes, id, ops, dirty, feu).children_of.contains_key(k) ==> ends_ok(
                nodes,
                k,
                SubPlanView::of(nodes, id, ops, dirty, feu).children_of[k],
            ),
    decreases nodes.len() - id.0, 1int, 0nat,
{
    if id.0 < nodes.len() && nodes[id.0 as int].children.len() > 0 && dirty.contains(id.key()) {
        let kids = nodes[id.0 as int].children;
        let s = Spliced::of(nodes, kids, ops);
        row_plan_ends(nodes, id, s.row, s.ops, dirty, feu);
        let r = RowPlanView::of(nodes, id, s.row, s.ops, dirty, feu);
        parted_ends(r.row, nodes);
    }
}

proof fn row_plan_ends(
    nodes: Seq<NodeRecord>,
    lo: NodeId,
    row: Seq<PlannedView>,
    ops: Ops,
    dirty: Set<u128>,
    feu: bool,
)
    ensures
        forall|k: u128| #[trigger]
            RowPlanView::of(nodes, lo, row, ops, dirty, feu).children_of.contains_key(k) ==> ends_ok(
                nodes,
                k,
                RowPlanView::of(nodes, lo, row, ops, dirty, feu).children_of[k],
            ),
    decreases nodes.len() - lo.0, 0int, row.len(),
{
    if row.len() > 0 {
        row_plan_ends(nodes, lo, row.drop_last(), ops, dirty, feu);
        let r = RowPlanView::of(nodes, lo, row.drop_last(), ops, dirty, feu);
        if let PlannedView::Existing(c) = row.last() {
            if lo.0 < c.0 < nodes.len() {
                plan_ends(nodes, c, r.ops, dirty, feu);
                let p = SubPlanView::of(nodes, c, r.ops, dirty, feu);
                let all = RowPlanView::of(nodes, lo, row, ops, dirty, feu);
                assert(all == r.with_kept(c, p));
                assert forall|k: u128| #[trigger] all.children_of.contains_key(k) implies ends_ok(
                    nodes,
                    k,
                    all.children_of[k],
                ) by {
                    if p.children_of.contains_key(k) {
                        assert(ends_ok(nodes, k, p.children_of[k]));
                    } else {
                        assert(r.children_of.contains_key(k));
                    }
                }
            }
        }
    }
}

/// Whether a planned entry is code or a meta.
pub open spec fn code_or_meta(s: ArenaState, e: PlannedView) -> bool {
    match e {
        PlannedView::Existing(c) => s.at(c).is_code() || s.at(c).kind is Meta,
        PlannedView::New(spec, _) => spec.is_code() || spec.kind is Meta,
    }
}

/// Non-code moves up: in the planned list of every container but the root that
/// is neither a file nor unparsable, the first and the last entry are code or
/// metas.
pub proof fn planned_lists_end_with_code(
    s: ArenaState,
    ops: Ops,
    fix_even_unparsable: bool,
    k: u128,
)
    requires
        s.wf(),
        k != s.root.key(),
        s.plan_lists(ops, fix_even_unparsable).contains_key(k),
        !s.nodes[k as int].kind.is_type("file"@),
        !s.nodes[k as int].kind.is_type("unparsable"@),
    ensures
        ({
            let row = s.plan_lists(ops, fix_even_unparsable)[k];
            row.len() == 0 || (code_or_meta(s, row[0]) && code_or_meta(s, row.last()))
        }),
{
    plan_ends(s.nodes, s.root, ops, s.dirty(ops), fix_even_unparsable);
    assert(s.plan(ops, fix_even_unparsable).children_of.contains_key(k));
}

/// The text of leaves, one behind the other.
pub open spec fn leaf_text(list: Seq<LeafView>) -> Seq<char>
    decreases list.len(),
{
    if list.len() == 0 {
        Seq::empty()
    } else {
        leaf_text(list.drop_last()) + list.last().raw
    }
}

proof fn leaf_text_sum(a: Seq<LeafView>, b: Seq<LeafView>)
    ensures
        leaf_text(a + b) == leaf_text(a) + leaf_text(b),
    decreases b.len(),
{
    if b.len() == 0 {
        assert(a + b =~= a);
        assert(leaf_text(a) + leaf_text(b) =~= leaf_text(a));
    } else {
        assert((a + b).drop_last() =~= a + b.drop_last());
        leaf_text_sum(a, b.drop_last());
        assert(leaf_text(a + b) =~= leaf_text(a) + leaf_text(b));
    }
}

proof fn leaf_text_one(l: LeafView)
    ensures
        leaf_text(seq![l]) == l.raw,
{
    assert(seq![l].drop_last() =~= Seq::empty());
    assert(leaf_text(seq![l].drop_last()) =~= Seq::empty());
    assert(leaf_text(seq![l]) =~= l.raw);
}

proof fn spec_leaf_text(t: SpecTree)
    requires
        t.proper(),
    ensures
        leaf_text(t.leaves()) == t.raw(),
    decreases t, 1int,
{
    match t.kind {
        crate::kind::Kind::Raw { raw, segment_type, instance_types, class_types, .. } => {
            leaf_text_one(crate::edit::raw_leaf(raw, segment_type, instance_types, class_types));
        },
        crate::kind::Kind::Meta { .. } => {
            leaf_text_one(crate::edit::meta_leaf());
        },
        crate::kind::Kind::Empty => {
            assert(t.children.len() == 0);
            assert(SpecTree::leaves_of(t.children) =~= Seq::empty());
        },
        _ => {
            spec_leaves_text(t.children);
        },
    }
}

proof fn spec_leaves_text(row: Seq<SpecTree>)
    requires
        forall|i: int| 0 <= i < row.len() ==> (#[trigger] row[i]).proper(),
    ensures
        leaf_text(SpecTree::leaves_of(row)) == SpecTree::raws(row),
    decreases row, 0int,
{
    if row.len() > 0 {
        let rest = row.drop_last();
        assert forall|i: int| 0 <= i < rest.len() implies (#[trigger] rest[i]).proper() by {
            assert(rest[i] == row[i]);
        }
        spec_leaves_text(rest);
        assert(row[row.len() - 1].proper());
        spec_leaf_text(row.last());
        leaf_text_sum(SpecTree::leaves_of(row.drop_last()), row.last().leaves());
    }
}

/// Whether the segments that planned lists bring are proper.
spec fn lists_proper(lists: Map<u128, Seq<PlannedView>>) -> bool {
    forall|k: u128| #[trigger] lists.contains_key(k) ==> row_proper(lists[k])
}

spec fn row_proper(row: Seq<PlannedView>) -> bool {
    forall|j: int|
        0 <= j < row.len() && (#[trigger] row[j]) is New ==> (row[j]->New_0).proper()
}

/// The leaves that re-validation reads below a node spell the predicted text.
proof fn overlay_leaf_text(o: Overlay, s: ArenaState, id: int)
    requires
        o.nodes == s.nodes,
        s.proper(),
        sound(o),
        lists_proper(o.lists),
        0 <= id < o.nodes.len(),
    ensures
        leaf_text(o.leaves(id)) == o.raw(id),
    decreases o.nodes.len() - id, 1int, 0nat,
{
    let kids = o.nodes[id].children;
    if o.lists.contains_key(id as u128) {
        assert(PlannedView::row_behind(o.lists[id as u128], id, o.nodes));
        overlay_row_leaf_text(o, s, id, o.lists[id as u128]);
    } else if kids.len() == 0 {
        leaf_text_one(NodeRecord::tree_of(o.nodes, id).leaf_view());
    } else {
        let row = PlannedView::kept_row(kids);
        assert forall|i: int| 0 <= i < row.len() implies match #[trigger] row[i] {
            PlannedView::Existing(c) => id < c.0 < o.nodes.len(),
            PlannedView::New(..) => true,
        } by {
            let c = o.nodes[id].children[i];
        }
        overlay_row_leaf_text(o, s, id, row);
        let file: Option<Arc<TemplatedFile>> = None;
        untouched_tree(o, file, id);
        overlay_row_text(o, file, id, row);
        assert(o.tree(file, id).children =~= overlay_row(o, file, id, row));
        assert(s.nodes[id].kind is Segment || s.nodes[id].kind is Unparsable);
    }
}

proof fn overlay_row_leaf_text(o: Overlay, s: ArenaState, lo: int, row: Seq<PlannedView>)
    requires
        o.nodes == s.nodes,
        s.proper(),
        sound(o),
        lists_proper(o.lists),
        0 <= lo < o.nodes.len(),
        PlannedView::row_behind(row, lo, o.nodes),
        row_proper(row),
    ensures
        leaf_text(o.row_leaves(lo, row)) == o.row_raw(lo, row),
    decreases o.nodes.len() - lo, 0int, row.len(),
{
    if row.len() > 0 {
        let rest = row.drop_last();
        assert(PlannedView::row_behind(rest, lo, o.nodes)) by {
            assert forall|i: int| 0 <= i < rest.len() implies match #[trigger] rest[i] {
                PlannedView::Existing(c) => lo < c.0 < o.nodes.len(),
                PlannedView::New(..) => true,
            } by {
                let e = row[i];
            }
        }
        assert(row_proper(rest)) by {
            assert forall|j: int| 0 <= j < rest.len() && (#[trigger] rest[j]) is New implies (
            rest[j]->New_0).proper() by {
                assert(rest[j] == row[j]);
            }
        }
        overlay_row_leaf_text(o, s, lo, rest);
        let last = row[row.len() - 1];
        assert(row.last() == last);
        match last {
            PlannedView::Existing(c) => {
                overlay_leaf_text(o, s, c.0 as int);
                leaf_text_sum(o.row_leaves(lo, rest), o.leaves(c.0 as int));
            },
            PlannedView::New(spec, _) => {
                assert((row[row.len() - 1]->New_0).proper());
                spec_leaf_text(spec);
                leaf_text_sum(o.row_leaves(lo, rest), spec.leaves());
            },
        }
    }
}

/// What re-validation reads is what is predicted: the leaves below a container, as a
/// staged batch will leave them, spell the text that is predicted for it.
pub proof fn validated_leaves_spell_the_text(
    s: ArenaState,
    ops: Ops,
    fix_even_unparsable: bool,
    id: NodeId,
)
    requires
        s.wf(),
        s.coherent(),
        s.proper(),
        s.has(id),
        forall|k: u128, j: int|
            #[trigger] s.plan_lists(ops, fix_even_unparsable).contains_key(k) && 0 <= j
                < s.plan_lists(ops, fix_even_unparsable)[k].len() ==> (
            #[trigger] s.plan_lists(ops, fix_even_unparsable)[k][j] matches PlannedView::New(
                spec,
                _,
            ) ==> spec.proper()),
    ensures
        leaf_text(s.overlay(ops, fix_even_unparsable).leaves(id.0 as int)) == s.overlay(
            ops,
            fix_even_unparsable,
        ).raw(id.0 as int),
{
    let o = s.overlay(ops, fix_even_unparsable);
    let lists = s.plan_lists(ops, fix_even_unparsable);
    assert(kids_know(s.nodes)) by {
        assert forall|p: int, i: int| 0 <= p < s.nodes.len() && 0 <= i < s.nodes[p].children.len()
            implies {
            let c = (#[trigger] s.nodes[p].children[i]).0 as int;
            p < c < s.nodes.len() && s.nodes[c].parent == Some(NodeId(p as u32))
        } by {}
    }
    plan_sparse(s.nodes, s.root, ops, s.dirty(ops), fix_even_unparsable);
    assert(lists_over_containers(o)) by {
        let p = s.plan(ops, fix_even_unparsable);
        assert forall|k: u128| #[trigger]
            o.lists.contains_key(k) && k < o.nodes.len() implies o.nodes[k as int].kind is Segment
            || o.nodes[k as int].kind is Unparsable by {
            assert(p.children_of.contains_key(k));
            assert(s.nodes[k as int].children.len() > 0);
        }
    }
    plan_sound(s, ops, fix_even_unparsable);
    assert forall|k: u128| #[trigger] lists.contains_key(k) implies row_proper(lists[k]) by {
        assert forall|j: int| 0 <= j < lists[k].len() && (#[trigger] lists[k][j]) is New implies (
        lists[k][j]->New_0).proper() by {
            assert(s.plan_lists(ops, fix_even_unparsable)[k][j] == lists[k][j]);
        }
    }
    overlay_leaf_text(o, s, id.0 as int);
}

} // verus!
