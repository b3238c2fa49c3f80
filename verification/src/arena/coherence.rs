//! Edits keep the tree coherent: every node but the root hangs in exactly one
//! place, and knows that place.
//!
//! The proof counts places. The child lists of a subtree, with what moves out
//! of it and what is removed from it, hold the same nodes as often as the child
//! lists did before: each node once.

use vstd::prelude::*;
use vstd::multiset::Multiset;

use crate::arena::state::NodeId;

#[allow(unused_imports)]
use crate::arena::overlay::Overlay;
#[allow(unused_imports)]
use crate::arena::plan::{
    Ops, Parted, RowPlanView, SpecPlan, SpecRowPlan, SpecSpliced, Spliced, SubPlanView,
};
#[allow(unused_imports)]
use crate::arena::state::{ArenaState, NodeRecord, PlannedView, StagedView};
#[allow(unused_imports)]
use crate::edit::{EditKind, OpView, SpecTree};
#[allow(unused_imports)]
use crate::tree::Tree;

verus! {

impl OpView {
    /// Whether the edits of one anchor go together: one edit, or one that
    /// creates before and one that creates after.
    pub open spec fn go_together(list: Seq<OpView>) -> bool {
        ||| list.len() == 1
        ||| list.len() == 2 && list[0].kind == EditKind::CreateBefore && list[1].kind
            == EditKind::CreateAfter
        ||| list.len() == 2 && list[0].kind == EditKind::CreateAfter && list[1].kind
            == EditKind::CreateBefore
    }

    /// Whether the edits of every anchor go together.
    pub open spec fn all_go_together(ops: Ops) -> bool {
        forall|u: u128| #[trigger] ops.contains_key(u) ==> OpView::go_together(ops[u])
    }
}

/// The edits of `a` are among those of `b`.
pub(crate) open(crate) spec fn sub_ops(a: Ops, b: Ops) -> bool {
    forall|u: u128| #[trigger] a.contains_key(u) ==> b.contains_key(u) && a[u] == b[u]
}

proof fn spec_splice_sub(kids: Seq<SpecTree>, ops: Ops)
    ensures
        sub_ops(SpecSpliced::of(kids, ops).ops, ops),
    decreases kids.len(),
{
    if kids.len() > 0 {
        spec_splice_sub(kids.drop_last(), ops);
    }
}

proof fn spec_plan_sub(spec: SpecTree, ops: Ops)
    ensures
        sub_ops(SpecPlan::of(spec, ops).ops, ops),
    decreases ops.dom().len(), spec, 1int,
{
    if !(spec.children.len() == 0 || ops.dom().len() == 0 || !ops.dom().finite()) {
        crate::arena::plan::spec_splice_uses_up(spec.children, ops);
        let s = SpecSpliced::of(spec.children, ops);
        spec_splice_sub(spec.children, ops);
        spec_row_plan_sub(s.row, s.ops);
    }
}

proof fn spec_row_plan_sub(row: Seq<SpecTree>, ops: Ops)
    ensures
        sub_ops(SpecRowPlan::of(row, ops).ops, ops),
    decreases ops.dom().len(), row, 0int,
{
    if row.len() > 0 {
        spec_row_plan_sub(row.drop_last(), ops);
        let r = SpecRowPlan::of(row.drop_last(), ops);
        if r.ops.dom().finite() && r.ops.dom().len() <= ops.dom().len() {
            spec_plan_sub(row.last(), r.ops);
        }
    }
}

pub(crate) proof fn splice_sub(nodes: Seq<NodeRecord>, kids: Seq<NodeId>, ops: Ops)
    ensures
        sub_ops(Spliced::of(nodes, kids, ops).ops, ops),
    decreases kids.len(),
{
    if kids.len() > 0 {
        splice_sub(nodes, kids.drop_last(), ops);
    }
}

pub(crate) proof fn plan_sub(nodes: Seq<NodeRecord>, id: NodeId, ops: Ops, dirty: Set<u128>, feu: bool)
    ensures
        sub_ops(SubPlanView::of(nodes, id, ops, dirty, feu).ops, ops),
    decreases nodes.len() - id.0, 1int, 0nat,
{
    if id.0 < nodes.len() && nodes[id.0 as int].children.len() > 0 && dirty.contains(id.key()) {
        let kids = nodes[id.0 as int].children;
        splice_sub(nodes, kids, ops);
        let s = Spliced::of(nodes, kids, ops);
        row_plan_sub(nodes, id, s.row, s.ops, dirty, feu);
    }
}

pub(crate) proof fn row_plan_sub(
    nodes: Seq<NodeRecord>,
    lo: NodeId,
    row: Seq<PlannedView>,
    ops: Ops,
    dirty: Set<u128>,
    feu: bool,
)
    ensures
        sub_ops(RowPlanView::of(nodes, lo, row, ops, dirty, feu).ops, ops),
    decreases nodes.len() - lo.0, 0int, row.len(),
{
    if row.len() > 0 {
        row_plan_sub(nodes, lo, row.drop_last(), ops, dirty, feu);
        let r = RowPlanView::of(nodes, lo, row.drop_last(), ops, dirty, feu);
        match row.last() {
            PlannedView::Existing(c) => {
                if lo.0 < c.0 < nodes.len() {
                    plan_sub(nodes, c, r.ops, dirty, feu);
                }
            },
            PlannedView::New(spec, marker) => {
                spec_plan_sub(spec, r.ops);
            },
        }
    }
}

/// The nodes that a row keeps, in order.
pub(crate) open(crate) spec fn kept(row: Seq<PlannedView>) -> Seq<NodeId>
    decreases row.len(),
{
    if row.len() == 0 {
        Seq::empty()
    } else {
        let before = kept(row.drop_last());
        match row.last() {
            PlannedView::Existing(c) => before.push(c),
            PlannedView::New(..) => before,
        }
    }
}

pub(crate) proof fn kept_concat(a: Seq<PlannedView>, b: Seq<PlannedView>)
    ensures
        kept(a + b) == kept(a) + kept(b),
    decreases b.len(),
{
    if b.len() == 0 {
        assert(a + b =~= a);
        assert(kept(a) + kept(b) =~= kept(a));
    } else {
        assert((a + b).drop_last() =~= a + b.drop_last());
        assert((a + b).last() == b.last());
        kept_concat(a, b.drop_last());
        assert(kept(a + b) =~= kept(a) + kept(b));
    }
}

proof fn kept_fresh(row: Seq<SpecTree>)
    ensures
        kept(PlannedView::fresh_row(row)) == Seq::<NodeId>::empty(),
    decreases row.len(),
{
    if row.len() > 0 {
        assert(PlannedView::fresh_row(row).drop_last() =~= PlannedView::fresh_row(
            row.drop_last(),
        ));
        kept_fresh(row.drop_last());
    }
}

proof fn kept_none(row: Seq<PlannedView>)
    requires
        forall|i: int| 0 <= i < row.len() ==> (#[trigger] row[i]) is New,
    ensures
        kept(row) == Seq::<NodeId>::empty(),
    decreases row.len(),
{
    if row.len() > 0 {
        assert(row[row.len() - 1] is New);
        assert forall|i: int| 0 <= i < row.drop_last().len() implies (
        #[trigger] row.drop_last()[i]) is New by {
            assert(row[i] is New);
        }
        kept_none(row.drop_last());
    }
}

proof fn kept_of_kept_row(kids: Seq<NodeId>)
    ensures
        kept(PlannedView::kept_row(kids)) == kids,
    decreases kids.len(),
{
    if kids.len() > 0 {
        assert(PlannedView::kept_row(kids).drop_last() =~= PlannedView::kept_row(
            kids.drop_last(),
        ));
        kept_of_kept_row(kids.drop_last());
        assert(kids.drop_last().push(kids.last()) =~= kids);
    } else {
        assert(kept(PlannedView::kept_row(kids)) =~= kids);
    }
}

proof fn kept_one(c: NodeId)
    ensures
        kept(seq![PlannedView::Existing(c)]) == seq![c],
{
    let row = seq![PlannedView::Existing(c)];
    assert(row.drop_last() =~= Seq::empty());
    assert(kept(row.drop_last()) =~= Seq::empty());
    assert(kept(row) =~= seq![c]);
}

/// How often each node stands in the child lists of a subtree.
pub(crate) open(crate) spec fn places(nodes: Seq<NodeRecord>, lists: Map<u128, Seq<PlannedView>>, id: int) -> Multiset<
    NodeId,
>
    decreases nodes.len() - id, 1int, 0nat,
{
    if 0 <= id < nodes.len() {
        kept((Overlay { nodes, lists }).row(id)).to_multiset().add(
            row_places(nodes, lists, id, nodes[id].children),
        )
    } else {
        Multiset::empty()
    }
}

/// The same of the subtrees of a row behind `lo`.
pub(crate) open(crate) spec fn row_places(
    nodes: Seq<NodeRecord>,
    lists: Map<u128, Seq<PlannedView>>,
    lo: int,
    row: Seq<NodeId>,
) -> Multiset<NodeId>
    decreases nodes.len() - lo, 0int, row.len(),
{
    if row.len() == 0 {
        Multiset::empty()
    } else {
        let before = row_places(nodes, lists, lo, row.drop_last());
        let c = row.last().0 as int;
        if lo < c < nodes.len() {
            before.add(places(nodes, lists, c))
        } else {
            before
        }
    }
}

proof fn row_places_concat(
    nodes: Seq<NodeRecord>,
    lists: Map<u128, Seq<PlannedView>>,
    lo: int,
    a: Seq<NodeId>,
    b: Seq<NodeId>,
)
    ensures
        row_places(nodes, lists, lo, a + b) == row_places(nodes, lists, lo, a).add(
            row_places(nodes, lists, lo, b),
        ),
    decreases b.len(),
{
    if b.len() == 0 {
        assert(a + b =~= a);
        assert(row_places(nodes, lists, lo, a + b) =~= row_places(nodes, lists, lo, a).add(
            row_places(nodes, lists, lo, b),
        ));
    } else {
        assert((a + b).drop_last() =~= a + b.drop_last());
        row_places_concat(nodes, lists, lo, a, b.drop_last());
        assert(row_places(nodes, lists, lo, a + b) =~= row_places(nodes, lists, lo, a).add(
            row_places(nodes, lists, lo, b),
        ));
    }
}

/// Only the lists of the subtree count.
proof fn places_frame(
    nodes: Seq<NodeRecord>,
    a: Map<u128, Seq<PlannedView>>,
    b: Map<u128, Seq<PlannedView>>,
    id: int,
)
    requires
        nodes.len() <= u32::MAX,
        forall|k: int| #[trigger]
            NodeRecord::below(nodes, id).contains(k) ==> a.contains_key(k as u128)
                == b.contains_key(k as u128) && (a.contains_key(k as u128) ==> a[k as u128]
                == b[k as u128]),
    ensures
        places(nodes, a, id) == places(nodes, b, id),
    decreases nodes.len() - id, 1int, 0nat,
{
    if 0 <= id < nodes.len() {
        assert(NodeRecord::below(nodes, id).contains(id));
        assert forall|k: int| #[trigger]
            NodeRecord::row_below(nodes, id, nodes[id].children).contains(k) implies a.contains_key(
            k as u128,
        ) == b.contains_key(k as u128) && (a.contains_key(k as u128) ==> a[k as u128]
            == b[k as u128]) by {
            assert(NodeRecord::below(nodes, id).contains(k));
        }
        row_places_frame(nodes, a, b, id, nodes[id].children);
    }
}

proof fn row_places_frame(
    nodes: Seq<NodeRecord>,
    a: Map<u128, Seq<PlannedView>>,
    b: Map<u128, Seq<PlannedView>>,
    lo: int,
    row: Seq<NodeId>,
)
    requires
        nodes.len() <= u32::MAX,
        forall|k: int| #[trigger]
            NodeRecord::row_below(nodes, lo, row).contains(k) ==> a.contains_key(k as u128)
                == b.contains_key(k as u128) && (a.contains_key(k as u128) ==> a[k as u128]
                == b[k as u128]),
    ensures
        row_places(nodes, a, lo, row) == row_places(nodes, b, lo, row),
    decreases nodes.len() - lo, 0int, row.len(),
{
    if row.len() > 0 {
        let c = row.last().0 as int;
        assert forall|k: int| #[trigger]
            NodeRecord::row_below(nodes, lo, row.drop_last()).contains(k) implies a.contains_key(
            k as u128,
        ) == b.contains_key(k as u128) && (a.contains_key(k as u128) ==> a[k as u128]
            == b[k as u128]) by {
            assert(NodeRecord::row_below(nodes, lo, row).contains(k));
        }
        row_places_frame(nodes, a, b, lo, row.drop_last());
        if lo < c < nodes.len() {
            assert forall|k: int| #[trigger]
                NodeRecord::below(nodes, c).contains(k) implies a.contains_key(k as u128)
                == b.contains_key(k as u128) && (a.contains_key(k as u128) ==> a[k as u128]
                == b[k as u128]) by {
                assert(NodeRecord::row_below(nodes, lo, row).contains(k));
            }
            places_frame(nodes, a, b, c);
        }
    }
}

/// Links down and up agree.
pub(crate) open(crate) spec fn linked(nodes: Seq<NodeRecord>) -> bool {
    &&& nodes.len() <= u32::MAX
    &&& forall|p: int, i: int|
        0 <= p < nodes.len() && 0 <= i < nodes[p].children.len() ==> {
            let c = (#[trigger] nodes[p].children[i]).0 as int;
            p < c < nodes.len() && nodes[c].parent == Some(NodeId(p as u32))
                && nodes[c].parent_idx == i
        }
}

/// What is below a node lies behind it, and hangs below what is below it.
pub(crate) proof fn below_facts(nodes: Seq<NodeRecord>, id: int, k: int)
    requires
        linked(nodes),
        NodeRecord::below(nodes, id).contains(k),
    ensures
        0 <= id <= k < nodes.len(),
        k != id ==> nodes[k].parent is Some && (nodes[k].parent->0).0 < k && NodeRecord::below(
            nodes,
            id,
        ).contains((nodes[k].parent->0).0 as int),
    decreases nodes.len() - id, 1int, 0nat,
{
    if k != id {
        row_below_facts(nodes, id, nodes[id].children, k);
        let c = choose|c: NodeId|
            nodes[id].children.contains(c) && #[trigger] NodeRecord::below(
                nodes,
                c.0 as int,
            ).contains(k);
        let i = choose|i: int| 0 <= i < nodes[id].children.len() && nodes[id].children[i] == c;
        assert(nodes[id].children[i] == c);
        below_facts(nodes, c.0 as int, k);
        if k != c.0 {
            let p = (nodes[k].parent->0).0 as int;
            below_of_child(nodes, id, i, p);
        }
    }
}

/// A member of a row's subtrees is in one of them.
pub(crate) proof fn row_below_facts(nodes: Seq<NodeRecord>, lo: int, row: Seq<NodeId>, k: int)
    requires
        NodeRecord::row_below(nodes, lo, row).contains(k),
    ensures
        exists|c: NodeId|
            row.contains(c) && lo < c.0 < nodes.len() && #[trigger] NodeRecord::below(
                nodes,
                c.0 as int,
            ).contains(k),
    decreases row.len(),
{
    let c = row.last();
    if lo < c.0 < nodes.len() && NodeRecord::below(nodes, c.0 as int).contains(k) {
        assert(row[row.len() - 1] == c);
    } else {
        row_below_facts(nodes, lo, row.drop_last(), k);
        let d = choose|d: NodeId|
            row.drop_last().contains(d) && lo < d.0 < nodes.len() && #[trigger] NodeRecord::below(
                nodes,
                d.0 as int,
            ).contains(k);
        let i = choose|i: int| 0 <= i < row.drop_last().len() && row.drop_last()[i] == d;
        assert(row[i] == d);
    }
}

/// The subtree of a member of a row is among the row's subtrees.
pub(crate) proof fn row_below_has(nodes: Seq<NodeRecord>, lo: int, row: Seq<NodeId>, i: int, k: int)
    requires
        0 <= i < row.len(),
        lo < row[i].0 < nodes.len(),
        NodeRecord::below(nodes, row[i].0 as int).contains(k),
    ensures
        NodeRecord::row_below(nodes, lo, row).contains(k),
    decreases row.len(),
{
    if i < row.len() - 1 {
        assert(row.drop_last()[i] == row[i]);
        row_below_has(nodes, lo, row.drop_last(), i, k);
    }
}

pub(crate) proof fn below_of_child(nodes: Seq<NodeRecord>, id: int, i: int, k: int)
    requires
        linked(nodes),
        0 <= id < nodes.len(),
        0 <= i < nodes[id].children.len(),
        NodeRecord::below(nodes, nodes[id].children[i].0 as int).contains(k),
    ensures
        NodeRecord::below(nodes, id).contains(k),
{
    row_below_has(nodes, id, nodes[id].children, i, k);
}

/// The subtrees of two children of one container have nothing in common.
pub(crate) proof fn siblings_apart(nodes: Seq<NodeRecord>, a: int, b: int, k: int)
    requires
        linked(nodes),
        0 <= a < nodes.len(),
        0 <= b < nodes.len(),
        nodes[a].parent is Some,
        nodes[a].parent == nodes[b].parent,
        (nodes[a].parent->0).0 < a,
        (nodes[b].parent->0).0 < b,
        NodeRecord::below(nodes, a).contains(k),
        NodeRecord::below(nodes, b).contains(k),
    ensures
        a == b,
    decreases k,
{
    below_facts(nodes, a, k);
    below_facts(nodes, b, k);
    if a != b {
        let p = (nodes[k].parent->0).0 as int;
        if k == a {
            below_facts(nodes, b, p);
        } else if k == b {
            below_facts(nodes, a, p);
        } else {
            siblings_apart(nodes, a, b, p);
        }
    }
}

/// The row is one of children of `lo`, none twice.
pub(crate) open(crate) spec fn sibling_row(nodes: Seq<NodeRecord>, lo: int, row: Seq<NodeId>) -> bool {
    &&& row.no_duplicates()
    &&& forall|i: int|
        0 <= i < row.len() ==> lo < (#[trigger] row[i]).0 < nodes.len()
            && nodes[row[i].0 as int].parent == Some(NodeId(lo as u32))
}

/// The subtrees of disjoint rows of children have nothing in common.
pub(crate) proof fn rows_apart(nodes: Seq<NodeRecord>, lo: int, a: Seq<NodeId>, b: Seq<NodeId>, k: int)
    requires
        linked(nodes),
        0 <= lo < nodes.len(),
        sibling_row(nodes, lo, a),
        sibling_row(nodes, lo, b),
        forall|c: NodeId| !(#[trigger] a.contains(c) && b.contains(c)),
        NodeRecord::row_below(nodes, lo, a).contains(k),
    ensures
        !NodeRecord::row_below(nodes, lo, b).contains(k),
{
    if NodeRecord::row_below(nodes, lo, b).contains(k) {
        row_below_facts(nodes, lo, a, k);
        row_below_facts(nodes, lo, b, k);
        let c = choose|c: NodeId|
            a.contains(c) && lo < c.0 < nodes.len() && #[trigger] NodeRecord::below(
                nodes,
                c.0 as int,
            ).contains(k);
        let d = choose|d: NodeId|
            b.contains(d) && lo < d.0 < nodes.len() && #[trigger] NodeRecord::below(
                nodes,
                d.0 as int,
            ).contains(k);
        let i = choose|i: int| 0 <= i < a.len() && a[i] == c;
        let j = choose|j: int| 0 <= j < b.len() && b[j] == d;
        assert(nodes[a[i].0 as int].parent == nodes[b[j].0 as int].parent);
        siblings_apart(nodes, c.0 as int, d.0 as int, k);
        assert(a.contains(c) && b.contains(c));
    }
}

/// The edits of one anchor either keep it once or remove it once.
proof fn anchor_once(list: Seq<OpView>, anchor: NodeId, tree: Tree)
    requires
        OpView::go_together(list),
    ensures
        ({
            let l = OpView::paired(list);
            let rows = OpView::rows(l, anchor, tree, l.len());
            let gone = OpView::removed(l, anchor);
            ||| kept(rows) == seq![anchor] && gone == Seq::<NodeId>::empty()
            ||| kept(rows) == Seq::<NodeId>::empty() && gone == seq![anchor]
        }),
{
    let l = OpView::paired(list);
    let n = l.len();
    let first = seq![l[0]];
    let one = l[0].row(anchor, tree, n);
    assert(first.drop_last() =~= Seq::empty());
    assert(OpView::rows(first, anchor, tree, n) =~= one) by {
        assert(OpView::rows(first.drop_last(), anchor, tree, n) =~= Seq::empty());
        assert(Seq::<PlannedView>::empty() + one =~= one);
    }
    assert(OpView::removed(first.drop_last(), anchor) =~= Seq::empty());
    kept_fresh(l[0].edits);
    kept_one(anchor);
    match l[0].kind {
        EditKind::Delete => {
            assert(kept(one) =~= Seq::empty());
        },
        EditKind::Replace => {
            kept_none(one);
        },
        EditKind::CreateBefore => {
            let fresh = PlannedView::fresh_row(l[0].edits);
            assert(one =~= fresh + seq![PlannedView::Existing(anchor)]);
            kept_concat(fresh, seq![PlannedView::Existing(anchor)]);
        },
        EditKind::CreateAfter => {
            let fresh = PlannedView::fresh_row(l[0].edits);
            kept_concat(seq![PlannedView::Existing(anchor)], fresh);
        },
    }
    if n == 1 {
        assert(l =~= first);
        assert(kept(one) =~= seq![anchor] || kept(one) =~= Seq::empty());
        assert(OpView::removed(l, anchor) =~= if l[0].removes() {
            seq![anchor]
        } else {
            Seq::empty()
        });
    } else {
        assert(l.drop_last() =~= first);
        let two = l[1].row(anchor, tree, n);
        assert(l[0].kind == EditKind::CreateBefore && l[1].kind == EditKind::CreateAfter);
        kept_fresh(l[1].edits);
        kept_concat(one, two);
        assert(OpView::rows(l, anchor, tree, n) == one + two);
        assert(kept(one + two) =~= seq![anchor]);
        assert(OpView::removed(first, anchor) =~= Seq::empty());
        assert(OpView::removed(l, anchor) =~= Seq::empty());
    }
}

/// Splicing keeps or removes every child once.
pub(crate) proof fn splice_once(
    nodes: Seq<NodeRecord>,
    kids: Seq<NodeId>,
    ops: Ops,
    lists: Map<u128, Seq<PlannedView>>,
    lo: int,
)
    requires
        OpView::all_go_together(ops),
    ensures
        ({
            let s = Spliced::of(nodes, kids, ops);
            &&& kept(s.row).to_multiset().add(s.tombstones.to_multiset()) == kids.to_multiset()
            &&& row_places(nodes, lists, lo, kept(s.row)).add(
                row_places(nodes, lists, lo, s.tombstones),
            ) == row_places(nodes, lists, lo, kids)
        }),
    decreases kids.len(),
{
    let s = Spliced::of(nodes, kids, ops);
    if kids.len() == 0 {
        kids.to_multiset_ensures();
        assert(kids =~= Seq::empty());
        assert(kept(s.row) =~= Seq::empty());
        assert(kids.to_multiset() =~= Multiset::empty());
        assert(kept(s.row).to_multiset().add(s.tombstones.to_multiset()) =~= kids.to_multiset());
        assert(row_places(nodes, lists, lo, kept(s.row)).add(
            row_places(nodes, lists, lo, s.tombstones),
        ) =~= row_places(nodes, lists, lo, kids));
    } else {
        let rest = kids.drop_last();
        splice_once(nodes, rest, ops, lists, lo);
        splice_sub(nodes, rest, ops);
        let t = Spliced::of(nodes, rest, ops);
        let c = kids.last();
        let u = nodes[c.0 as int].uuid;
        let one = seq![c];
        let (more, gone) = if t.ops.contains_key(u) {
            let list = OpView::paired(t.ops[u]);
            anchor_once(t.ops[u], c, NodeRecord::tree_of(nodes, c.0 as int));
            (
                OpView::rows(list, c, NodeRecord::tree_of(nodes, c.0 as int), list.len()),
                OpView::removed(list, c),
            )
        } else {
            kept_one(c);
            (seq![PlannedView::Existing(c)], Seq::empty())
        };
        assert(s.row =~= t.row + more);
        assert(s.tombstones =~= t.tombstones + gone);
        kept_concat(t.row, more);
        assert(kids =~= rest + one);
        vstd::seq_lib::lemma_multiset_commutative(kept(t.row), kept(more));
        vstd::seq_lib::lemma_multiset_commutative(t.tombstones, gone);
        vstd::seq_lib::lemma_multiset_commutative(rest, one);
        row_places_concat(nodes, lists, lo, kept(t.row), kept(more));
        row_places_concat(nodes, lists, lo, t.tombstones, gone);
        row_places_concat(nodes, lists, lo, rest, one);
        let none = Seq::<NodeId>::empty();
        none.to_multiset_ensures();
        assert(none.to_multiset() =~= Multiset::empty());
        assert(row_places(nodes, lists, lo, none) == Multiset::<NodeId>::empty());
        assert(kept(s.row).to_multiset().add(s.tombstones.to_multiset()) =~= kids.to_multiset());
        assert(row_places(nodes, lists, lo, kept(s.row)).add(
            row_places(nodes, lists, lo, s.tombstones),
        ) =~= row_places(nodes, lists, lo, kids));
    }
}

/// The parts of a row make up the row.
pub(crate) proof fn parts_whole<A>(row: Seq<A>, flags: Seq<bool>)
    requires
        flags.len() == row.len(),
    ensures
        ({
            let p = Parted::of(row, flags);
            p.pre + p.mid + p.post == row
        }),
{
    crate::arena::plan::lead_in_range(flags);
    let start = crate::arena::plan::lead(flags) as int;
    crate::arena::plan::reach_in_range(flags.skip(start));
    let p = Parted::of(row, flags);
    assert(p.pre + p.mid + p.post =~= row);
}

/// The children of a node are a row of siblings.
pub(crate) proof fn children_are_siblings(nodes: Seq<NodeRecord>, id: int)
    requires
        linked(nodes),
        0 <= id < nodes.len(),
    ensures
        sibling_row(nodes, id, nodes[id].children),
{
    let kids = nodes[id].children;
    assert forall|i: int, j: int| 0 <= i < kids.len() && 0 <= j < kids.len() && i != j implies
        kids[i] != kids[j] by {
        let a = nodes[id].children[i];
        let b = nodes[id].children[j];
    }
    assert forall|i: int| 0 <= i < kids.len() implies id < (#[trigger] kids[i]).0 < nodes.len()
        && nodes[kids[i].0 as int].parent == Some(NodeId(id as u32)) by {
        let a = nodes[id].children[i];
    }
}

/// Two rows that make up a row of siblings are disjoint rows of siblings.
pub(crate) proof fn siblings_split(nodes: Seq<NodeRecord>, lo: int, a: Seq<NodeId>, b: Seq<NodeId>, all: Seq<NodeId>)
    requires
        sibling_row(nodes, lo, all),
        a.to_multiset().add(b.to_multiset()) == all.to_multiset(),
    ensures
        sibling_row(nodes, lo, a),
        sibling_row(nodes, lo, b),
        forall|c: NodeId| !(#[trigger] a.contains(c) && b.contains(c)),
        forall|c: NodeId| #[trigger] a.contains(c) ==> all.contains(c),
{
    broadcast use vstd::seq_lib::group_to_multiset_ensures;

    all.lemma_multiset_has_no_duplicates();
    assert forall|c: NodeId| (#[trigger] a.to_multiset().count(c)) + b.to_multiset().count(c)
        <= 1 by {
        assert(all.to_multiset().count(c) <= 1) by {
            if all.to_multiset().contains(c) {
                assert(all.to_multiset().count(c) == 1);
            }
        }
    }
    assert forall|c: NodeId| a.to_multiset().contains(c) implies a.to_multiset().count(c) == 1 by {}
    assert forall|c: NodeId| b.to_multiset().contains(c) implies b.to_multiset().count(c) == 1 by {
        assert(a.to_multiset().count(c) + b.to_multiset().count(c) <= 1);
    }
    a.lemma_multiset_has_no_duplicates_conv();
    b.lemma_multiset_has_no_duplicates_conv();
    assert forall|c: NodeId| !(#[trigger] a.contains(c) && b.contains(c)) by {
        assert(a.to_multiset().count(c) + b.to_multiset().count(c) <= 1);
    }
    assert forall|c: NodeId| #[trigger] a.contains(c) implies all.contains(c) by {
        assert(a.to_multiset().count(c) > 0);
        assert(all.to_multiset().count(c) > 0);
    }
    assert forall|i: int| 0 <= i < a.len() implies lo < (#[trigger] a[i]).0 < nodes.len()
        && nodes[a[i].0 as int].parent == Some(NodeId(lo as u32)) by {
        assert(a.contains(a[i]));
        let j = choose|j: int| 0 <= j < all.len() && all[j] == a[i];
        assert(lo < all[j].0 < nodes.len());
    }
    assert forall|i: int| 0 <= i < b.len() implies lo < (#[trigger] b[i]).0 < nodes.len()
        && nodes[b[i].0 as int].parent == Some(NodeId(lo as u32)) by {
        assert(b.contains(b[i]));
        assert(b.to_multiset().count(b[i]) > 0);
        assert(all.to_multiset().count(b[i]) > 0);
        assert(all.contains(b[i]));
        let j = choose|j: int| 0 <= j < all.len() && all[j] == b[i];
        assert(lo < all[j].0 < nodes.len());
    }
}

/// One more entry: both sides grow alike.
proof fn balance_row<A>(
    row: Multiset<A>,
    pre: Multiset<A>,
    one: Multiset<A>,
    post: Multiset<A>,
    lists: Multiset<A>,
    below: Multiset<A>,
    gone: Multiset<A>,
    more: Multiset<A>,
    before: Multiset<A>,
    had: Multiset<A>,
    had_below: Multiset<A>,
)
    requires
        row.add(lists).add(gone) == before.add(had),
        pre.add(post).add(below).add(more) == had_below,
    ensures
        row.add(pre).add(one).add(post).add(lists.add(below)).add(gone.add(more)) == before.add(
            one,
        ).add(had.add(had_below)),
{
    broadcast use vstd::multiset::group_multiset_axioms;

    let l = row.add(pre).add(one).add(post).add(lists.add(below)).add(gone.add(more));
    let r = before.add(one).add(had.add(had_below));
    assert forall|x: A| l.count(x) == r.count(x) by {
        assert(row.add(lists).add(gone).count(x) == row.count(x) + lists.count(x) + gone.count(x));
        assert(before.add(had).count(x) == before.count(x) + had.count(x));
        assert(pre.add(post).add(below).add(more).count(x) == pre.count(x) + post.count(x)
            + below.count(x) + more.count(x));
        assert(lists.add(below).count(x) == lists.count(x) + below.count(x));
        assert(gone.add(more).count(x) == gone.count(x) + more.count(x));
        assert(row.add(pre).add(one).add(post).count(x) == row.count(x) + pre.count(x) + one.count(
            x,
        ) + post.count(x));
        assert(l.count(x) == row.add(pre).add(one).add(post).count(x) + lists.add(below).count(x)
            + gone.add(more).count(x));
        assert(before.add(one).count(x) == before.count(x) + one.count(x));
        assert(had.add(had_below).count(x) == had.count(x) + had_below.count(x));
        assert(r.count(x) == before.add(one).count(x) + had.add(had_below).count(x));
    }
    assert(l =~= r);
}

/// The container: what moves out, its list, the lists below and what is removed.
proof fn balance_container<A>(
    pre: Multiset<A>,
    mid: Multiset<A>,
    post: Multiset<A>,
    lists: Multiset<A>,
    gone_lists: Multiset<A>,
    gone: Multiset<A>,
    more: Multiset<A>,
    stay: Multiset<A>,
    had: Multiset<A>,
    kids: Multiset<A>,
    had_kids: Multiset<A>,
)
    requires
        pre.add(mid).add(post).add(lists).add(more) == stay.add(had),
        stay.add(gone) == kids,
        had.add(gone_lists) == had_kids,
    ensures
        pre.add(post).add(mid.add(lists.add(gone_lists))).add(gone.add(more)) == kids.add(had_kids),
{
    broadcast use vstd::multiset::group_multiset_axioms;

    let l = pre.add(post).add(mid.add(lists.add(gone_lists))).add(gone.add(more));
    let r = kids.add(had_kids);
    assert forall|x: A| l.count(x) == r.count(x) by {
        assert(pre.add(mid).add(post).add(lists).add(more).count(x) == pre.count(x) + mid.count(x)
            + post.count(x) + lists.count(x) + more.count(x));
        assert(stay.add(had).count(x) == stay.count(x) + had.count(x));
        assert(stay.add(gone).count(x) == stay.count(x) + gone.count(x));
        assert(had.add(gone_lists).count(x) == had.count(x) + gone_lists.count(x));
        assert(lists.add(gone_lists).count(x) == lists.count(x) + gone_lists.count(x));
        assert(mid.add(lists.add(gone_lists)).count(x) == mid.count(x) + lists.add(
            gone_lists,
        ).count(x));
        assert(gone.add(more).count(x) == gone.count(x) + more.count(x));
        assert(l.count(x) == pre.count(x) + post.count(x) + mid.add(lists.add(gone_lists)).count(x)
            + gone.add(more).count(x));
    }
    assert(l =~= r);
}

/// Whether every list lies over a node of the set.
pub(crate) open(crate) spec fn lists_in(lists: Map<u128, Seq<PlannedView>>, set: Set<int>) -> bool {
    forall|k: u128| #[trigger] lists.contains_key(k) ==> set.contains(k as int)
}

/// Whether every removed subtree is part of the set, and no list lies over it.
pub(crate) open(crate) spec fn stones_clear(
    nodes: Seq<NodeRecord>,
    stones: Seq<NodeId>,
    lists: Map<u128, Seq<PlannedView>>,
    set: Set<int>,
) -> bool {
    forall|i: int, k: int|
        0 <= i < stones.len() && #[trigger] NodeRecord::below(
            nodes,
            (#[trigger] stones[i]).0 as int,
        ).contains(k) ==> set.contains(k) && !lists.contains_key(k as u128)
}

/// No list.
pub(crate) open(crate) spec fn no_lists() -> Map<u128, Seq<PlannedView>> {
    Map::empty()
}

/// The plan of a subtree holds the nodes below its root as often as before: in
/// the lists, in what moves out, and among what is removed.
pub(crate) proof fn plan_holds(
    nodes: Seq<NodeRecord>,
    id: NodeId,
    ops: Ops,
    dirty: Set<u128>,
    feu: bool,
)
    requires
        linked(nodes),
        id.0 < nodes.len(),
        OpView::all_go_together(ops),
    ensures
        ({
            let p = SubPlanView::of(nodes, id, ops, dirty, feu);
            &&& lists_in(p.children_of, NodeRecord::below(nodes, id.0 as int))
            &&& stones_clear(
                nodes,
                p.tombstones,
                p.children_of,
                NodeRecord::below(nodes, id.0 as int),
            )
            &&& kept(p.pre).to_multiset().add(kept(p.post).to_multiset()).add(
                places(nodes, p.children_of, id.0 as int),
            ).add(p.tombstones.to_multiset()) == places(nodes, no_lists(), id.0 as int)
        }),
    decreases nodes.len() - id.0, 1int, 0nat,
{
    let p = SubPlanView::of(nodes, id, ops, dirty, feu);
    let lo = id.0 as int;
    let kids = nodes[lo].children;
    let none = Seq::<NodeId>::empty();
    none.to_multiset_ensures();
    assert(none.to_multiset() =~= Multiset::empty());
    if kids.len() == 0 || !dirty.contains(id.key()) {
        assert(kept(p.pre) =~= none);
        assert(kept(p.post) =~= none);
        assert(kept(p.pre).to_multiset().add(kept(p.post).to_multiset()).add(
            places(nodes, p.children_of, lo),
        ).add(p.tombstones.to_multiset()) =~= places(nodes, no_lists(), lo));
    } else {
        let s = Spliced::of(nodes, kids, ops);
        let r = RowPlanView::of(nodes, id, s.row, s.ops, dirty, feu);
        assert(p == SubPlanView::finish(nodes, id, s, r, feu));
        splice_sub(nodes, kids, ops);
        children_are_siblings(nodes, lo);
        splice_once(nodes, kids, ops, no_lists(), lo);
        splice_once(nodes, kids, ops, r.children_of, lo);
        siblings_split(nodes, lo, kept(s.row), s.tombstones, kids);
        row_plan_holds(nodes, id, s.row, s.ops, dirty, feu);
        crate::arena::laws::plan_sparse(nodes, id, ops, dirty, feu);
        if !p.changed {
            assert(kept(p.pre) =~= none);
            assert(kept(p.post) =~= none);
            assert(p.tombstones =~= none);
            assert(kept(p.pre).to_multiset().add(kept(p.post).to_multiset()).add(
                places(nodes, p.children_of, lo),
            ).add(p.tombstones.to_multiset()) =~= places(nodes, no_lists(), lo));
        } else {
            let tree = NodeRecord::tree_of(nodes, lo);
            let parts = if tree.kind.allows_non_code_ends() {
                Parted::whole(r.row)
            } else {
                Parted::of(r.row, PlannedView::end_flags(r.row, nodes))
            };
            assert(parts.pre + parts.mid + parts.post == r.row) by {
                if tree.kind.allows_non_code_ends() {
                    assert(parts.pre + parts.mid + parts.post =~= r.row);
                } else {
                    parts_whole(r.row, PlannedView::end_flags(r.row, nodes));
                }
            }
            kept_concat(parts.pre, parts.mid);
            kept_concat(parts.pre + parts.mid, parts.post);
            vstd::seq_lib::lemma_multiset_commutative(kept(parts.pre), kept(parts.mid));
            vstd::seq_lib::lemma_multiset_commutative(
                kept(parts.pre) + kept(parts.mid),
                kept(parts.post),
            );
            vstd::seq_lib::lemma_multiset_commutative(s.tombstones, r.tombstones);
            let stay = kept(s.row);
            // The lists lie over what is kept, so not over what is removed.
            assert forall|k: int| #[trigger]
                NodeRecord::row_below(nodes, lo, s.tombstones).contains(k) implies
                r.children_of.contains_key(k as u128) == no_lists().contains_key(k as u128) by {
                rows_apart(nodes, lo, s.tombstones, stay, k);
                row_below_facts(nodes, lo, s.tombstones, k);
                let c = choose|c: NodeId|
                    s.tombstones.contains(c) && lo < c.0 < nodes.len()
                        && #[trigger] NodeRecord::below(nodes, c.0 as int).contains(k);
                below_facts(nodes, c.0 as int, k);
            }
            row_places_frame(nodes, r.children_of, no_lists(), lo, s.tombstones);
            // The list of the container itself does not lie over its children.
            assert forall|k: int| #[trigger]
                NodeRecord::row_below(nodes, lo, kids).contains(k) implies
                p.children_of.contains_key(k as u128) == r.children_of.contains_key(k as u128) && (
            p.children_of.contains_key(k as u128) ==> p.children_of[k as u128]
                == r.children_of[k as u128]) by {
                row_below_facts(nodes, lo, kids, k);
                let c = choose|c: NodeId|
                    kids.contains(c) && lo < c.0 < nodes.len() && #[trigger] NodeRecord::below(
                        nodes,
                        c.0 as int,
                    ).contains(k);
                below_facts(nodes, c.0 as int, k);
                assert(k > lo);
            }
            row_places_frame(nodes, p.children_of, r.children_of, lo, kids);
            assert((Overlay { nodes, lists: p.children_of }).row(lo) == parts.mid);
            kept_of_kept_row(kids);
            balance_container(
                kept(parts.pre).to_multiset(),
                kept(parts.mid).to_multiset(),
                kept(parts.post).to_multiset(),
                row_places(nodes, r.children_of, lo, stay),
                row_places(nodes, no_lists(), lo, s.tombstones),
                s.tombstones.to_multiset(),
                r.tombstones.to_multiset(),
                stay.to_multiset(),
                row_places(nodes, no_lists(), lo, stay),
                kids.to_multiset(),
                row_places(nodes, no_lists(), lo, kids),
            );
            assert(places(nodes, p.children_of, lo) == kept(parts.mid).to_multiset().add(
                row_places(nodes, r.children_of, lo, kids),
            ));
            assert(places(nodes, no_lists(), lo) == kids.to_multiset().add(
                row_places(nodes, no_lists(), lo, kids),
            ));
            assert forall|i: int, k: int|
                0 <= i < p.tombstones.len() && #[trigger] NodeRecord::below(
                    nodes,
                    (#[trigger] p.tombstones[i]).0 as int,
                ).contains(k) implies NodeRecord::below(nodes, lo).contains(k)
                && !p.children_of.contains_key(k as u128) by {
                if i < s.tombstones.len() {
                    let t = s.tombstones[i];
                    assert(p.tombstones[i] == t);
                    assert(lo < t.0 < nodes.len());
                    row_below_has(nodes, lo, s.tombstones, i, k);
                    assert(s.tombstones.contains(t));
                    assert(kids.contains(t)) by {
                        broadcast use vstd::seq_lib::group_to_multiset_ensures;

                        assert(s.tombstones.to_multiset().count(t) > 0);
                        assert(kids.to_multiset().count(t) > 0);
                    }
                    let j = choose|j: int| 0 <= j < kids.len() && kids[j] == t;
                    below_of_child(nodes, lo, j, k);
                    below_facts(nodes, t.0 as int, k);
                } else {
                    let t = r.tombstones[i - s.tombstones.len()];
                    assert(p.tombstones[i] == t);
                    assert(NodeRecord::row_below(nodes, lo, stay).contains(k));
                    row_below_facts(nodes, lo, stay, k);
                    let c = choose|c: NodeId|
                        stay.contains(c) && lo < c.0 < nodes.len() && #[trigger] NodeRecord::below(
                            nodes,
                            c.0 as int,
                        ).contains(k);
                    assert(kids.contains(c));
                    let j = choose|j: int| 0 <= j < kids.len() && kids[j] == c;
                    below_of_child(nodes, lo, j, k);
                    below_facts(nodes, c.0 as int, k);
                    assert(k > lo);
                }
            }
            assert forall|k: u128| #[trigger] p.children_of.contains_key(k) implies
                NodeRecord::below(nodes, lo).contains(k as int) by {
                if k != id.key() {
                    assert(r.children_of.contains_key(k));
                    row_below_facts(nodes, lo, stay, k as int);
                    let c = choose|c: NodeId|
                        stay.contains(c) && lo < c.0 < nodes.len() && #[trigger] NodeRecord::below(
                            nodes,
                            c.0 as int,
                        ).contains(k as int);
                    assert(kids.contains(c));
                    let i = choose|i: int| 0 <= i < kids.len() && kids[i] == c;
                    below_of_child(nodes, lo, i, k as int);
                }
            }
        }
    }
}

/// The same of a row: what its entries hold and the lists below them.
pub(crate) proof fn row_plan_holds(
    nodes: Seq<NodeRecord>,
    lo: NodeId,
    row: Seq<PlannedView>,
    ops: Ops,
    dirty: Set<u128>,
    feu: bool,
)
    requires
        linked(nodes),
        lo.0 < nodes.len(),
        OpView::all_go_together(ops),
        sibling_row(nodes, lo.0 as int, kept(row)),
    ensures
        ({
            let r = RowPlanView::of(nodes, lo, row, ops, dirty, feu);
            &&& lists_in(
                r.children_of,
                NodeRecord::row_below(nodes, lo.0 as int, kept(row)),
            )
            &&& stones_clear(
                nodes,
                r.tombstones,
                r.children_of,
                NodeRecord::row_below(nodes, lo.0 as int, kept(row)),
            )
            &&& kept(r.row).to_multiset().add(
                row_places(nodes, r.children_of, lo.0 as int, kept(row)),
            ).add(r.tombstones.to_multiset()) == kept(row).to_multiset().add(
                row_places(nodes, no_lists(), lo.0 as int, kept(row)),
            )
        }),
    decreases nodes.len() - lo.0, 0int, row.len(),
{
    let r = RowPlanView::of(nodes, lo, row, ops, dirty, feu);
    let l = lo.0 as int;
    let none = Seq::<NodeId>::empty();
    none.to_multiset_ensures();
    assert(none.to_multiset() =~= Multiset::empty());
    if row.len() == 0 {
        assert(kept(r.row) =~= none);
        assert(kept(row) =~= none);
        assert(kept(r.row).to_multiset().add(row_places(nodes, r.children_of, l, kept(row))).add(
            r.tombstones.to_multiset(),
        ) =~= kept(row).to_multiset().add(row_places(nodes, no_lists(), l, kept(row))));
    } else {
        let rest = row.drop_last();
        let q = RowPlanView::of(nodes, lo, rest, ops, dirty, feu);
        let a = kept(rest);
        assert(sibling_row(nodes, l, a)) by {
            assert forall|i: int| 0 <= i < a.len() implies a[i] == kept(row)[i] by {}
            assert forall|i: int, j: int|
                0 <= i < a.len() && 0 <= j < a.len() && i != j implies a[i] != a[j] by {
                assert(kept(row)[i] != kept(row)[j]);
            }
            assert forall|i: int| 0 <= i < a.len() implies l < (#[trigger] a[i]).0 < nodes.len()
                && nodes[a[i].0 as int].parent == Some(NodeId(l as u32)) by {
                let c = kept(row)[i];
            }
        }
        row_plan_holds(nodes, lo, rest, ops, dirty, feu);
        row_plan_sub(nodes, lo, rest, ops, dirty, feu);
        match row.last() {
            PlannedView::Existing(c) => {
                let all = kept(row);
                assert(all == a.push(c));
                assert(all[all.len() - 1] == c);
                assert(l < c.0 < nodes.len());
                let p = SubPlanView::of(nodes, c, q.ops, dirty, feu);
                assert(r == q.with_kept(c, p));
                plan_holds(nodes, c, q.ops, dirty, feu);
                let one = seq![c];
                assert(all =~= a + one);
                assert(!a.contains(c)) by {
                    if a.contains(c) {
                        let i = choose|i: int| 0 <= i < a.len() && a[i] == c;
                        assert(all[i] == all[all.len() - 1]);
                    }
                }
                assert(sibling_row(nodes, l, one)) by {
                    assert forall|i: int| 0 <= i < one.len() implies l < (#[trigger] one[i]).0
                        < nodes.len() && nodes[one[i].0 as int].parent == Some(
                        NodeId(l as u32),
                    ) by {
                        let d = all[all.len() - 1];
                    }
                }
                assert(NodeRecord::row_below(nodes, l, one) =~= NodeRecord::below(
                    nodes,
                    c.0 as int,
                )) by {
                    assert(one.drop_last() =~= none);
                    assert(NodeRecord::row_below(nodes, l, one.drop_last()) =~= Set::empty());
                }
                assert forall|d: NodeId| !(#[trigger] a.contains(d) && one.contains(d)) by {}
                assert forall|d: NodeId| !(#[trigger] one.contains(d) && a.contains(d)) by {}
                assert forall|k: int| #[trigger]
                    NodeRecord::row_below(nodes, l, a).contains(k) implies
                    r.children_of.contains_key(k as u128) == q.children_of.contains_key(
                    k as u128,
                ) && (r.children_of.contains_key(k as u128) ==> r.children_of[k as u128]
                    == q.children_of[k as u128]) by {
                    rows_apart(nodes, l, a, one, k);
                    row_member(nodes, l, a, k);
                }
                row_places_frame(nodes, r.children_of, q.children_of, l, a);
                assert forall|k: int| #[trigger]
                    NodeRecord::below(nodes, c.0 as int).contains(k) implies
                    r.children_of.contains_key(k as u128) == p.children_of.contains_key(
                    k as u128,
                ) && (r.children_of.contains_key(k as u128) ==> r.children_of[k as u128]
                    == p.children_of[k as u128]) by {
                    rows_apart(nodes, l, one, a, k);
                    below_facts(nodes, c.0 as int, k);
                }
                places_frame(nodes, r.children_of, p.children_of, c.0 as int);
                // What the row holds.
                kept_one(c);
                let e = seq![PlannedView::Existing(c)];
                kept_concat(q.row, p.pre);
                kept_concat(q.row + p.pre, e);
                kept_concat(q.row + p.pre + e, p.post);
                let k0 = kept(q.row);
                let k1 = kept(p.pre);
                let k2 = kept(p.post);
                vstd::seq_lib::lemma_multiset_commutative(k0, k1);
                vstd::seq_lib::lemma_multiset_commutative(k0 + k1, one);
                vstd::seq_lib::lemma_multiset_commutative(k0 + k1 + one, k2);
                vstd::seq_lib::lemma_multiset_commutative(q.tombstones, p.tombstones);
                vstd::seq_lib::lemma_multiset_commutative(a, one);
                row_places_concat(nodes, r.children_of, l, a, one);
                row_places_concat(nodes, no_lists(), l, a, one);
                single_row(nodes, r.children_of, l, c);
                single_row(nodes, no_lists(), l, c);
                balance_row(
                    k0.to_multiset(),
                    k1.to_multiset(),
                    one.to_multiset(),
                    k2.to_multiset(),
                    row_places(nodes, q.children_of, l, a),
                    places(nodes, p.children_of, c.0 as int),
                    q.tombstones.to_multiset(),
                    p.tombstones.to_multiset(),
                    a.to_multiset(),
                    row_places(nodes, no_lists(), l, a),
                    places(nodes, no_lists(), c.0 as int),
                );
                assert(kept(r.row) == k0 + k1 + one + k2);
                assert forall|i: int, k: int|
                    0 <= i < r.tombstones.len() && #[trigger] NodeRecord::below(
                        nodes,
                        (#[trigger] r.tombstones[i]).0 as int,
                    ).contains(k) implies NodeRecord::row_below(nodes, l, kept(row)).contains(k)
                    && !r.children_of.contains_key(k as u128) by {
                    assert(all.drop_last() =~= a);
                    if i < q.tombstones.len() {
                        assert(r.tombstones[i] == q.tombstones[i]);
                        assert(NodeRecord::row_below(nodes, l, a).contains(k));
                        rows_apart(nodes, l, a, one, k);
                        row_member(nodes, l, a, k);
                    } else {
                        assert(r.tombstones[i] == p.tombstones[i - q.tombstones.len()]);
                        assert(NodeRecord::below(nodes, c.0 as int).contains(k));
                        rows_apart(nodes, l, one, a, k);
                        below_facts(nodes, c.0 as int, k);
                    }
                }
                assert forall|k: u128| #[trigger] r.children_of.contains_key(k) implies
                    NodeRecord::row_below(nodes, l, kept(row)).contains(k as int) by {
                    assert(all.drop_last() =~= a);
                    if p.children_of.contains_key(k) {
                        assert(NodeRecord::below(nodes, c.0 as int).contains(k as int));
                    } else {
                        assert(q.children_of.contains_key(k));
                        assert(NodeRecord::row_below(nodes, l, a).contains(k as int));
                    }
                }
            },
            PlannedView::New(spec, marker) => {
                let p = SpecPlan::of(spec, q.ops);
                let e = seq![PlannedView::New(p.spec, marker)];
                let f = PlannedView::fresh_row(p.pre);
                let g = PlannedView::fresh_row(p.post);
                kept_fresh(p.pre);
                kept_fresh(p.post);
                kept_none(e);
                kept_concat(q.row, f);
                kept_concat(q.row + f, e);
                kept_concat(q.row + f + e, g);
                assert(kept(r.row) =~= kept(q.row));
                assert(kept(row) =~= a);
            },
        }
    }
}

/// A member of a row's subtrees is a node.
proof fn row_member(nodes: Seq<NodeRecord>, lo: int, row: Seq<NodeId>, k: int)
    requires
        linked(nodes),
        NodeRecord::row_below(nodes, lo, row).contains(k),
    ensures
        0 <= k < nodes.len(),
{
    row_below_facts(nodes, lo, row, k);
    let c = choose|c: NodeId|
        row.contains(c) && lo < c.0 < nodes.len() && #[trigger] NodeRecord::below(
            nodes,
            c.0 as int,
        ).contains(k);
    below_facts(nodes, c.0 as int, k);
}

proof fn single_row(nodes: Seq<NodeRecord>, lists: Map<u128, Seq<PlannedView>>, lo: int, c: NodeId)
    requires
        lo < c.0 < nodes.len(),
    ensures
        row_places(nodes, lists, lo, seq![c]) == places(nodes, lists, c.0 as int),
{
    let one = seq![c];
    assert(one.drop_last() =~= Seq::empty());
    assert(row_places(nodes, lists, lo, one.drop_last()) == Multiset::<NodeId>::empty());
    assert(row_places(nodes, lists, lo, one) =~= places(nodes, lists, c.0 as int));
}

/// Without lists, every node below a node stands in one place.
proof fn one_place_each(nodes: Seq<NodeRecord>, id: int, c: NodeId)
    requires
        linked(nodes),
        0 <= id < nodes.len(),
    ensures
        places(nodes, no_lists(), id).count(c) == (if NodeRecord::below(nodes, id).contains(
            c.0 as int,
        ) && c.0 != id {
            1nat
        } else {
            0nat
        }),
    decreases nodes.len() - id, 1int, 0nat,
{
    broadcast use vstd::seq_lib::group_to_multiset_ensures;

    let kids = nodes[id].children;
    children_are_siblings(nodes, id);
    kept_of_kept_row(kids);
    one_place_each_row(nodes, id, kids, c);
    kids.lemma_multiset_has_no_duplicates();
    if NodeRecord::row_below(nodes, id, kids).contains(c.0 as int) {
        row_below_facts(nodes, id, kids, c.0 as int);
        let d = choose|d: NodeId|
            kids.contains(d) && id < d.0 < nodes.len() && #[trigger] NodeRecord::below(
                nodes,
                d.0 as int,
            ).contains(c.0 as int);
        below_facts(nodes, d.0 as int, c.0 as int);
        assert(c.0 > id);
    }
    if kids.contains(c) {
        assert(kids.to_multiset().contains(c));
        let i = choose|i: int| 0 <= i < kids.len() && kids[i] == c;
        assert(NodeRecord::below(nodes, c.0 as int).contains(c.0 as int)) by {
            assert(id < nodes[id].children[i].0 < nodes.len());
        }
        row_below_has(nodes, id, kids, i, c.0 as int);
    }
}

proof fn one_place_each_row(nodes: Seq<NodeRecord>, lo: int, row: Seq<NodeId>, c: NodeId)
    requires
        linked(nodes),
        0 <= lo < nodes.len(),
        sibling_row(nodes, lo, row),
    ensures
        row_places(nodes, no_lists(), lo, row).count(c) == (if NodeRecord::row_below(
            nodes,
            lo,
            row,
        ).contains(c.0 as int) && !row.contains(c) {
            1nat
        } else {
            0nat
        }),
    decreases nodes.len() - lo, 0int, row.len(),
{
    if row.len() > 0 {
        let rest = row.drop_last();
        let d = row.last();
        assert(sibling_row(nodes, lo, rest)) by {
            assert forall|i: int| 0 <= i < rest.len() implies lo < (#[trigger] rest[i]).0
                < nodes.len() && nodes[rest[i].0 as int].parent == Some(NodeId(lo as u32)) by {
                let x = row[i];
            }
        }
        assert(row[row.len() - 1] == d);
        assert(lo < d.0 < nodes.len());
        one_place_each_row(nodes, lo, rest, c);
        one_place_each(nodes, d.0 as int, c);
        let k = c.0 as int;
        let in_rest = NodeRecord::row_below(nodes, lo, rest).contains(k);
        let in_last = NodeRecord::below(nodes, d.0 as int).contains(k);
        let one = seq![d];
        assert(NodeRecord::row_below(nodes, lo, one) =~= NodeRecord::below(nodes, d.0 as int)) by {
            assert(one.drop_last() =~= Seq::empty());
            assert(NodeRecord::row_below(nodes, lo, one.drop_last()) =~= Set::empty());
        }
        assert(sibling_row(nodes, lo, one)) by {
            assert forall|i: int| 0 <= i < one.len() implies lo < (#[trigger] one[i]).0
                < nodes.len() && nodes[one[i].0 as int].parent == Some(NodeId(lo as u32)) by {
                let x = row[row.len() - 1];
            }
        }
        assert(!rest.contains(d)) by {
            if rest.contains(d) {
                let i = choose|i: int| 0 <= i < rest.len() && rest[i] == d;
                assert(row[i] == row[row.len() - 1]);
            }
        }
        assert forall|x: NodeId| !(#[trigger] rest.contains(x) && one.contains(x)) by {}
        if in_rest {
            rows_apart(nodes, lo, rest, one, k);
        }
        if rest.contains(c) {
            let i = choose|i: int| 0 <= i < rest.len() && rest[i] == c;
            assert(row[i] == c);
            assert(NodeRecord::below(nodes, k).contains(k)) by {
                assert(lo < rest[i].0 < nodes.len());
            }
            row_below_has(nodes, lo, rest, i, k);
        }
        if row.contains(c) && !rest.contains(c) {
            let i = choose|i: int| 0 <= i < row.len() && row[i] == c;
            if i < rest.len() {
                assert(rest[i] == c);
            }
            assert(c == d);
        }
        if c == d {
            assert(row.contains(c));
            assert(in_last);
        }
    }
}

/// A node that stands in the child list of a node of the subtree counts.
proof fn place_counts(
    nodes: Seq<NodeRecord>,
    lists: Map<u128, Seq<PlannedView>>,
    id: int,
    k: int,
    j: int,
    c: NodeId,
)
    requires
        linked(nodes),
        NodeRecord::below(nodes, id).contains(k),
        0 <= j < (Overlay { nodes, lists }).row(k).len(),
        (Overlay { nodes, lists }).row(k)[j] == PlannedView::Existing(c),
    ensures
        places(nodes, lists, id).count(c) >= 1,
    decreases nodes.len() - id,
{
    broadcast use vstd::seq_lib::group_to_multiset_ensures;

    if k == id {
        kept_has((Overlay { nodes, lists }).row(id), j, c);
    } else {
        row_below_facts(nodes, id, nodes[id].children, k);
        let d = choose|d: NodeId|
            nodes[id].children.contains(d) && id < d.0 < nodes.len() && #[trigger] NodeRecord::below(
                nodes,
                d.0 as int,
            ).contains(k);
        let i = choose|i: int| 0 <= i < nodes[id].children.len() && nodes[id].children[i] == d;
        place_counts(nodes, lists, d.0 as int, k, j, c);
        row_places_has(nodes, lists, id, nodes[id].children, i, c);
    }
}

proof fn row_places_has(
    nodes: Seq<NodeRecord>,
    lists: Map<u128, Seq<PlannedView>>,
    lo: int,
    row: Seq<NodeId>,
    i: int,
    c: NodeId,
)
    requires
        0 <= i < row.len(),
        lo < row[i].0 < nodes.len(),
    ensures
        row_places(nodes, lists, lo, row).count(c) >= places(nodes, lists, row[i].0 as int).count(c),
    decreases row.len(),
{
    if i < row.len() - 1 {
        assert(row.drop_last()[i] == row[i]);
        row_places_has(nodes, lists, lo, row.drop_last(), i, c);
    }
}

proof fn row_places_has_two(
    nodes: Seq<NodeRecord>,
    lists: Map<u128, Seq<PlannedView>>,
    lo: int,
    row: Seq<NodeId>,
    i: int,
    j: int,
    c: NodeId,
)
    requires
        0 <= i < j < row.len(),
        lo < row[i].0 < nodes.len(),
        lo < row[j].0 < nodes.len(),
    ensures
        row_places(nodes, lists, lo, row).count(c) >= places(
            nodes,
            lists,
            row[i].0 as int,
        ).count(c) + places(nodes, lists, row[j].0 as int).count(c),
    decreases row.len(),
{
    assert(row.drop_last()[i] == row[i]);
    if j < row.len() - 1 {
        assert(row.drop_last()[j] == row[j]);
        row_places_has_two(nodes, lists, lo, row.drop_last(), i, j, c);
    } else {
        row_places_has(nodes, lists, lo, row.drop_last(), i, c);
    }
}

/// An entry that keeps a node is among what the row keeps.
pub(crate) proof fn kept_has(row: Seq<PlannedView>, j: int, c: NodeId)
    requires
        0 <= j < row.len(),
        row[j] == PlannedView::Existing(c),
    ensures
        kept(row).contains(c),
        kept(row).to_multiset().count(c) >= 1,
{
    broadcast use vstd::seq_lib::group_to_multiset_ensures;

    let a = row.take(j);
    let b = row.skip(j + 1);
    let e = seq![PlannedView::Existing(c)];
    assert(row =~= a + e + b);
    kept_concat(a, e);
    kept_concat(a + e, b);
    kept_one(c);
    assert(kept(row)[kept(a).len() as int] == c);
}

proof fn kept_has_two(row: Seq<PlannedView>, i: int, j: int, c: NodeId)
    requires
        0 <= i < j < row.len(),
        row[i] == PlannedView::Existing(c),
        row[j] == PlannedView::Existing(c),
    ensures
        kept(row).to_multiset().count(c) >= 2,
{
    let a = row.take(j);
    let b = row.skip(j);
    assert(row =~= a + b);
    kept_concat(a, b);
    assert(a[i] == row[i]);
    assert(b[0] == row[j]);
    kept_has(a, i, c);
    kept_has(b, 0, c);
    vstd::seq_lib::lemma_multiset_commutative(kept(a), kept(b));
}

/// What a row keeps stands at one of its entries.
pub(crate) proof fn kept_is_entry(row: Seq<PlannedView>, c: NodeId)
    requires
        kept(row).contains(c),
    ensures
        exists|j: int| 0 <= j < row.len() && #[trigger] row[j] == PlannedView::Existing(c),
    decreases row.len(),
{
    let rest = row.drop_last();
    if kept(rest).contains(c) {
        kept_is_entry(rest, c);
        let j = choose|j: int| 0 <= j < rest.len() && #[trigger] rest[j] == PlannedView::Existing(c);
        assert(row[j] == PlannedView::Existing(c));
    } else {
        match row.last() {
            PlannedView::Existing(d) => {
                let i = choose|i: int| 0 <= i < kept(row).len() && kept(row)[i] == c;
                if i < kept(rest).len() {
                    assert(kept(rest)[i] == c);
                }
                assert(row[row.len() - 1] == PlannedView::Existing(c));
            },
            PlannedView::New(..) => {},
        }
    }
}

/// Two places count twice.
proof fn two_places_count(
    nodes: Seq<NodeRecord>,
    lists: Map<u128, Seq<PlannedView>>,
    id: int,
    k: int,
    i: int,
    m: int,
    j: int,
    c: NodeId,
)
    requires
        linked(nodes),
        NodeRecord::below(nodes, id).contains(k),
        NodeRecord::below(nodes, id).contains(m),
        0 <= i < (Overlay { nodes, lists }).row(k).len(),
        (Overlay { nodes, lists }).row(k)[i] == PlannedView::Existing(c),
        0 <= j < (Overlay { nodes, lists }).row(m).len(),
        (Overlay { nodes, lists }).row(m)[j] == PlannedView::Existing(c),
        k != m || i != j,
    ensures
        places(nodes, lists, id).count(c) >= 2,
    decreases nodes.len() - id,
{
    broadcast use vstd::seq_lib::group_to_multiset_ensures;

    let kids = nodes[id].children;
    let o = Overlay { nodes, lists };
    if k == id && m == id {
        if i < j {
            kept_has_two(o.row(id), i, j, c);
        } else {
            kept_has_two(o.row(id), j, i, c);
        }
    } else if k == id {
        kept_has(o.row(id), i, c);
        below_child(nodes, id, m);
        let b = choose|b: int| 0 <= b < kids.len() && id < kids[b].0 < nodes.len()
            && #[trigger] NodeRecord::below(nodes, kids[b].0 as int).contains(m);
        place_counts(nodes, lists, kids[b].0 as int, m, j, c);
        row_places_has(nodes, lists, id, kids, b, c);
    } else if m == id {
        kept_has(o.row(id), j, c);
        below_child(nodes, id, k);
        let b = choose|b: int| 0 <= b < kids.len() && id < kids[b].0 < nodes.len()
            && #[trigger] NodeRecord::below(nodes, kids[b].0 as int).contains(k);
        place_counts(nodes, lists, kids[b].0 as int, k, i, c);
        row_places_has(nodes, lists, id, kids, b, c);
    } else {
        below_child(nodes, id, k);
        below_child(nodes, id, m);
        let a = choose|a: int| 0 <= a < kids.len() && id < kids[a].0 < nodes.len()
            && #[trigger] NodeRecord::below(nodes, kids[a].0 as int).contains(k);
        let b = choose|b: int| 0 <= b < kids.len() && id < kids[b].0 < nodes.len()
            && #[trigger] NodeRecord::below(nodes, kids[b].0 as int).contains(m);
        if a == b {
            two_places_count(nodes, lists, kids[a].0 as int, k, i, m, j, c);
            row_places_has(nodes, lists, id, kids, a, c);
        } else {
            place_counts(nodes, lists, kids[a].0 as int, k, i, c);
            place_counts(nodes, lists, kids[b].0 as int, m, j, c);
            if a < b {
                row_places_has_two(nodes, lists, id, kids, a, b, c);
            } else {
                row_places_has_two(nodes, lists, id, kids, b, a, c);
            }
        }
    }
}

/// What is below a node and not the node is below one of its children.
pub(crate) proof fn below_child(nodes: Seq<NodeRecord>, id: int, k: int)
    requires
        NodeRecord::below(nodes, id).contains(k),
        k != id,
    ensures
        exists|b: int|
            0 <= b < nodes[id].children.len() && id < nodes[id].children[b].0 < nodes.len()
                && #[trigger] NodeRecord::below(nodes, nodes[id].children[b].0 as int).contains(k),
{
    let kids = nodes[id].children;
    row_below_facts(nodes, id, kids, k);
    let d = choose|d: NodeId|
        kids.contains(d) && id < d.0 < nodes.len() && #[trigger] NodeRecord::below(
            nodes,
            d.0 as int,
        ).contains(k);
    let i = choose|i: int| 0 <= i < kids.len() && kids[i] == d;
    assert(NodeRecord::below(nodes, kids[i].0 as int).contains(k));
}

/// What counts stands in the child list of a node of the subtree.
pub(crate) proof fn counted_has_place(
    nodes: Seq<NodeRecord>,
    lists: Map<u128, Seq<PlannedView>>,
    id: int,
    c: NodeId,
)
    requires
        linked(nodes),
        0 <= id < nodes.len(),
        places(nodes, lists, id).count(c) >= 1,
    ensures
        exists|k: int, j: int|
            #[trigger] NodeRecord::below(nodes, id).contains(k) && 0 <= j < (Overlay {
                nodes,
                lists,
            }).row(k).len() && #[trigger] (Overlay { nodes, lists }).row(k)[j]
                == PlannedView::Existing(c),
    decreases nodes.len() - id, 1int, 0nat,
{
    broadcast use vstd::seq_lib::group_to_multiset_ensures;

    let o = Overlay { nodes, lists };
    let kids = nodes[id].children;
    assert(NodeRecord::below(nodes, id).contains(id));
    if kept(o.row(id)).to_multiset().count(c) >= 1 {
        assert(kept(o.row(id)).contains(c));
        kept_is_entry(o.row(id), c);
        let j = choose|j: int|
            0 <= j < o.row(id).len() && #[trigger] o.row(id)[j] == PlannedView::Existing(c);
        assert(NodeRecord::below(nodes, id).contains(id) && o.row(id)[j]
            == PlannedView::Existing(c));
    } else {
        counted_has_place_row(nodes, lists, id, kids, c);
        let b = choose|b: int|
            0 <= b < kids.len() && id < kids[b].0 < nodes.len() && #[trigger] places(
                nodes,
                lists,
                kids[b].0 as int,
            ).count(c) >= 1;
        counted_has_place(nodes, lists, kids[b].0 as int, c);
        let (k, j) = choose|k: int, j: int|
            #[trigger] NodeRecord::below(nodes, kids[b].0 as int).contains(k) && 0 <= j < o.row(
                k,
            ).len() && #[trigger] o.row(k)[j] == PlannedView::Existing(c);
        below_of_child(nodes, id, b, k);
        assert(NodeRecord::below(nodes, id).contains(k) && o.row(k)[j] == PlannedView::Existing(
            c,
        ));
    }
}

proof fn counted_has_place_row(
    nodes: Seq<NodeRecord>,
    lists: Map<u128, Seq<PlannedView>>,
    lo: int,
    row: Seq<NodeId>,
    c: NodeId,
)
    requires
        row_places(nodes, lists, lo, row).count(c) >= 1,
    ensures
        exists|b: int|
            0 <= b < row.len() && lo < row[b].0 < nodes.len() && #[trigger] places(
                nodes,
                lists,
                row[b].0 as int,
            ).count(c) >= 1,
    decreases row.len(),
{
    if row.len() > 0 {
        let rest = row.drop_last();
        let d = row.last();
        if lo < d.0 < nodes.len() && places(nodes, lists, d.0 as int).count(c) >= 1 {
            assert(row[row.len() - 1] == d);
            assert(places(nodes, lists, row[row.len() - 1].0 as int).count(c) >= 1);
        } else {
            counted_has_place_row(nodes, lists, lo, rest, c);
            let b = choose|b: int|
                0 <= b < rest.len() && lo < rest[b].0 < nodes.len() && #[trigger] places(
                    nodes,
                    lists,
                    rest[b].0 as int,
                ).count(c) >= 1;
            assert(row[b] == rest[b]);
            assert(places(nodes, lists, row[b].0 as int).count(c) >= 1);
        }
    }
}

/// The plan of the whole tree: every node below the root stands in one child
/// list or is removed, and removed subtrees get no lists.
pub(crate) proof fn whole_plan_holds(s: ArenaState, ops: Ops, feu: bool)
    requires
        s.wf(),
        s.coherent(),
        OpView::all_go_together(ops),
    ensures
        ({
            let root = s.root.0 as int;
            let lists = s.plan_lists(ops, feu);
            let stones = s.plan(ops, feu).tombstones;
            &&& linked(s.nodes)
            &&& lists_in(lists, NodeRecord::below(s.nodes, root))
            &&& stones_clear(s.nodes, stones, lists, NodeRecord::below(s.nodes, root))
            &&& places(s.nodes, lists, root).add(stones.to_multiset()) == places(
                s.nodes,
                no_lists(),
                root,
            )
            &&& crate::arena::plan::lists_behind(lists, 0, s.nodes)
        }),
{
    let root = s.root.0 as int;
    let nodes = s.nodes;
    let p = s.plan(ops, feu);
    let lists = s.plan_lists(ops, feu);
    assert(linked(nodes)) by {
        assert forall|q: int, i: int|
            0 <= q < nodes.len() && 0 <= i < nodes[q].children.len() implies {
            let c = (#[trigger] nodes[q].children[i]).0 as int;
            q < c < nodes.len() && nodes[c].parent == Some(NodeId(q as u32))
                && nodes[c].parent_idx == i
        } by {}
    }
    plan_holds(nodes, s.root, ops, s.dirty(ops), feu);
    assert(crate::arena::laws::kids_know(nodes)) by {
        assert forall|q: int, i: int|
            0 <= q < nodes.len() && 0 <= i < nodes[q].children.len() implies {
            let c = (#[trigger] nodes[q].children[i]).0 as int;
            q < c < nodes.len() && nodes[c].parent == Some(NodeId(q as u32))
        } by {}
    }
    crate::arena::laws::plan_sparse(nodes, s.root, ops, s.dirty(ops), feu);
    crate::arena::plan::plan_behind(nodes, s.root, ops, s.dirty(ops), feu);
    let none = Seq::<NodeId>::empty();
    none.to_multiset_ensures();
    assert(none.to_multiset() =~= Multiset::empty());
    if p.pre.len() == 0 && p.post.len() == 0 {
        assert(kept(p.pre) =~= none);
        assert(kept(p.post) =~= none);
        assert(places(nodes, lists, root).add(p.tombstones.to_multiset()) =~= kept(
            p.pre,
        ).to_multiset().add(kept(p.post).to_multiset()).add(
            places(nodes, p.children_of, root),
        ).add(p.tombstones.to_multiset()));
    } else {
        let row = p.children_of[s.root.key()];
        assert(p.children_of.contains_key(s.root.key()));
        assert(lists == p.children_of.insert(s.root.key(), p.pre + row + p.post));
        kept_concat(p.pre, row);
        kept_concat(p.pre + row, p.post);
        vstd::seq_lib::lemma_multiset_commutative(kept(p.pre), kept(row));
        vstd::seq_lib::lemma_multiset_commutative(kept(p.pre) + kept(row), kept(p.post));
        let kids = nodes[root].children;
        assert forall|k: int| #[trigger] NodeRecord::row_below(nodes, root, kids).contains(
            k,
        ) implies lists.contains_key(k as u128) == p.children_of.contains_key(k as u128) && (
        lists.contains_key(k as u128) ==> lists[k as u128] == p.children_of[k as u128]) by {
            row_below_facts(nodes, root, kids, k);
            let c = choose|c: NodeId|
                kids.contains(c) && root < c.0 < nodes.len() && #[trigger] NodeRecord::below(
                    nodes,
                    c.0 as int,
                ).contains(k);
            below_facts(nodes, c.0 as int, k);
        }
        row_places_frame(nodes, lists, p.children_of, root, kids);
        fold_balance(
            kept(p.pre).to_multiset(),
            kept(row).to_multiset(),
            kept(p.post).to_multiset(),
            row_places(nodes, lists, root, kids),
            p.tombstones.to_multiset(),
        );
        assert((Overlay { nodes, lists }).row(root) == p.pre + row + p.post);
        assert((Overlay { nodes, lists: p.children_of }).row(root) == row);
    }
}

proof fn fold_balance<A>(
    pre: Multiset<A>,
    row: Multiset<A>,
    post: Multiset<A>,
    below: Multiset<A>,
    gone: Multiset<A>,
)
    ensures
        pre.add(row).add(post).add(below).add(gone) == pre.add(post).add(row.add(below)).add(gone),
{
    broadcast use vstd::multiset::group_multiset_axioms;

    let l = pre.add(row).add(post).add(below).add(gone);
    let r = pre.add(post).add(row.add(below)).add(gone);
    assert forall|x: A| l.count(x) == r.count(x) by {
        assert(l.count(x) == pre.count(x) + row.count(x) + post.count(x) + below.count(x)
            + gone.count(x));
        assert(row.add(below).count(x) == row.count(x) + below.count(x));
        assert(r.count(x) == pre.count(x) + post.count(x) + row.add(below).count(x) + gone.count(
            x,
        ));
    }
    assert(l =~= r);
}

/// How many times a node stands in a list or is removed: once if it is below
/// the root, never otherwise.
pub(crate) proof fn once_each(s: ArenaState, ops: Ops, feu: bool, c: NodeId)
    requires
        s.wf(),
        s.coherent(),
        OpView::all_go_together(ops),
    ensures
        ({
            let root = s.root.0 as int;
            places(s.nodes, s.plan_lists(ops, feu), root).count(c) + s.plan(
                ops,
                feu,
            ).tombstones.to_multiset().count(c) == (if NodeRecord::below(s.nodes, root).contains(
                c.0 as int,
            ) && c.0 != root {
                1nat
            } else {
                0nat
            })
        }),
{
    broadcast use vstd::multiset::group_multiset_axioms;

    whole_plan_holds(s, ops, feu);
    one_place_each(s.nodes, s.root.0 as int, c);
    let root = s.root.0 as int;
    let l = places(s.nodes, s.plan_lists(ops, feu), root);
    let t = s.plan(ops, feu).tombstones.to_multiset();
    assert(l.add(t).count(c) == l.count(c) + t.count(c));
}

/// A list that keeps a node is the node's only place.
pub(crate) proof fn only_place(
    s: ArenaState,
    ops: Ops,
    feu: bool,
    k: u128,
    j: int,
    c: int,
)
    requires
        s.wf(),
        s.coherent(),
        OpView::all_go_together(ops),
        NodeRecord::listed(s.plan_lists(ops, feu), k, j, c),
        0 <= c < s.nodes.len(),
    ensures
        ({
            let lists = s.plan_lists(ops, feu);
            let o = Overlay { nodes: s.nodes, lists };
            &&& NodeRecord::below(s.nodes, s.root.0 as int).contains(c)
            &&& c != s.root.0
            &&& !s.plan(ops, feu).tombstones.contains(NodeId(c as u32))
            &&& forall|m: int, i: int|
                #[trigger] NodeRecord::below(s.nodes, s.root.0 as int).contains(m) && 0 <= i
                    < o.row(m).len() && #[trigger] o.row(m)[i] == PlannedView::Existing(
                    NodeId(c as u32),
                ) ==> m == k && i == j
        }),
{
    broadcast use vstd::seq_lib::group_to_multiset_ensures;

    let lists = s.plan_lists(ops, feu);
    let o = Overlay { nodes: s.nodes, lists };
    let root = s.root.0 as int;
    let id = NodeId(c as u32);
    whole_plan_holds(s, ops, feu);
    once_each(s, ops, feu, id);
    assert(NodeRecord::below(s.nodes, root).contains(k as int));
    below_facts(s.nodes, root, k as int);
    assert(o.row(k as int) == lists[k]);
    place_counts(s.nodes, lists, root, k as int, j, id);
    assert forall|m: int, i: int|
        #[trigger] NodeRecord::below(s.nodes, root).contains(m) && 0 <= i < o.row(m).len()
            && #[trigger] o.row(m)[i] == PlannedView::Existing(id) implies m == k && i == j by {
        if m != k || i != j {
            two_places_count(s.nodes, lists, root, k as int, j, m, i, id);
        }
    }
}

/// What holds of the spliced nodes of a commit.
pub(crate) open(crate) spec fn splices(s: ArenaState, ops: Ops, feu: bool, b: Seq<NodeRecord>) -> bool {
    &&& s.wf()
    &&& s.coherent()
    &&& OpView::all_go_together(ops)
    &&& b.len() <= u32::MAX
    &&& NodeRecord::kids_behind(b)
    &&& NodeRecord::installed(
        s.buried(s.plan(ops, feu).tombstones).nodes,
        s.plan_lists(ops, feu),
        s.file(),
        b,
    )
}

/// Every child knows its container and its place.
pub(crate) proof fn child_knows(s: ArenaState, ops: Ops, feu: bool, b: Seq<NodeRecord>, p: int, i: int)
    requires
        splices(s, ops, feu, b),
        0 <= p < b.len(),
        0 <= i < b[p].children.len(),
    ensures
        ({
            let c = b[p].children[i].0 as int;
            p < c < b.len() && b[c].parent == Some(NodeId(p as u32)) && b[c].parent_idx == i
        }),
{
    let a = s.nodes;
    let n = a.len() as int;
    let lists = s.plan_lists(ops, feu);
    let stones = s.plan(ops, feu).tombstones;
    let root = s.root.0 as int;
    let o = Overlay { nodes: a, lists };
    let buried = s.buried(stones).nodes;
    let c = b[p].children[i].0 as int;
    assert(p < b[p].children[i].0 < b.len());
    whole_plan_holds(s, ops, feu);
    if p < n {
        if lists.contains_key(p as u128) {
            let row = lists[p as u128];
            let kids = b[p].children;
            assert(NodeRecord::row_stands(row, n, s.file(), b, b[p].children));
            assert(NodeRecord::stands_for(row[i], n, s.file(), b, kids[i]));
            match row[i] {
                PlannedView::New(..) => {
                    assert(NodeRecord::new_hang(row, p, b, b[p].children));
                    assert(b[kids[i].0 as int].parent == Some(NodeId(p as u32)));
                },
                PlannedView::Existing(e) => {
                    assert(PlannedView::row_behind(row, p, a));
                    assert(e == NodeId(c as u32));
                    assert(NodeRecord::listed(lists, p as u128, i, c));
                    only_place(s, ops, feu, p as u128, i, c);
                    assert(NodeRecord::rehung(buried, lists, b, c));
                    let (k, j) = choose|k: u128, j: int|
                        #[trigger] NodeRecord::listed(lists, k, j, c) && b[c].parent == Some(
                            NodeId(k as u32),
                        ) && b[c].parent_idx == j;
                    assert(NodeRecord::below(a, root).contains(k as int));
                    assert(o.row(k as int)[j] == PlannedView::Existing(NodeId(c as u32)));
                },
            }
        } else {
            assert(b[p].children == buried[p].children);
            assert(a[p].children[i] == NodeId(c as u32));
            unlisted_child(s, ops, feu, p, i);
            assert(NodeRecord::rehung(buried, lists, b, c));
            assert(buried[c] == a[c]);
        }
    }
}

/// Every node stands in the place that it knows.
proof fn known_place(s: ArenaState, ops: Ops, feu: bool, b: Seq<NodeRecord>, c: int)
    requires
        splices(s, ops, feu, b),
        0 <= c < b.len(),
        b[c].parent is Some,
    ensures
        ({
            let p = (b[c].parent->0).0 as int;
            p < c && b[c].parent_idx < b[p].children.len() && b[p].children[b[c].parent_idx as int]
                == NodeId(c as u32)
        }),
{
    broadcast use vstd::seq_lib::group_to_multiset_ensures;

    let a = s.nodes;
    let n = a.len() as int;
    let lists = s.plan_lists(ops, feu);
    let stones = s.plan(ops, feu).tombstones;
    let root = s.root.0 as int;
    let o = Overlay { nodes: a, lists };
    let buried = s.buried(stones).nodes;
    let p = (b[c].parent->0).0 as int;
    let id = NodeId(c as u32);
    whole_plan_holds(s, ops, feu);
    if c >= n {
        let q = b[c].parent;
    } else {
        assert(NodeRecord::rehung(buried, lists, b, c));
        if exists|k: u128, j: int|
            #[trigger] NodeRecord::listed(lists, k, j, c) && b[c].parent == Some(NodeId(k as u32))
                && b[c].parent_idx == j {
            let (k, j) = choose|k: u128, j: int|
                #[trigger] NodeRecord::listed(lists, k, j, c) && b[c].parent == Some(
                    NodeId(k as u32),
                ) && b[c].parent_idx == j;
            assert(lists.contains_key(k));
            assert(k < n);
            assert(p == k);
            assert(NodeRecord::row_stands(lists[p as u128], n, s.file(), b, b[p].children));
            assert(NodeRecord::stands_for(
                lists[p as u128][j],
                n,
                s.file(),
                b,
                b[p].children[j],
            ));
            assert(PlannedView::row_behind(lists[k], k as int, a));
        } else {
            assert(b[c].parent == buried[c].parent);
            assert(!stones.contains(id));
            assert(a[c].parent == b[c].parent);
            assert(a[p].children[a[c].parent_idx as int] == id);
            if lists.contains_key(p as u128) {
                assert(NodeRecord::below(a, root).contains(p));
                assert(NodeRecord::below(a, c).contains(c));
                below_of_child(a, p, a[c].parent_idx as int, c);
                below_transitive(a, root, p, c);
                below_facts(a, root, p);
                once_each(s, ops, feu, id);
                assert(stones.to_multiset().count(id) == 0);
                counted_has_place(a, lists, root, id);
                let (k, j) = choose|k: int, j: int|
                    #[trigger] NodeRecord::below(a, root).contains(k) && 0 <= j < o.row(k).len()
                        && #[trigger] o.row(k)[j] == PlannedView::Existing(id);
                below_facts(a, root, k);
                if lists.contains_key(k as u128) {
                    assert(NodeRecord::listed(lists, k as u128, j, c));
                } else {
                    assert(a[k].children[j] == id);
                    assert(a[c].parent == Some(NodeId(k as u32)));
                }
            } else {
                assert(b[p].children == buried[p].children);
            }
        }
    }
}

/// A removed node hangs nowhere, nor does the root.
proof fn unhung(s: ArenaState, ops: Ops, feu: bool, b: Seq<NodeRecord>, t: NodeId)
    requires
        splices(s, ops, feu, b),
        t == s.root || s.plan(ops, feu).tombstones.contains(t),
        t.0 < s.nodes.len(),
    ensures
        b[t.0 as int].parent is None,
{
    let lists = s.plan_lists(ops, feu);
    let stones = s.plan(ops, feu).tombstones;
    let buried = s.buried(stones).nodes;
    let c = t.0 as int;
    assert(NodeId(c as u32) == t);
    assert(NodeRecord::rehung(buried, lists, b, c));
    if exists|k: u128, j: int| #[trigger] NodeRecord::listed(lists, k, j, c) {
        let (k, j) = choose|k: u128, j: int| #[trigger] NodeRecord::listed(lists, k, j, c);
        only_place(s, ops, feu, k, j, c);
    }
}

/// Whether a batch was staged and committed, edits that go together on a coherent
/// tree.
#[verifier::opaque]
pub(crate) open(crate) spec fn committed(
    s: ArenaState,
    ops: Ops,
    feu: bool,
    batch: StagedView,
    spliced: Seq<NodeRecord>,
    next: ArenaState,
) -> bool {
    &&& s.wf()
    &&& s.coherent()
    &&& OpView::all_go_together(ops)
    &&& s.stages(ops, feu, batch)
    &&& s.commits_via(batch, spliced, next)
    &&& next.wf()
}

/// The records behind a commit are those that the plan asks for.
pub(crate) proof fn commit_splices(
    s: ArenaState,
    ops: Ops,
    feu: bool,
    batch: StagedView,
    spliced: Seq<NodeRecord>,
    next: ArenaState,
)
    requires
        committed(s, ops, feu, batch, spliced, next),
    ensures
        splices(s, ops, feu, spliced),
{
    reveal(committed);
    let b = next.nodes;
    assert(NodeRecord::kids_behind(spliced)) by {
        assert forall|p: int, i: int|
            0 <= p < spliced.len() && 0 <= i < spliced[p].children.len() implies p < (
        #[trigger] spliced[p].children[i]).0 < spliced.len() by {
            assert(b[p].children == spliced[p].children);
            let c = b[p].children[i];
        }
    }
}

/// After a commit every child knows its parent and its place.
proof fn committed_child(
    s: ArenaState,
    ops: Ops,
    feu: bool,
    batch: StagedView,
    spliced: Seq<NodeRecord>,
    next: ArenaState,
    p: int,
    i: int,
)
    requires
        committed(s, ops, feu, batch, spliced, next),
        0 <= p < next.nodes.len(),
        0 <= i < next.nodes[p].children.len(),
    ensures
        ({
            let b = next.nodes;
            let c = b[p].children[i].0 as int;
            p < c < b.len() && b[c].parent == Some(NodeId(p as u32)) && b[c].parent_idx == i
        }),
{
    reveal(committed);
    let b = next.nodes;
    commit_splices(s, ops, feu, batch, spliced, next);
    assert(b[p].children == spliced[p].children);
    child_knows(s, ops, feu, spliced, p, i);
    let c = b[p].children[i].0 as int;
    assert(b[c].parent == spliced[c].parent);
}

/// After a commit every node with a parent is where it says.
proof fn committed_place(
    s: ArenaState,
    ops: Ops,
    feu: bool,
    batch: StagedView,
    spliced: Seq<NodeRecord>,
    next: ArenaState,
    c: int,
)
    requires
        committed(s, ops, feu, batch, spliced, next),
        0 <= c < next.nodes.len(),
        next.nodes[c].parent is Some,
    ensures
        ({
            let b = next.nodes;
            let p = (b[c].parent->0).0 as int;
            p < c && b[c].parent_idx < b[p].children.len() && b[p].children[b[c].parent_idx as int]
                == NodeId(c as u32)
        }),
{
    reveal(committed);
    let b = next.nodes;
    commit_splices(s, ops, feu, batch, spliced, next);
    assert(b[c].parent == spliced[c].parent);
    known_place(s, ops, feu, spliced, c);
    let p = (b[c].parent->0).0 as int;
    assert(b[p].children == spliced[p].children);
}

/// After a commit the root and the removed nodes hang nowhere.
proof fn committed_unhung(
    s: ArenaState,
    ops: Ops,
    feu: bool,
    batch: StagedView,
    spliced: Seq<NodeRecord>,
    next: ArenaState,
    t: NodeId,
)
    requires
        committed(s, ops, feu, batch, spliced, next),
        t == s.root || batch.tombstones.contains(t),
    ensures
        next.node(t).parent is None,
{
    reveal(committed);
    commit_splices(s, ops, feu, batch, spliced, next);
    crate::arena::plan::plan_behind(s.nodes, s.root, ops, s.dirty(ops), feu);
    unhung(s, ops, feu, spliced, t);
    assert(next.nodes[t.0 as int].parent == spliced[t.0 as int].parent);
}

/// The links after a commit agree.
proof fn committed_links(
    s: ArenaState,
    ops: Ops,
    feu: bool,
    batch: StagedView,
    spliced: Seq<NodeRecord>,
    next: ArenaState,
)
    requires
        committed(s, ops, feu, batch, spliced, next),
        next.root == s.root,
    ensures
        next.coherent(),
        forall|i: int|
            0 <= i < batch.tombstones.len() ==> next.node(
                #[trigger] batch.tombstones[i],
            ).parent is None,
{
    let b = next.nodes;
    assert forall|p: int, i: int|
        0 <= p < b.len() && 0 <= i < b[p].children.len() implies {
        let c = (#[trigger] b[p].children[i]).0 as int;
        p < c < b.len() && b[c].parent == Some(NodeId(p as u32)) && b[c].parent_idx == i
    } by {
        committed_child(s, ops, feu, batch, spliced, next, p, i);
    }
    assert forall|c: int| 0 <= c < b.len() && (#[trigger] b[c].parent) is Some implies {
        let p = (b[c].parent->0).0 as int;
        p < c && b[c].parent_idx < b[p].children.len() && b[p].children[b[c].parent_idx as int]
            == NodeId(c as u32)
    } by {
        committed_place(s, ops, feu, batch, spliced, next, c);
    }
    committed_unhung(s, ops, feu, batch, spliced, next, s.root);
    assert forall|i: int| 0 <= i < batch.tombstones.len() implies next.node(
        #[trigger] batch.tombstones[i],
    ).parent is None by {
        assert(batch.tombstones.contains(batch.tombstones[i]));
        committed_unhung(s, ops, feu, batch, spliced, next, batch.tombstones[i]);
    }
}

/// Committing a batch whose edits go together keeps the tree coherent, and cuts
/// off what the plan removes: a removed node hangs nowhere.
pub proof fn commit_keeps_coherence(
    s: ArenaState,
    ops: Ops,
    fix_even_unparsable: bool,
    batch: StagedView,
    spliced: Seq<NodeRecord>,
    next: ArenaState,
)
    requires
        s.wf(),
        s.coherent(),
        OpView::all_go_together(ops),
        s.stages(ops, fix_even_unparsable, batch),
        s.commits_via(batch, spliced, next),
        next.wf(),
    ensures
        next.coherent(),
        forall|i: int|
            0 <= i < batch.tombstones.len() ==> next.node(
                #[trigger] batch.tombstones[i],
            ).parent is None,
{
    assert(committed(s, ops, fix_even_unparsable, batch, spliced, next)) by {
        reveal(committed);
    }
    committed_links(s, ops, fix_even_unparsable, batch, spliced, next);
}

/// The child of a container without a list is in no list and is not removed.
proof fn unlisted_child(s: ArenaState, ops: Ops, feu: bool, p: int, i: int)
    requires
        s.wf(),
        s.coherent(),
        OpView::all_go_together(ops),
        0 <= p < s.nodes.len(),
        0 <= i < s.nodes[p].children.len(),
        !s.plan_lists(ops, feu).contains_key(p as u128),
    ensures
        ({
            let c = s.nodes[p].children[i];
            &&& !s.plan(ops, feu).tombstones.contains(c)
            &&& forall|k: u128, j: int|
                !(#[trigger] NodeRecord::listed(s.plan_lists(ops, feu), k, j, c.0 as int))
        }),
{
    broadcast use vstd::seq_lib::group_to_multiset_ensures;

    let a = s.nodes;
    let root = s.root.0 as int;
    let id = a[p].children[i];
    let c = id.0 as int;
    let lists = s.plan_lists(ops, feu);
    let stones = s.plan(ops, feu).tombstones;
    let o = Overlay { nodes: a, lists };
    whole_plan_holds(s, ops, feu);
    assert(a[c].parent == Some(NodeId(p as u32)));
    assert forall|k: u128, j: int| !(#[trigger] NodeRecord::listed(lists, k, j, c)) by {
        if NodeRecord::listed(lists, k, j, c) {
            only_place(s, ops, feu, k, j, c);
            below_facts(a, root, c);
            assert(NodeRecord::below(a, root).contains(p));
            assert(o.row(p) == PlannedView::kept_row(a[p].children));
            assert(o.row(p)[i] == PlannedView::Existing(id));
        }
    }
    if stones.contains(id) {
        once_each(s, ops, feu, id);
        assert(stones.to_multiset().count(id) > 0);
        below_facts(a, root, c);
        assert(NodeRecord::below(a, root).contains(p));
        assert(o.row(p) == PlannedView::kept_row(a[p].children));
        assert(o.row(p)[i] == PlannedView::Existing(id));
        place_counts(a, lists, root, p, i, id);
    }
}

/// What is below something below a node is below the node.
pub(crate) proof fn below_transitive(nodes: Seq<NodeRecord>, id: int, m: int, k: int)
    requires
        linked(nodes),
        NodeRecord::below(nodes, id).contains(m),
        NodeRecord::below(nodes, m).contains(k),
    ensures
        NodeRecord::below(nodes, id).contains(k),
    decreases nodes.len() - id,
{
    if m != id {
        below_child(nodes, id, m);
        let kids = nodes[id].children;
        let b = choose|b: int| 0 <= b < kids.len() && id < kids[b].0 < nodes.len()
            && #[trigger] NodeRecord::below(nodes, kids[b].0 as int).contains(m);
        below_transitive(nodes, kids[b].0 as int, m, k);
        below_of_child(nodes, id, b, k);
    }
}

/// A removed subtree still reads: committing leaves the tree below a removed
/// node as it was.
pub proof fn removed_still_read(
    s: ArenaState,
    ops: Ops,
    fix_even_unparsable: bool,
    batch: StagedView,
    spliced: Seq<NodeRecord>,
    next: ArenaState,
    i: int,
)
    requires
        s.wf(),
        s.coherent(),
        OpView::all_go_together(ops),
        s.stages(ops, fix_even_unparsable, batch),
        s.commits_via(batch, spliced, next),
        next.wf(),
        0 <= i < batch.tombstones.len(),
    ensures
        next.at(batch.tombstones[i]).unplaced() == s.at(batch.tombstones[i]).unplaced(),
        next.at(batch.tombstones[i]).raw() == s.at(batch.tombstones[i]).raw(),
{
    whole_plan_holds(s, ops, fix_even_unparsable);
    crate::arena::plan::plan_behind(
        s.nodes,
        s.root,
        ops,
        s.dirty(ops),
        fix_even_unparsable,
    );
    let t = batch.tombstones[i];
    let buried = s.buried(batch.tombstones).nodes;
    assert forall|k: int| #[trigger] NodeRecord::below(s.nodes, t.0 as int).contains(k) implies
        next.nodes[k].kind == s.nodes[k].kind && next.nodes[k].fixes == s.nodes[k].fixes
        && next.nodes[k].children == s.nodes[k].children by {
        assert(!batch.children_of.contains_key(k as u128));
        below_facts(s.nodes, t.0 as int, k);
        crate::arena::laws::commit_keeps_nodes(s, batch, spliced, next, NodeId(k as u32));
    }
    unplaced_frame(s.nodes, next.nodes, t.0 as int);
    crate::tree::raw_ignores_positions(s.at(t));
    crate::tree::raw_ignores_positions(next.at(t));
}

/// The tree without positions depends on payload and children only.
pub(crate) proof fn unplaced_frame(a: Seq<NodeRecord>, b: Seq<NodeRecord>, id: int)
    requires
        linked(a),
        0 <= id < a.len() <= b.len(),
        forall|k: int| #[trigger]
            NodeRecord::below(a, id).contains(k) ==> b[k].kind == a[k].kind && b[k].fixes
                == a[k].fixes && b[k].children == a[k].children,
    ensures
        NodeRecord::tree_of(b, id).unplaced() == NodeRecord::tree_of(a, id).unplaced(),
    decreases a.len() - id,
{
    let x = NodeRecord::tree_of(a, id).unplaced();
    let y = NodeRecord::tree_of(b, id).unplaced();
    assert(NodeRecord::below(a, id).contains(id));
    let kids = a[id].children;
    assert forall|i: int| 0 <= i < kids.len() implies x.children[i] == y.children[i] by {
        let c = a[id].children[i].0 as int;
        assert forall|k: int| #[trigger] NodeRecord::below(a, c).contains(k) implies b[k].kind
            == a[k].kind && b[k].fixes == a[k].fixes && b[k].children == a[k].children by {
            below_of_child(a, id, i, k);
        }
        unplaced_frame(a, b, c);
    }
    assert(x.children =~= y.children);
}

} // verus!
