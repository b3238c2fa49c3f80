//! What edits do to the tree: where the new segments stand, and which text comes out.

use vstd::prelude::*;

#[allow(unused_imports)]
use crate::arena::coherence::{
    below_child, below_facts, below_of_child, below_transitive, children_are_siblings, kept,
    linked, plan_holds, row_below_facts, row_below_has, row_plan_holds, sibling_row,
    siblings_apart, sub_ops,
};
#[allow(unused_imports)]
use crate::arena::laws::{planned_unheard, row_keeps, unheard, waits};
#[allow(unused_imports)]
use crate::arena::overlay::Overlay;
#[allow(unused_imports)]
use crate::arena::plan::{
    Ops, Parted, RowPlanView, SpecPlan, SpecRowPlan, SpecSpliced, Spliced, SubPlanView,
};
#[allow(unused_imports)]
use crate::arena::state::{ArenaState, NodeId, NodeRecord, PlannedView};
#[allow(unused_imports)]
use crate::edit::{EditKind, EditOp, OpView, SpecTree};
#[allow(unused_imports)]
use crate::revalidate::changes_types;
#[allow(unused_imports)]
use crate::tree::Tree;

verus! {

/// One edit anchored at the `i`-th of a row of children. The others stay as they are
/// and where they are. New segments stand before the anchor, behind it or in its
/// place, in the order in which the edit brings them. A segment that replaces the
/// anchor takes over its position where it is the first with the anchor's text.
pub proof fn one_edit_in_place(
    nodes: Seq<NodeRecord>,
    kids: Seq<NodeId>,
    u: u128,
    op: OpView,
    i: int,
)
    requires
        0 <= i < kids.len(),
        forall|j: int|
            0 <= j < kids.len() ==> (nodes[(#[trigger] kids[j]).0 as int].uuid == u <==> j == i),
    ensures
        ({
            let s = Spliced::of(nodes, kids, map![u => seq![op]]);
            let anchor = NodeRecord::tree_of(nodes, kids[i].0 as int);
            let k = op.edits.len() as int;
            // How many entries stand in for the anchor.
            let n = match op.kind {
                EditKind::Delete => 0,
                EditKind::Replace => k,
                EditKind::CreateBefore => k + 1,
                EditKind::CreateAfter => k + 1,
            };
            &&& s.row.len() == kids.len() - 1 + n
            &&& forall|j: int|
                0 <= j < i ==> #[trigger] s.row[j] == PlannedView::Existing(kids[j])
            &&& forall|j: int|
                i + n <= j < s.row.len() ==> #[trigger] s.row[j] == PlannedView::Existing(
                    kids[j - n + 1],
                )
            &&& op.kind == EditKind::CreateBefore ==> s.row[i + k] == PlannedView::Existing(
                kids[i],
            ) && forall|m: int|
                i <= m < i + k ==> #[trigger] s.row[m] == PlannedView::New(op.edits[m - i], None)
            &&& op.kind == EditKind::CreateAfter ==> s.row[i] == PlannedView::Existing(kids[i])
                && forall|m: int|
                i + 1 <= m < i + 1 + k ==> #[trigger] s.row[m] == PlannedView::New(
                    op.edits[m - i - 1],
                    None,
                )
            &&& op.kind == EditKind::Replace ==> forall|m: int|
                i <= m < i + k ==> #[trigger] s.row[m] == PlannedView::New(
                    op.edits[m - i],
                    if op.edits[m - i].raw() == anchor.raw() && forall|l: int|
                        0 <= l < m - i ==> (#[trigger] op.edits[l]).raw() != anchor.raw() {
                        anchor.marker
                    } else {
                        None
                    },
                )
            &&& s.tombstones == (if op.kind == EditKind::Delete || op.kind == EditKind::Replace {
                seq![kids[i]]
            } else {
                Seq::empty()
            })
            &&& s.hit
            &&& s.applied == 1
            &&& s.ops == Map::<u128, Seq<OpView>>::empty()
            &&& s.may_break == changes_types(op, anchor.kind.type_list().to_set())
        }),
{
    let ops: Ops = map![u => seq![op]];
    let list = seq![op];
    let c = kids[i];
    let tree = NodeRecord::tree_of(nodes, c.0 as int);
    splice_untouched(nodes, kids.take(i), ops);
    let first = Spliced::of(nodes, kids.take(i), ops);
    assert(kids.take(i + 1).drop_last() =~= kids.take(i));
    assert(kids.take(i + 1).last() == c);
    let mid = Spliced::of(nodes, kids.take(i + 1), ops);
    assert(ops[u] == list);
    assert(OpView::paired(list) == list);
    assert(list.drop_last() =~= Seq::empty());
    let piece = op.row(c, tree, 1);
    assert(OpView::rows(list.drop_last(), c, tree, 1) =~= Seq::empty());
    assert(list.last() == op);
    assert(OpView::rows(list, c, tree, 1) =~= piece);
    assert(OpView::removed(list.drop_last(), c) =~= Seq::empty());
    assert(mid.row =~= first.row + piece);
    assert(mid.tombstones =~= first.tombstones + OpView::removed(list, c));
    splice_more(nodes, kids, i + 1, ops);
    let s = Spliced::of(nodes, kids, ops);
    let rest = kids.skip(i + 1);
    assert(s.row =~= mid.row + PlannedView::kept_row(rest));
    assert(s.ops =~= Map::<u128, Seq<OpView>>::empty());
    let types = tree.kind.type_list().to_set();
    assert(list[0].may_break(types) == changes_types(op, types));
    let k = op.edits.len() as int;
    assert forall|m: int| op.kind == EditKind::Replace && i <= m < i + k implies #[trigger] s.row[m]
        == PlannedView::New(
        op.edits[m - i],
        if op.edits[m - i].raw() == tree.raw() && forall|l: int|
            0 <= l < m - i ==> (#[trigger] op.edits[l]).raw() != tree.raw() {
            tree.marker
        } else {
            None
        },
    ) by {
        assert(s.row[m] == piece[m - i]);
    }
}

/// Where no edit is anchored at the children, they stay as they are.
proof fn splice_untouched(nodes: Seq<NodeRecord>, kids: Seq<NodeId>, ops: Ops)
    requires
        forall|j: int|
            0 <= j < kids.len() ==> !ops.contains_key(nodes[(#[trigger] kids[j]).0 as int].uuid),
    ensures
        ({
            let s = Spliced::of(nodes, kids, ops);
            &&& s.row == PlannedView::kept_row(kids)
            &&& s.tombstones.len() == 0
            &&& s.applied == 0
            &&& !s.hit
            &&& !s.may_break
            &&& s.ops == ops
        }),
    decreases kids.len(),
{
    if kids.len() > 0 {
        let rest = kids.drop_last();
        assert forall|j: int| 0 <= j < rest.len() implies !ops.contains_key(
            nodes[(#[trigger] rest[j]).0 as int].uuid,
        ) by {
            assert(rest[j] == kids[j]);
        }
        splice_untouched(nodes, rest, ops);
        assert(kids[kids.len() - 1] == kids.last());
        assert(Spliced::of(nodes, kids, ops).row =~= PlannedView::kept_row(kids));
    } else {
        assert(Spliced::of(nodes, kids, ops).row =~= PlannedView::kept_row(kids));
    }
}

/// Children behind the first `n` at which no edit is left stay as they are.
proof fn splice_more(nodes: Seq<NodeRecord>, kids: Seq<NodeId>, n: int, ops: Ops)
    requires
        0 <= n <= kids.len(),
        forall|j: int|
            n <= j < kids.len() ==> !Spliced::of(nodes, kids.take(n), ops).ops.contains_key(
                nodes[(#[trigger] kids[j]).0 as int].uuid,
            ),
    ensures
        Spliced::of(nodes, kids, ops) == (Spliced {
            row: Spliced::of(nodes, kids.take(n), ops).row + PlannedView::kept_row(kids.skip(n)),
            ..Spliced::of(nodes, kids.take(n), ops)
        }),
    decreases kids.len(),
{
    let first = Spliced::of(nodes, kids.take(n), ops);
    if n == kids.len() {
        assert(kids.take(n) =~= kids);
        assert(first.row + PlannedView::kept_row(kids.skip(n)) =~= first.row);
    } else {
        let rest = kids.drop_last();
        assert(rest.take(n) =~= kids.take(n));
        assert forall|j: int| n <= j < rest.len() implies !Spliced::of(
            nodes,
            rest.take(n),
            ops,
        ).ops.contains_key(nodes[(#[trigger] rest[j]).0 as int].uuid) by {
            assert(rest[j] == kids[j]);
        }
        splice_more(nodes, rest, n, ops);
        assert(kids[kids.len() - 1] == kids.last());
        assert(PlannedView::kept_row(rest.skip(n)).push(PlannedView::Existing(kids.last()))
            =~= PlannedView::kept_row(kids.skip(n)));
        assert((first.row + PlannedView::kept_row(rest.skip(n))).push(
            PlannedView::Existing(kids.last()),
        ) =~= first.row + PlannedView::kept_row(kids.skip(n)));
    }
}

impl OpView {
    /// The text of the segments that the edit brings.
    pub open spec fn brought(self) -> Seq<char> {
        SpecTree::raws(self.edits)
    }
}

/// The edits anchored at a uuid.
pub open spec fn edits_at(ops: Ops, u: u128) -> Seq<OpView> {
    if ops.contains_key(u) {
        ops[u]
    } else {
        Seq::empty()
    }
}

/// What the edits of one anchor make of a text: a deletion leaves nothing of it, a
/// replacement puts the new text in its place, and an edit that creates puts the new
/// text before or behind it.
pub open spec fn edited(list: Seq<OpView>, own: Seq<char>) -> Seq<char> {
    if list.len() == 0 {
        own
    } else if list.len() == 1 {
        match list[0].kind {
            EditKind::Delete => Seq::empty(),
            EditKind::Replace => list[0].brought(),
            EditKind::CreateBefore => list[0].brought() + own,
            EditKind::CreateAfter => own + list[0].brought(),
        }
    } else if list[0].kind == EditKind::CreateBefore {
        list[0].brought() + own + list[1].brought()
    } else {
        list[1].brought() + own + list[0].brought()
    }
}

/// The text of a node with the edits anchored below it.
pub open spec fn text_with(nodes: Seq<NodeRecord>, ops: Ops, id: int) -> Seq<char>
    decreases nodes.len() - id, 1int, 0nat,
{
    if 0 <= id < nodes.len() && nodes[id].children.len() > 0 {
        row_text_with(nodes, ops, id, nodes[id].children)
    } else {
        NodeRecord::tree_of(nodes, id).raw()
    }
}

/// The texts of children of `lo`, one behind the other, each as the edits anchored at
/// it and below it leave it.
pub open spec fn row_text_with(nodes: Seq<NodeRecord>, ops: Ops, lo: int, row: Seq<NodeId>) -> Seq<
    char,
>
    decreases nodes.len() - lo, 0int, row.len(),
{
    if row.len() == 0 {
        Seq::empty()
    } else {
        let before = row_text_with(nodes, ops, lo, row.drop_last());
        let c = row.last().0 as int;
        if lo < c < nodes.len() {
            before + edited(edits_at(ops, nodes[c].uuid), text_with(nodes, ops, c))
        } else {
            before
        }
    }
}

/// The text of planned entries, kept nodes with the edits anchored below them.
spec fn entries_text(nodes: Seq<NodeRecord>, ops: Ops, row: Seq<PlannedView>) -> Seq<char>
    decreases row.len(),
{
    if row.len() == 0 {
        Seq::empty()
    } else {
        entries_text(nodes, ops, row.drop_last()) + match row.last() {
            PlannedView::Existing(c) => text_with(nodes, ops, c.0 as int),
            PlannedView::New(spec, _) => spec.raw(),
        }
    }
}

proof fn entries_sum(nodes: Seq<NodeRecord>, ops: Ops, a: Seq<PlannedView>, b: Seq<PlannedView>)
    ensures
        entries_text(nodes, ops, a + b) == entries_text(nodes, ops, a) + entries_text(
            nodes,
            ops,
            b,
        ),
    decreases b.len(),
{
    if b.len() == 0 {
        assert(a + b =~= a);
        assert(entries_text(nodes, ops, a) + entries_text(nodes, ops, b) =~= entries_text(
            nodes,
            ops,
            a,
        ));
    } else {
        assert((a + b).drop_last() =~= a + b.drop_last());
        entries_sum(nodes, ops, a, b.drop_last());
        assert(entries_text(nodes, ops, a + b) =~= entries_text(nodes, ops, a) + entries_text(
            nodes,
            ops,
            b,
        ));
    }
}

proof fn entries_new(nodes: Seq<NodeRecord>, ops: Ops, row: Seq<PlannedView>, edits: Seq<SpecTree>)
    requires
        row.len() == edits.len(),
        forall|i: int|
            0 <= i < row.len() ==> (#[trigger] row[i]) is New && row[i]->New_0 == edits[i],
    ensures
        entries_text(nodes, ops, row) == SpecTree::raws(edits),
    decreases row.len(),
{
    if row.len() > 0 {
        assert forall|i: int| 0 <= i < row.drop_last().len() implies (
        #[trigger] row.drop_last()[i]) is New && row.drop_last()[i]->New_0
            == edits.drop_last()[i] by {
            assert(row[i] is New);
        }
        entries_new(nodes, ops, row.drop_last(), edits.drop_last());
        assert(row[row.len() - 1] is New);
    }
}

proof fn entries_one(nodes: Seq<NodeRecord>, ops: Ops, e: PlannedView)
    ensures
        entries_text(nodes, ops, seq![e]) == match e {
            PlannedView::Existing(c) => text_with(nodes, ops, c.0 as int),
            PlannedView::New(spec, _) => spec.raw(),
        },
{
    assert(seq![e].drop_last() =~= Seq::empty());
    assert(entries_text(nodes, ops, seq![e].drop_last()) =~= Seq::empty());
    assert(entries_text(nodes, ops, seq![e]) =~= match e {
        PlannedView::Existing(c) => text_with(nodes, ops, c.0 as int),
        PlannedView::New(spec, _) => spec.raw(),
    });
}

/// The text of what one edit out of `n` leaves in the place of its anchor.
proof fn row_text_of(nodes: Seq<NodeRecord>, ops: Ops, op: OpView, c: NodeId, tree: Tree, n: nat)
    ensures
        ({
            let own = text_with(nodes, ops, c.0 as int);
            entries_text(nodes, ops, op.row(c, tree, n)) == match op.kind {
                EditKind::Delete => Seq::empty(),
                EditKind::Replace => op.brought(),
                EditKind::CreateBefore => op.brought() + own,
                EditKind::CreateAfter => if n == 1 {
                    own + op.brought()
                } else {
                    op.brought()
                },
            }
        }),
{
    let fresh = PlannedView::fresh_row(op.edits);
    let one = seq![PlannedView::Existing(c)];
    entries_new(nodes, ops, fresh, op.edits);
    entries_one(nodes, ops, PlannedView::Existing(c));
    match op.kind {
        EditKind::Delete => {},
        EditKind::Replace => {
            entries_new(nodes, ops, op.row(c, tree, n), op.edits);
        },
        EditKind::CreateBefore => {
            assert(op.row(c, tree, n) =~= fresh + one);
            entries_sum(nodes, ops, fresh, one);
        },
        EditKind::CreateAfter => {
            entries_sum(nodes, ops, one, fresh);
        },
    }
}

/// The text of what the edits of one anchor leave in its place.
proof fn rows_text_of(nodes: Seq<NodeRecord>, ops: Ops, list: Seq<OpView>, c: NodeId, tree: Tree)
    requires
        OpView::go_together(list),
    ensures
        ({
            let l = OpView::paired(list);
            entries_text(nodes, ops, OpView::rows(l, c, tree, l.len())) == edited(
                list,
                text_with(nodes, ops, c.0 as int),
            )
        }),
{
    let l = OpView::paired(list);
    let n = l.len();
    let none = Seq::<OpView>::empty();
    assert(OpView::rows(none, c, tree, n) =~= Seq::empty());
    if n == 1 {
        assert(l.drop_last() =~= none);
        assert(OpView::rows(l, c, tree, n) =~= l[0].row(c, tree, n));
        row_text_of(nodes, ops, l[0], c, tree, n);
    } else {
        let first = seq![l[0]];
        assert(l.drop_last() =~= first);
        assert(first.drop_last() =~= none);
        assert(OpView::rows(first, c, tree, n) =~= l[0].row(c, tree, n));
        assert(OpView::rows(l, c, tree, n) == l[0].row(c, tree, n) + l[1].row(c, tree, n));
        row_text_of(nodes, ops, l[0], c, tree, n);
        row_text_of(nodes, ops, l[1], c, tree, n);
        entries_sum(nodes, ops, l[0].row(c, tree, n), l[1].row(c, tree, n));
    }
}

/// Splicing uses up nothing but the edits anchored at the children.
proof fn splice_leaves(nodes: Seq<NodeRecord>, kids: Seq<NodeId>, ops: Ops, u: u128)
    requires
        forall|i: int| 0 <= i < kids.len() ==> nodes[(#[trigger] kids[i]).0 as int].uuid != u,
    ensures
        same_at(Spliced::of(nodes, kids, ops).ops, ops, u),
    decreases kids.len(),
{
    if kids.len() > 0 {
        let rest = kids.drop_last();
        assert forall|i: int| 0 <= i < rest.len() implies nodes[(
        #[trigger] rest[i]).0 as int].uuid != u by {
            assert(rest[i] == kids[i]);
        }
        splice_leaves(nodes, rest, ops, u);
        assert(kids[kids.len() - 1] == kids.last());
    }
}

/// Whether two batches have the same edits at a uuid.
spec fn same_at(a: Ops, b: Ops, u: u128) -> bool {
    a.contains_key(u) == b.contains_key(u) && (a.contains_key(u) ==> a[u] == b[u])
}

/// The text of the spliced children is that of the children, each as its edits leave
/// it.
proof fn splice_text(
    nodes: Seq<NodeRecord>,
    base: Ops,
    lo: int,
    kids: Seq<NodeId>,
    ops: Ops,
)
    requires
        OpView::all_go_together(base),
        forall|i: int| 0 <= i < kids.len() ==> lo < (#[trigger] kids[i]).0 < nodes.len(),
        forall|i: int, j: int|
            0 <= i < j < kids.len() ==> nodes[(#[trigger] kids[i]).0 as int].uuid != nodes[(
            #[trigger] kids[j]).0 as int].uuid,
        forall|i: int|
            0 <= i < kids.len() ==> same_at(
                ops,
                base,
                nodes[(#[trigger] kids[i]).0 as int].uuid,
            ),
    ensures
        entries_text(nodes, base, Spliced::of(nodes, kids, ops).row) == row_text_with(
            nodes,
            base,
            lo,
            kids,
        ),
    decreases kids.len(),
{
    if kids.len() > 0 {
        let rest = kids.drop_last();
        let c = kids[kids.len() - 1];
        assert(kids.last() == c);
        let u = nodes[c.0 as int].uuid;
        assert forall|i: int| 0 <= i < rest.len() implies lo < (#[trigger] rest[i]).0 < nodes.len()
            && same_at(ops, base, nodes[rest[i].0 as int].uuid) && nodes[rest[i].0 as int].uuid
            != u by {
            assert(rest[i] == kids[i]);
        }
        assert forall|i: int, j: int| 0 <= i < j < rest.len() implies nodes[(
        #[trigger] rest[i]).0 as int].uuid != nodes[(#[trigger] rest[j]).0 as int].uuid by {
            assert(rest[i] == kids[i] && rest[j] == kids[j]);
        }
        splice_text(nodes, base, lo, rest, ops);
        splice_leaves(nodes, rest, ops, u);
        let s = Spliced::of(nodes, rest, ops);
        let tree = NodeRecord::tree_of(nodes, c.0 as int);
        assert(same_at(ops, base, u));
        if s.ops.contains_key(u) {
            let list = base[u];
            let l = OpView::paired(list);
            assert(OpView::go_together(list));
            rows_text_of(nodes, base, list, c, tree);
            entries_sum(nodes, base, s.row, OpView::rows(l, c, tree, l.len()));
        } else {
            let one = seq![PlannedView::Existing(c)];
            entries_one(nodes, base, PlannedView::Existing(c));
            entries_sum(nodes, base, s.row, one);
            assert(s.row.push(PlannedView::Existing(c)) =~= s.row + one);
        }
    }
}

/// Whether the segments that a batch brings can be taken as they come: only segments
/// and what did not parse have children in them, and no other edit is anchored inside.
pub open spec fn brings_plain(ops: Ops) -> bool {
    forall|v: u128, i: int, j: int|
        ops.contains_key(v) && 0 <= i < ops[v].len() && 0 <= j < ops[v][i].edits.len()
            ==> free_of(#[trigger] ops[v][i].edits[j], ops, v)
}

/// Whether only segments and what did not parse have children in a segment to be
/// created, and only edits at `but` are anchored inside.
pub open spec fn free_of(spec: SpecTree, ops: Ops, but: u128) -> bool {
    spec.proper() && forall|u: u128| #[trigger]
        ops.contains_key(u) && u != but ==> !spec.uuids().contains(u)
}

/// Whether no edit is anchored inside a segment to be created.
spec fn clear(spec: SpecTree, ops: Ops) -> bool {
    spec.proper() && forall|u: u128| #[trigger] ops.contains_key(u) ==> !spec.uuids().contains(u)
}

spec fn row_clear(row: Seq<PlannedView>, ops: Ops) -> bool {
    forall|i: int|
        0 <= i < row.len() && (#[trigger] row[i]) is New ==> clear(row[i]->New_0, ops)
}

proof fn clear_rest(row: Seq<PlannedView>, ops: Ops)
    requires
        row_clear(row, ops),
        row.len() > 0,
    ensures
        row_clear(row.drop_last(), ops),
{
    let rest = row.drop_last();
    assert forall|i: int| 0 <= i < rest.len() && (#[trigger] rest[i]) is New implies clear(
        rest[i]->New_0,
        ops,
    ) by {
        assert(rest[i] == row[i]);
    }
}

proof fn fewer_ops(a: Ops, b: Ops)
    requires
        sub_ops(a, b),
        b.dom().finite(),
        brings_plain(b),
    ensures
        a.dom().finite(),
        brings_plain(a),
{
    assert forall|u: u128| #[trigger] a.dom().contains(u) implies b.dom().contains(u) by {
        assert(a.contains_key(u));
    }
    vstd::set_lib::lemma_len_subset(a.dom(), b.dom());
    assert forall|v: u128, i: int, j: int|
        a.contains_key(v) && 0 <= i < a[v].len() && 0 <= j < a[v][i].edits.len() implies free_of(
        #[trigger] a[v][i].edits[j],
        a,
        v,
    ) by {
        assert(free_of(b[v][i].edits[j], b, v));
        assert forall|u: u128| #[trigger] a.contains_key(u) && u != v implies !a[v][i].edits[j].uuids().contains(
        u) by {
            assert(b.contains_key(u));
        }
    }
}

proof fn still_clear(spec: SpecTree, a: Ops, b: Ops)
    requires
        sub_ops(a, b),
        clear(spec, b),
    ensures
        clear(spec, a),
{
    assert forall|u: u128| #[trigger] a.contains_key(u) implies !spec.uuids().contains(u) by {
        assert(b.contains_key(u));
    }
}

proof fn spec_raws_sum(a: Seq<SpecTree>, b: Seq<SpecTree>)
    ensures
        SpecTree::raws(a + b) == SpecTree::raws(a) + SpecTree::raws(b),
    decreases b.len(),
{
    if b.len() == 0 {
        assert(a + b =~= a);
        assert(SpecTree::raws(a) + SpecTree::raws(b) =~= SpecTree::raws(a));
    } else {
        assert((a + b).drop_last() =~= a + b.drop_last());
        spec_raws_sum(a, b.drop_last());
        assert(SpecTree::raws(a + b) =~= SpecTree::raws(a) + SpecTree::raws(b));
    }
}

proof fn spec_raws_one(s: SpecTree)
    ensures
        SpecTree::raws(seq![s]) == s.raw(),
{
    assert(seq![s].drop_last() =~= Seq::empty());
    assert(SpecTree::raws(seq![s].drop_last()) =~= Seq::empty());
    assert(SpecTree::raws(seq![s]) =~= s.raw());
}

proof fn clear_child(spec: SpecTree, ops: Ops, i: int)
    requires
        clear(spec, ops),
        0 <= i < spec.children.len(),
    ensures
        clear(spec.children[i], ops),
        !ops.contains_key(spec.children[i].uuid),
{
    let c = spec.children[i];
    assert forall|u: u128| #[trigger] ops.contains_key(u) implies !c.uuids().contains(u) by {
        crate::arena::laws::uuids_of_row(spec.children, u);
        assert(!spec.uuids().contains(u));
    }
    assert(c.uuids().contains(c.uuid));
}

proof fn spec_splice_clear(kids: Seq<SpecTree>, ops: Ops)
    requires
        forall|i: int| 0 <= i < kids.len() ==> !ops.contains_key((#[trigger] kids[i]).uuid),
    ensures
        SpecSpliced::of(kids, ops).row == kids,
        SpecSpliced::of(kids, ops).ops == ops,
    decreases kids.len(),
{
    if kids.len() > 0 {
        let rest = kids.drop_last();
        assert forall|i: int| 0 <= i < rest.len() implies !ops.contains_key(
            (#[trigger] rest[i]).uuid,
        ) by {
            assert(rest[i] == kids[i]);
        }
        spec_splice_clear(rest, ops);
        assert(kids[kids.len() - 1] == kids.last());
        assert(rest.push(kids.last()) =~= kids);
    } else {
        assert(SpecSpliced::of(kids, ops).row =~= kids);
    }
}

/// A segment to be created inside which no edit is anchored keeps its text, in itself
/// and in what moves out of it.
proof fn spec_plan_text(spec: SpecTree, ops: Ops)
    requires
        clear(spec, ops),
        ops.dom().finite(),
    ensures
        ({
            let p = SpecPlan::of(spec, ops);
            &&& p.ops == ops
            &&& SpecTree::raws(p.pre) + p.spec.raw() + SpecTree::raws(p.post) == spec.raw()
        }),
    decreases ops.dom().len(), spec, 1int,
{
    let p = SpecPlan::of(spec, ops);
    if spec.children.len() == 0 || ops.dom().len() == 0 {
        assert(SpecTree::raws(p.pre) + p.spec.raw() + SpecTree::raws(p.post) =~= spec.raw());
    } else {
        assert forall|i: int| 0 <= i < spec.children.len() implies !ops.contains_key(
            (#[trigger] spec.children[i]).uuid,
        ) by {
            clear_child(spec, ops, i);
        }
        spec_splice_clear(spec.children, ops);
        assert forall|i: int| 0 <= i < spec.children.len() implies clear(
            #[trigger] spec.children[i],
            ops,
        ) by {
            clear_child(spec, ops, i);
        }
        spec_row_text(spec.children, ops);
        let r = SpecRowPlan::of(spec.children, ops);
        let flags = crate::arena::plan::spec_end_flags(r.row);
        crate::arena::coherence::parts_whole(r.row, flags);
        let parts = Parted::of(r.row, flags);
        spec_raws_sum(parts.pre, parts.mid);
        spec_raws_sum(parts.pre + parts.mid, parts.post);
        assert(spec.kind is Segment || spec.kind is Unparsable);
        assert(p.spec.raw() == SpecTree::raws(parts.mid));
    }
}

proof fn spec_row_text(row: Seq<SpecTree>, ops: Ops)
    requires
        forall|i: int| 0 <= i < row.len() ==> clear(#[trigger] row[i], ops),
        ops.dom().finite(),
    ensures
        SpecRowPlan::of(row, ops).ops == ops,
        SpecTree::raws(SpecRowPlan::of(row, ops).row) == SpecTree::raws(row),
    decreases ops.dom().len(), row, 0int,
{
    if row.len() > 0 {
        let rest = row.drop_last();
        assert forall|i: int| 0 <= i < rest.len() implies clear(#[trigger] rest[i], ops) by {
            assert(rest[i] == row[i]);
        }
        spec_row_text(rest, ops);
        let r = SpecRowPlan::of(rest, ops);
        let last = row[row.len() - 1];
        assert(clear(row[row.len() - 1], ops));
        assert(row.last() == last);
        spec_plan_text(row.last(), ops);
        let s = SpecPlan::of(row.last(), ops);
        spec_raws_sum(r.row, s.pre);
        spec_raws_sum(r.row + s.pre, seq![s.spec]);
        spec_raws_sum(r.row + s.pre + seq![s.spec], s.post);
        spec_raws_one(s.spec);
        let before = SpecTree::raws(rest);
        assert(before + SpecTree::raws(s.pre) + s.spec.raw() + SpecTree::raws(s.post) =~= before + (
        SpecTree::raws(s.pre) + s.spec.raw() + SpecTree::raws(s.post)));
    }
}

/// What splicing brings holds no anchor of an edit that is left.
proof fn splice_clear(nodes: Seq<NodeRecord>, kids: Seq<NodeId>, ops: Ops)
    requires
        brings_plain(ops),
    ensures
        row_clear(Spliced::of(nodes, kids, ops).row, Spliced::of(nodes, kids, ops).ops),
        sub_ops(Spliced::of(nodes, kids, ops).ops, ops),
    decreases kids.len(),
{
    if kids.len() > 0 {
        let rest = kids.drop_last();
        splice_clear(nodes, rest, ops);
        let s = Spliced::of(nodes, rest, ops);
        let t = Spliced::of(nodes, kids, ops);
        let c = kids.last();
        let v = nodes[c.0 as int].uuid;
        if s.ops.contains_key(v) {
            let list = s.ops[v];
            let l = OpView::paired(list);
            let tree = NodeRecord::tree_of(nodes, c.0 as int);
            assert(list == ops[v]);
            assert forall|i: int, j: int| 0 <= i < l.len() && 0 <= j < l[i].edits.len() implies clear(
                #[trigger] l[i].edits[j],
                t.ops,
            ) by {
                let m = if list.len() == 2 && list[0].kind == EditKind::CreateAfter {
                    1 - i
                } else {
                    i
                };
                assert(l[i] == ops[v][m]);
                let spec = ops[v][m].edits[j];
                assert(free_of(ops[v][m].edits[j], ops, v));
                assert forall|u: u128| #[trigger] t.ops.contains_key(u) implies !spec.uuids().contains(
                u) by {
                    assert(s.ops.contains_key(u));
                    assert(ops.contains_key(u) && u != v);
                }
            }
            rows_clear(l, c, tree, l.len(), t.ops);
            let more = OpView::rows(l, c, tree, l.len());
            assert(t.row == s.row + more);
            assert(sub_ops(t.ops, s.ops));
            assert forall|i: int| 0 <= i < t.row.len() && (#[trigger] t.row[i]) is New implies clear(
                t.row[i]->New_0,
                t.ops,
            ) by {
                if i < s.row.len() {
                    assert(t.row[i] == s.row[i]);
                    still_clear(s.row[i]->New_0, t.ops, s.ops);
                } else {
                    assert(t.row[i] == more[i - s.row.len()]);
                }
            }
        }
    }
}

proof fn rows_clear(list: Seq<OpView>, c: NodeId, tree: Tree, n: nat, ops: Ops)
    requires
        forall|i: int, j: int|
            0 <= i < list.len() && 0 <= j < list[i].edits.len() ==> clear(
                #[trigger] list[i].edits[j],
                ops,
            ),
    ensures
        row_clear(OpView::rows(list, c, tree, n), ops),
    decreases list.len(),
{
    if list.len() > 0 {
        let rest = list.drop_last();
        assert forall|i: int, j: int|
            0 <= i < rest.len() && 0 <= j < rest[i].edits.len() implies clear(
            #[trigger] rest[i].edits[j],
            ops,
        ) by {
            assert(list[i].edits[j] == rest[i].edits[j]);
        }
        rows_clear(rest, c, tree, n, ops);
        let op = list[list.len() - 1];
        let row = op.row(c, tree, n);
        assert forall|i: int| 0 <= i < row.len() && (#[trigger] row[i]) is New implies clear(
            row[i]->New_0,
            ops,
        ) by {
            let j = match op.kind {
                EditKind::CreateAfter => if n == 1 {
                    i - 1
                } else {
                    i
                },
                _ => i,
            };
            assert(row[i]->New_0 == list[list.len() - 1].edits[j]);
        }
    }
}

/// The plan below a node uses up nothing but the edits anchored below it.
proof fn plan_leaves(
    nodes: Seq<NodeRecord>,
    id: NodeId,
    ops: Ops,
    dirty: Set<u128>,
    feu: bool,
    u: u128,
)
    requires
        linked(nodes),
        id.0 < nodes.len(),
        ops.dom().finite(),
        brings_plain(ops),
        forall|k: int| #[trigger]
            NodeRecord::below(nodes, id.0 as int).contains(k) && k != id.0 ==> nodes[k].uuid != u,
    ensures
        same_at(SubPlanView::of(nodes, id, ops, dirty, feu).ops, ops, u),
    decreases nodes.len() - id.0, 1int, 0nat,
{
    let lo = id.0 as int;
    let kids = nodes[lo].children;
    if kids.len() > 0 && dirty.contains(id.key()) {
        assert forall|i: int| 0 <= i < kids.len() implies nodes[(
        #[trigger] kids[i]).0 as int].uuid != u by {
            let c = nodes[lo].children[i];
            assert(NodeRecord::below(nodes, c.0 as int).contains(c.0 as int));
            below_of_child(nodes, lo, i, c.0 as int);
        }
        splice_leaves(nodes, kids, ops, u);
        splice_clear(nodes, kids, ops);
        let s = Spliced::of(nodes, kids, ops);
        fewer_ops(s.ops, ops);
        splice_kids(nodes, lo, ops);
        assert forall|i: int, k: int|
            0 <= i < s.row.len() && (#[trigger] s.row[i]) is Existing
                && #[trigger] NodeRecord::below(nodes, (s.row[i]->Existing_0).0 as int).contains(k)
                implies nodes[k].uuid != u by {
            let c = s.row[i]->Existing_0;
            let j = choose|j: int| 0 <= j < kids.len() && kids[j] == c;
            below_of_child(nodes, lo, j, k);
            below_facts(nodes, c.0 as int, k);
        }
        row_plan_leaves(nodes, id, s.row, s.ops, dirty, feu, u);
    }
}

/// A spliced row keeps children only.
proof fn splice_kids(nodes: Seq<NodeRecord>, lo: int, ops: Ops)
    requires
        linked(nodes),
        0 <= lo < nodes.len(),
    ensures
        ({
            let row = Spliced::of(nodes, nodes[lo].children, ops).row;
            forall|i: int|
                0 <= i < row.len() && (#[trigger] row[i]) is Existing ==> nodes[lo].children.contains(
                    row[i]->Existing_0,
                ) && lo < (row[i]->Existing_0).0 < nodes.len()
        }),
{
    let kids = nodes[lo].children;
    let row = Spliced::of(nodes, kids, ops).row;
    assert forall|i: int| 0 <= i < row.len() && (#[trigger] row[i]) is Existing implies kids.contains(
        row[i]->Existing_0,
    ) && lo < (row[i]->Existing_0).0 < nodes.len() by {
        let c = row[i]->Existing_0;
        crate::arena::laws::splice_keeps(nodes, kids, ops, c.key());
        assert(row_keeps(row, c.key()));
        let j = choose|j: int| 0 <= j < kids.len() && (#[trigger] kids[j]).key() == c.key();
        let d = nodes[lo].children[j];
        assert(d == c);
    }
}

proof fn row_plan_leaves(
    nodes: Seq<NodeRecord>,
    lo: NodeId,
    row: Seq<PlannedView>,
    ops: Ops,
    dirty: Set<u128>,
    feu: bool,
    u: u128,
)
    requires
        linked(nodes),
        lo.0 < nodes.len(),
        ops.dom().finite(),
        brings_plain(ops),
        row_clear(row, ops),
        forall|i: int, k: int|
            0 <= i < row.len() && (#[trigger] row[i]) is Existing && #[trigger] NodeRecord::below(
                nodes,
                (row[i]->Existing_0).0 as int,
            ).contains(k) && k != (row[i]->Existing_0).0 ==> nodes[k].uuid != u,
    ensures
        same_at(RowPlanView::of(nodes, lo, row, ops, dirty, feu).ops, ops, u),
        sub_ops(RowPlanView::of(nodes, lo, row, ops, dirty, feu).ops, ops),
    decreases nodes.len() - lo.0, 0int, row.len(),
{
    crate::arena::coherence::row_plan_sub(nodes, lo, row, ops, dirty, feu);
    if row.len() > 0 {
        let rest = row.drop_last();
        clear_rest(row, ops);
        assert forall|i: int, k: int|
            0 <= i < rest.len() && (#[trigger] rest[i]) is Existing && #[trigger] NodeRecord::below(
                nodes,
                (rest[i]->Existing_0).0 as int,
            ).contains(k) && k != (rest[i]->Existing_0).0 implies nodes[k].uuid != u by {
            assert(rest[i] == row[i]);
        }
        row_plan_leaves(nodes, lo, rest, ops, dirty, feu, u);
        let r = RowPlanView::of(nodes, lo, rest, ops, dirty, feu);
        fewer_ops(r.ops, ops);
        let last = row[row.len() - 1];
        assert(row.last() == last);
        match last {
            PlannedView::Existing(c) => {
                if lo.0 < c.0 < nodes.len() {
                    assert forall|k: int| #[trigger]
                        NodeRecord::below(nodes, c.0 as int).contains(k) && k != c.0 implies
                        nodes[k].uuid != u by {
                        assert(row[row.len() - 1] is Existing);
                    }
                    plan_leaves(nodes, c, r.ops, dirty, feu, u);
                }
            },
            PlannedView::New(spec, marker) => {
                assert(clear(row[row.len() - 1]->New_0, ops));
                still_clear(spec, r.ops, ops);
                spec_plan_text(spec, r.ops);
            },
        }
    }
}

/// Only segments and what did not parse have children.
spec fn nodes_proper(nodes: Seq<NodeRecord>) -> bool {
    forall|i: int|
        0 <= i < nodes.len() && (#[trigger] nodes[i]).children.len() > 0 ==> nodes[i].kind
            is Segment || nodes[i].kind is Unparsable
}

/// Where no edit is anchored below a node, its text is the one it has.
proof fn plain_text(nodes: Seq<NodeRecord>, ops: Ops, id: int)
    requires
        linked(nodes),
        nodes_proper(nodes),
        0 <= id < nodes.len(),
        forall|k: int| #[trigger]
            NodeRecord::below(nodes, id).contains(k) && k != id ==> !ops.contains_key(
                nodes[k].uuid,
            ),
    ensures
        text_with(nodes, ops, id) == NodeRecord::tree_of(nodes, id).raw(),
    decreases nodes.len() - id, 1int, 0nat,
{
    let kids = nodes[id].children;
    if kids.len() > 0 {
        let t = NodeRecord::tree_of(nodes, id);
        assert forall|i: int, k: int|
            0 <= i < kids.len() && #[trigger] NodeRecord::below(
                nodes,
                (#[trigger] kids[i]).0 as int,
            ).contains(k) implies !ops.contains_key(nodes[k].uuid) by {
            let c = nodes[id].children[i];
            below_of_child(nodes, id, i, k);
            below_facts(nodes, c.0 as int, k);
        }
        plain_row_text(nodes, ops, id, kids.len() as int);
        assert(kids.take(kids.len() as int) =~= kids);
        assert(t.children.take(kids.len() as int) =~= t.children);
    }
}

/// The same of the first children.
proof fn plain_row_text(nodes: Seq<NodeRecord>, ops: Ops, id: int, n: int)
    requires
        linked(nodes),
        nodes_proper(nodes),
        0 <= id < nodes.len(),
        0 <= n <= nodes[id].children.len(),
        forall|i: int, k: int|
            0 <= i < n && #[trigger] NodeRecord::below(
                nodes,
                (#[trigger] nodes[id].children[i]).0 as int,
            ).contains(k) ==> !ops.contains_key(nodes[k].uuid),
    ensures
        row_text_with(nodes, ops, id, nodes[id].children.take(n)) == Tree::raws(
            NodeRecord::tree_of(nodes, id).children.take(n),
        ),
    decreases nodes.len() - id, 0int, n as nat,
{
    let kids = nodes[id].children;
    let trees = NodeRecord::tree_of(nodes, id).children;
    if n > 0 {
        plain_row_text(nodes, ops, id, n - 1);
        assert(kids.take(n).drop_last() =~= kids.take(n - 1));
        assert(trees.take(n).drop_last() =~= trees.take(n - 1));
        let c = nodes[id].children[n - 1].0 as int;
        assert(id < c < nodes.len());
        assert(NodeRecord::below(nodes, c).contains(c));
        assert forall|k: int| #[trigger] NodeRecord::below(nodes, c).contains(k) && k != c implies
            !ops.contains_key(nodes[k].uuid) by {
            assert(nodes[id].children[n - 1].0 == c);
        }
        plain_text(nodes, ops, c);
        assert(trees[n - 1] == NodeRecord::tree_of(nodes, c));
        assert(!ops.contains_key(nodes[c].uuid));
    }
}

/// Children over which no list lies have the text of their container.
proof fn unlisted_text(o: Overlay, id: int, n: int)
    requires
        linked(o.nodes),
        0 <= id < o.nodes.len(),
        0 <= n <= o.nodes[id].children.len(),
        forall|i: int|
            0 <= i < n ==> !o.lists.contains_key(
                (#[trigger] o.nodes[id].children[i]).0 as u128,
            ),
    ensures
        o.row_raw(id, PlannedView::kept_row(o.nodes[id].children.take(n))) == Tree::raws(
            NodeRecord::tree_of(o.nodes, id).children.take(n),
        ),
    decreases n,
{
    let kids = o.nodes[id].children;
    let trees = NodeRecord::tree_of(o.nodes, id).children;
    let row = PlannedView::kept_row(kids.take(n));
    if n > 0 {
        unlisted_text(o, id, n - 1);
        assert(row.drop_last() =~= PlannedView::kept_row(kids.take(n - 1)));
        assert(trees.take(n).drop_last() =~= trees.take(n - 1));
        let c = o.nodes[id].children[n - 1];
        assert(id < c.0 < o.nodes.len());
        assert(row.last() == PlannedView::Existing(c));
        assert(trees[n - 1] == NodeRecord::tree_of(o.nodes, c.0 as int));
        assert(trees.take(n).last() == trees[n - 1]);
        assert(c.0 as int as u128 == c.0 as u128);
        assert(o.raw(c.0 as int) == trees[n - 1].raw());
    }
}

proof fn row_raw_sum(o: Overlay, lo: int, a: Seq<PlannedView>, b: Seq<PlannedView>)
    ensures
        o.row_raw(lo, a + b) == o.row_raw(lo, a) + o.row_raw(lo, b),
    decreases b.len(),
{
    if b.len() == 0 {
        assert(a + b =~= a);
        assert(o.row_raw(lo, a) + o.row_raw(lo, b) =~= o.row_raw(lo, a));
    } else {
        assert((a + b).drop_last() =~= a + b.drop_last());
        row_raw_sum(o, lo, a, b.drop_last());
        assert(o.row_raw(lo, a + b) =~= o.row_raw(lo, a) + o.row_raw(lo, b));
    }
}

proof fn row_raw_from(o: Overlay, lo: int, hi: int, row: Seq<PlannedView>)
    requires
        lo <= hi,
        PlannedView::row_behind(row, hi, o.nodes),
    ensures
        o.row_raw(lo, row) == o.row_raw(hi, row),
    decreases row.len(),
{
    if row.len() > 0 {
        let rest = row.drop_last();
        assert(PlannedView::row_behind(rest, hi, o.nodes)) by {
            assert forall|i: int| 0 <= i < rest.len() implies match #[trigger] rest[i] {
                PlannedView::Existing(c) => hi < c.0 < o.nodes.len(),
                PlannedView::New(..) => true,
            } by {
                let e = row[i];
            }
        }
        row_raw_from(o, lo, hi, rest);
        let e = row[row.len() - 1];
        assert(row.last() == e);
    }
}

proof fn row_raw_fresh(o: Overlay, lo: int, row: Seq<SpecTree>)
    ensures
        o.row_raw(lo, PlannedView::fresh_row(row)) == SpecTree::raws(row),
    decreases row.len(),
{
    if row.len() > 0 {
        row_raw_fresh(o, lo, row.drop_last());
        assert(PlannedView::fresh_row(row).drop_last() =~= PlannedView::fresh_row(
            row.drop_last(),
        ));
    }
}

proof fn row_raw_one(o: Overlay, lo: int, e: PlannedView)
    ensures
        o.row_raw(lo, seq![e]) == match e {
            PlannedView::Existing(c) => if lo < c.0 < o.nodes.len() {
                o.raw(c.0 as int)
            } else {
                Seq::empty()
            },
            PlannedView::New(spec, _) => spec.raw(),
        },
{
    assert(seq![e].drop_last() =~= Seq::empty());
    assert(o.row_raw(lo, seq![e].drop_last()) =~= Seq::empty());
    assert(o.row_raw(lo, seq![e]) =~= match e {
        PlannedView::Existing(c) => if lo < c.0 < o.nodes.len() {
            o.raw(c.0 as int)
        } else {
            Seq::empty()
        },
        PlannedView::New(spec, _) => spec.raw(),
    });
}

/// What a plan rests on: links that agree, uuids that tell the nodes of the tree
/// apart, edits that go together and bring plain segments, and marks on all containers
/// above an anchor.
#[verifier::opaque]
spec fn setting(nodes: Seq<NodeRecord>, root: int, base: Ops, dirty: Set<u128>) -> bool {
    &&& linked(nodes)
    &&& nodes_proper(nodes)
    &&& 0 <= root < nodes.len()
    &&& base.dom().finite()
    &&& brings_plain(base)
    &&& OpView::all_go_together(base)
    &&& forall|j: int, k: int| #[trigger]
        NodeRecord::below(nodes, root).contains(j) && #[trigger] NodeRecord::below(
            nodes,
            root,
        ).contains(k) && j != k ==> nodes[j].uuid != nodes[k].uuid
    &&& forall|j: int, k: int|
        NodeRecord::below(nodes, root).contains(j) && #[trigger] NodeRecord::below(
            nodes,
            j,
        ).contains(k) && j != k && base.contains_key(nodes[k].uuid) ==> dirty.contains(j as u128)
}

/// Whether the edits below a node are those of the batch.
spec fn same_below(nodes: Seq<NodeRecord>, ops: Ops, base: Ops, id: int) -> bool {
    forall|k: int| #[trigger]
        NodeRecord::below(nodes, id).contains(k) && k != id ==> same_at(
            ops,
            base,
            nodes[k].uuid,
        )
}

/// Whether two sets of lists are the same over a set of nodes.
spec fn same_lists(
    a: Map<u128, Seq<PlannedView>>,
    b: Map<u128, Seq<PlannedView>>,
    over: Set<int>,
) -> bool {
    forall|k: int| #[trigger]
        over.contains(k) ==> a.contains_key(k as u128) == b.contains_key(k as u128) && (
        a.contains_key(k as u128) ==> a[k as u128] == b[k as u128])
}

/// Splicing a container of the tree: the text that comes out, and the edits that are
/// left for what is below the children that stay.
proof fn splice_in_setting(
    nodes: Seq<NodeRecord>,
    root: int,
    base: Ops,
    dirty: Set<u128>,
    id: NodeId,
    ops: Ops,
)
    requires
        setting(nodes, root, base, dirty),
        NodeRecord::below(nodes, root).contains(id.0 as int),
        sub_ops(ops, base),
        same_below(nodes, ops, base, id.0 as int),
    ensures
        ({
            let kids = nodes[id.0 as int].children;
            let s = Spliced::of(nodes, kids, ops);
            &&& entries_text(nodes, base, s.row) == row_text_with(nodes, base, id.0 as int, kids)
            &&& row_clear(s.row, s.ops)
            &&& sub_ops(s.ops, base)
            &&& sibling_row(nodes, id.0 as int, kept(s.row))
            &&& forall|i: int|
                0 <= i < s.row.len() && (#[trigger] s.row[i]) is Existing ==> {
                    let c = (s.row[i]->Existing_0).0 as int;
                    &&& id.0 < c < nodes.len()
                    &&& nodes[id.0 as int].children.contains(s.row[i]->Existing_0)
                    &&& NodeRecord::below(nodes, root).contains(c)
                    &&& same_below(nodes, s.ops, base, c)
                }
        }),
{
    reveal(setting);
    let lo = id.0 as int;
    below_facts(nodes, root, lo);
    let kids = nodes[lo].children;
    let s = Spliced::of(nodes, kids, ops);
    assert forall|i: int| 0 <= i < kids.len() implies {
        let c = (#[trigger] kids[i]).0 as int;
        &&& lo < c < nodes.len()
        &&& NodeRecord::below(nodes, lo).contains(c)
        &&& NodeRecord::below(nodes, root).contains(c)
        &&& nodes[c].parent == Some(NodeId(lo as u32))
        &&& same_at(ops, base, nodes[c].uuid)
    } by {
        let c = nodes[lo].children[i].0 as int;
        assert(NodeRecord::below(nodes, c).contains(c));
        below_of_child(nodes, lo, i, c);
        below_transitive(nodes, root, lo, c);
    }
    children_are_siblings(nodes, lo);
    assert forall|i: int, j: int| 0 <= i < j < kids.len() implies nodes[(
    #[trigger] kids[i]).0 as int].uuid != nodes[(#[trigger] kids[j]).0 as int].uuid by {
        assert(kids[i] != kids[j]);
    }
    splice_text(nodes, base, lo, kids, ops);
    fewer_ops(ops, base);
    splice_clear(nodes, kids, ops);
    splice_kids(nodes, lo, ops);
    assert(OpView::all_go_together(ops)) by {
        assert forall|u: u128| #[trigger] ops.contains_key(u) implies OpView::go_together(
            ops[u],
        ) by {
            assert(base.contains_key(u));
        }
    }
    crate::arena::coherence::splice_once(nodes, kids, ops, Map::empty(), lo);
    crate::arena::coherence::siblings_split(nodes, lo, kept(s.row), s.tombstones, kids);
    assert forall|i: int| 0 <= i < s.row.len() && (#[trigger] s.row[i]) is Existing implies {
        let c = (s.row[i]->Existing_0).0 as int;
        &&& lo < c < nodes.len()
        &&& nodes[lo].children.contains(s.row[i]->Existing_0)
        &&& NodeRecord::below(nodes, root).contains(c)
        &&& same_below(nodes, s.ops, base, c)
    } by {
        let c = s.row[i]->Existing_0;
        let j = choose|j: int| 0 <= j < kids.len() && kids[j] == c;
        assert(kids[j] == c);
        assert forall|k: int| #[trigger] NodeRecord::below(nodes, c.0 as int).contains(k) && k
            != c.0 implies same_at(s.ops, base, nodes[k].uuid) by {
            below_facts(nodes, c.0 as int, k);
            let q = (nodes[k].parent->0).0 as int;
            below_facts(nodes, c.0 as int, q);
            below_of_child(nodes, lo, j, k);
            below_transitive(nodes, root, lo, k);
            let u = nodes[k].uuid;
            assert forall|m: int| 0 <= m < kids.len() implies nodes[(
            #[trigger] kids[m]).0 as int].uuid != u by {
                assert(nodes[kids[m].0 as int].parent == Some(NodeId(lo as u32)));
                assert(kids[m].0 != k);
            }
            splice_leaves(nodes, kids, ops, u);
        }
    }
}

/// The plan below a node leaves the text of the node as the edits below it leave it:
/// in the node, and in what moves out of it.
proof fn plan_text(
    nodes: Seq<NodeRecord>,
    root: int,
    base: Ops,
    dirty: Set<u128>,
    feu: bool,
    id: NodeId,
    ops: Ops,
    lists: Map<u128, Seq<PlannedView>>,
)
    requires
        setting(nodes, root, base, dirty),
        NodeRecord::below(nodes, root).contains(id.0 as int),
        sub_ops(ops, base),
        same_below(nodes, ops, base, id.0 as int),
        SubPlanView::of(nodes, id, ops, dirty, feu).reverted == 0,
        same_lists(
            lists,
            SubPlanView::of(nodes, id, ops, dirty, feu).children_of,
            NodeRecord::below(nodes, id.0 as int),
        ),
    ensures
        ({
            let p = SubPlanView::of(nodes, id, ops, dirty, feu);
            let o = Overlay { nodes, lists };
            o.row_raw(id.0 as int, p.pre) + o.raw(id.0 as int) + o.row_raw(id.0 as int, p.post)
                == text_with(nodes, base, id.0 as int)
        }),
    decreases nodes.len() - id.0, 1int, 0nat,
{
    reveal(setting);
    let lo = id.0 as int;
    below_facts(nodes, root, lo);
    let kids = nodes[lo].children;
    let p = SubPlanView::of(nodes, id, ops, dirty, feu);
    let o = Overlay { nodes, lists };
    assert(NodeRecord::below(nodes, lo).contains(lo));
    assert(lo as u128 == id.key());
    if kids.len() == 0 || !dirty.contains(id.key()) {
        assert forall|k: int| #[trigger] NodeRecord::below(nodes, lo).contains(k) && k
            != lo implies !base.contains_key(nodes[k].uuid) by {
            below_facts(nodes, lo, k);
            if kids.len() == 0 {
                below_child(nodes, lo, k);
            }
        }
        plain_text(nodes, base, lo);
        assert(!lists.contains_key(lo as u128));
        assert(o.row_raw(lo, p.pre) + o.raw(lo) + o.row_raw(lo, p.post) =~= o.raw(lo));
    } else {
        let s = Spliced::of(nodes, kids, ops);
        let r = RowPlanView::of(nodes, id, s.row, s.ops, dirty, feu);
        assert(p == SubPlanView::finish(nodes, id, s, r, feu));
        splice_in_setting(nodes, root, base, dirty, id, ops);
        assert(r.reverted == 0);
        assert(same_lists(
            lists,
            r.children_of,
            NodeRecord::row_below(nodes, lo, kept(s.row)),
        )) by {
            assert forall|k: int| #[trigger]
                NodeRecord::row_below(nodes, lo, kept(s.row)).contains(k) implies
                lists.contains_key(k as u128) == r.children_of.contains_key(k as u128) && (
            lists.contains_key(k as u128) ==> lists[k as u128] == r.children_of[k as u128]) by {
                row_below_facts(nodes, lo, kept(s.row), k);
                let c = choose|c: NodeId|
                    kept(s.row).contains(c) && lo < c.0 < nodes.len()
                        && #[trigger] NodeRecord::below(nodes, c.0 as int).contains(k);
                crate::arena::coherence::kept_is_entry(s.row, c);
                let i = choose|i: int|
                    0 <= i < s.row.len() && #[trigger] s.row[i] == PlannedView::Existing(c);
                assert(s.row[i] is Existing);
                let j = choose|j: int| 0 <= j < kids.len() && kids[j] == c;
                below_of_child(nodes, lo, j, k);
                below_facts(nodes, c.0 as int, k);
                assert(k != lo);
            }
        }
        row_plan_text(nodes, root, base, dirty, feu, id, s.row, s.ops, lists);
        finish_text(nodes, id, s, r, feu, o);
        crate::arena::laws::plan_sparse(nodes, id, ops, dirty, feu);
        if !p.changed {
            assert(!lists.contains_key(lo as u128));
            assert forall|i: int| 0 <= i < kids.len() implies !lists.contains_key(
                (#[trigger] nodes[lo].children[i]).0 as u128,
            ) by {
                let c = nodes[lo].children[i].0 as int;
                assert(NodeRecord::below(nodes, c).contains(c));
                below_of_child(nodes, lo, i, c);
                assert(!p.children_of.contains_key(c as u128));
            }
            unlisted_text(o, lo, kids.len() as int);
            let t = NodeRecord::tree_of(nodes, lo);
            assert(kids.take(kids.len() as int) =~= kids);
            assert(t.children.take(kids.len() as int) =~= t.children);
            assert(o.raw(lo) == o.row_raw(lo, PlannedView::kept_row(kids)));
            assert(o.row_raw(lo, p.pre) + o.raw(lo) + o.row_raw(lo, p.post) =~= o.raw(lo));
        }
    }
}

/// The parts of a planned container hold the text of its row.
proof fn finish_text(
    nodes: Seq<NodeRecord>,
    id: NodeId,
    s: Spliced,
    r: RowPlanView,
    feu: bool,
    o: Overlay,
)
    requires
        id.0 < nodes.len(),
        o.nodes == nodes,
        SubPlanView::finish(nodes, id, s, r, feu).changed ==> o.lists.contains_key(id.key())
            && o.lists[id.key()] == SubPlanView::finish(nodes, id, s, r, feu).children_of[id.key()],
    ensures
        ({
            let p = SubPlanView::finish(nodes, id, s, r, feu);
            let lo = id.0 as int;
            &&& p.changed ==> o.row_raw(lo, p.pre) + o.raw(lo) + o.row_raw(lo, p.post)
                == o.row_raw(lo, r.row)
            &&& !p.changed && p.reverted == 0 ==> r.row == PlannedView::kept_row(
                nodes[lo].children,
            )
        }),
{
    let lo = id.0 as int;
    let p = SubPlanView::finish(nodes, id, s, r, feu);
    let tree = NodeRecord::tree_of(nodes, lo);
    let flags = PlannedView::end_flags(r.row, nodes);
    let parts = if tree.kind.allows_non_code_ends() {
        Parted::whole(r.row)
    } else {
        Parted::of(r.row, flags)
    };
    crate::arena::coherence::parts_whole(r.row, flags);
    assert(parts.pre + parts.mid + parts.post =~= r.row);
    row_raw_sum(o, lo, parts.pre, parts.mid);
    row_raw_sum(o, lo, parts.pre + parts.mid, parts.post);
    if p.changed {
        assert(lo as u128 == id.key());
        assert(o.raw(lo) == o.row_raw(lo, parts.mid));
    } else if p.reverted == 0 {
        assert(parts.pre + parts.mid + parts.post =~= parts.mid);
    }
}

/// The same of a row of entries.
proof fn row_plan_text(
    nodes: Seq<NodeRecord>,
    root: int,
    base: Ops,
    dirty: Set<u128>,
    feu: bool,
    lo: NodeId,
    row: Seq<PlannedView>,
    ops: Ops,
    lists: Map<u128, Seq<PlannedView>>,
)
    requires
        setting(nodes, root, base, dirty),
        lo.0 < nodes.len(),
        sub_ops(ops, base),
        row_clear(row, ops),
        sibling_row(nodes, lo.0 as int, kept(row)),
        forall|i: int|
            0 <= i < row.len() && (#[trigger] row[i]) is Existing ==> {
                let c = (row[i]->Existing_0).0 as int;
                &&& lo.0 < c < nodes.len()
                &&& NodeRecord::below(nodes, root).contains(c)
                &&& same_below(nodes, ops, base, c)
            },
        RowPlanView::of(nodes, lo, row, ops, dirty, feu).reverted == 0,
        same_lists(
            lists,
            RowPlanView::of(nodes, lo, row, ops, dirty, feu).children_of,
            NodeRecord::row_below(nodes, lo.0 as int, kept(row)),
        ),
    ensures
        (Overlay { nodes, lists }).row_raw(
            lo.0 as int,
            RowPlanView::of(nodes, lo, row, ops, dirty, feu).row,
        ) == entries_text(nodes, base, row),
    decreases nodes.len() - lo.0, 0int, row.len(),
{
    let l = lo.0 as int;
    if row.len() > 0 {
        let rest = row.drop_last();
        let q = RowPlanView::of(nodes, lo, rest, ops, dirty, feu);
        let last = row[row.len() - 1];
        assert(row.last() == last);
        row_rest(nodes, root, base, dirty, feu, lo, row, ops);
        match last {
            PlannedView::Existing(c) => {
                assert(row[row.len() - 1] is Existing);
                row_step_apart(nodes, root, base, dirty, feu, lo, row, ops, lists, c);
                row_plan_text(nodes, root, base, dirty, feu, lo, rest, ops, lists);
                plan_text(nodes, root, base, dirty, feu, c, q.ops, lists);
                kept_step_text(nodes, lo, q, dirty, feu, c, lists);
            },
            PlannedView::New(spec, marker) => {
                assert(kept(row) == kept(rest));
                row_plan_text(nodes, root, base, dirty, feu, lo, rest, ops, lists);
                assert(clear(row[row.len() - 1]->New_0, ops));
                still_clear(spec, q.ops, ops);
                new_step_text(nodes, lo, q, spec, marker, lists);
            },
        }
    }
}

/// The entries before the last one are as the whole row is.
proof fn row_rest(
    nodes: Seq<NodeRecord>,
    root: int,
    base: Ops,
    dirty: Set<u128>,
    feu: bool,
    lo: NodeId,
    row: Seq<PlannedView>,
    ops: Ops,
)
    requires
        setting(nodes, root, base, dirty),
        lo.0 < nodes.len(),
        sub_ops(ops, base),
        row_clear(row, ops),
        sibling_row(nodes, lo.0 as int, kept(row)),
        forall|i: int|
            0 <= i < row.len() && (#[trigger] row[i]) is Existing ==> {
                let c = (row[i]->Existing_0).0 as int;
                &&& lo.0 < c < nodes.len()
                &&& NodeRecord::below(nodes, root).contains(c)
                &&& same_below(nodes, ops, base, c)
            },
        row.len() > 0,
    ensures
        ({
            let rest = row.drop_last();
            let q = RowPlanView::of(nodes, lo, rest, ops, dirty, feu);
            &&& row_clear(rest, ops)
            &&& sibling_row(nodes, lo.0 as int, kept(rest))
            &&& forall|i: int|
                0 <= i < rest.len() && (#[trigger] rest[i]) is Existing ==> {
                    let c = (rest[i]->Existing_0).0 as int;
                    &&& lo.0 < c < nodes.len()
                    &&& NodeRecord::below(nodes, root).contains(c)
                    &&& same_below(nodes, ops, base, c)
                }
            &&& crate::arena::coherence::lists_in(
                q.children_of,
                NodeRecord::row_below(nodes, lo.0 as int, kept(rest)),
            )
            &&& sub_ops(q.ops, ops)
            &&& q.ops.dom().finite()
            &&& linked(nodes)
        }),
{
    reveal(setting);
    let l = lo.0 as int;
    let rest = row.drop_last();
    let q = RowPlanView::of(nodes, lo, rest, ops, dirty, feu);
    fewer_ops(ops, base);
    assert(OpView::all_go_together(ops)) by {
        assert forall|u: u128| #[trigger] ops.contains_key(u) implies OpView::go_together(
            ops[u],
        ) by {
            assert(base.contains_key(u));
        }
    }
    clear_rest(row, ops);
    assert(sibling_row(nodes, l, kept(rest))) by {
        let a = kept(rest);
        assert forall|i: int| 0 <= i < a.len() implies a[i] == kept(row)[i] by {}
        assert forall|i: int, j: int|
            0 <= i < a.len() && 0 <= j < a.len() && i != j implies a[i] != a[j] by {
            assert(kept(row)[i] != kept(row)[j]);
        }
        assert forall|i: int| 0 <= i < a.len() implies l < (#[trigger] a[i]).0 < nodes.len()
            && nodes[a[i].0 as int].parent == Some(NodeId(l as u32)) by {
            assert(kept(row)[i] == a[i]);
        }
    }
    assert forall|i: int| 0 <= i < rest.len() && (#[trigger] rest[i]) is Existing implies {
        let c = (rest[i]->Existing_0).0 as int;
        &&& lo.0 < c < nodes.len()
        &&& NodeRecord::below(nodes, root).contains(c)
        &&& same_below(nodes, ops, base, c)
    } by {
        assert(rest[i] == row[i]);
    }
    row_plan_holds(nodes, lo, rest, ops, dirty, feu);
    crate::arena::coherence::row_plan_sub(nodes, lo, rest, ops, dirty, feu);
    fewer_ops(q.ops, ops);
}

/// The text of one more entry that is kept.
proof fn kept_step_text(
    nodes: Seq<NodeRecord>,
    lo: NodeId,
    q: RowPlanView,
    dirty: Set<u128>,
    feu: bool,
    c: NodeId,
    lists: Map<u128, Seq<PlannedView>>,
)
    requires
        linked(nodes),
        lo.0 < c.0 < nodes.len(),
    ensures
        ({
            let o = Overlay { nodes, lists };
            let p = SubPlanView::of(nodes, c, q.ops, dirty, feu);
            let at = c.0 as int;
            o.row_raw(lo.0 as int, q.with_kept(c, p).row) == o.row_raw(lo.0 as int, q.row) + (
            o.row_raw(at, p.pre) + o.raw(at) + o.row_raw(at, p.post))
        }),
{
    let l = lo.0 as int;
    let o = Overlay { nodes, lists };
    let p = SubPlanView::of(nodes, c, q.ops, dirty, feu);
    assert(NodeRecord::kids_behind(nodes)) by {
        assert forall|x: int, i: int|
            0 <= x < nodes.len() && 0 <= i < nodes[x].children.len() implies x < (
        #[trigger] nodes[x].children[i]).0 < nodes.len() by {}
    }
    crate::arena::plan::plan_behind(nodes, c, q.ops, dirty, feu);
    row_raw_from(o, l, c.0 as int, p.pre);
    row_raw_from(o, l, c.0 as int, p.post);
    let one = seq![PlannedView::Existing(c)];
    row_raw_one(o, l, PlannedView::Existing(c));
    row_raw_sum(o, l, q.row, p.pre);
    row_raw_sum(o, l, q.row + p.pre, one);
    row_raw_sum(o, l, q.row + p.pre + one, p.post);
    let before = o.row_raw(l, q.row);
    assert(before + o.row_raw(l, p.pre) + o.raw(c.0 as int) + o.row_raw(l, p.post) =~= before + (
    o.row_raw(l, p.pre) + o.raw(c.0 as int) + o.row_raw(l, p.post)));
}

/// The text of one more entry to be created.
proof fn new_step_text(
    nodes: Seq<NodeRecord>,
    lo: NodeId,
    q: RowPlanView,
    spec: SpecTree,
    marker: Option<crate::marker::PositionMarker>,
    lists: Map<u128, Seq<PlannedView>>,
)
    requires
        clear(spec, q.ops),
        q.ops.dom().finite(),
    ensures
        ({
            let o = Overlay { nodes, lists };
            let p = SpecPlan::of(spec, q.ops);
            o.row_raw(lo.0 as int, q.with_new(marker, p).row) == o.row_raw(lo.0 as int, q.row)
                + spec.raw()
        }),
{
    let l = lo.0 as int;
    let o = Overlay { nodes, lists };
    spec_plan_text(spec, q.ops);
    let p = SpecPlan::of(spec, q.ops);
    let one = seq![PlannedView::New(p.spec, marker)];
    let pre = PlannedView::fresh_row(p.pre);
    let post = PlannedView::fresh_row(p.post);
    row_raw_fresh(o, l, p.pre);
    row_raw_fresh(o, l, p.post);
    row_raw_one(o, l, PlannedView::New(p.spec, marker));
    row_raw_sum(o, l, q.row, pre);
    row_raw_sum(o, l, q.row + pre, one);
    row_raw_sum(o, l, q.row + pre + one, post);
    let before = o.row_raw(l, q.row);
    assert(before + o.row_raw(l, pre) + p.spec.raw() + o.row_raw(l, post) =~= before + (
    SpecTree::raws(p.pre) + p.spec.raw() + SpecTree::raws(p.post)));
}

/// A kept entry behind others: its edits are still there, and the lists over it are
/// those of its own plan.
proof fn row_step_apart(
    nodes: Seq<NodeRecord>,
    root: int,
    base: Ops,
    dirty: Set<u128>,
    feu: bool,
    lo: NodeId,
    row: Seq<PlannedView>,
    ops: Ops,
    lists: Map<u128, Seq<PlannedView>>,
    c: NodeId,
)
    requires
        setting(nodes, root, base, dirty),
        lo.0 < nodes.len(),
        sub_ops(ops, base),
        row_clear(row, ops),
        sibling_row(nodes, lo.0 as int, kept(row)),
        forall|i: int|
            0 <= i < row.len() && (#[trigger] row[i]) is Existing ==> {
                let c = (row[i]->Existing_0).0 as int;
                &&& lo.0 < c < nodes.len()
                &&& NodeRecord::below(nodes, root).contains(c)
                &&& same_below(nodes, ops, base, c)
            },
        row.len() > 0,
        row.last() == PlannedView::Existing(c),
        same_lists(
            lists,
            RowPlanView::of(nodes, lo, row, ops, dirty, feu).children_of,
            NodeRecord::row_below(nodes, lo.0 as int, kept(row)),
        ),
        sibling_row(nodes, lo.0 as int, kept(row.drop_last())),
        crate::arena::coherence::lists_in(
            RowPlanView::of(nodes, lo, row.drop_last(), ops, dirty, feu).children_of,
            NodeRecord::row_below(nodes, lo.0 as int, kept(row.drop_last())),
        ),
    ensures
        ({
            let rest = row.drop_last();
            let q = RowPlanView::of(nodes, lo, rest, ops, dirty, feu);
            let p = SubPlanView::of(nodes, c, q.ops, dirty, feu);
            &&& sub_ops(q.ops, base)
            &&& same_below(nodes, q.ops, base, c.0 as int)
            &&& same_lists(
                lists,
                q.children_of,
                NodeRecord::row_below(nodes, lo.0 as int, kept(rest)),
            )
            &&& same_lists(lists, p.children_of, NodeRecord::below(nodes, c.0 as int))
        }),
{
    reveal(setting);
    let l = lo.0 as int;
    let rest = row.drop_last();
    let a = kept(rest);
    let q = RowPlanView::of(nodes, lo, rest, ops, dirty, feu);
    let p = SubPlanView::of(nodes, c, q.ops, dirty, feu);
    let r = RowPlanView::of(nodes, lo, row, ops, dirty, feu);
    assert(row[row.len() - 1] is Existing);
    crate::arena::coherence::row_plan_sub(nodes, lo, rest, ops, dirty, feu);
    fewer_ops(ops, base);
    fewer_ops(q.ops, ops);
    assert(sub_ops(q.ops, base)) by {
        assert forall|u: u128| #[trigger] q.ops.contains_key(u) implies base.contains_key(u)
            && q.ops[u] == base[u] by {
            assert(ops.contains_key(u));
        }
    }
    assert(OpView::all_go_together(q.ops)) by {
        assert forall|u: u128| #[trigger] q.ops.contains_key(u) implies OpView::go_together(
            q.ops[u],
        ) by {
            assert(base.contains_key(u));
        }
    }
    plan_holds(nodes, c, q.ops, dirty, feu);
    assert(kept(row) == a.push(c));
    assert(kept(row)[a.len() as int] == c);
    assert(!a.contains(c)) by {
        if a.contains(c) {
            let i = choose|i: int| 0 <= i < a.len() && a[i] == c;
            assert(kept(row)[i] == c);
        }
    }
    // What is below the entry is below none of the others.
    assert forall|k: int| #[trigger] NodeRecord::below(nodes, c.0 as int).contains(k) implies
        !NodeRecord::row_below(nodes, l, a).contains(k) by {
        if NodeRecord::row_below(nodes, l, a).contains(k) {
            row_below_facts(nodes, l, a, k);
            let d = choose|d: NodeId|
                a.contains(d) && l < d.0 < nodes.len() && #[trigger] NodeRecord::below(
                    nodes,
                    d.0 as int,
                ).contains(k);
            let i = choose|i: int| 0 <= i < a.len() && a[i] == d;
            assert(nodes[a[i].0 as int].parent == Some(NodeId(l as u32)));
            assert(nodes[kept(row)[a.len() as int].0 as int].parent == Some(NodeId(l as u32)));
            siblings_apart(nodes, c.0 as int, d.0 as int, k);
        }
    }
    assert forall|k: int| #[trigger] NodeRecord::below(nodes, c.0 as int).contains(k) && k
        != c.0 implies same_at(q.ops, base, nodes[k].uuid) by {
        below_transitive(nodes, root, c.0 as int, k);
        let u = nodes[k].uuid;
        clear_rest(row, ops);
        assert forall|i: int, m: int|
            0 <= i < rest.len() && (#[trigger] rest[i]) is Existing && #[trigger] NodeRecord::below(
                nodes,
                (rest[i]->Existing_0).0 as int,
            ).contains(m) && m != (rest[i]->Existing_0).0 implies nodes[m].uuid != u by {
            let d = rest[i]->Existing_0;
            assert(rest[i] == row[i]);
            below_transitive(nodes, root, d.0 as int, m);
            crate::arena::coherence::kept_has(rest, i, d);
            let j = choose|j: int| 0 <= j < a.len() && a[j] == d;
            row_below_has(nodes, l, a, j, m);
            assert(m != k);
        }
        row_plan_leaves(nodes, lo, rest, ops, dirty, feu, u);
        assert(same_at(ops, base, u));
    }
    assert(r.children_of == q.children_of.union_prefer_right(p.children_of));
    assert forall|k: int| #[trigger] NodeRecord::row_below(nodes, l, a).contains(k) implies
        lists.contains_key(k as u128) == q.children_of.contains_key(k as u128) && (
    lists.contains_key(k as u128) ==> lists[k as u128] == q.children_of[k as u128]) by {
        assert(NodeRecord::row_below(nodes, l, kept(row)).contains(k)) by {
            assert(kept(row).drop_last() =~= a);
        }
        row_below_facts(nodes, l, a, k);
        let d = choose|d: NodeId|
            a.contains(d) && l < d.0 < nodes.len() && #[trigger] NodeRecord::below(
                nodes,
                d.0 as int,
            ).contains(k);
        below_facts(nodes, d.0 as int, k);
        if p.children_of.contains_key(k as u128) {
            assert(NodeRecord::below(nodes, c.0 as int).contains(k as u128 as int));
        }
    }
    assert forall|k: int| #[trigger] NodeRecord::below(nodes, c.0 as int).contains(k) implies
        lists.contains_key(k as u128) == p.children_of.contains_key(k as u128) && (
    lists.contains_key(k as u128) ==> lists[k as u128] == p.children_of[k as u128]) by {
        below_facts(nodes, c.0 as int, k);
        row_below_has(nodes, l, kept(row), a.len() as int, k);
        if q.children_of.contains_key(k as u128) {
            assert(NodeRecord::row_below(nodes, l, a).contains(k as u128 as int));
        }
    }
}

/// Overlays with the same lists behind a node give the same text behind it.
proof fn raw_behind(a: Overlay, b: Overlay, lo: int, id: int)
    requires
        a.nodes == b.nodes,
        a.behind(),
        b.behind(),
        0 <= lo < id < a.nodes.len() <= u32::MAX,
        forall|k: int|
            lo < k < a.nodes.len() ==> (#[trigger] a.lists.contains_key(k as u128))
                == b.lists.contains_key(k as u128) && (a.lists.contains_key(k as u128)
                ==> a.lists[k as u128] == b.lists[k as u128]),
    ensures
        a.raw(id) == b.raw(id),
    decreases a.nodes.len() - id, 1int, 0nat,
{
    assert(a.lists.contains_key(id as u128) == b.lists.contains_key(id as u128));
    if a.lists.contains_key(id as u128) {
        row_raw_behind(a, b, lo, id, a.lists[id as u128]);
    }
}

proof fn row_raw_behind(a: Overlay, b: Overlay, lo: int, id: int, row: Seq<PlannedView>)
    requires
        a.nodes == b.nodes,
        a.behind(),
        b.behind(),
        0 <= lo <= id < a.nodes.len() <= u32::MAX,
        forall|k: int|
            lo < k < a.nodes.len() ==> (#[trigger] a.lists.contains_key(k as u128))
                == b.lists.contains_key(k as u128) && (a.lists.contains_key(k as u128)
                ==> a.lists[k as u128] == b.lists[k as u128]),
    ensures
        a.row_raw(id, row) == b.row_raw(id, row),
    decreases a.nodes.len() - id, 0int, row.len(),
{
    if row.len() > 0 {
        row_raw_behind(a, b, lo, id, row.drop_last());
        match row.last() {
            PlannedView::Existing(c) => {
                if id < c.0 < a.nodes.len() {
                    raw_behind(a, b, lo, c.0 as int);
                }
            },
            PlannedView::New(..) => {},
        }
    }
}

/// The text that a staged batch predicts is the text of the tree with every edit
/// carried out at its anchor, where nothing that did not parse is in the way.
pub proof fn staged_text_is_edited_text(s: ArenaState, ops: Ops, fix_even_unparsable: bool)
    requires
        s.wf(),
        s.coherent(),
        s.proper(),
        s.all_found(),
        ops.dom().finite(),
        OpView::all_go_together(ops),
        brings_plain(ops),
        s.plan(ops, fix_even_unparsable).reverted == 0,
    ensures
        s.overlay(ops, fix_even_unparsable).raw(s.root.0 as int) == text_with(
            s.nodes,
            ops,
            s.root.0 as int,
        ),
{
    let nodes = s.nodes;
    let root = s.root.0 as int;
    let dirty = s.dirty(ops);
    let p = s.plan(ops, fix_even_unparsable);
    assert(setting(nodes, root, ops, dirty)) by {
        in_setting(s, ops);
    }
    assert(NodeRecord::below(nodes, root).contains(root));
    plan_text(nodes, root, ops, dirty, fix_even_unparsable, s.root, ops, p.children_of);
    folded_text(s, ops, fix_even_unparsable);
}

proof fn in_setting(s: ArenaState, ops: Ops)
    requires
        s.wf(),
        s.coherent(),
        s.proper(),
        s.all_found(),
        ops.dom().finite(),
        OpView::all_go_together(ops),
        brings_plain(ops),
    ensures
        setting(s.nodes, s.root.0 as int, ops, s.dirty(ops)),
{
    reveal(setting);
    let nodes = s.nodes;
    let root = s.root.0 as int;
    assert(linked(nodes)) by {
        assert forall|p: int, i: int| 0 <= p < nodes.len() && 0 <= i < nodes[p].children.len()
            implies {
            let c = (#[trigger] nodes[p].children[i]).0 as int;
            p < c < nodes.len() && nodes[c].parent == Some(NodeId(p as u32))
                && nodes[c].parent_idx == i
        } by {}
    }
    assert(nodes_proper(nodes));
    assert forall|j: int, k: int|
        NodeRecord::below(nodes, root).contains(j) && #[trigger] NodeRecord::below(
            nodes,
            j,
        ).contains(k) && j != k && ops.contains_key(nodes[k].uuid) implies s.dirty(ops).contains(
        j as u128,
    ) by {
        below_facts(nodes, root, j);
        below_facts(nodes, j, k);
        below_transitive(nodes, root, j, k);
        let u = nodes[k].uuid;
        assert(s.by_uuid[u] == k);
        crate::arena::search::above_is_not_below(s, NodeId(j as u32), NodeId(k as u32));
        assert(NodeRecord::above(nodes, s.by_uuid[u] as int).contains(j as u128));
    }
}

/// The text of the tree before a node.
pub open spec fn text_before(nodes: Seq<NodeRecord>, id: int) -> Seq<char>
    decreases id,
{
    match nodes[id].parent {
        Some(p) => if p.0 < id {
            text_before(nodes, p.0 as int) + Tree::raws(
                NodeRecord::tree_of(nodes, p.0 as int).children.take(nodes[id].parent_idx as int),
            )
        } else {
            Seq::empty()
        },
        None => Seq::empty(),
    }
}

/// The text of the tree behind a node.
pub open spec fn text_behind(nodes: Seq<NodeRecord>, id: int) -> Seq<char>
    decreases id,
{
    match nodes[id].parent {
        Some(p) => if p.0 < id {
            Tree::raws(
                NodeRecord::tree_of(nodes, p.0 as int).children.skip(
                    nodes[id].parent_idx as int + 1,
                ),
            ) + text_behind(nodes, p.0 as int)
        } else {
            Seq::empty()
        },
        None => Seq::empty(),
    }
}

/// Whether a container is, or holds, something that did not parse.
pub open spec fn holds_unparsable(s: ArenaState, p: NodeId) -> bool {
    s.node(p).kind.is_type("unparsable"@) || exists|k: int|
        k != p.0 && #[trigger] NodeRecord::below(s.nodes, p.0 as int).contains(k)
            && s.nodes[k].kind.type_list().contains("unparsable"@)
}

/// One edit at a node of the tree: the text before the node and the text behind it stay
/// as they are; between them stand the new segments before the node's text, behind it
/// or in place of it, or nothing. An edit that changes which types follow each other in
/// a container that is, or holds, something that did not parse is not carried out,
/// unless that is asked for; then the text stays as it is. Either way the edit counts as
/// used, and no anchor is left.
pub proof fn one_edit_text(
    s: ArenaState,
    anchor: NodeId,
    op: OpView,
    fix_even_unparsable: bool,
)
    requires
        s.wf(),
        s.coherent(),
        s.proper(),
        s.all_found(),
        anchor != s.root,
        NodeRecord::below(s.nodes, s.root.0 as int).contains(anchor.0 as int),
        forall|j: int| 0 <= j < op.edits.len() ==> (#[trigger] op.edits[j]).proper(),
    ensures
        ({
            let ops: Ops = map![s.node(anchor).uuid => seq![op]];
            let text = s.overlay(ops, fix_even_unparsable).raw(s.root.0 as int);
            let before = text_before(s.nodes, anchor.0 as int);
            let own = s.at(anchor).raw();
            let behind = text_behind(s.nodes, anchor.0 as int);
            let new = SpecTree::raws(op.edits);
            let left_out = !fix_even_unparsable && changes_types(
                op,
                s.node(anchor).kind.type_list().to_set(),
            ) && holds_unparsable(s, s.node(anchor).parent->0);
            &&& s.node(anchor).parent is Some
            &&& s.tree().raw() == before + own + behind
            &&& s.plan(ops, fix_even_unparsable).reverted == (if left_out {
                1int
            } else {
                0
            })
            &&& s.plan(ops, fix_even_unparsable).applied == 1
            &&& s.plan(ops, fix_even_unparsable).ops == Map::<u128, Seq<OpView>>::empty()
            &&& left_out ==> text == before + own + behind
            &&& !left_out && op.kind == EditKind::CreateBefore ==> text == before + new + own
                + behind
            &&& !left_out && op.kind == EditKind::CreateAfter ==> text == before + own + new
                + behind
            &&& !left_out && op.kind == EditKind::Replace ==> text == before + new + behind
            &&& !left_out && op.kind == EditKind::Delete ==> text == before + behind
        }),
{
    let feu = fix_even_unparsable;
    let u = s.node(anchor).uuid;
    let ops: Ops = map![u => seq![op]];
    let nodes = s.nodes;
    let root = s.root.0 as int;
    assert(ops.dom() =~= set![u]);
    assert(ops[u] == seq![op]);
    assert(OpView::all_go_together(ops));
    assert(brings_plain(ops)) by {
        assert forall|v: u128, i: int, j: int|
            ops.contains_key(v) && 0 <= i < ops[v].len() && 0 <= j
                < ops[v][i].edits.len() implies free_of(#[trigger] ops[v][i].edits[j], ops, v) by {
            assert(op.edits[j].proper());
        }
    }
    in_setting(s, ops);
    let none: Ops = Map::empty();
    assert(brings_plain(none));
    assert(none.dom() =~= Set::empty());
    assert(OpView::all_go_together(none));
    in_setting(s, none);
    text_around(s, ops, anchor, anchor);
    text_around(s, none, anchor, anchor);
    assert(edits_at(none, u).len() == 0);
    assert(linked(nodes)) by {
        reveal(setting);
    }
    below_facts(nodes, root, anchor.0 as int);
    assert forall|k: int| #[trigger]
        NodeRecord::below(nodes, anchor.0 as int).contains(k) && k != anchor.0 implies
        !ops.contains_key(nodes[k].uuid) by {
        reveal(setting);
        below_transitive(nodes, root, anchor.0 as int, k);
    }
    plain_text(nodes, ops, anchor.0 as int);
    plain_text(nodes, none, anchor.0 as int);
    plain_text(nodes, none, root);
    let before = text_before(nodes, anchor.0 as int);
    let own = s.at(anchor).raw();
    let behind = text_behind(nodes, anchor.0 as int);
    let new = SpecTree::raws(op.edits);
    assert(before + (new + own) + behind =~= before + new + own + behind);
    assert(before + (own + new) + behind =~= before + own + new + behind);
    assert(before + Seq::<char>::empty() + behind =~= before + behind);
    one_edit_left_out(s, anchor, op, feu, s.root);
    if s.plan(ops, feu).reverted == 0 {
        staged_text_is_edited_text(s, ops, feu);
    } else {
        one_dropped_text(s, ops, anchor, feu);
    }
}

/// The predicted text where the plan for one edit drops something.
proof fn one_dropped_text(s: ArenaState, ops: Ops, anchor: NodeId, feu: bool)
    requires
        s.wf(),
        s.coherent(),
        s.all_found(),
        OpView::all_go_together(ops),
        setting(s.nodes, s.root.0 as int, ops, s.dirty(ops)),
        NodeRecord::below(s.nodes, s.root.0 as int).contains(anchor.0 as int),
        forall|v: u128| #[trigger] ops.contains_key(v) ==> v == s.node(anchor).uuid,
        s.plan(ops, feu).reverted > 0,
    ensures
        s.overlay(ops, feu).raw(s.root.0 as int) == s.tree().raw(),
{
    let nodes = s.nodes;
    let root = s.root.0 as int;
    let p = s.plan(ops, feu);
    assert(linked(nodes)) by {
        reveal(setting);
    }
    below_facts(nodes, root, anchor.0 as int);
    assert(NodeRecord::below(nodes, root).contains(root));
    dropped_text(s, ops, anchor, feu, s.root, p.children_of);
    folded_text(s, ops, feu);
}

/// What moves out of the root stays in it.
proof fn folded_text(s: ArenaState, ops: Ops, feu: bool)
    requires
        s.wf(),
        s.coherent(),
        OpView::all_go_together(ops),
    ensures
        ({
            let p = s.plan(ops, feu);
            let root = s.root.0 as int;
            let o = Overlay { nodes: s.nodes, lists: p.children_of };
            s.overlay(ops, feu).raw(root) == o.row_raw(root, p.pre) + o.raw(root) + o.row_raw(
                root,
                p.post,
            )
        }),
{
    let nodes = s.nodes;
    let root = s.root.0 as int;
    let dirty = s.dirty(ops);
    let p = s.plan(ops, feu);
    let lists = s.plan_lists(ops, feu);
    let o = Overlay { nodes, lists: p.children_of };
    let whole = Overlay { nodes, lists };
    if p.pre.len() == 0 && p.post.len() == 0 {
        assert(o.row_raw(root, p.pre) + o.raw(root) + o.row_raw(root, p.post) =~= o.raw(root));
    } else {
        crate::arena::coherence::whole_plan_holds(s, ops, feu);
        crate::arena::plan::plan_behind(nodes, s.root, ops, dirty, feu);
        assert(crate::arena::plan::lists_behind(p.children_of, 0, nodes));
        assert(root as u128 == s.root.key());
        assert(crate::arena::laws::kids_know(nodes)) by {
            assert forall|q: int, i: int|
                0 <= q < nodes.len() && 0 <= i < nodes[q].children.len() implies {
                let c = (#[trigger] nodes[q].children[i]).0 as int;
                q < c < nodes.len() && nodes[c].parent == Some(NodeId(q as u32))
            } by {}
        }
        crate::arena::laws::plan_sparse(nodes, s.root, ops, dirty, feu);
        assert(p.changed);
        let row = p.children_of[s.root.key()];
        assert(lists == p.children_of.insert(s.root.key(), p.pre + row + p.post));
        assert(whole.raw(root) == whole.row_raw(root, p.pre + row + p.post));
        assert forall|k: int| root < k < nodes.len() implies (
        #[trigger] whole.lists.contains_key(k as u128)) == o.lists.contains_key(k as u128) && (
        whole.lists.contains_key(k as u128) ==> whole.lists[k as u128]
            == o.lists[k as u128]) by {
            assert(k as u128 != root as u128);
        }
        row_raw_behind(whole, o, root, root, p.pre + row + p.post);
        row_raw_sum(o, root, p.pre, row);
        row_raw_sum(o, root, p.pre + row, p.post);
    }
}

/// The types of a tree below its root are those of the nodes there.
pub proof fn types_below_are(s: ArenaState, id: NodeId, t: Seq<char>)
    requires
        s.wf(),
        s.coherent(),
        s.has(id),
    ensures
        s.at(id).types_below().contains(t) <==> exists|k: int|
            k != id.0 && #[trigger] NodeRecord::below(s.nodes, id.0 as int).contains(k)
                && s.nodes[k].kind.type_list().contains(t),
    decreases s.nodes.len() - id.0, 1int, 0nat,
{
    let lo = id.0 as int;
    let kids = s.nodes[lo].children;
    types_of_are(s, id, kids.len() as int, t);
    s.lemma_at(id);
    assert(s.at(id).children.take(kids.len() as int) =~= s.at(id).children);
    if exists|k: int|
        k != lo && #[trigger] NodeRecord::below(s.nodes, lo).contains(k)
            && s.nodes[k].kind.type_list().contains(t) {
        let k = choose|k: int|
            k != lo && #[trigger] NodeRecord::below(s.nodes, lo).contains(k)
                && s.nodes[k].kind.type_list().contains(t);
        linked_in(s);
        below_child(s.nodes, lo, k);
        let i = choose|i: int|
            0 <= i < kids.len() && lo < kids[i].0 < s.nodes.len() && #[trigger] NodeRecord::below(
                s.nodes,
                kids[i].0 as int,
            ).contains(k);
        assert(NodeRecord::below(s.nodes, s.nodes[lo].children[i].0 as int).contains(k));
    }
    if s.at(id).types_below().contains(t) {
        let (i, k) = choose|i: int, k: int|
            0 <= i < kids.len() && #[trigger] NodeRecord::below(
                s.nodes,
                (#[trigger] s.nodes[lo].children[i]).0 as int,
            ).contains(k) && s.nodes[k].kind.type_list().contains(t);
        linked_in(s);
        below_of_child(s.nodes, lo, i, k);
        below_facts(s.nodes, s.nodes[lo].children[i].0 as int, k);
        assert(k != lo);
    }
}

proof fn linked_in(s: ArenaState)
    requires
        s.wf(),
        s.coherent(),
    ensures
        linked(s.nodes),
{
    let nodes = s.nodes;
    assert forall|p: int, i: int| 0 <= p < nodes.len() && 0 <= i < nodes[p].children.len()
        implies {
        let c = (#[trigger] nodes[p].children[i]).0 as int;
        p < c < nodes.len() && nodes[c].parent == Some(NodeId(p as u32)) && nodes[c].parent_idx
            == i
    } by {}
}

/// The types of the first children and what is below them.
proof fn types_of_are(s: ArenaState, id: NodeId, n: int, t: Seq<char>)
    requires
        s.wf(),
        s.coherent(),
        s.has(id),
        0 <= n <= s.node(id).children.len(),
    ensures
        Tree::types_of(s.at(id).children.take(n)).contains(t) <==> exists|i: int, k: int|
            0 <= i < n && #[trigger] NodeRecord::below(
                s.nodes,
                (#[trigger] s.nodes[id.0 as int].children[i]).0 as int,
            ).contains(k) && s.nodes[k].kind.type_list().contains(t),
    decreases s.nodes.len() - id.0, 0int, n as nat,
{
    s.lemma_at(id);
    let lo = id.0 as int;
    let trees = s.at(id).children;
    if n > 0 {
        types_of_are(s, id, n - 1, t);
        assert(trees.take(n).drop_last() =~= trees.take(n - 1));
        assert(trees.take(n).last() == trees[n - 1]);
        let c = s.nodes[lo].children[n - 1];
        assert(lo < c.0 < s.nodes.len());
        types_below_are(s, c, t);
        s.lemma_at(c);
        assert(trees[n - 1] == s.at(c));
        assert(NodeRecord::below(s.nodes, c.0 as int).contains(c.0 as int));
        if s.at(c).types_below().contains(t) {
            let k = choose|k: int|
                k != c.0 && #[trigger] NodeRecord::below(s.nodes, c.0 as int).contains(k)
                    && s.nodes[k].kind.type_list().contains(t);
            assert(NodeRecord::below(s.nodes, s.nodes[lo].children[n - 1].0 as int).contains(k));
        }
        if s.nodes[c.0 as int].kind.type_list().contains(t) {
            let k = c.0 as int;
            assert(NodeRecord::below(s.nodes, s.nodes[lo].children[n - 1].0 as int).contains(k));
        }
        if exists|i: int, k: int|
            0 <= i < n && #[trigger] NodeRecord::below(
                s.nodes,
                (#[trigger] s.nodes[lo].children[i]).0 as int,
            ).contains(k) && s.nodes[k].kind.type_list().contains(t) {
            let (i, k) = choose|i: int, k: int|
                0 <= i < n && #[trigger] NodeRecord::below(
                    s.nodes,
                    (#[trigger] s.nodes[lo].children[i]).0 as int,
                ).contains(k) && s.nodes[k].kind.type_list().contains(t);
            if i == n - 1 && k == c.0 {
                assert(trees[n - 1].kind.type_list().to_set().contains(t));
            }
        }
    }
}

/// The plan of a row adds to what may break only where edits are anchored inside new
/// segments.
proof fn row_breaks_nothing(
    nodes: Seq<NodeRecord>,
    lo: NodeId,
    row: Seq<PlannedView>,
    ops: Ops,
    dirty: Set<u128>,
    feu: bool,
)
    requires
        ops.dom().finite(),
        ops.dom().len() == 0 || forall|i: int|
            0 <= i < row.len() ==> (#[trigger] row[i]) is Existing,
    ensures
        !RowPlanView::of(nodes, lo, row, ops, dirty, feu).may_break,
    decreases row.len(),
{
    if row.len() > 0 {
        let rest = row.drop_last();
        if ops.dom().len() != 0 {
            assert forall|i: int| 0 <= i < rest.len() implies (#[trigger] rest[i]) is Existing by {
                assert(rest[i] == row[i]);
            }
        }
        row_breaks_nothing(nodes, lo, rest, ops, dirty, feu);
        let r = RowPlanView::of(nodes, lo, rest, ops, dirty, feu);
        crate::arena::coherence::row_plan_sub(nodes, lo, rest, ops, dirty, feu);
        assert forall|u: u128| #[trigger] r.ops.dom().contains(u) implies ops.dom().contains(
            u,
        ) by {
            assert(r.ops.contains_key(u));
        }
        vstd::set_lib::lemma_len_subset(r.ops.dom(), ops.dom());
        let last = row[row.len() - 1];
        assert(row.last() == last);
    }
}

/// Without edits nothing is used up.
proof fn nothing_to_use(
    nodes: Seq<NodeRecord>,
    lo: NodeId,
    row: Seq<PlannedView>,
    dirty: Set<u128>,
    feu: bool,
)
    requires
        forall|i: int|
            0 <= i < row.len() && (#[trigger] row[i]) is Existing ==> !dirty.contains(
                (row[i]->Existing_0).key(),
            ),
    ensures
        ({
            let none: Ops = Map::empty();
            let r = RowPlanView::of(nodes, lo, row, none, dirty, feu);
            &&& r.applied == 0
            &&& r.ops == none
        }),
    decreases row.len(),
{
    let none: Ops = Map::empty();
    if row.len() > 0 {
        let rest = row.drop_last();
        assert forall|i: int| 0 <= i < rest.len() && (#[trigger] rest[i]) is Existing implies
            !dirty.contains((rest[i]->Existing_0).key()) by {
            assert(rest[i] == row[i]);
        }
        nothing_to_use(nodes, lo, rest, dirty, feu);
        let last = row[row.len() - 1];
        assert(row.last() == last);
        if let PlannedView::Existing(c) = last {
            assert(row[row.len() - 1] is Existing);
            assert(SubPlanView::of(nodes, c, none, dirty, feu) == SubPlanView::unchanged(none));
        } else {
            assert(none.dom() =~= Set::empty());
        }
    }
}

/// When the plan for one edit drops it.
proof fn one_edit_left_out(s: ArenaState, anchor: NodeId, op: OpView, feu: bool, id: NodeId)
    requires
        s.wf(),
        s.coherent(),
        s.all_found(),
        setting(
            s.nodes,
            s.root.0 as int,
            map![s.node(anchor).uuid => seq![op]],
            s.dirty(map![s.node(anchor).uuid => seq![op]]),
        ),
        NodeRecord::below(s.nodes, s.root.0 as int).contains(id.0 as int),
        NodeRecord::below(s.nodes, s.root.0 as int).contains(anchor.0 as int),
        NodeRecord::below(s.nodes, id.0 as int).contains(anchor.0 as int),
        id != anchor,
    ensures
        ({
            let ops: Ops = map![s.node(anchor).uuid => seq![op]];
            SubPlanView::of(s.nodes, id, ops, s.dirty(ops), feu).reverted == (if !feu
                && changes_types(op, s.node(anchor).kind.type_list().to_set()) && holds_unparsable(
                s,
                s.node(anchor).parent->0,
            ) {
                1int
            } else {
                0
            })
        }),
        ({
            let ops: Ops = map![s.node(anchor).uuid => seq![op]];
            let p = SubPlanView::of(s.nodes, id, ops, s.dirty(ops), feu);
            &&& p.applied == 1
            &&& p.ops == Map::<u128, Seq<OpView>>::empty()
        }),
    decreases s.nodes.len() - id.0,
{
    let u = s.node(anchor).uuid;
    let ops: Ops = map![u => seq![op]];
    let nodes = s.nodes;
    let root = s.root.0 as int;
    let dirty = s.dirty(ops);
    let lo = id.0 as int;
    linked_in(s);
    below_facts(nodes, root, lo);
    below_facts(nodes, lo, anchor.0 as int);
    below_facts(nodes, root, anchor.0 as int);
    let kids = nodes[lo].children;
    let p = SubPlanView::of(nodes, id, ops, dirty, feu);
    assert(ops.contains_key(u));
    assert(ops.dom() =~= set![u]);
    assert(s.by_uuid[u] == anchor.0);
    crate::arena::search::above_is_not_below(s, id, anchor);
    assert(NodeRecord::above(nodes, s.by_uuid[u] as int).contains(id.key()));
    assert(dirty.contains(id.key()));
    below_child(nodes, lo, anchor.0 as int);
    let i = choose|i: int|
        0 <= i < kids.len() && lo < kids[i].0 < nodes.len() && #[trigger] NodeRecord::below(
            nodes,
            kids[i].0 as int,
        ).contains(anchor.0 as int);
    let c = nodes[lo].children[i];
    assert(kids[i] == c);
    assert forall|j: int| 0 <= j < kids.len() implies (nodes[(
    #[trigger] kids[j]).0 as int].uuid == u <==> kids[j] == anchor) by {
        let d = nodes[lo].children[j];
        assert(NodeRecord::below(nodes, d.0 as int).contains(d.0 as int));
        below_of_child(nodes, lo, j, d.0 as int);
        below_transitive(nodes, root, lo, d.0 as int);
    }
    let t = Spliced::of(nodes, kids, ops);
    let r = RowPlanView::of(nodes, id, t.row, t.ops, dirty, feu);
    assert(p == SubPlanView::finish(nodes, id, t, r, feu));
    if c == anchor {
        left_out_here(s, anchor, op, feu, id, i);
    } else {
        assert forall|j: int| 0 <= j < kids.len() implies !ops.contains_key(
            nodes[(#[trigger] kids[j]).0 as int].uuid,
        ) by {
            let d = nodes[lo].children[j];
            if kids[j] == anchor {
                assert(NodeRecord::below(nodes, d.0 as int).contains(d.0 as int));
                siblings_apart(nodes, c.0 as int, d.0 as int, anchor.0 as int);
            }
        }
        splice_untouched(nodes, kids, ops);
        row_breaks_nothing(nodes, id, t.row, t.ops, dirty, feu);
        assert(NodeRecord::below(nodes, c.0 as int).contains(c.0 as int));
        below_of_child(nodes, lo, i, c.0 as int);
        below_transitive(nodes, root, lo, c.0 as int);
        one_edit_left_out(s, anchor, op, feu, c);
        assert(kids.take(kids.len() as int) =~= kids);
        assert forall|j: int| 0 <= j < kids.len() && j != i implies !dirty.contains(
            (#[trigger] nodes[lo].children[j]).key(),
        ) by {
            let d = nodes[lo].children[j];
            if dirty.contains(d.key()) {
                marked_child(s, ops, anchor, id, j);
                siblings_apart(nodes, c.0 as int, d.0 as int, anchor.0 as int);
            }
        }
        one_marked_child(nodes, id, i, kids.len() as int, ops, dirty, feu);
    }
}

/// When the container of the anchor drops the edit.
proof fn left_out_here(
    s: ArenaState,
    anchor: NodeId,
    op: OpView,
    feu: bool,
    id: NodeId,
    i: int,
)
    requires
        s.wf(),
        s.coherent(),
        s.has(id),
        s.has(anchor),
        s.by_uuid.contains_key(s.node(anchor).uuid),
        s.by_uuid[s.node(anchor).uuid] == anchor.0,
        0 <= i < s.node(id).children.len(),
        s.node(id).children[i] == anchor,
        s.dirty(map![s.node(anchor).uuid => seq![op]]).contains(id.key()),
        forall|j: int|
            0 <= j < s.node(id).children.len() ==> (s.nodes[(
            #[trigger] s.node(id).children[j]).0 as int].uuid == s.node(anchor).uuid <==> s.node(
                id,
            ).children[j] == anchor),
    ensures
        ({
            let ops: Ops = map![s.node(anchor).uuid => seq![op]];
            &&& s.node(anchor).parent == Some(id)
            &&& SubPlanView::of(s.nodes, id, ops, s.dirty(ops), feu).reverted == (if !feu
                && changes_types(op, s.node(anchor).kind.type_list().to_set()) && holds_unparsable(
                s,
                id,
            ) {
                1int
            } else {
                0
            })
            &&& SubPlanView::of(s.nodes, id, ops, s.dirty(ops), feu).applied == 1
            &&& SubPlanView::of(s.nodes, id, ops, s.dirty(ops), feu).ops == Map::<
                u128,
                Seq<OpView>,
            >::empty()
        }),
{
    let u = s.node(anchor).uuid;
    let ops: Ops = map![u => seq![op]];
    let nodes = s.nodes;
    let dirty = s.dirty(ops);
    let lo = id.0 as int;
    linked_in(s);
    let kids = nodes[lo].children;
    let t = Spliced::of(nodes, kids, ops);
    let r = RowPlanView::of(nodes, id, t.row, t.ops, dirty, feu);
    let p = SubPlanView::of(nodes, id, ops, dirty, feu);
    assert(p == SubPlanView::finish(nodes, id, t, r, feu));
    s.lemma_at(id);
    types_below_are(s, id, "unparsable"@);
    let c = nodes[lo].children[i];
    assert(s.node(anchor).parent == Some(id));
    assert forall|j: int| 0 <= j < kids.len() implies (nodes[(
    #[trigger] kids[j]).0 as int].uuid == u <==> j == i) by {
        let d = s.node(id).children[j];
        assert(nodes[d.0 as int].parent_idx == j) by {
            let e = nodes[lo].children[j];
        }
        assert(nodes[c.0 as int].parent_idx == i);
    }
    one_edit_in_place(nodes, kids, u, op, i);
    s.lemma_at(anchor);
    splice_kids(nodes, lo, ops);
    assert forall|m: int| 0 <= m < t.row.len() && (#[trigger] t.row[m]) is Existing implies
        !dirty.contains((t.row[m]->Existing_0).key()) by {
        let d = t.row[m]->Existing_0;
        let j = choose|j: int| 0 <= j < kids.len() && kids[j] == d;
        if dirty.contains(d.key()) {
            marked_child(s, ops, anchor, id, j);
            let e = nodes[lo].children[j];
            assert(NodeRecord::below(nodes, anchor.0 as int).contains(anchor.0 as int));
            siblings_apart(nodes, d.0 as int, anchor.0 as int, anchor.0 as int);
        }
    }
    unmarked_row(nodes, id, t.row, t.ops, dirty, feu);
    assert(t.ops.dom() =~= Set::empty());
    row_breaks_nothing(nodes, id, t.row, t.ops, dirty, feu);
    nothing_to_use(nodes, id, t.row, dirty, feu);
}

/// Of children of which one is marked, only that one adds to what is dropped.
proof fn one_marked_child(
    nodes: Seq<NodeRecord>,
    id: NodeId,
    i: int,
    n: int,
    ops: Ops,
    dirty: Set<u128>,
    feu: bool,
)
    requires
        linked(nodes),
        id.0 < nodes.len(),
        0 <= i < n <= nodes[id.0 as int].children.len(),
        forall|j: int|
            0 <= j < nodes[id.0 as int].children.len() && j != i ==> !dirty.contains(
                (#[trigger] nodes[id.0 as int].children[j]).key(),
            ),
    ensures
        ({
            let row = PlannedView::kept_row(nodes[id.0 as int].children.take(n));
            let r = RowPlanView::of(nodes, id, row, ops, dirty, feu);
            let q = SubPlanView::of(nodes, nodes[id.0 as int].children[i], ops, dirty, feu);
            &&& r.reverted == q.reverted
            &&& r.applied == q.applied
            &&& r.ops == q.ops
        }),
    decreases n,
{
    let kids = nodes[id.0 as int].children;
    let row = PlannedView::kept_row(kids.take(n));
    let rest = PlannedView::kept_row(kids.take(n - 1));
    assert(row.drop_last() =~= rest);
    let c = nodes[id.0 as int].children[n - 1];
    assert(row.last() == PlannedView::Existing(c));
    assert(id.0 < c.0 < nodes.len());
    let t = RowPlanView::of(nodes, id, rest, ops, dirty, feu);
    if n - 1 == i {
        unmarked_kids(nodes, id, n - 1, ops, dirty, feu);
    } else {
        one_marked_child(nodes, id, i, n - 1, ops, dirty, feu);
        assert(SubPlanView::of(nodes, c, t.ops, dirty, feu) == SubPlanView::unchanged(t.ops));
    }
}

/// The text with edits anchored at one node at most, as parted by a node at or above
/// it.
proof fn text_around(s: ArenaState, ops: Ops, anchor: NodeId, x: NodeId)
    requires
        s.wf(),
        s.coherent(),
        s.all_found(),
        s.proper(),
        setting(s.nodes, s.root.0 as int, ops, s.dirty(ops)),
        forall|v: u128| #[trigger] ops.contains_key(v) ==> v == s.node(anchor).uuid,
        x != s.root,
        NodeRecord::below(s.nodes, s.root.0 as int).contains(x.0 as int),
        NodeRecord::below(s.nodes, x.0 as int).contains(anchor.0 as int),
    ensures
        text_with(s.nodes, ops, s.root.0 as int) == text_before(s.nodes, x.0 as int) + edited(
            edits_at(ops, s.node(x).uuid),
            text_with(s.nodes, ops, x.0 as int),
        ) + text_behind(s.nodes, x.0 as int),
    decreases x.0,
{
    let nodes = s.nodes;
    let root = s.root.0 as int;
    let at = x.0 as int;
    level_text(s, ops, anchor, x);
    let p = s.nodes[at].parent->0;
    let i = s.nodes[at].parent_idx as int;
    let trees = NodeRecord::tree_of(nodes, p.0 as int).children;
    let own = edited(edits_at(ops, nodes[at].uuid), text_with(nodes, ops, at));
    let left = Tree::raws(trees.take(i));
    let right = Tree::raws(trees.skip(i + 1));
    if p == s.root {
        let none = Seq::<char>::empty();
        assert(text_before(nodes, root) == none);
        assert(text_behind(nodes, root) == none);
        assert(none + left =~= left);
        assert(right + none =~= right);
    } else {
        text_around(s, ops, anchor, p);
        regroup(text_before(nodes, p.0 as int), left, own, right, text_behind(nodes, p.0 as int));
    }
}

proof fn regroup(a: Seq<char>, b: Seq<char>, c: Seq<char>, d: Seq<char>, e: Seq<char>)
    ensures
        a + (b + c + d) + e == (a + b) + c + (d + e),
{
    assert(a + (b + c + d) + e =~= (a + b) + c + (d + e));
}

/// The text of the container of a node at or above the only anchor.
proof fn level_text(s: ArenaState, ops: Ops, anchor: NodeId, x: NodeId)
    requires
        s.wf(),
        s.coherent(),
        s.all_found(),
        s.proper(),
        setting(s.nodes, s.root.0 as int, ops, s.dirty(ops)),
        forall|v: u128| #[trigger] ops.contains_key(v) ==> v == s.node(anchor).uuid,
        x != s.root,
        NodeRecord::below(s.nodes, s.root.0 as int).contains(x.0 as int),
        NodeRecord::below(s.nodes, x.0 as int).contains(anchor.0 as int),
    ensures
        s.nodes[x.0 as int].parent is Some,
        ({
            let at = x.0 as int;
            let p = (s.nodes[at].parent->0).0 as int;
            let i = s.nodes[at].parent_idx as int;
            let trees = NodeRecord::tree_of(s.nodes, p).children;
            &&& p < at
            &&& NodeRecord::below(s.nodes, s.root.0 as int).contains(p)
            &&& NodeRecord::below(s.nodes, p).contains(anchor.0 as int)
            &&& p != s.root.0 ==> edits_at(ops, s.nodes[p].uuid).len() == 0
            &&& text_with(s.nodes, ops, p) == Tree::raws(trees.take(i)) + edited(
                edits_at(ops, s.nodes[at].uuid),
                text_with(s.nodes, ops, at),
            ) + Tree::raws(trees.skip(i + 1))
        }),
{
    linked_in(s);
    let nodes = s.nodes;
    let root = s.root.0 as int;
    let at = x.0 as int;
    below_facts(nodes, root, at);
    let p = s.nodes[at].parent->0;
    let i = s.nodes[at].parent_idx as int;
    assert(s.nodes[at].parent is Some);
    let kids = nodes[p.0 as int].children;
    assert(kids[i] == x);
    let trees = NodeRecord::tree_of(nodes, p.0 as int).children;
    below_transitive(nodes, root, at, anchor.0 as int);
    siblings_unedited(s, ops, anchor, x);
    row_text_around(nodes, ops, p.0 as int, i, kids.len() as int);
    assert(kids.take(kids.len() as int) =~= kids);
    assert(trees.subrange(i + 1, kids.len() as int) =~= trees.skip(i + 1));
    below_of_child(nodes, p.0 as int, i, anchor.0 as int);
    below_facts(nodes, at, anchor.0 as int);
    assert(p != anchor);
    if ops.contains_key(nodes[p.0 as int].uuid) {
        reveal(setting);
    }
}

/// No edit is anchored at or below the siblings of a node at or above the only anchor.
proof fn siblings_unedited(s: ArenaState, ops: Ops, anchor: NodeId, x: NodeId)
    requires
        s.wf(),
        s.coherent(),
        s.all_found(),
        forall|v: u128| #[trigger] ops.contains_key(v) ==> v == s.node(anchor).uuid,
        s.has(x),
        s.node(x).parent is Some,
        NodeRecord::below(s.nodes, s.root.0 as int).contains((s.node(x).parent->0).0 as int),
        NodeRecord::below(s.nodes, s.root.0 as int).contains(anchor.0 as int),
        NodeRecord::below(s.nodes, x.0 as int).contains(anchor.0 as int),
    ensures
        ({
            let p = (s.node(x).parent->0).0 as int;
            let i = s.node(x).parent_idx as int;
            forall|j: int, k: int|
                0 <= j < s.nodes[p].children.len() && j != i && #[trigger] NodeRecord::below(
                    s.nodes,
                    (#[trigger] s.nodes[p].children[j]).0 as int,
                ).contains(k) ==> !ops.contains_key(s.nodes[k].uuid)
        }),
{
    linked_in(s);
    let nodes = s.nodes;
    let root = s.root.0 as int;
    let p = (s.node(x).parent->0).0 as int;
    let i = s.node(x).parent_idx as int;
    assert(nodes[p].children[i] == x) by {
        assert(s.nodes[x.0 as int].parent is Some);
    }
    assert forall|j: int, k: int|
        0 <= j < nodes[p].children.len() && j != i && #[trigger] NodeRecord::below(
            nodes,
            (#[trigger] nodes[p].children[j]).0 as int,
        ).contains(k) implies !ops.contains_key(nodes[k].uuid) by {
        let d = nodes[p].children[j];
        assert(nodes[d.0 as int].parent_idx == j);
        below_of_child(nodes, p, j, k);
        below_transitive(nodes, root, p, k);
        if k == anchor.0 {
            siblings_apart(nodes, x.0 as int, d.0 as int, k);
        }
        assert(s.by_uuid[nodes[k].uuid] == k);
        assert(s.by_uuid[s.node(anchor).uuid] == anchor.0);
    }
}

/// The text of a row in which edits are anchored at or below one child only.
proof fn row_text_around(nodes: Seq<NodeRecord>, ops: Ops, p: int, i: int, n: int)
    requires
        linked(nodes),
        nodes_proper(nodes),
        0 <= p < nodes.len(),
        0 <= i < n <= nodes[p].children.len(),
        forall|j: int, k: int|
            0 <= j < nodes[p].children.len() && j != i && #[trigger] NodeRecord::below(
                nodes,
                (#[trigger] nodes[p].children[j]).0 as int,
            ).contains(k) ==> !ops.contains_key(nodes[k].uuid),
    ensures
        ({
            let c = nodes[p].children[i].0 as int;
            let trees = NodeRecord::tree_of(nodes, p).children;
            row_text_with(nodes, ops, p, nodes[p].children.take(n)) == Tree::raws(trees.take(i))
                + edited(edits_at(ops, nodes[c].uuid), text_with(nodes, ops, c)) + Tree::raws(
                trees.subrange(i + 1, n),
            )
        }),
    decreases n,
{
    let kids = nodes[p].children;
    let trees = NodeRecord::tree_of(nodes, p).children;
    assert(kids.take(n).drop_last() =~= kids.take(n - 1));
    let c = nodes[p].children[n - 1].0 as int;
    assert(p < c < nodes.len());
    assert(kids.take(n).last().0 == c);
    if n == i + 1 {
        assert forall|j: int, k: int|
            0 <= j < i && #[trigger] NodeRecord::below(
                nodes,
                (#[trigger] nodes[p].children[j]).0 as int,
            ).contains(k) implies !ops.contains_key(nodes[k].uuid) by {}
        plain_row_text(nodes, ops, p, i);
        assert(trees.subrange(i + 1, n) =~= Seq::empty());
        let left = Tree::raws(trees.take(i));
        let own = edited(edits_at(ops, nodes[c].uuid), text_with(nodes, ops, c));
        assert(left + own + Seq::<char>::empty() =~= left + own);
    } else {
        row_text_around(nodes, ops, p, i, n - 1);
        assert(NodeRecord::below(nodes, c).contains(c));
        assert forall|k: int| #[trigger] NodeRecord::below(nodes, c).contains(k) && k != c implies
            !ops.contains_key(nodes[k].uuid) by {
            assert(nodes[p].children[n - 1].0 == c);
        }
        assert(!ops.contains_key(nodes[c].uuid)) by {
            assert(nodes[p].children[n - 1].0 == c);
        }
        plain_text(nodes, ops, c);
        assert(trees[n - 1] == NodeRecord::tree_of(nodes, c));
        assert(trees.subrange(i + 1, n).drop_last() =~= trees.subrange(i + 1, n - 1));
        assert(trees.subrange(i + 1, n).last() == trees[n - 1]);
        let left = Tree::raws(trees.take(i));
        let d = nodes[p].children[i].0 as int;
        let own = edited(edits_at(ops, nodes[d].uuid), text_with(nodes, ops, d));
        let right = Tree::raws(trees.subrange(i + 1, n - 1));
        assert(left + own + right + trees[n - 1].raw() =~= left + own + (right
            + trees[n - 1].raw()));
    }
}

/// The plan of a row none of whose nodes is marked drops nothing.
proof fn unmarked_row(
    nodes: Seq<NodeRecord>,
    lo: NodeId,
    row: Seq<PlannedView>,
    ops: Ops,
    dirty: Set<u128>,
    feu: bool,
)
    requires
        forall|i: int|
            0 <= i < row.len() && (#[trigger] row[i]) is Existing ==> !dirty.contains(
                (row[i]->Existing_0).key(),
            ),
    ensures
        RowPlanView::of(nodes, lo, row, ops, dirty, feu).reverted == 0,
    decreases row.len(),
{
    if row.len() > 0 {
        let rest = row.drop_last();
        assert forall|i: int| 0 <= i < rest.len() && (#[trigger] rest[i]) is Existing implies
            !dirty.contains((rest[i]->Existing_0).key()) by {
            assert(rest[i] == row[i]);
        }
        unmarked_row(nodes, lo, rest, ops, dirty, feu);
        let r = RowPlanView::of(nodes, lo, rest, ops, dirty, feu);
        let last = row[row.len() - 1];
        assert(row.last() == last);
        if let PlannedView::Existing(c) = last {
            assert(row[row.len() - 1] is Existing);
            assert(SubPlanView::of(nodes, c, r.ops, dirty, feu) == SubPlanView::unchanged(r.ops));
        }
    }
}

/// A child that is marked for an edit stands at or above the anchor, so no other child
/// is marked.
proof fn marked_child(s: ArenaState, ops: Ops, anchor: NodeId, id: NodeId, i: int)
    requires
        s.wf(),
        s.coherent(),
        s.has(id),
        s.has(anchor),
        s.by_uuid.contains_key(s.node(anchor).uuid),
        s.by_uuid[s.node(anchor).uuid] == anchor.0,
        forall|v: u128| #[trigger] ops.contains_key(v) ==> v == s.node(anchor).uuid,
        0 <= i < s.node(id).children.len(),
        s.dirty(ops).contains(s.node(id).children[i].key()),
    ensures
        NodeRecord::below(s.nodes, s.node(id).children[i].0 as int).contains(anchor.0 as int),
        s.node(id).children[i] != anchor,
{
    let d = s.nodes[id.0 as int].children[i];
    let u = choose|u: u128|
        ops.contains_key(u) && s.by_uuid.contains_key(u) && #[trigger] NodeRecord::above(
            s.nodes,
            s.by_uuid[u] as int,
        ).contains(d.key());
    assert(s.by_uuid[u] == anchor.0);
    crate::arena::search::above_is_not_below(s, d, anchor);
}

/// Where the plan for one edit drops something, the text stays as it is.
proof fn dropped_text(
    s: ArenaState,
    ops: Ops,
    anchor: NodeId,
    feu: bool,
    id: NodeId,
    lists: Map<u128, Seq<PlannedView>>,
)
    requires
        s.wf(),
        s.coherent(),
        setting(s.nodes, s.root.0 as int, ops, s.dirty(ops)),
        s.has(anchor),
        s.by_uuid.contains_key(s.node(anchor).uuid),
        s.by_uuid[s.node(anchor).uuid] == anchor.0,
        forall|v: u128| #[trigger] ops.contains_key(v) ==> v == s.node(anchor).uuid,
        NodeRecord::below(s.nodes, s.root.0 as int).contains(id.0 as int),
        NodeRecord::below(s.nodes, s.root.0 as int).contains(anchor.0 as int),
        SubPlanView::of(s.nodes, id, ops, s.dirty(ops), feu).reverted > 0,
        same_lists(
            lists,
            SubPlanView::of(s.nodes, id, ops, s.dirty(ops), feu).children_of,
            NodeRecord::below(s.nodes, id.0 as int),
        ),
    ensures
        ({
            let p = SubPlanView::of(s.nodes, id, ops, s.dirty(ops), feu);
            let o = Overlay { nodes: s.nodes, lists };
            o.row_raw(id.0 as int, p.pre) + o.raw(id.0 as int) + o.row_raw(id.0 as int, p.post)
                == s.at(id).raw()
        }),
    decreases s.nodes.len() - id.0,
{
    reveal(setting);
    let nodes = s.nodes;
    let root = s.root.0 as int;
    let dirty = s.dirty(ops);
    let lo = id.0 as int;
    below_facts(nodes, root, lo);
    let kids = nodes[lo].children;
    let p = SubPlanView::of(nodes, id, ops, dirty, feu);
    let o = Overlay { nodes, lists };
    assert(NodeRecord::below(nodes, lo).contains(lo));
    assert(lo as u128 == id.key());
    crate::arena::laws::plan_sparse(nodes, id, ops, dirty, feu);
    if !p.changed {
        assert(!lists.contains_key(lo as u128));
        assert(o.row_raw(lo, p.pre) + o.raw(lo) + o.row_raw(lo, p.post) =~= o.raw(lo));
    } else {
        let t = Spliced::of(nodes, kids, ops);
        let r = RowPlanView::of(nodes, id, t.row, t.ops, dirty, feu);
        assert(p == SubPlanView::finish(nodes, id, t, r, feu));
        assert(r.reverted > 0);
        finish_text(nodes, id, t, r, feu, o);
        anchor_is_deeper(s, ops, anchor, feu, id);
        splice_untouched(nodes, kids, ops);
        assert(kids.take(kids.len() as int) =~= kids);
        // One child is marked, and its plan drops something.
        let i = dropped_child(s, ops, anchor, feu, id, kids.len() as int);
        let c = kids[i];
        let q = SubPlanView::of(nodes, c, ops, dirty, feu);
        assert(p.children_of.remove(id.key()) =~= q.children_of.remove(id.key()));
        dropped_lists(s, ops, feu, id, i, lists);
        dropped_text(s, ops, anchor, feu, c, lists);
        dropped_row_text(s, ops, feu, id, i, kids.len() as int, o);
        let tree = NodeRecord::tree_of(nodes, lo);
        assert(tree.children.take(kids.len() as int) =~= tree.children);
    }
}

/// Where the plan below the children of a container drops something, no edit is
/// anchored at the children.
proof fn anchor_is_deeper(s: ArenaState, ops: Ops, anchor: NodeId, feu: bool, id: NodeId)
    requires
        s.wf(),
        s.coherent(),
        setting(s.nodes, s.root.0 as int, ops, s.dirty(ops)),
        s.has(anchor),
        s.by_uuid.contains_key(s.node(anchor).uuid),
        s.by_uuid[s.node(anchor).uuid] == anchor.0,
        forall|v: u128| #[trigger] ops.contains_key(v) ==> v == s.node(anchor).uuid,
        NodeRecord::below(s.nodes, s.root.0 as int).contains(id.0 as int),
        NodeRecord::below(s.nodes, s.root.0 as int).contains(anchor.0 as int),
        ({
            let t = Spliced::of(s.nodes, s.node(id).children, ops);
            RowPlanView::of(s.nodes, id, t.row, t.ops, s.dirty(ops), feu).reverted > 0
        }),
    ensures
        forall|j: int|
            0 <= j < s.node(id).children.len() ==> !ops.contains_key(
                s.nodes[(#[trigger] s.node(id).children[j]).0 as int].uuid,
            ),
{
    reveal(setting);
    let nodes = s.nodes;
    let root = s.root.0 as int;
    let dirty = s.dirty(ops);
    let lo = id.0 as int;
    below_facts(nodes, root, lo);
    let kids = nodes[lo].children;
    let t = Spliced::of(nodes, kids, ops);
    splice_kids(nodes, lo, ops);
    if exists|j: int| 0 <= j < kids.len() && #[trigger] kids[j] == anchor {
        let j = choose|j: int| 0 <= j < kids.len() && #[trigger] kids[j] == anchor;
        assert forall|i: int| 0 <= i < t.row.len() && (#[trigger] t.row[i]) is Existing implies
            !dirty.contains((t.row[i]->Existing_0).key()) by {
            let c = t.row[i]->Existing_0;
            let m = choose|m: int| 0 <= m < kids.len() && kids[m] == c;
            if dirty.contains(c.key()) {
                marked_child(s, ops, anchor, id, m);
                let d = nodes[lo].children[j];
                let e = nodes[lo].children[m];
                assert(NodeRecord::below(nodes, anchor.0 as int).contains(anchor.0 as int));
                siblings_apart(nodes, c.0 as int, anchor.0 as int, anchor.0 as int);
            }
        }
        unmarked_row(nodes, id, t.row, t.ops, dirty, feu);
    }
    assert forall|j: int| 0 <= j < kids.len() implies !ops.contains_key(
        nodes[(#[trigger] s.node(id).children[j]).0 as int].uuid,
    ) by {
        let c = nodes[lo].children[j];
        assert(kids[j] == c);
        assert(NodeRecord::below(nodes, c.0 as int).contains(c.0 as int));
        below_of_child(nodes, lo, j, c.0 as int);
        below_transitive(nodes, root, lo, c.0 as int);
    }
}

/// The lists of a plan that changes below one child only.
proof fn dropped_lists(
    s: ArenaState,
    ops: Ops,
    feu: bool,
    id: NodeId,
    i: int,
    lists: Map<u128, Seq<PlannedView>>,
)
    requires
        setting(s.nodes, s.root.0 as int, ops, s.dirty(ops)),
        NodeRecord::below(s.nodes, s.root.0 as int).contains(id.0 as int),
        0 <= i < s.node(id).children.len(),
        ({
            let q = SubPlanView::of(s.nodes, s.node(id).children[i], ops, s.dirty(ops), feu);
            let p = SubPlanView::of(s.nodes, id, ops, s.dirty(ops), feu);
            &&& same_lists(lists, p.children_of, NodeRecord::below(s.nodes, id.0 as int))
            &&& p.children_of.remove(id.key()) == q.children_of.remove(id.key())
        }),
    ensures
        ({
            let c = s.node(id).children[i];
            let q = SubPlanView::of(s.nodes, c, ops, s.dirty(ops), feu);
            &&& NodeRecord::below(s.nodes, s.root.0 as int).contains(c.0 as int)
            &&& same_lists(lists, q.children_of, NodeRecord::below(s.nodes, c.0 as int))
            &&& forall|j: int|
                0 <= j < s.node(id).children.len() && j != i ==> !lists.contains_key(
                    (#[trigger] s.nodes[id.0 as int].children[j]).0 as u128,
                )
        }),
{
    reveal(setting);
    let nodes = s.nodes;
    let root = s.root.0 as int;
    let dirty = s.dirty(ops);
    let lo = id.0 as int;
    below_facts(nodes, root, lo);
    let kids = nodes[lo].children;
    let c = nodes[lo].children[i];
    let q = SubPlanView::of(nodes, c, ops, dirty, feu);
    let p = SubPlanView::of(nodes, id, ops, dirty, feu);
    assert(NodeRecord::below(nodes, c.0 as int).contains(c.0 as int));
    below_of_child(nodes, lo, i, c.0 as int);
    below_transitive(nodes, root, lo, c.0 as int);
    let bare = p.children_of.remove(id.key());
    assert forall|k: u128| k != id.key() implies (#[trigger] p.children_of.contains_key(k))
        == q.children_of.contains_key(k) && (p.children_of.contains_key(k) ==> p.children_of[k]
        == q.children_of[k]) by {
        assert(bare.contains_key(k) == p.children_of.contains_key(k));
        assert(bare.contains_key(k) == q.children_of.contains_key(k));
        if bare.contains_key(k) {
            assert(bare[k] == p.children_of[k]);
            assert(bare[k] == q.children_of[k]);
        }
    }
    assert forall|k: int| #[trigger] NodeRecord::below(nodes, c.0 as int).contains(k) implies
        lists.contains_key(k as u128) == q.children_of.contains_key(k as u128) && (
    lists.contains_key(k as u128) ==> lists[k as u128] == q.children_of[k as u128]) by {
        below_of_child(nodes, lo, i, k);
        below_facts(nodes, c.0 as int, k);
        assert(p.children_of.contains_key(k as u128) == q.children_of.contains_key(k as u128));
    }
    plan_holds(nodes, c, ops, dirty, feu);
    assert forall|j: int| 0 <= j < kids.len() && j != i implies !lists.contains_key(
        (#[trigger] nodes[lo].children[j]).0 as u128,
    ) by {
        let d = nodes[lo].children[j];
        assert(NodeRecord::below(nodes, d.0 as int).contains(d.0 as int));
        below_of_child(nodes, lo, j, d.0 as int);
        assert(d.0 as int as u128 == d.0 as u128);
        if lists.contains_key(d.0 as u128) {
            assert(p.children_of.contains_key(d.0 as u128));
            assert(q.children_of.contains_key(d.0 as u128));
            siblings_apart(nodes, c.0 as int, d.0 as int, d.0 as int);
        }
    }
}

/// Where the plan of the first children drops something, it does so at one child, which
/// is the only marked one.
proof fn dropped_child(
    s: ArenaState,
    ops: Ops,
    anchor: NodeId,
    feu: bool,
    id: NodeId,
    n: int,
) -> (i: int)
    requires
        s.wf(),
        s.coherent(),
        s.has(id),
        s.has(anchor),
        s.by_uuid.contains_key(s.node(anchor).uuid),
        s.by_uuid[s.node(anchor).uuid] == anchor.0,
        forall|v: u128| #[trigger] ops.contains_key(v) ==> v == s.node(anchor).uuid,
        0 <= n <= s.node(id).children.len(),
        RowPlanView::of(
            s.nodes,
            id,
            PlannedView::kept_row(s.node(id).children.take(n)),
            ops,
            s.dirty(ops),
            feu,
        ).reverted > 0,
    ensures
        ({
            let c = s.node(id).children[i];
            let q = SubPlanView::of(s.nodes, c, ops, s.dirty(ops), feu);
            let r = RowPlanView::of(
                s.nodes,
                id,
                PlannedView::kept_row(s.node(id).children.take(n)),
                ops,
                s.dirty(ops),
                feu,
            );
            &&& 0 <= i < n
            &&& q.reverted > 0
            &&& r.children_of == q.children_of
            &&& forall|j: int|
                0 <= j < s.node(id).children.len() && j != i ==> !s.dirty(ops).contains(
                    (#[trigger] s.node(id).children[j]).key(),
                )
        }),
    decreases n,
{
    let nodes = s.nodes;
    let lo = id.0 as int;
    let dirty = s.dirty(ops);
    let kids = nodes[lo].children;
    let row = PlannedView::kept_row(kids.take(n));
    assert(n > 0);
    let rest = PlannedView::kept_row(kids.take(n - 1));
    assert(row.drop_last() =~= rest);
    let c = nodes[lo].children[n - 1];
    assert(row.last() == PlannedView::Existing(c));
    assert(lo < c.0 < nodes.len());
    let t = RowPlanView::of(nodes, id, rest, ops, dirty, feu);
    let q = SubPlanView::of(nodes, c, t.ops, dirty, feu);
    assert(linked(nodes)) by {
        assert forall|p: int, i: int| 0 <= p < nodes.len() && 0 <= i < nodes[p].children.len()
            implies {
            let c = (#[trigger] nodes[p].children[i]).0 as int;
            p < c < nodes.len() && nodes[c].parent == Some(NodeId(p as u32))
                && nodes[c].parent_idx == i
        } by {}
    }
    if dirty.contains(c.key()) {
        marked_child(s, ops, anchor, id, n - 1);
        assert forall|j: int| 0 <= j < kids.len() && j != n - 1 implies !dirty.contains(
            (#[trigger] nodes[lo].children[j]).key(),
        ) by {
            let d = nodes[lo].children[j];
            if dirty.contains(d.key()) {
                marked_child(s, ops, anchor, id, j);
                siblings_apart(nodes, c.0 as int, d.0 as int, anchor.0 as int);
            }
        }
        unmarked_kids(nodes, id, n - 1, ops, dirty, feu);
        assert(t.children_of.union_prefer_right(q.children_of) =~= q.children_of);
        n - 1
    } else {
        let i = dropped_child(s, ops, anchor, feu, id, n - 1);
        assert(q == SubPlanView::unchanged(t.ops));
        assert(t.children_of.union_prefer_right(q.children_of) =~= t.children_of);
        i
    }
}

/// Children that are not marked stay as they are.
proof fn unmarked_kids(
    nodes: Seq<NodeRecord>,
    id: NodeId,
    n: int,
    ops: Ops,
    dirty: Set<u128>,
    feu: bool,
)
    requires
        linked(nodes),
        id.0 < nodes.len(),
        0 <= n <= nodes[id.0 as int].children.len(),
        forall|j: int|
            0 <= j < n ==> !dirty.contains((#[trigger] nodes[id.0 as int].children[j]).key()),
    ensures
        ({
            let row = PlannedView::kept_row(nodes[id.0 as int].children.take(n));
            let r = RowPlanView::of(nodes, id, row, ops, dirty, feu);
            &&& r.row == row
            &&& r.ops == ops
            &&& r.reverted == 0
            &&& r.applied == 0
            &&& r.children_of == Map::<u128, Seq<PlannedView>>::empty()
        }),
    decreases n,
{
    let kids = nodes[id.0 as int].children;
    let row = PlannedView::kept_row(kids.take(n));
    let r = RowPlanView::of(nodes, id, row, ops, dirty, feu);
    if n > 0 {
        unmarked_kids(nodes, id, n - 1, ops, dirty, feu);
        assert(row.drop_last() =~= PlannedView::kept_row(kids.take(n - 1)));
        let c = nodes[id.0 as int].children[n - 1];
        assert(row.last() == PlannedView::Existing(c));
        assert(id.0 < c.0 < nodes.len());
        assert(!dirty.contains(c.key()));
        assert(SubPlanView::of(nodes, c, ops, dirty, feu) == SubPlanView::unchanged(ops));
        assert(r.row =~= row);
        assert(r.children_of =~= Map::<u128, Seq<PlannedView>>::empty());
    } else {
        assert(r.row =~= row);
    }
}

/// The text of children one of which has its plan dropped below it.
proof fn dropped_row_text(
    s: ArenaState,
    ops: Ops,
    feu: bool,
    id: NodeId,
    i: int,
    n: int,
    o: Overlay,
)
    requires
        linked(s.nodes),
        s.has(id),
        0 <= i < s.node(id).children.len(),
        0 <= n <= s.node(id).children.len(),
        o.nodes == s.nodes,
        forall|j: int|
            0 <= j < s.node(id).children.len() && j != i ==> !s.dirty(ops).contains(
                (#[trigger] s.node(id).children[j]).key(),
            ),
        forall|j: int|
            0 <= j < s.node(id).children.len() && j != i ==> !o.lists.contains_key(
                (#[trigger] s.nodes[id.0 as int].children[j]).0 as u128,
            ),
        ({
            let c = s.node(id).children[i];
            let q = SubPlanView::of(s.nodes, c, ops, s.dirty(ops), feu);
            o.row_raw(c.0 as int, q.pre) + o.raw(c.0 as int) + o.row_raw(c.0 as int, q.post)
                == s.at(c).raw()
        }),
    ensures
        ({
            let row = PlannedView::kept_row(s.node(id).children.take(n));
            let r = RowPlanView::of(s.nodes, id, row, ops, s.dirty(ops), feu);
            o.row_raw(id.0 as int, r.row) == Tree::raws(s.at(id).children.take(n))
        }),
    decreases n,
{
    let nodes = s.nodes;
    let lo = id.0 as int;
    let dirty = s.dirty(ops);
    let kids = nodes[lo].children;
    let trees = s.at(id).children;
    let row = PlannedView::kept_row(kids.take(n));
    if n > 0 {
        dropped_row_text(s, ops, feu, id, i, n - 1, o);
        let rest = PlannedView::kept_row(kids.take(n - 1));
        assert(row.drop_last() =~= rest);
        let t = RowPlanView::of(nodes, id, rest, ops, dirty, feu);
        let c = nodes[lo].children[n - 1];
        assert(lo < c.0 < nodes.len());
        assert(row.last() == PlannedView::Existing(c));
        let q = SubPlanView::of(nodes, c, t.ops, dirty, feu);
        kept_step_text(nodes, id, t, dirty, feu, c, o.lists);
        assert((Overlay { nodes, lists: o.lists }) == o);
        assert(trees.take(n).drop_last() =~= trees.take(n - 1));
        assert(trees.take(n).last() == trees[n - 1]);
        assert(trees[n - 1] == s.at(c));
        if n - 1 == i {
            unmarked_kids(nodes, id, n - 1, ops, dirty, feu);
        } else {
            assert(c.0 as int as u128 == c.0 as u128);
            assert(o.row_raw(c.0 as int, q.pre) + o.raw(c.0 as int) + o.row_raw(
                c.0 as int,
                q.post,
            ) =~= s.at(c).raw());
        }
    } else {
        let r = RowPlanView::of(nodes, id, row, ops, dirty, feu);
        assert(r.row =~= Seq::empty());
        assert(trees.take(0) =~= Seq::empty());
    }
}

/// A batch of one edit has that edit at its anchor, and nothing else.
pub proof fn batch_of_one(e: EditOp)
    ensures
        crate::arena::plan::grouped(seq![e]) == (map![e.anchor_uuid => seq![e@]]),
{
    let batch = seq![e];
    assert(batch.drop_last() =~= Seq::empty());
    assert(crate::arena::plan::grouped(batch.drop_last()) =~= Map::empty());
    assert(Seq::<OpView>::empty().push(e@) =~= seq![e@]);
    assert(crate::arena::plan::grouped(batch) =~= map![e.anchor_uuid => seq![e@]]);
}

/// Whether what a row keeps hangs in the given container, or may leave its own: it is
/// neither code nor a meta.
spec fn kept_or_loose(nodes: Seq<NodeRecord>, k: int, row: Seq<PlannedView>) -> bool {
    forall|j: int|
        0 <= j < row.len() && (#[trigger] row[j]) is Existing ==> hangs_or_loose(
            nodes,
            k,
            row[j]->Existing_0,
        )
}

spec fn hangs_or_loose(nodes: Seq<NodeRecord>, k: int, c: NodeId) -> bool {
    nodes[c.0 as int].parent == Some(NodeId(k as u32)) || loose(nodes, c)
}

spec fn loose(nodes: Seq<NodeRecord>, c: NodeId) -> bool {
    let t = NodeRecord::tree_of(nodes, c.0 as int);
    !t.is_code() && !(t.kind is Meta)
}

spec fn all_loose(nodes: Seq<NodeRecord>, row: Seq<PlannedView>) -> bool {
    forall|j: int|
        0 <= j < row.len() && (#[trigger] row[j]) is Existing ==> loose(nodes, row[j]->Existing_0)
}

spec fn lists_loose(nodes: Seq<NodeRecord>, lists: Map<u128, Seq<PlannedView>>) -> bool {
    forall|k: u128| #[trigger]
        lists.contains_key(k) ==> kept_or_loose(nodes, k as int, lists[k])
}

proof fn loose_is_kept(nodes: Seq<NodeRecord>, k: int, row: Seq<PlannedView>)
    requires
        all_loose(nodes, row),
    ensures
        kept_or_loose(nodes, k, row),
{
}

proof fn kept_sum(nodes: Seq<NodeRecord>, k: int, a: Seq<PlannedView>, b: Seq<PlannedView>)
    requires
        kept_or_loose(nodes, k, a),
        kept_or_loose(nodes, k, b),
    ensures
        kept_or_loose(nodes, k, a + b),
{
    assert forall|j: int| 0 <= j < (a + b).len() && (#[trigger] (a + b)[j]) is Existing implies
        hangs_or_loose(nodes, k, (a + b)[j]->Existing_0) by {
        if j < a.len() {
            assert((a + b)[j] == a[j]);
        } else {
            assert((a + b)[j] == b[j - a.len()]);
        }
    }
}

proof fn plan_moves(nodes: Seq<NodeRecord>, id: NodeId, ops: Ops, dirty: Set<u128>, feu: bool)
    requires
        linked(nodes),
        id.0 < nodes.len(),
    ensures
        ({
            let p = SubPlanView::of(nodes, id, ops, dirty, feu);
            &&& all_loose(nodes, p.pre)
            &&& all_loose(nodes, p.post)
            &&& lists_loose(nodes, p.children_of)
        }),
    decreases nodes.len() - id.0, 1int, 0nat,
{
    let lo = id.0 as int;
    let kids = nodes[lo].children;
    if kids.len() > 0 && dirty.contains(id.key()) {
        let s = Spliced::of(nodes, kids, ops);
        let r = RowPlanView::of(nodes, id, s.row, s.ops, dirty, feu);
        let p = SubPlanView::of(nodes, id, ops, dirty, feu);
        assert(p == SubPlanView::finish(nodes, id, s, r, feu));
        splice_kids(nodes, lo, ops);
        assert forall|j: int| 0 <= j < s.row.len() && (#[trigger] s.row[j]) is Existing implies
            nodes[(s.row[j]->Existing_0).0 as int].parent == Some(NodeId(lo as u32)) by {
            let c = s.row[j]->Existing_0;
            let i = choose|i: int| 0 <= i < kids.len() && kids[i] == c;
            let d = nodes[lo].children[i];
        }
        row_plan_moves(nodes, id, s.row, s.ops, dirty, feu);
        let tree = NodeRecord::tree_of(nodes, lo);
        let flags = PlannedView::end_flags(r.row, nodes);
        parts_loose(nodes, lo, r.row);
        crate::arena::coherence::parts_whole(r.row, flags);
        assert(lo as u128 as int == lo);
        assert(id.key() as int == lo);
    }
}

/// What is parted off at the ends is neither code nor a meta.
proof fn parts_loose(nodes: Seq<NodeRecord>, k: int, row: Seq<PlannedView>)
    requires
        kept_or_loose(nodes, k, row),
    ensures
        ({
            let parts = Parted::of(row, PlannedView::end_flags(row, nodes));
            &&& all_loose(nodes, parts.pre)
            &&& all_loose(nodes, parts.post)
            &&& kept_or_loose(nodes, k, parts.mid)
        }),
{
    let flags = PlannedView::end_flags(row, nodes);
    let start = crate::arena::plan::lead(flags) as int;
    crate::arena::plan::lead_in_range(flags);
    crate::revalidate::lead_all(flags);
    let rest = flags.skip(start);
    crate::revalidate::reach_all(rest);
    let stop = crate::arena::plan::reach(rest) as int;
    let parts = Parted::of(row, flags);
    assert forall|j: int| 0 <= j < parts.pre.len() && (#[trigger] parts.pre[j]) is Existing implies
        loose(nodes, parts.pre[j]->Existing_0) by {
        assert(parts.pre[j] == row[j]);
        assert(!flags[j]);
    }
    assert forall|j: int| 0 <= j < parts.post.len() && (#[trigger] parts.post[j]) is Existing implies
        loose(nodes, parts.post[j]->Existing_0) by {
        assert(parts.post[j] == row[start + stop + j]);
        assert(rest[stop + j] == flags[start + stop + j]);
        assert(!rest[stop + j]);
    }
    assert forall|j: int| 0 <= j < parts.mid.len() && (#[trigger] parts.mid[j]) is Existing implies
        hangs_or_loose(nodes, k, parts.mid[j]->Existing_0) by {
        assert(parts.mid[j] == row[start + j]);
    }
}

proof fn row_plan_moves(
    nodes: Seq<NodeRecord>,
    lo: NodeId,
    row: Seq<PlannedView>,
    ops: Ops,
    dirty: Set<u128>,
    feu: bool,
)
    requires
        linked(nodes),
        lo.0 < nodes.len(),
        forall|j: int|
            0 <= j < row.len() && (#[trigger] row[j]) is Existing ==> nodes[(
            row[j]->Existing_0).0 as int].parent == Some(NodeId(lo.0)),
    ensures
        ({
            let r = RowPlanView::of(nodes, lo, row, ops, dirty, feu);
            &&& kept_or_loose(nodes, lo.0 as int, r.row)
            &&& lists_loose(nodes, r.children_of)
        }),
    decreases nodes.len() - lo.0, 0int, row.len(),
{
    let k = lo.0 as int;
    if row.len() > 0 {
        let rest = row.drop_last();
        assert forall|j: int| 0 <= j < rest.len() && (#[trigger] rest[j]) is Existing implies
            nodes[(rest[j]->Existing_0).0 as int].parent == Some(NodeId(lo.0)) by {
            assert(rest[j] == row[j]);
        }
        row_plan_moves(nodes, lo, rest, ops, dirty, feu);
        let r = RowPlanView::of(nodes, lo, rest, ops, dirty, feu);
        let all = RowPlanView::of(nodes, lo, row, ops, dirty, feu);
        let last = row[row.len() - 1];
        assert(row.last() == last);
        match last {
            PlannedView::Existing(c) => {
                assert(row[row.len() - 1] is Existing);
                if lo.0 < c.0 < nodes.len() {
                    plan_moves(nodes, c, r.ops, dirty, feu);
                    let p = SubPlanView::of(nodes, c, r.ops, dirty, feu);
                    loose_is_kept(nodes, k, p.pre);
                    loose_is_kept(nodes, k, p.post);
                    let one = seq![PlannedView::Existing(c)];
                    assert(kept_or_loose(nodes, k, one));
                    kept_sum(nodes, k, r.row, p.pre);
                    kept_sum(nodes, k, r.row + p.pre, one);
                    kept_sum(nodes, k, r.row + p.pre + one, p.post);
                    assert(all == r.with_kept(c, p));
                    assert forall|x: u128| #[trigger] all.children_of.contains_key(x) implies
                        kept_or_loose(nodes, x as int, all.children_of[x]) by {
                        if p.children_of.contains_key(x) {
                            assert(kept_or_loose(nodes, x as int, p.children_of[x]));
                        } else {
                            assert(r.children_of.contains_key(x));
                        }
                    }
                }
            },
            PlannedView::New(spec, marker) => {
                let p = SpecPlan::of(spec, r.ops);
                let pre = PlannedView::fresh_row(p.pre);
                let post = PlannedView::fresh_row(p.post);
                let one = seq![PlannedView::New(p.spec, marker)];
                kept_sum(nodes, k, r.row, pre);
                kept_sum(nodes, k, r.row + pre, one);
                kept_sum(nodes, k, r.row + pre + one, post);
            },
        }
    }
}

/// Only non-code moves: a node that a planned list takes from another container is
/// neither code nor a meta.
pub proof fn only_non_code_moves(
    s: ArenaState,
    ops: Ops,
    fix_even_unparsable: bool,
    k: NodeId,
    j: int,
)
    requires
        s.wf(),
        s.coherent(),
        s.has(k),
        s.plan_lists(ops, fix_even_unparsable).contains_key(k.key()),
        0 <= j < s.plan_lists(ops, fix_even_unparsable)[k.key()].len(),
    ensures
        s.plan_lists(ops, fix_even_unparsable)[k.key()][j] matches PlannedView::Existing(c) ==> {
            ||| s.node(c).parent == Some(k)
            ||| !s.at(c).is_code() && !(s.at(c).kind is Meta)
        },
{
    linked_in(s);
    let feu = fix_even_unparsable;
    let nodes = s.nodes;
    plan_moves(nodes, s.root, ops, s.dirty(ops), feu);
    let p = s.plan(ops, feu);
    let lists = s.plan_lists(ops, feu);
    let root = s.root.0 as int;
    assert(k.key() as int == k.0 as int);
    if p.pre.len() == 0 && p.post.len() == 0 {
        assert(kept_or_loose(nodes, k.0 as int, lists[k.key()]));
    } else if k == s.root {
        let kids = nodes[root].children;
        let row = if p.children_of.contains_key(s.root.key()) {
            p.children_of[s.root.key()]
        } else {
            PlannedView::kept_row(kids)
        };
        assert(kept_or_loose(nodes, root, row)) by {
            if !p.children_of.contains_key(s.root.key()) {
                assert forall|i: int| 0 <= i < row.len() && (#[trigger] row[i]) is Existing implies
                    hangs_or_loose(nodes, root, row[i]->Existing_0) by {
                    let c = nodes[root].children[i];
                }
            }
        }
        loose_is_kept(nodes, root, p.pre);
        loose_is_kept(nodes, root, p.post);
        kept_sum(nodes, root, p.pre, row);
        kept_sum(nodes, root, p.pre + row, p.post);
        assert(kept_or_loose(nodes, root, lists[k.key()]));
    } else {
        assert(p.children_of.contains_key(k.key()));
        assert(kept_or_loose(nodes, k.0 as int, lists[k.key()]));
    }
    let e = lists[k.key()][j];
    if e is Existing {
        assert(hangs_or_loose(nodes, k.0 as int, e->Existing_0));
    }
}

/// Two edits anchored at the `i`-th of a row of children, one that creates before it and
/// one that creates behind it, in either order of coming: the new segments of the first
/// stand before the anchor, those of the second behind it.
pub proof fn two_edits_in_place(
    nodes: Seq<NodeRecord>,
    kids: Seq<NodeId>,
    u: u128,
    list: Seq<OpView>,
    i: int,
    before: Seq<SpecTree>,
    behind: Seq<SpecTree>,
)
    requires
        0 <= i < kids.len(),
        forall|j: int|
            0 <= j < kids.len() ==> (nodes[(#[trigger] kids[j]).0 as int].uuid == u <==> j == i),
        list == seq![
            OpView { kind: EditKind::CreateBefore, edits: before },
            OpView { kind: EditKind::CreateAfter, edits: behind },
        ] || list == seq![
            OpView { kind: EditKind::CreateAfter, edits: behind },
            OpView { kind: EditKind::CreateBefore, edits: before },
        ],
    ensures
        ({
            let s = Spliced::of(nodes, kids, map![u => list]);
            let a = before.len() as int;
            let b = behind.len() as int;
            &&& s.row.len() == kids.len() + a + b
            &&& forall|j: int|
                0 <= j < i ==> #[trigger] s.row[j] == PlannedView::Existing(kids[j])
            &&& forall|j: int|
                i <= j < i + a ==> #[trigger] s.row[j] == PlannedView::New(before[j - i], None)
            &&& s.row[i + a] == PlannedView::Existing(kids[i])
            &&& forall|j: int|
                i + a + 1 <= j < i + a + 1 + b ==> #[trigger] s.row[j] == PlannedView::New(
                    behind[j - i - a - 1],
                    None,
                )
            &&& forall|j: int|
                i + a + 1 + b <= j < s.row.len() ==> #[trigger] s.row[j] == PlannedView::Existing(
                    kids[j - a - b],
                )
            &&& s.tombstones.len() == 0
            &&& s.hit
            &&& s.applied == 2
            &&& s.may_break
            &&& s.ops == Map::<u128, Seq<OpView>>::empty()
        }),
{
    let ops: Ops = map![u => list];
    let c = kids[i];
    let tree = NodeRecord::tree_of(nodes, c.0 as int);
    splice_untouched(nodes, kids.take(i), ops);
    let first = Spliced::of(nodes, kids.take(i), ops);
    assert(kids.take(i + 1).drop_last() =~= kids.take(i));
    assert(kids.take(i + 1).last() == c);
    let mid = Spliced::of(nodes, kids.take(i + 1), ops);
    assert(ops[u] == list);
    let l = OpView::paired(list);
    let x = OpView { kind: EditKind::CreateBefore, edits: before };
    let y = OpView { kind: EditKind::CreateAfter, edits: behind };
    assert(l[0] == x && l[1] == y && l.len() == 2);
    let one = seq![x];
    assert(l.drop_last() =~= one);
    assert(one.drop_last() =~= Seq::empty());
    assert(OpView::rows(one.drop_last(), c, tree, 2) =~= Seq::empty());
    assert(OpView::rows(one, c, tree, 2) =~= x.row(c, tree, 2));
    let piece = x.row(c, tree, 2) + y.row(c, tree, 2);
    assert(OpView::rows(l, c, tree, 2) =~= piece);
    assert(OpView::removed(one.drop_last(), c) =~= Seq::empty());
    assert(OpView::removed(one, c) =~= Seq::empty());
    assert(OpView::removed(l, c) =~= Seq::empty());
    assert(mid.row =~= first.row + piece);
    assert(mid.tombstones =~= first.tombstones + OpView::removed(l, c));
    splice_more(nodes, kids, i + 1, ops);
    let s = Spliced::of(nodes, kids, ops);
    let rest = kids.skip(i + 1);
    assert(s.row =~= mid.row + PlannedView::kept_row(rest));
    assert(s.ops =~= Map::<u128, Seq<OpView>>::empty());
    let types = tree.kind.type_list().to_set();
    assert(l[0].may_break(types));
}

/// The edits anchored at a segment to be created: the new segments stand before it,
/// behind it or in its place, in the order in which the edits bring them.
pub open spec fn in_its_place(list: Seq<OpView>, anchor: SpecTree) -> Seq<SpecTree> {
    if list.len() == 1 {
        match list[0].kind {
            EditKind::Delete => Seq::empty(),
            EditKind::Replace => list[0].edits,
            EditKind::CreateBefore => list[0].edits + seq![anchor],
            EditKind::CreateAfter => seq![anchor] + list[0].edits,
        }
    } else if list[0].kind == EditKind::CreateBefore {
        list[0].edits + seq![anchor] + list[1].edits
    } else {
        list[1].edits + seq![anchor] + list[0].edits
    }
}

/// Edits anchored at the `i`-th of a row of segments to be created change nothing but
/// what stands in its place.
pub proof fn edits_in_new_row(kids: Seq<SpecTree>, u: u128, list: Seq<OpView>, i: int)
    requires
        0 <= i < kids.len(),
        forall|j: int| 0 <= j < kids.len() ==> ((#[trigger] kids[j]).uuid == u <==> j == i),
        OpView::go_together(list),
    ensures
        ({
            let s = SpecSpliced::of(kids, map![u => list]);
            &&& s.row == kids.take(i) + in_its_place(list, kids[i]) + kids.skip(i + 1)
            &&& s.applied == list.len()
            &&& s.ops == Map::<u128, Seq<OpView>>::empty()
            &&& s.may_break <==> exists|m: int|
                0 <= m < list.len() && changes_types(
                    #[trigger] list[m],
                    kids[i].kind.declared().to_set(),
                )
        }),
{
    let ops: Ops = map![u => list];
    let c = kids[i];
    let lead = kids.take(i);
    assert forall|j: int| 0 <= j < lead.len() implies !ops.contains_key(
        (#[trigger] lead[j]).uuid,
    ) by {
        assert(lead[j] == kids[j]);
    }
    spec_splice_clear(lead, ops);
    spec_untouched(lead, ops);
    let first = SpecSpliced::of(lead, ops);
    assert(kids.take(i + 1).drop_last() =~= lead);
    assert(kids.take(i + 1).last() == c);
    let mid = SpecSpliced::of(kids.take(i + 1), ops);
    assert(ops[u] == list);
    let l = OpView::paired(list);
    let n = l.len();
    spec_rows_in_place(list, c);
    assert(mid.row == lead + in_its_place(list, c));
    assert(mid.ops =~= Map::<u128, Seq<OpView>>::empty());
    spec_splice_more(kids, i + 1, ops);
    let types = c.declared_types();
    if OpView::any_may_break(l, types) {
        let m = choose|m: int| 0 <= m < l.len() && (#[trigger] l[m]).may_break(types);
        let k = if l == list {
            m
        } else {
            1 - m
        };
        assert(list[k] == l[m]);
        assert(changes_types(list[k], types));
    }
    if exists|m: int| 0 <= m < list.len() && changes_types(#[trigger] list[m], types) {
        let m = choose|m: int| 0 <= m < list.len() && changes_types(#[trigger] list[m], types);
        let k = if l == list {
            m
        } else {
            1 - m
        };
        assert(l[k] == list[m]);
        assert(l[k].may_break(types));
    }
}

proof fn spec_untouched(kids: Seq<SpecTree>, ops: Ops)
    requires
        forall|j: int| 0 <= j < kids.len() ==> !ops.contains_key((#[trigger] kids[j]).uuid),
    ensures
        SpecSpliced::of(kids, ops).applied == 0,
        !SpecSpliced::of(kids, ops).may_break,
    decreases kids.len(),
{
    if kids.len() > 0 {
        let rest = kids.drop_last();
        assert forall|j: int| 0 <= j < rest.len() implies !ops.contains_key(
            (#[trigger] rest[j]).uuid,
        ) by {
            assert(rest[j] == kids[j]);
        }
        spec_untouched(rest, ops);
        spec_splice_clear(rest, ops);
        assert(kids[kids.len() - 1] == kids.last());
    }
}

proof fn spec_rows_in_place(list: Seq<OpView>, anchor: SpecTree)
    requires
        OpView::go_together(list),
    ensures
        ({
            let l = OpView::paired(list);
            OpView::spec_rows(l, anchor, l.len()) == in_its_place(list, anchor)
        }),
{
    let l = OpView::paired(list);
    let n = l.len();
    let none = Seq::<OpView>::empty();
    assert(OpView::spec_rows(none, anchor, n) =~= Seq::empty());
    if n == 1 {
        assert(l.drop_last() =~= none);
        assert(OpView::spec_rows(l, anchor, n) =~= l[0].spec_row(anchor, n));
        assert(l[0].edits.push(anchor) =~= l[0].edits + seq![anchor]);
    } else {
        let first = seq![l[0]];
        assert(l.drop_last() =~= first);
        assert(first.drop_last() =~= none);
        assert(OpView::spec_rows(first, anchor, n) =~= l[0].spec_row(anchor, n));
        assert(OpView::spec_rows(l, anchor, n) == l[0].spec_row(anchor, n) + l[1].spec_row(
            anchor,
            n,
        ));
        assert(l[0].edits.push(anchor) =~= l[0].edits + seq![anchor]);
    }
}

/// Segments behind the first `n` at which no edit is left stay as they are.
proof fn spec_splice_more(kids: Seq<SpecTree>, n: int, ops: Ops)
    requires
        0 <= n <= kids.len(),
        SpecSpliced::of(kids.take(n), ops).ops == Map::<u128, Seq<OpView>>::empty(),
    ensures
        SpecSpliced::of(kids, ops) == (SpecSpliced {
            row: SpecSpliced::of(kids.take(n), ops).row + kids.skip(n),
            ..SpecSpliced::of(kids.take(n), ops)
        }),
    decreases kids.len(),
{
    let first = SpecSpliced::of(kids.take(n), ops);
    if n == kids.len() {
        assert(kids.take(n) =~= kids);
        assert(first.row + kids.skip(n) =~= first.row);
    } else {
        let rest = kids.drop_last();
        assert(rest.take(n) =~= kids.take(n));
        spec_splice_more(rest, n, ops);
        assert((first.row + rest.skip(n)).push(kids.last()) =~= first.row + kids.skip(n));
    }
}

/// Non-code leaves a segment to be created at its ends, and nothing else does: what moves
/// out is neither code nor a meta, and what is left starts and ends with one of these.
pub proof fn only_non_code_leaves_new_segments(spec: SpecTree, ops: Ops)
    ensures
        ({
            let p = SpecPlan::of(spec, ops);
            let kids = p.spec.children;
            &&& forall|j: int|
                0 <= j < p.pre.len() ==> !(#[trigger] p.pre[j]).is_code() && !(p.pre[j].kind
                    is Meta)
            &&& forall|j: int|
                0 <= j < p.post.len() ==> !(#[trigger] p.post[j]).is_code() && !(p.post[j].kind
                    is Meta)
            &&& p.spec == (SpecTree { children: kids, ..spec })
            &&& spec.children.len() > 0 && ops.dom().finite() && ops.dom().len() > 0 ==> {
                ||| kids.len() == 0
                ||| (kids[0].is_code() || kids[0].kind is Meta) && (kids.last().is_code()
                    || kids.last().kind is Meta)
            }
        }),
{
    if spec.children.len() > 0 && ops.dom().finite() && ops.dom().len() > 0 {
        let s = SpecSpliced::of(spec.children, ops);
        let r = SpecRowPlan::of(s.row, s.ops);
        let flags = crate::arena::plan::spec_end_flags(r.row);
        let start = crate::arena::plan::lead(flags) as int;
        crate::arena::plan::lead_in_range(flags);
        crate::revalidate::lead_all(flags);
        crate::revalidate::lead_stops(flags);
        let rest = flags.skip(start);
        crate::revalidate::reach_all(rest);
        let stop = crate::arena::plan::reach(rest) as int;
        let parts = Parted::of(r.row, flags);
        assert forall|j: int| 0 <= j < parts.pre.len() implies !(
        #[trigger] parts.pre[j]).is_code() && !(parts.pre[j].kind is Meta) by {
            assert(parts.pre[j] == r.row[j]);
            assert(!flags[j]);
        }
        assert forall|j: int| 0 <= j < parts.post.len() implies !(
        #[trigger] parts.post[j]).is_code() && !(parts.post[j].kind is Meta) by {
            assert(parts.post[j] == r.row[start + stop + j]);
            assert(rest[stop + j] == flags[start + stop + j]);
        }
        if stop > 0 {
            assert(parts.mid[0] == r.row[start]);
            assert(flags[start]);
            assert(parts.mid.last() == r.row[start + stop - 1]);
            assert(rest[stop - 1] == flags[start + stop - 1]);
        }
    }
}

} // verus!
