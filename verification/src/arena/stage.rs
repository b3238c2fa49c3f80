//! Staging an edit batch: the plan is computed, nothing is changed.

use vstd::prelude::*;

use crate::arena::state::{NodeId, PlannedChild, StagedBatch};
use crate::arena::Arena;
use crate::edit::{EditKind, EditOp, NodeSpec};
use crate::marker::clamped_add;
use crate::tables::{IdSet, Table, TextSet};
use crate::text::same_text;
use crate::tree::SourceFixSpec;

#[allow(unused_imports)]
use crate::arena::plan::{
    Ops, Parted, RowPlanView, SpecPlan, SpecRowPlan, SpecSpliced, Spliced, SubPlanView,
};
#[allow(unused_imports)]
use crate::arena::state::{ArenaState, NodeRecord, PlannedView};
#[allow(unused_imports)]
use crate::edit::{OpView, SpecTree};

verus! {

/// Whether an edit may break the grammar of its anchor's container.
fn op_may_break(op: &EditOp, types: &TextSet) -> (r: bool)
    ensures
        r == op@.may_break(types@),
{
    if op.kind == EditKind::Replace && op.edits.len() == 1 {
        assert(op@.edits[0] == op.edits@[0]@);
        let declared = op.edits[0].class_type_set();
        !declared.same_members(types)
    } else {
        true
    }
}

/// The edits of one anchor in the order in which they apply.
fn pair_ops(ops: Vec<EditOp>) -> (r: Vec<EditOp>)
    ensures
        EditOp::views(r@) == OpView::paired(EditOp::views(ops@)),
{
    let mut list = ops;
    if list.len() == 2 && list[0].kind == EditKind::CreateAfter {
        let ghost before = list@;
        let second = list.pop();
        let first = list.pop();
        let mut out: Vec<EditOp> = Vec::new();
        if let Some(op) = second {
            out.push(op);
        }
        if let Some(op) = first {
            out.push(op);
        }
        assert(out@ =~= seq![before[1], before[0]]);
        assert(EditOp::views(out@) =~= OpView::paired(EditOp::views(ops@)));
        return out;
    }
    list
}

/// The number of segments before the first that may stand at an end.
fn spec_lead(row: &Vec<NodeSpec>) -> (r: usize)
    ensures
        r == crate::arena::plan::lead(
            crate::arena::plan::spec_end_flags(NodeSpec::views(row@)),
        ),
        r <= row@.len(),
{
    let ghost flags = crate::arena::plan::spec_end_flags(NodeSpec::views(row@));
    let mut i: usize = 0;
    assert(flags.skip(0) =~= flags);
    while i < row.len()
        invariant
            i <= row@.len(),
            flags == crate::arena::plan::spec_end_flags(NodeSpec::views(row@)),
            crate::arena::plan::lead(flags) == i + crate::arena::plan::lead(flags.skip(i as int)),
        decreases row@.len() - i,
    {
        assert(flags.skip(i as int)[0] == row@[i as int]@.anchors_end());
        if row[i].is_code() || row[i].is_meta() {
            return i;
        }
        assert(flags.skip(i as int).drop_first() =~= flags.skip(i + 1));
        i += 1;
    }
    i
}

/// The number of segments up to the last that may stand at an end.
fn spec_reach(row: &Vec<NodeSpec>) -> (r: usize)
    ensures
        r == crate::arena::plan::reach(
            crate::arena::plan::spec_end_flags(NodeSpec::views(row@)),
        ),
        r <= row@.len(),
{
    let ghost flags = crate::arena::plan::spec_end_flags(NodeSpec::views(row@));
    let mut n: usize = row.len();
    assert(flags.take(n as int) =~= flags);
    while n > 0
        invariant
            n <= row@.len(),
            flags == crate::arena::plan::spec_end_flags(NodeSpec::views(row@)),
            crate::arena::plan::reach(flags) == crate::arena::plan::reach(flags.take(n as int)),
        decreases n,
    {
        assert(flags.take(n as int).last() == row@[n - 1]@.anchors_end());
        if row[n - 1].is_code() || row[n - 1].is_meta() {
            return n;
        }
        assert(flags.take(n as int).drop_last() =~= flags.take(n - 1));
        n -= 1;
    }
    n
}

/// Parts a row of segments to be created at the first and behind the last that
/// may stand at an end.
fn part_specs(row: Vec<NodeSpec>) -> (r: (Vec<NodeSpec>, Vec<NodeSpec>, Vec<NodeSpec>))
    ensures
        (Parted {
            pre: NodeSpec::views(r.0@),
            mid: NodeSpec::views(r.1@),
            post: NodeSpec::views(r.2@),
        }) == Parted::of(
            NodeSpec::views(row@),
            crate::arena::plan::spec_end_flags(NodeSpec::views(row@)),
        ),
{
    let ghost all = NodeSpec::views(row@);
    let ghost flags = crate::arena::plan::spec_end_flags(all);
    let start = spec_lead(&row);
    let mut pre = row;
    let mut mid = pre.split_off(start);
    assert(NodeSpec::views(mid@) =~= all.skip(start as int));
    assert(crate::arena::plan::spec_end_flags(NodeSpec::views(mid@)) =~= flags.skip(start as int));
    let stop = spec_reach(&mid);
    let post = mid.split_off(stop);
    assert(NodeSpec::views(pre@) =~= all.take(start as int));
    assert(NodeSpec::views(mid@) =~= all.skip(start as int).take(stop as int));
    assert(NodeSpec::views(post@) =~= all.skip(start as int).skip(stop as int));
    (pre, mid, post)
}

/// What stands in the place of a segment to be created after the edits
/// anchored at it.
fn splice_spec_anchor(child: NodeSpec, ops: Vec<EditOp>, row: &mut Vec<NodeSpec>) -> (r: (
    usize,
    bool,
))
    ensures
        ({
            let list = OpView::paired(EditOp::views(ops@));
            &&& NodeSpec::views(final(row)@) == NodeSpec::views(old(row)@) + OpView::spec_rows(
                list,
                child@,
                list.len(),
            )
            &&& r.0 == list.len()
            &&& r.1 == OpView::any_may_break(list, child@.declared_types())
        }),
{
    let types = child.class_type_set();
    let list = pair_ops(ops);
    let ghost views = EditOp::views(list@);
    let n: usize = list.len();
    let mut breaks = false;
    let ghost start = NodeSpec::views(row@);
    assert(views.take(0) =~= Seq::empty());
    assert(NodeSpec::views(row@) =~= start + OpView::spec_rows(views.take(0), child@, n as nat));
    for i in 0..n
        invariant
            n == list@.len(),
            views == EditOp::views(list@),
            types@ == child@.declared_types(),
            NodeSpec::views(row@) == start + OpView::spec_rows(
                views.take(i as int),
                child@,
                n as nat,
            ),
            breaks == OpView::any_may_break(views.take(i as int), types@),
    {
        let op = &list[i];
        let ghost before = NodeSpec::views(row@);
        let ghost done = views.take(i as int);
        assert(views.take(i + 1).drop_last() =~= done);
        assert(views.take(i + 1).last() == op@);
        if op_may_break(op, &types) {
            breaks = true;
            assert(views.take(i + 1)[i as int].may_break(types@));
        }
        assert(breaks == OpView::any_may_break(views.take(i + 1), types@)) by {
            if OpView::any_may_break(done, types@) {
                let j = choose|j: int| 0 <= j < done.len() && (#[trigger] done[j]).may_break(types@);
                assert(views.take(i + 1)[j].may_break(types@));
            }
            if OpView::any_may_break(views.take(i + 1), types@) {
                let j = choose|j: int|
                    0 <= j < i + 1 && (#[trigger] views.take(i + 1)[j]).may_break(types@);
                if j < i {
                    assert(done[j].may_break(types@));
                }
            }
        }
        if op.kind == EditKind::CreateAfter && n == 1 {
            row.push(child.clone());
            assert(NodeSpec::views(row@) =~= before + seq![child@]);
        }
        let ghost middle = NodeSpec::views(row@);
        if op.kind != EditKind::Delete {
            append_specs(row, &op.edits);
            assert(NodeSpec::views(row@) =~= middle + op@.edits);
        }
        let ghost middle = NodeSpec::views(row@);
        if op.kind == EditKind::CreateBefore {
            row.push(child.clone());
            assert(NodeSpec::views(row@) =~= middle.push(child@));
        }
        assert(NodeSpec::views(row@) =~= before + op@.spec_row(child@, n as nat));
        assert(NodeSpec::views(row@) =~= start + OpView::spec_rows(
            views.take(i + 1),
            child@,
            n as nat,
        ));
    }
    assert(views.take(n as int) =~= views);
    (n, breaks)
}

/// Appends copies of segments to be created.
fn append_specs(row: &mut Vec<NodeSpec>, more: &Vec<NodeSpec>)
    ensures
        NodeSpec::views(final(row)@) == NodeSpec::views(old(row)@) + NodeSpec::views(more@),
{
    let ghost start = NodeSpec::views(row@);
    let ghost all = NodeSpec::views(more@);
    assert(NodeSpec::views(row@) =~= start + all.take(0));
    for i in 0..more.len()
        invariant
            all == NodeSpec::views(more@),
            NodeSpec::views(row@) == start + all.take(i as int),
    {
        let ghost before = NodeSpec::views(row@);
        row.push(more[i].clone());
        assert(NodeSpec::views(row@) =~= before.push(all[i as int]));
        assert(NodeSpec::views(row@) =~= start + all.take(i + 1));
    }
    assert(all.take(all.len() as int) =~= all);
}

impl Arena {
    /// Applies the edits anchored inside a segment to be created. Gives the
    /// non-code that moves out in front of it and behind it, the number of
    /// edits used up, and whether one of them may break the grammar.
    fn plan_spec(spec: &mut NodeSpec, ops: &mut Table<Vec<EditOp>>) -> (r: (
        Vec<NodeSpec>,
        Vec<NodeSpec>,
        usize,
        bool,
    ))
        requires
            old(ops).wf(),
        ensures
            final(ops).wf(),
            (SpecPlan {
                spec: final(spec)@,
                pre: NodeSpec::views(r.0@),
                post: NodeSpec::views(r.1@),
                applied: r.2,
                may_break: r.3,
                ops: crate::arena::plan::ops_view(final(ops)@),
            }) == SpecPlan::of(old(spec)@, crate::arena::plan::ops_view(old(ops)@)),
        decreases crate::arena::plan::ops_view(old(ops)@).dom().len(), old(spec)@, 1int,
    {
        let ghost ops0 = crate::arena::plan::ops_view(ops@);
        proof {
            ops.places();
            assert(ops0.dom() =~= ops@.dom());
            if ops@ == Map::<u128, Vec<EditOp>>::empty() {
                assert(ops0.dom() =~= Set::empty());
            } else if ops0.dom().len() == 0 {
                assert(ops@.dom() =~= Set::empty());
                assert(ops@ =~= Map::<u128, Vec<EditOp>>::empty());
            }
        }
        if spec.children.len() == 0 || ops.is_empty() {
            let none: Vec<NodeSpec> = Vec::new();
            let nil: Vec<NodeSpec> = Vec::new();
            assert(NodeSpec::views(none@) =~= Seq::empty());
            assert(NodeSpec::views(nil@) =~= Seq::empty());
            return (none, nil, 0, false);
        }
        proof {
            crate::arena::plan::spec_splice_uses_up(spec@.children, ops0);
        }
        let ghost spec0 = spec@;
        let ghost spliced = SpecSpliced::of(spec0.children, ops0);
        let mut children: Vec<NodeSpec> = Vec::new();
        std::mem::swap(&mut children, &mut spec.children);
        assert(NodeSpec::views(children@) =~= spec0.children);
        let (row, mut applied, mut breaks) = Arena::splice_specs(children, ops);
        let ghost ops1 = crate::arena::plan::ops_view(ops@);
        let (row, more, inner) = Arena::plan_spec_row(row, ops);
        applied = clamped_add(applied, more);
        breaks = breaks || inner;
        let (pre, mid, post) = part_specs(row);
        spec.children = mid;
        assert(spec@.children =~= NodeSpec::views(mid@));
        assert(spec@ =~= SpecTree { children: NodeSpec::views(mid@), ..spec0 });
        (pre, post, applied, breaks)
    }

    /// Splices the edits into a row of segments to be created.
    fn splice_specs(children: Vec<NodeSpec>, ops: &mut Table<Vec<EditOp>>) -> (r: (
        Vec<NodeSpec>,
        usize,
        bool,
    ))
        requires
            old(ops).wf(),
        ensures
            final(ops).wf(),
            (SpecSpliced {
                row: NodeSpec::views(r.0@),
                applied: r.1,
                may_break: r.2,
                ops: crate::arena::plan::ops_view(final(ops)@),
            }) == SpecSpliced::of(
                NodeSpec::views(children@),
                crate::arena::plan::ops_view(old(ops)@),
            ),
    {
        let ghost kids = NodeSpec::views(children@);
        let ghost ops0 = crate::arena::plan::ops_view(ops@);
        let mut row: Vec<NodeSpec> = Vec::new();
        let mut applied: usize = 0;
        let mut breaks = false;
        assert(kids.take(0) =~= Seq::empty());
        assert(NodeSpec::views(row@) =~= Seq::empty());
        for child in it: children
            invariant
                ops.wf(),
                it.seq() == children@,
                kids == NodeSpec::views(children@),
                (SpecSpliced {
                    row: NodeSpec::views(row@),
                    applied,
                    may_break: breaks,
                    ops: crate::arena::plan::ops_view(ops@),
                }) == SpecSpliced::of(kids.take(it.index()), ops0),
        {
            let ghost i = it.index();
            let ghost before = crate::arena::plan::ops_view(ops@);
            let ghost row0 = NodeSpec::views(row@);
            assert(kids.take(i + 1).drop_last() =~= kids.take(i));
            assert(kids.take(i + 1).last() == child@);
            match ops.remove(child.uuid) {
                None => {
                    assert(crate::arena::plan::ops_view(ops@) =~= before);
                    row.push(child);
                    assert(NodeSpec::views(row@) =~= row0.push(child@));
                },
                Some(anchor_ops) => {
                    assert(crate::arena::plan::ops_view(ops@) =~= before.remove(child.uuid));
                    let (n, b) = splice_spec_anchor(child, anchor_ops, &mut row);
                    applied = clamped_add(applied, n);
                    breaks = breaks || b;
                },
            }
        }
        assert(kids.take(kids.len() as int) =~= kids);
        (row, applied, breaks)
    }

    /// Applies the edits anchored inside a row of segments to be created.
    fn plan_spec_row(row: Vec<NodeSpec>, ops: &mut Table<Vec<EditOp>>) -> (r: (
        Vec<NodeSpec>,
        usize,
        bool,
    ))
        requires
            old(ops).wf(),
        ensures
            final(ops).wf(),
            (SpecRowPlan {
                row: NodeSpec::views(r.0@),
                applied: r.1,
                may_break: r.2,
                ops: crate::arena::plan::ops_view(final(ops)@),
            }) == SpecRowPlan::of(NodeSpec::views(row@), crate::arena::plan::ops_view(old(ops)@)),
        decreases
            crate::arena::plan::ops_view(old(ops)@).dom().len(),
            NodeSpec::views(row@),
            0int,
    {
        let ghost kids = NodeSpec::views(row@);
        let ghost ops0 = crate::arena::plan::ops_view(ops@);
        proof {
            ops.places();
            assert(ops0.dom() =~= ops@.dom());
        }
        let mut out: Vec<NodeSpec> = Vec::new();
        let mut applied: usize = 0;
        let mut breaks = false;
        assert(kids.take(0) =~= Seq::empty());
        assert(NodeSpec::views(out@) =~= kids.take(0));
        for child in it: row
            invariant
                ops.wf(),
                it.seq() == row@,
                kids == NodeSpec::views(row@),
                ops0.dom().finite(),
                ops0 == crate::arena::plan::ops_view(old(ops)@),
                (SpecRowPlan {
                    row: NodeSpec::views(out@),
                    applied,
                    may_break: breaks,
                    ops: crate::arena::plan::ops_view(ops@),
                }) == SpecRowPlan::of(kids.take(it.index()), ops0),
        {
            let ghost i = it.index();
            let ghost before = crate::arena::plan::ops_view(ops@);
            let ghost out0 = NodeSpec::views(out@);
            proof {
                crate::arena::plan::spec_row_plan_uses_up(kids.take(i), ops0);
                assert(kids.take(i + 1).drop_last() =~= kids.take(i));
                assert(kids.take(i + 1).last() == child@);
                assert(kids[i] == child@);
                assert(decreases_to!(kids => kids[i]));
            }
            let mut child = child;
            let (mut pre, mut post, n, b) = Arena::plan_spec(&mut child, ops);
            let ghost pre0 = NodeSpec::views(pre@);
            let ghost post0 = NodeSpec::views(post@);
            let ghost child0 = child@;
            applied = clamped_add(applied, n);
            breaks = breaks || b;
            out.append(&mut pre);
            assert(NodeSpec::views(out@) =~= out0 + pre0);
            out.push(child);
            assert(NodeSpec::views(out@) =~= out0 + pre0 + seq![child0]);
            out.append(&mut post);
            assert(NodeSpec::views(out@) =~= out0 + pre0 + seq![child0] + post0);
        }
        assert(kids.take(kids.len() as int) =~= kids);
        (out, applied, breaks)
    }
}

/// The plan below a node.
pub struct SubPlan {
    changed: bool,
    pre: Vec<PlannedChild>,
    post: Vec<PlannedChild>,
    children_of: Table<Vec<PlannedChild>>,
    tombstones: Vec<NodeId>,
    applied: usize,
    reverted: usize,
}

impl SubPlan {
    /// The plan with the edits left over.
    pub closed spec fn with_ops(&self, ops: Ops) -> SubPlanView {
        SubPlanView {
            changed: self.changed,
            pre: PlannedChild::views(self.pre@),
            post: PlannedChild::views(self.post@),
            children_of: crate::arena::state::plan_view(self.children_of@),
            tombstones: self.tombstones@,
            applied: self.applied,
            reverted: self.reverted,
            ops,
        }
    }

    /// The table is in order.
    pub closed spec fn wf(&self) -> bool {
        self.children_of.wf()
    }

    /// Nothing changes.
    fn unchanged() -> (r: SubPlan)
        ensures
            r.wf(),
            forall|ops: Ops| #[trigger] r.with_ops(ops) == SubPlanView::unchanged(ops),
    {
        let r = SubPlan {
            changed: false,
            pre: Vec::new(),
            post: Vec::new(),
            children_of: Table::new(),
            tombstones: Vec::new(),
            applied: 0,
            reverted: 0,
        };
        assert forall|ops: Ops| #[trigger] r.with_ops(ops) == SubPlanView::unchanged(ops) by {
            assert(r.with_ops(ops) =~= SubPlanView::unchanged(ops));
        }
        r
    }
}

/// The plan below the entries of a row.
struct RowPlan {
    row: Vec<PlannedChild>,
    changed: bool,
    children_of: Table<Vec<PlannedChild>>,
    tombstones: Vec<NodeId>,
    applied: usize,
    reverted: usize,
    may_break: bool,
}

impl RowPlan {
    spec fn with_ops(&self, ops: Ops) -> RowPlanView {
        RowPlanView {
            row: PlannedChild::views(self.row@),
            changed: self.changed,
            children_of: crate::arena::state::plan_view(self.children_of@),
            tombstones: self.tombstones@,
            applied: self.applied,
            reverted: self.reverted,
            may_break: self.may_break,
            ops,
        }
    }

    /// Adds a kept node with the plan below it.
    fn merge_child(&mut self, c: NodeId, sub: SubPlan, Ghost(before): Ghost<Ops>, Ghost(after): Ghost<Ops>)
        requires
            old(self).children_of.wf(),
            sub.wf(),
        ensures
            final(self).children_of.wf(),
            final(self).with_ops(after) == old(self).with_ops(before).with_kept(
                c,
                sub.with_ops(after),
            ),
    {
        let ghost row0 = PlannedChild::views(self.row@);
        let ghost pre0 = PlannedChild::views(sub.pre@);
        let ghost post0 = PlannedChild::views(sub.post@);
        let ghost lists0 = self.children_of@;
        self.changed = self.changed || sub.changed;
        let ghost lists1 = sub.children_of@;
        self.children_of.absorb(sub.children_of);
        let mut stones = sub.tombstones;
        self.tombstones.append(&mut stones);
        self.applied = clamped_add(self.applied, sub.applied);
        self.reverted = clamped_add(self.reverted, sub.reverted);
        let mut pre = sub.pre;
        let mut post = sub.post;
        self.row.append(&mut pre);
        assert(PlannedChild::views(self.row@) =~= row0 + pre0);
        self.row.push(PlannedChild::Existing(c));
        assert(PlannedChild::views(self.row@) =~= row0 + pre0 + seq![PlannedView::Existing(c)]);
        self.row.append(&mut post);
        assert(PlannedChild::views(self.row@) =~= row0 + pre0 + seq![PlannedView::Existing(c)]
            + post0);
        assert(crate::arena::state::plan_view(self.children_of@)
            =~= crate::arena::state::plan_view(lists0).union_prefer_right(
            crate::arena::state::plan_view(lists1),
        ));
    }
}

/// Appends segments to be created that take over no position.
fn push_fresh(row: &mut Vec<PlannedChild>, specs: Vec<NodeSpec>)
    ensures
        PlannedChild::views(final(row)@) == PlannedChild::views(old(row)@)
            + PlannedView::fresh_row(NodeSpec::views(specs@)),
{
    let ghost start = PlannedChild::views(row@);
    let ghost all = PlannedView::fresh_row(NodeSpec::views(specs@));
    assert(PlannedChild::views(row@) =~= start + all.take(0));
    for spec in it: specs
        invariant
            it.seq() == specs@,
            all == PlannedView::fresh_row(NodeSpec::views(specs@)),
            PlannedChild::views(row@) == start + all.take(it.index()),
    {
        let ghost before = PlannedChild::views(row@);
        let ghost i = it.index();
        row.push(PlannedChild::New(Box::new(spec), None));
        assert(PlannedChild::views(row@) =~= before.push(all[i]));
        assert(PlannedChild::views(row@) =~= start + all.take(i + 1));
    }
    assert(all.take(all.len() as int) =~= all);
}

/// Whether the row keeps just the children.
fn keeps_all(row: &Vec<PlannedChild>, kids: &[NodeId]) -> (r: bool)
    ensures
        r == (PlannedChild::views(row@) == PlannedView::kept_row(kids@)),
{
    let ghost views = PlannedChild::views(row@);
    let ghost kept = PlannedView::kept_row(kids@);
    if row.len() != kids.len() {
        assert(views.len() != kept.len());
        return false;
    }
    let mut i: usize = 0;
    while i < row.len()
        invariant
            i <= row@.len(),
            row@.len() == kids@.len(),
            views == PlannedChild::views(row@),
            kept == PlannedView::kept_row(kids@),
            forall|j: int| 0 <= j < i ==> views[j] == kept[j],
        decreases row@.len() - i,
    {
        let same = match &row[i] {
            PlannedChild::Existing(c) => *c == kids[i],
            PlannedChild::New(..) => false,
        };
        if !same {
            assert(views[i as int] != kept[i as int]);
            return false;
        }
        i += 1;
    }
    assert(views =~= kept);
    true
}

impl Arena {
    /// Whether the entry is code or a meta.
    fn planned_is_code_or_meta(&self, pc: &PlannedChild) -> (r: bool)
        requires
            self.wf(),
            pc@ matches PlannedView::Existing(c) ==> self@.has(c),
        ensures
            r == pc@.anchors_end(self@.nodes),
    {
        match pc {
            PlannedChild::Existing(id) => {
                proof {
                    self@.lemma_at(*id);
                }
                self.is_code(*id) || self.is_meta(*id)
            },
            PlannedChild::New(spec, _) => spec.is_code() || spec.is_meta(),
        }
    }

    /// The number of entries before the first that may stand at an end.
    fn planned_lead(&self, row: &Vec<PlannedChild>, Ghost(lo): Ghost<int>) -> (r: usize)
        requires
            self.wf(),
            PlannedView::row_behind(PlannedChild::views(row@), lo, self@.nodes),
        ensures
            r == crate::arena::plan::lead(
                PlannedView::end_flags(PlannedChild::views(row@), self@.nodes),
            ),
            r <= row@.len(),
    {
        let ghost views = PlannedChild::views(row@);
        let ghost flags = PlannedView::end_flags(views, self@.nodes);
        let mut i: usize = 0;
        assert(flags.skip(0) =~= flags);
        while i < row.len()
            invariant
                self.wf(),
                i <= row@.len(),
                views == PlannedChild::views(row@),
                PlannedView::row_behind(views, lo, self@.nodes),
                flags == PlannedView::end_flags(views, self@.nodes),
                crate::arena::plan::lead(flags) == i + crate::arena::plan::lead(
                    flags.skip(i as int),
                ),
            decreases row@.len() - i,
        {
            assert(views[i as int] == row@[i as int]@);
            assert(flags.skip(i as int)[0] == row@[i as int]@.anchors_end(self@.nodes));
            if self.planned_is_code_or_meta(&row[i]) {
                return i;
            }
            assert(flags.skip(i as int).drop_first() =~= flags.skip(i + 1));
            i += 1;
        }
        i
    }

    /// The number of entries up to the last that may stand at an end.
    fn planned_reach(&self, row: &Vec<PlannedChild>, Ghost(lo): Ghost<int>) -> (r: usize)
        requires
            self.wf(),
            PlannedView::row_behind(PlannedChild::views(row@), lo, self@.nodes),
        ensures
            r == crate::arena::plan::reach(
                PlannedView::end_flags(PlannedChild::views(row@), self@.nodes),
            ),
            r <= row@.len(),
    {
        let ghost views = PlannedChild::views(row@);
        let ghost flags = PlannedView::end_flags(views, self@.nodes);
        let mut n: usize = row.len();
        assert(flags.take(n as int) =~= flags);
        while n > 0
            invariant
                self.wf(),
                n <= row@.len(),
                views == PlannedChild::views(row@),
                PlannedView::row_behind(views, lo, self@.nodes),
                flags == PlannedView::end_flags(views, self@.nodes),
                crate::arena::plan::reach(flags) == crate::arena::plan::reach(
                    flags.take(n as int),
                ),
            decreases n,
        {
            assert(views[n - 1] == row@[n - 1]@);
            assert(flags.take(n as int).last() == row@[n - 1]@.anchors_end(self@.nodes));
            if self.planned_is_code_or_meta(&row[n - 1]) {
                return n;
            }
            assert(flags.take(n as int).drop_last() =~= flags.take(n - 1));
            n -= 1;
        }
        n
    }

    /// Parts a row at the first and behind the last entry that may stand at an
    /// end.
    fn part_planned(&self, row: Vec<PlannedChild>, Ghost(lo): Ghost<int>) -> (r: (
        Vec<PlannedChild>,
        Vec<PlannedChild>,
        Vec<PlannedChild>,
    ))
        requires
            self.wf(),
            PlannedView::row_behind(PlannedChild::views(row@), lo, self@.nodes),
        ensures
            (Parted {
                pre: PlannedChild::views(r.0@),
                mid: PlannedChild::views(r.1@),
                post: PlannedChild::views(r.2@),
            }) == Parted::of(
                PlannedChild::views(row@),
                PlannedView::end_flags(PlannedChild::views(row@), self@.nodes),
            ),
    {
        let ghost all = PlannedChild::views(row@);
        let ghost flags = PlannedView::end_flags(all, self@.nodes);
        let start = self.planned_lead(&row, Ghost(lo));
        let mut pre = row;
        let mut mid = pre.split_off(start);
        assert(PlannedChild::views(mid@) =~= all.skip(start as int));
        assert(PlannedView::end_flags(PlannedChild::views(mid@), self@.nodes) =~= flags.skip(
            start as int,
        ));
        assert(PlannedView::row_behind(PlannedChild::views(mid@), lo, self@.nodes)) by {
            assert forall|i: int| 0 <= i < mid@.len() implies match
            #[trigger] PlannedChild::views(mid@)[i] {
                PlannedView::Existing(c) => lo < c.0 < self@.nodes.len(),
                PlannedView::New(..) => true,
            } by {
                assert(PlannedChild::views(mid@)[i] == all[start + i]);
            }
        }
        let stop = self.planned_reach(&mid, Ghost(lo));
        let post = mid.split_off(stop);
        assert(PlannedChild::views(pre@) =~= all.take(start as int));
        assert(PlannedChild::views(mid@) =~= all.skip(start as int).take(stop as int));
        assert(PlannedChild::views(post@) =~= all.skip(start as int).skip(stop as int));
        (pre, mid, post)
    }

    /// Appends the segments that replace `child`; the first whose text is the
    /// child's takes over its position.
    fn push_replacements(&self, child: NodeId, edits: &Vec<NodeSpec>, row: &mut Vec<PlannedChild>)
        requires
            self.wf(),
            self@.has(child),
        ensures
            forall|op: OpView, n: nat|
                op.kind == EditKind::Replace && op.edits == NodeSpec::views(edits@)
                    ==> PlannedChild::views(final(row)@) == PlannedChild::views(old(row)@)
                    + #[trigger] op.row(child, self@.at(child), n),
    {
        let ghost op = OpView { kind: EditKind::Replace, edits: NodeSpec::views(edits@) };
        let ghost tree = self@.at(child);
        let ghost all = op.row(child, tree, 0);
        let ghost start = PlannedChild::views(row@);
        proof {
            self@.lemma_at(child);
        }
        let raw = self.raw(child);
        let mut taken = false;
        assert(PlannedChild::views(row@) =~= start + all.take(0));
        for i in 0..edits.len()
            invariant
                self.wf(),
                self@.has(child),
                op == (OpView { kind: EditKind::Replace, edits: NodeSpec::views(edits@) }),
                tree == self@.at(child),
                tree.marker == self@.node(child).marker,
                raw@ == tree.raw(),
                all == op.row(child, tree, 0),
                all.len() == edits@.len(),
                taken == exists|j: int| 0 <= j < i && (#[trigger] op.edits[j]).raw() == raw@,
                PlannedChild::views(row@) == start + all.take(i as int),
        {
            let text = edits[i].spec_raw();
            assert(op.edits[i as int] == edits@[i as int]@);
            let marker = if !taken && same_text(text.as_str(), raw.as_str()) {
                taken = true;
                assert(op.takes_place(raw@, i as int));
                self.pos_marker(child)
            } else {
                assert(!op.takes_place(raw@, i as int));
                None
            };
            let ghost before = PlannedChild::views(row@);
            row.push(PlannedChild::New(Box::new(edits[i].clone()), marker));
            assert(PlannedChild::views(row@) =~= before.push(all[i as int]));
            assert(PlannedChild::views(row@) =~= start + all.take(i + 1));
        }
        assert(all.take(all.len() as int) =~= all);
        assert forall|o: OpView, n: nat|
            o.kind == EditKind::Replace && o.edits == NodeSpec::views(
                edits@,
            ) implies PlannedChild::views(row@) == start + #[trigger] o.row(child, tree, n) by {
            assert(o == op);
            assert(o.row(child, tree, n) =~= all);
        }
    }

    /// Appends what stands in the place of `child` after the edits anchored at
    /// it.
    fn splice_anchor(
        &self,
        child: NodeId,
        ops: Vec<EditOp>,
        row: &mut Vec<PlannedChild>,
        tombstones: &mut Vec<NodeId>,
    ) -> (r: (usize, bool))
        requires
            self.wf(),
            self@.has(child),
        ensures
            ({
                let list = OpView::paired(EditOp::views(ops@));
                let tree = self@.at(child);
                &&& PlannedChild::views(final(row)@) == PlannedChild::views(old(row)@)
                    + OpView::rows(list, child, tree, list.len())
                &&& final(tombstones)@ == old(tombstones)@ + OpView::removed(list, child)
                &&& r.0 == list.len()
                &&& r.1 == OpView::any_may_break(list, tree.kind.type_list().to_set())
            }),
    {
        let ghost tree = self@.at(child);
        proof {
            self@.lemma_at(child);
        }
        let own_types = self.class_types(child);
        let types = TextSet::of_list(&own_types);
        let list = pair_ops(ops);
        let ghost views = EditOp::views(list@);
        let n: usize = list.len();
        let mut breaks = false;
        let ghost start = PlannedChild::views(row@);
        assert(views.take(0) =~= Seq::empty());
        assert(PlannedChild::views(row@) =~= start + OpView::rows(
            views.take(0),
            child,
            tree,
            n as nat,
        ));
        assert(tombstones@ =~= old(tombstones)@ + OpView::removed(views.take(0), child));
        for i in 0..n
            invariant
                self.wf(),
                self@.has(child),
                n == list@.len(),
                tree == self@.at(child),
                views == EditOp::views(list@),
                PlannedChild::views(row@) == start + OpView::rows(
                    views.take(i as int),
                    child,
                    tree,
                    n as nat,
                ),
                tombstones@ == old(tombstones)@ + OpView::removed(views.take(i as int), child),
                breaks == OpView::any_may_break(views.take(i as int), types@),
        {
            let op = &list[i];
            let ghost before = PlannedChild::views(row@);
            let ghost done = views.take(i as int);
            assert(views.take(i + 1).drop_last() =~= done);
            assert(views.take(i + 1).last() == op@);
            if op_may_break(op, &types) {
                breaks = true;
                assert(views.take(i + 1)[i as int].may_break(types@));
            }
            assert(breaks == OpView::any_may_break(views.take(i + 1), types@)) by {
                if OpView::any_may_break(done, types@) {
                    let j = choose|j: int|
                        0 <= j < done.len() && (#[trigger] done[j]).may_break(types@);
                    assert(views.take(i + 1)[j].may_break(types@));
                }
                if OpView::any_may_break(views.take(i + 1), types@) {
                    let j = choose|j: int|
                        0 <= j < i + 1 && (#[trigger] views.take(i + 1)[j]).may_break(types@);
                    if j < i {
                        assert(done[j].may_break(types@));
                    }
                }
            }
            match op.kind {
                EditKind::Delete => {
                    tombstones.push(child);
                },
                EditKind::Replace => {
                    self.push_replacements(child, &op.edits, row);
                    tombstones.push(child);
                },
                EditKind::CreateBefore => {
                    let mut fresh: Vec<NodeSpec> = Vec::new();
                    append_specs(&mut fresh, &op.edits);
                    assert(NodeSpec::views(fresh@) =~= op@.edits);
                    push_fresh(row, fresh);
                    let ghost middle = PlannedChild::views(row@);
                    row.push(PlannedChild::Existing(child));
                    assert(PlannedChild::views(row@) =~= middle.push(
                        PlannedView::Existing(child),
                    ));
                },
                EditKind::CreateAfter => {
                    if n == 1 {
                        row.push(PlannedChild::Existing(child));
                        assert(PlannedChild::views(row@) =~= before + seq![
                            PlannedView::Existing(child),
                        ]);
                    }
                    let mut fresh: Vec<NodeSpec> = Vec::new();
                    append_specs(&mut fresh, &op.edits);
                    assert(NodeSpec::views(fresh@) =~= op@.edits);
                    push_fresh(row, fresh);
                },
            }
            assert(PlannedChild::views(row@) =~= before + op@.row(child, tree, n as nat));
            assert(PlannedChild::views(row@) =~= start + OpView::rows(
                views.take(i + 1),
                child,
                tree,
                n as nat,
            ));
            assert(tombstones@ =~= old(tombstones)@ + OpView::removed(views.take(i + 1), child));
        }
        assert(views.take(n as int) =~= views);
        (n, breaks)
    }

    /// Splices the edits into the children of a container.
    fn splice_children(&self, id: NodeId, ops: &mut Table<Vec<EditOp>>) -> (r: (
        Vec<PlannedChild>,
        Vec<NodeId>,
        usize,
        bool,
        bool,
    ))
        requires
            self.wf(),
            self@.has(id),
            old(ops).wf(),
        ensures
            final(ops).wf(),
            (Spliced {
                row: PlannedChild::views(r.0@),
                tombstones: r.1@,
                applied: r.2,
                may_break: r.3,
                hit: r.4,
                ops: crate::arena::plan::ops_view(final(ops)@),
            }) == Spliced::of(
                self@.nodes,
                self@.node(id).children,
                crate::arena::plan::ops_view(old(ops)@),
            ),
    {
        let kids = self.children(id);
        let ghost ops0 = crate::arena::plan::ops_view(ops@);
        let mut row: Vec<PlannedChild> = Vec::new();
        let mut tombstones: Vec<NodeId> = Vec::new();
        let mut applied: usize = 0;
        let mut breaks = false;
        let mut hit = false;
        assert(kids@.take(0) =~= Seq::empty());
        assert(PlannedChild::views(row@) =~= Seq::empty());
        for i in 0..kids.len()
            invariant
                self.wf(),
                self@.has(id),
                ops.wf(),
                kids@ == self@.node(id).children,
                (Spliced {
                    row: PlannedChild::views(row@),
                    tombstones: tombstones@,
                    applied,
                    may_break: breaks,
                    hit,
                    ops: crate::arena::plan::ops_view(ops@),
                }) == Spliced::of(self@.nodes, kids@.take(i as int), ops0),
        {
            let child = kids[i];
            proof {
                self@.lemma_at(id);
                assert(self@.node(id).children[i as int] == child);
                self@.lemma_at(child);
            }
            let ghost before = crate::arena::plan::ops_view(ops@);
            let ghost row0 = PlannedChild::views(row@);
            assert(kids@.take(i + 1).drop_last() =~= kids@.take(i as int));
            assert(kids@.take(i + 1).last() == child);
            match ops.remove(self.uuid(child)) {
                None => {
                    assert(crate::arena::plan::ops_view(ops@) =~= before);
                    row.push(PlannedChild::Existing(child));
                    assert(PlannedChild::views(row@) =~= row0.push(PlannedView::Existing(child)));
                },
                Some(anchor_ops) => {
                    assert(crate::arena::plan::ops_view(ops@) =~= before.remove(
                        self@.node(child).uuid,
                    ));
                    hit = true;
                    let (n, b) = self.splice_anchor(child, anchor_ops, &mut row, &mut tombstones);
                    applied = clamped_add(applied, n);
                    breaks = breaks || b;
                },
            }
        }
        assert(kids@.take(kids@.len() as int) =~= kids@);
        (row, tombstones, applied, breaks, hit)
    }

    /// The plan below the entries of a row.
    fn plan_row(
        &self,
        id: NodeId,
        row: Vec<PlannedChild>,
        ops: &mut Table<Vec<EditOp>>,
        dirty: &IdSet,
        fix_even_unparsable: bool,
    ) -> (r: RowPlan)
        requires
            self.wf(),
            self@.has(id),
            old(ops).wf(),
            PlannedView::row_behind(PlannedChild::views(row@), id.0 as int, self@.nodes),
        ensures
            final(ops).wf(),
            r.children_of.wf(),
            r.with_ops(crate::arena::plan::ops_view(final(ops)@)) == RowPlanView::of(
                self@.nodes,
                id,
                PlannedChild::views(row@),
                crate::arena::plan::ops_view(old(ops)@),
                dirty@,
                fix_even_unparsable,
            ),
        decreases self@.nodes.len() - id.0, 0int,
    {
        let ghost all = PlannedChild::views(row@);
        let ghost ops0 = crate::arena::plan::ops_view(ops@);
        let mut out = RowPlan {
            row: Vec::new(),
            changed: false,
            children_of: Table::new(),
            tombstones: Vec::new(),
            applied: 0,
            reverted: 0,
            may_break: false,
        };
        assert(all.take(0) =~= Seq::empty());
        assert(out.with_ops(ops0) =~= RowPlanView::none(ops0));
        for entry in it: row
            invariant
                self.wf(),
                self@.has(id),
                ops.wf(),
                out.children_of.wf(),
                it.seq() == row@,
                all == PlannedChild::views(row@),
                PlannedView::row_behind(all, id.0 as int, self@.nodes),
                out.with_ops(crate::arena::plan::ops_view(ops@)) == RowPlanView::of(
                    self@.nodes,
                    id,
                    all.take(it.index()),
                    ops0,
                    dirty@,
                    fix_even_unparsable,
                ),
        {
            let ghost i = it.index();
            assert(all.take(i + 1).drop_last() =~= all.take(i));
            assert(all.take(i + 1).last() == entry@);
            assert(all[i] == entry@);
            let ghost before = crate::arena::plan::ops_view(ops@);
            match entry {
                PlannedChild::Existing(c) => {
                    assert(id.0 < c.0 < self@.nodes.len());
                    let sub = self.plan_node(c, ops, dirty, fix_even_unparsable);
                    out.merge_child(
                        c,
                        sub,
                        Ghost(before),
                        Ghost(crate::arena::plan::ops_view(ops@)),
                    );
                },
                PlannedChild::New(spec, marker) => {
                    let ghost row0 = PlannedChild::views(out.row@);
                    let mut spec = *spec;
                    let (pre, post, n, b) = Arena::plan_spec(&mut spec, ops);
                    let ghost spec1 = spec@;
                    let ghost pre1 = NodeSpec::views(pre@);
                    let ghost post1 = NodeSpec::views(post@);
                    push_fresh(&mut out.row, pre);
                    let ghost row1 = PlannedChild::views(out.row@);
                    out.row.push(PlannedChild::New(Box::new(spec), marker));
                    assert(PlannedChild::views(out.row@) =~= row1 + seq![
                        PlannedView::New(spec1, marker),
                    ]);
                    push_fresh(&mut out.row, post);
                    out.applied = clamped_add(out.applied, n);
                    out.may_break = out.may_break || b;
                },
            }
        }
        assert(all.take(all.len() as int) =~= all);
        out
    }

    /// The plan below a node.
    fn plan_node(
        &self,
        id: NodeId,
        ops: &mut Table<Vec<EditOp>>,
        dirty: &IdSet,
        fix_even_unparsable: bool,
    ) -> (r: SubPlan)
        requires
            self.wf(),
            self@.has(id),
            old(ops).wf(),
        ensures
            final(ops).wf(),
            r.wf(),
            r.with_ops(crate::arena::plan::ops_view(final(ops)@)) == SubPlanView::of(
                self@.nodes,
                id,
                crate::arena::plan::ops_view(old(ops)@),
                dirty@,
                fix_even_unparsable,
            ),
        decreases self@.nodes.len() - id.0, 1int,
    {
        if self.children(id).len() == 0 || !dirty.contains(id.table_key()) {
            return SubPlan::unchanged();
        }
        let ghost ops0 = crate::arena::plan::ops_view(ops@);
        let ghost nodes = self@.nodes;
        let ghost kids = self@.node(id).children;
        proof {
            self@.lemma_at(id);
            assert forall|i: int| 0 <= i < kids.len() implies id.0 < (#[trigger] kids[i]).0
                < nodes.len() by {
                let c = self@.node(id).children[i];
            }
            crate::arena::plan::splice_behind(nodes, kids, ops0, id.0 as int);
        }
        let (row, stones, applied, breaks, hit) = self.splice_children(id, ops);
        let ghost s = Spliced::of(nodes, kids, ops0);
        proof {
            crate::arena::plan::row_plan_behind(
                nodes,
                id,
                s.row,
                s.ops,
                dirty@,
                fix_even_unparsable,
            );
        }
        let rest = self.plan_row(id, row, ops, dirty, fix_even_unparsable);
        let ghost r = RowPlanView::of(nodes, id, s.row, s.ops, dirty@, fix_even_unparsable);
        let ghost ops1 = crate::arena::plan::ops_view(ops@);
        assert(rest.with_ops(ops1) == r);
        let mut stones = stones;
        let mut more = rest.tombstones;
        stones.append(&mut more);
        let applied = clamped_add(applied, rest.applied);
        let none: Vec<PlannedChild> = Vec::new();
        let nil: Vec<PlannedChild> = Vec::new();
        assert(PlannedChild::views(none@) =~= Seq::empty());
        assert(PlannedChild::views(nil@) =~= Seq::empty());
        let (pre, mid, post) = if self.can_start_end_non_code(id) {
            (none, rest.row, nil)
        } else {
            self.part_planned(rest.row, Ghost(id.0 as int))
        };
        let changed_here = hit || rest.changed || pre.len() > 0 || post.len() > 0 || !keeps_all(
            &mid,
            self.children(id),
        );
        if !changed_here {
            let none: Vec<PlannedChild> = Vec::new();
            let nil: Vec<PlannedChild> = Vec::new();
            assert(PlannedChild::views(none@) =~= Seq::empty());
            assert(PlannedChild::views(nil@) =~= Seq::empty());
            return SubPlan {
                changed: false,
                pre: none,
                post: nil,
                children_of: rest.children_of,
                tombstones: stones,
                applied,
                reverted: rest.reverted,
            };
        }
        if (breaks || rest.may_break) && !fix_even_unparsable {
            let below = self.descendant_type_set(id);
            if self.is_type(id, "unparsable") || below.contains("unparsable") {
                let none: Vec<PlannedChild> = Vec::new();
                let nil: Vec<PlannedChild> = Vec::new();
                assert(PlannedChild::views(none@) =~= Seq::empty());
                assert(PlannedChild::views(nil@) =~= Seq::empty());
                let lists: Table<Vec<PlannedChild>> = Table::new();
                assert(crate::arena::state::plan_view(lists@) =~= Map::empty());
                return SubPlan {
                    changed: false,
                    pre: none,
                    post: nil,
                    children_of: lists,
                    tombstones: Vec::new(),
                    applied,
                    reverted: clamped_add(rest.reverted, 1),
                };
            }
        }
        let mut lists = rest.children_of;
        let ghost lists0 = lists@;
        let ghost mid0 = PlannedChild::views(mid@);
        lists.insert(id.table_key(), mid);
        assert(crate::arena::state::plan_view(lists@) =~= crate::arena::state::plan_view(
            lists0,
        ).insert(id.key(), mid0));
        SubPlan {
            changed: true,
            pre,
            post,
            children_of: lists,
            tombstones: stones,
            applied,
            reverted: rest.reverted,
        }
    }
}

/// What staging predicts.
#[derive(Debug)]
pub struct StageSummary {
    pub staged_raw: String,
    pub staged_source_fixes: Vec<SourceFixSpec>,
    pub applied: usize,
    pub unapplied_anchors: Vec<u128>,
    pub reverted_containers: usize,
    pub changed: bool,
}

/// The edits of a batch by anchor uuid.
fn group_ops(batch: Vec<EditOp>) -> (r: Table<Vec<EditOp>>)
    ensures
        r.wf(),
        crate::arena::plan::ops_view(r@) == crate::arena::plan::grouped(batch@),
{
    let mut table: Table<Vec<EditOp>> = Table::new();
    assert(crate::arena::plan::ops_view(table@) =~= crate::arena::plan::grouped(batch@.take(0)));
    for op in it: batch
        invariant
            table.wf(),
            it.seq() == batch@,
            crate::arena::plan::ops_view(table@) == crate::arena::plan::grouped(
                batch@.take(it.index()),
            ),
    {
        let ghost i = it.index();
        let ghost before = crate::arena::plan::ops_view(table@);
        assert(batch@.take(i + 1).drop_last() =~= batch@.take(i));
        assert(batch@.take(i + 1).last() == op);
        let u = op.anchor_uuid;
        let mut list = match table.remove(u) {
            Some(list) => list,
            None => Vec::new(),
        };
        let ghost views = EditOp::views(list@);
        assert(views =~= if before.contains_key(u) {
            before[u]
        } else {
            Seq::empty()
        });
        list.push(op);
        assert(EditOp::views(list@) =~= views.push(op@));
        table.insert(u, list);
        assert(crate::arena::plan::ops_view(table@) =~= before.insert(u, views.push(op@)));
    }
    assert(batch@.take(batch@.len() as int) =~= batch@);
    table
}

impl Arena {
    /// Whether the node with key `k` lies above the anchor of the edits at a
    /// place of the table.
    spec fn marks(&self, ops: Table<Vec<EditOp>>, place: int, k: u128) -> bool {
        ops.key_at(place) is Some && self@.by_uuid.contains_key(ops.key_at(place)->0)
            && NodeRecord::above(
            self@.nodes,
            self@.by_uuid[ops.key_at(place)->0] as int,
        ).contains(k)
    }

    /// The containers on the way from the root to the anchors of the edits.
    fn dirty_containers(&self, ops: &Table<Vec<EditOp>>) -> (r: IdSet)
        requires
            self.wf(),
            ops.wf(),
        ensures
            r@ == self@.dirty(crate::arena::plan::ops_view(ops@)),
    {
        let ghost nodes = self@.nodes;
        let mut dirty = IdSet::new();
        let n: usize = ops.slot_count();
        for i in 0..n
            invariant
                self.wf(),
                ops.wf(),
                nodes == self@.nodes,
                n == ops.slots(),
                forall|k: u128| #[trigger]
                    dirty@.contains(k) <==> exists|j: int|
                        0 <= j < i && #[trigger] self.marks(*ops, j, k),
        {
            let ghost before = dirty@;
            proof {
                assert forall|k: u128| #[trigger] before.contains(k) implies NodeRecord::above(
                    nodes,
                    k as int,
                ).subset_of(before) by {
                    let j = choose|j: int| 0 <= j < i && #[trigger] self.marks(*ops, j, k);
                    let at = self@.by_uuid[ops.key_at(j)->0] as int;
                    crate::arena::state::above_transitive(nodes, at, k);
                    assert forall|m: u128| NodeRecord::above(nodes, k as int).contains(
                        m,
                    ) implies before.contains(m) by {
                        assert(self.marks(*ops, j, m));
                    }
                }
            }
            if let Some((u, _)) = ops.at(i) {
                if let Some(anchor) = self.node_by_uuid(u) {
                    self.mark_above(anchor, &mut dirty);
                    assert(ops.key_at(i as int) == Some(u));
                }
            }
            assert forall|k: u128| #[trigger] dirty@.contains(k) <==> exists|j: int|
                0 <= j < i + 1 && #[trigger] self.marks(*ops, j, k) by {
                if dirty@.contains(k) && !before.contains(k) {
                    assert(self.marks(*ops, i as int, k));
                }
                if before.contains(k) {
                    let j = choose|j: int| 0 <= j < i && #[trigger] self.marks(*ops, j, k);
                    assert(0 <= j < i + 1 && self.marks(*ops, j, k));
                }
                if exists|j: int| 0 <= j < i + 1 && #[trigger] self.marks(*ops, j, k) {
                    let j = choose|j: int| 0 <= j < i + 1 && #[trigger] self.marks(*ops, j, k);
                    if j < i {
                        assert(before.contains(k));
                    }
                }
            }
        }
        proof {
            ops.places();
            let view = crate::arena::plan::ops_view(ops@);
            assert forall|k: u128| dirty@.contains(k) == self@.dirty(view).contains(k) by {
                if dirty@.contains(k) {
                    let j = choose|j: int| 0 <= j < n && #[trigger] self.marks(*ops, j, k);
                    assert(ops.key_at(j) is Some);
                    assert(view.contains_key(ops.key_at(j)->0));
                }
                if self@.dirty(view).contains(k) {
                    let u = choose|u: u128|
                        view.contains_key(u) && self@.by_uuid.contains_key(u) && #[trigger]
                        NodeRecord::above(nodes, self@.by_uuid[u] as int).contains(k);
                    assert(ops@.contains_key(u));
                    let j = choose|j: int| 0 <= j < ops.slots() && #[trigger] ops.key_at(j) == Some(u);
                    assert(self.marks(*ops, j, k));
                }
            }
            assert(dirty@ =~= self@.dirty(view));
        }
        dirty
    }

    /// Adds the nodes above a node to a set that holds, with every node, all
    /// above it.
    pub(crate) fn mark_above(&self, id: NodeId, marked: &mut IdSet)
        requires
            self.wf(),
            self@.has(id),
        ensures
            (forall|k: u128| #[trigger]
                old(marked)@.contains(k) ==> NodeRecord::above(self@.nodes, k as int).subset_of(
                    old(marked)@,
                )) ==> final(marked)@ == old(marked)@.union(
                NodeRecord::above(self@.nodes, id.0 as int),
            ),
    {
        self.mark_chain(self.parent(id), marked);
        proof {
            let nodes = self@.nodes;
            assert(NodeRecord::chain(nodes, nodes[id.0 as int].parent) =~= NodeRecord::above(
                nodes,
                id.0 as int,
            ));
        }
    }

    /// Adds a node, if any, and all above it to a set that holds, with every
    /// node, all above it.
    pub(crate) fn mark_chain(&self, start: Option<NodeId>, marked: &mut IdSet)
        requires
            self.wf(),
            start is Some ==> self@.has(start->0),
        ensures
            (forall|k: u128| #[trigger]
                old(marked)@.contains(k) ==> NodeRecord::above(self@.nodes, k as int).subset_of(
                    old(marked)@,
                )) ==> final(marked)@ == old(marked)@.union(
                NodeRecord::chain(self@.nodes, start),
            ),
    {
        let ghost nodes = self@.nodes;
        let ghost set0 = marked@;
        let ghost closed = forall|k: u128| #[trigger]
            set0.contains(k) ==> NodeRecord::above(nodes, k as int).subset_of(set0);
        let mut cur = start;
        assert(marked@.union(NodeRecord::chain(nodes, cur)) =~= set0.union(
            NodeRecord::chain(nodes, start),
        ));
        loop
            invariant
                self.wf(),
                nodes == self@.nodes,
                cur is Some ==> self@.has(cur->0),
                closed == forall|k: u128| #[trigger]
                    set0.contains(k) ==> NodeRecord::above(nodes, k as int).subset_of(set0),
                set0.subset_of(marked@),
                marked@.union(NodeRecord::chain(nodes, cur)) == set0.union(
                    NodeRecord::chain(nodes, start),
                ),
                cur is Some ==> forall|k: u128| #[trigger]
                    marked@.contains(k) && !set0.contains(k) ==> k > (cur->0).key(),
            ensures
                closed ==> marked@ == set0.union(NodeRecord::chain(nodes, start)),
            decreases
                    (if cur is Some {
                        (cur->0).0 + 1
                    } else {
                        0int
                    }),
        {
            match cur {
                None => {
                    assert(marked@.union(NodeRecord::chain(nodes, cur)) =~= marked@);
                    break;
                },
                Some(p) => {
                    let ghost before = marked@;
                    if !marked.insert(p.table_key()) {
                        proof {
                            assert(set0.contains(p.key()));
                            if closed {
                                assert(NodeRecord::above(nodes, p.0 as int).subset_of(set0));
                                assert(before.union(NodeRecord::chain(nodes, cur)) =~= before);
                                assert(marked@ =~= before);
                            }
                        }
                        break;
                    }
                    cur = self.parent(p);
                    proof {
                        assert(NodeRecord::chain(nodes, cur) =~= NodeRecord::above(
                            nodes,
                            p.0 as int,
                        )) by {
                            assert(nodes[p.0 as int].parent == cur);
                        }
                        assert(marked@.union(NodeRecord::chain(nodes, cur)) =~= before.union(
                            NodeRecord::chain(nodes, Some(p)),
                        ));
                    }
                },
            }
        }
    }
}

/// Whether one of the edits may break the grammar of its anchor's container.
fn any_op_may_break(ops: &Vec<EditOp>, types: &TextSet) -> (r: bool)
    ensures
        r == OpView::any_may_break(EditOp::views(ops@), types@),
{
    let ghost views = EditOp::views(ops@);
    let mut i: usize = 0;
    while i < ops.len()
        invariant
            i <= ops@.len(),
            views == EditOp::views(ops@),
            forall|j: int| 0 <= j < i ==> !(#[trigger] views[j]).may_break(types@),
        decreases ops@.len() - i,
    {
        if op_may_break(&ops[i], types) {
            assert(views[i as int].may_break(types@));
            return true;
        }
        i += 1;
    }
    false
}

impl Arena {
    /// Whether the edits at a place of the table make `p` a suspect.
    spec fn accuses(&self, ops: Table<Vec<EditOp>>, place: int, p: NodeId) -> bool {
        let u = ops.key_at(place)->0;
        let at = self@.by_uuid[u] as int;
        ops.key_at(place) is Some && self@.by_uuid.contains_key(u) && self@.nodes[at].parent
            == Some(p) && OpView::any_may_break(
            EditOp::views(ops@[u]@),
            self@.nodes[at].kind.type_list().to_set(),
        )
    }

    /// The containers whose grammar the edits may break.
    fn suspect_containers(&self, ops: &Table<Vec<EditOp>>) -> (r: Vec<NodeId>)
        requires
            self.wf(),
            ops.wf(),
        ensures
            r@.no_duplicates(),
            r@.to_set() == self@.suspects(crate::arena::plan::ops_view(ops@)),
            forall|i: int| 0 <= i < r@.len() ==> self@.has(#[trigger] r@[i]),
    {
        let mut out: Vec<NodeId> = Vec::new();
        let mut seen = IdSet::new();
        let n: usize = ops.slot_count();
        for i in 0..n
            invariant
                self.wf(),
                ops.wf(),
                n == ops.slots(),
                out@.no_duplicates(),
                forall|j: int| 0 <= j < out@.len() ==> self@.has(#[trigger] out@[j]),
                forall|p: NodeId| #[trigger] out@.contains(p) <==> seen@.contains(p.key()),
                forall|p: NodeId| #[trigger]
                    out@.contains(p) <==> exists|j: int|
                        0 <= j < i && #[trigger] self.accuses(*ops, j, p),
        {
            let ghost before = out@;
            let mut accused: Option<NodeId> = None;
            if let Some((u, list)) = ops.at(i) {
                if let Some(anchor) = self.node_by_uuid(u) {
                    let own_types = self.class_types(anchor);
                    let types = TextSet::of_list(&own_types);
                    if any_op_may_break(list, &types) {
                        accused = self.parent(anchor);
                    }
                }
            }
            assert(forall|p: NodeId| self.accuses(*ops, i as int, p) <==> accused == Some(p));
            if let Some(p) = accused {
                if seen.insert(p.table_key()) {
                    out.push(p);
                    assert(out@.last() == p);
                    assert(forall|q: NodeId| #[trigger]
                        out@.contains(q) <==> before.contains(q) || q == p) by {
                        assert forall|q: NodeId| #[trigger] out@.contains(q) implies
                            before.contains(q) || q == p by {
                            let j = choose|j: int| 0 <= j < out@.len() && out@[j] == q;
                            if j < before.len() {
                                assert(before[j] == q);
                            }
                        }
                        assert forall|q: NodeId| before.contains(q) || q == p implies
                            #[trigger] out@.contains(q) by {
                            if before.contains(q) {
                                let j = choose|j: int| 0 <= j < before.len() && before[j] == q;
                                assert(out@[j] == q);
                            }
                        }
                    }
                    assert(!before.contains(p));
                    assert(out@.no_duplicates()) by {
                        assert forall|a: int, b: int|
                            0 <= a < b < out@.len() implies out@[a] != out@[b] by {
                            if b == before.len() && out@[a] == p {
                                assert(before[a] == p);
                            }
                        }
                    }
                } else {
                    assert(before.contains(p));
                }
            }
            assert forall|p: NodeId| #[trigger] out@.contains(p) <==> exists|j: int|
                0 <= j < i + 1 && #[trigger] self.accuses(*ops, j, p) by {
                if before.contains(p) {
                    let j = choose|j: int| 0 <= j < i && #[trigger] self.accuses(*ops, j, p);
                    assert(0 <= j < i + 1 && self.accuses(*ops, j, p));
                } else if out@.contains(p) {
                    assert(self.accuses(*ops, i as int, p));
                }
                if exists|j: int| 0 <= j < i + 1 && #[trigger] self.accuses(*ops, j, p) {
                    let j = choose|j: int| 0 <= j < i + 1 && #[trigger] self.accuses(*ops, j, p);
                    if j < i {
                        assert(before.contains(p));
                    }
                }
            }
        }
        proof {
            ops.places();
            let view = crate::arena::plan::ops_view(ops@);
            assert forall|p: NodeId| out@.to_set().contains(p) == self@.suspects(view).contains(
                p,
            ) by {
                if out@.contains(p) {
                    let j = choose|j: int| 0 <= j < n && #[trigger] self.accuses(*ops, j, p);
                    assert(ops.key_at(j) is Some);
                    assert(view.contains_key(ops.key_at(j)->0));
                }
                if self@.suspects(view).contains(p) {
                    let u = choose|u: u128| #[trigger]
                        view.contains_key(u) && self@.by_uuid.contains_key(u)
                            && self@.nodes[self@.by_uuid[u] as int].parent == Some(p)
                            && OpView::any_may_break(
                            view[u],
                            self@.nodes[self@.by_uuid[u] as int].kind.type_list().to_set(),
                        );
                    assert(ops@.contains_key(u));
                    let j = choose|j: int| 0 <= j < ops.slots() && #[trigger] ops.key_at(j) == Some(u);
                    assert(self.accuses(*ops, j, p));
                    assert(out@.contains(p));
                }
            }
            assert(out@.to_set() =~= self@.suspects(view));
        }
        out
    }

    /// Whether the anchor stands at one of the first places of the table.
    spec fn key_before(ops: Table<Vec<EditOp>>, places: int, u: u128) -> bool {
        exists|a: int| 0 <= a < places && #[trigger] ops.key_at(a) == Some(u)
    }

    /// The anchors of the edits left over.
    fn anchors_of(ops: &Table<Vec<EditOp>>) -> (r: Vec<u128>)
        requires
            ops.wf(),
        ensures
            r@.no_duplicates(),
            r@.to_set() == ops@.dom(),
    {
        let mut out: Vec<u128> = Vec::new();
        let n: usize = ops.slot_count();
        proof {
            ops.places();
        }
        for i in 0..n
            invariant
                ops.wf(),
                n == ops.slots(),
                forall|a: int, b: int|
                    0 <= a < ops.slots() && 0 <= b < ops.slots() && (#[trigger] ops.key_at(a))
                        is Some && ops.key_at(a) == #[trigger] ops.key_at(b) ==> a == b,
                forall|j: int|
                    0 <= j < out@.len() ==> Arena::key_before(*ops, i as int, #[trigger] out@[j]),
                forall|a: int|
                    0 <= a < i && (#[trigger] ops.key_at(a)) is Some ==> out@.contains(
                        ops.key_at(a)->0,
                    ),
                out@.no_duplicates(),
        {
            let ghost before = out@;
            if let Some((u, _)) = ops.at(i) {
                assert(ops.key_at(i as int) == Some(u));
                assert(!before.contains(u)) by {
                    if before.contains(u) {
                        let j = choose|j: int| 0 <= j < before.len() && before[j] == u;
                        assert(out@[j] == u);
                    }
                }
                out.push(u);
                assert(out@[out@.len() - 1] == u);
                assert forall|a: int|
                    0 <= a < i + 1 && (#[trigger] ops.key_at(a)) is Some implies out@.contains(
                    ops.key_at(a)->0,
                ) by {
                    if a < i {
                        let j = choose|j: int|
                            0 <= j < before.len() && before[j] == ops.key_at(a)->0;
                        assert(out@[j] == ops.key_at(a)->0);
                    }
                }
                assert(out@.no_duplicates()) by {
                    assert forall|a: int, b: int| 0 <= a < b < out@.len() implies out@[a]
                        != out@[b] by {
                        if b == before.len() && out@[a] == u {
                            assert(before[a] == u);
                        }
                    }
                }
            }
            assert forall|j: int| 0 <= j < out@.len() implies Arena::key_before(
                *ops,
                i + 1,
                #[trigger] out@[j],
            ) by {
                if j < before.len() {
                    assert(before[j] == out@[j]);
                    assert(Arena::key_before(*ops, i as int, before[j]));
                } else {
                    assert(ops.key_at(i as int) == Some(out@[j]));
                }
            }
        }
        proof {
            ops.places();
            assert forall|u: u128| out@.to_set().contains(u) == ops@.dom().contains(u) by {
                if ops@.contains_key(u) {
                    let j = choose|j: int| 0 <= j < ops.slots() && #[trigger] ops.key_at(j) == Some(u);
                    assert(ops.key_at(j) is Some);
                    assert(out@.contains(u));
                }
                if out@.contains(u) {
                    let j = choose|j: int| 0 <= j < out@.len() && out@[j] == u;
                    assert(Arena::key_before(*ops, n as int, out@[j]));
                    let a = choose|a: int| 0 <= a < n && #[trigger] ops.key_at(a) == Some(u);
                    assert(ops.key_at(a) is Some);
                    assert(ops@.contains_key(u));
                }
            }
            assert(out@.to_set() =~= ops@.dom());
        }
        out
    }

    /// What the plan of the root moves out of it stays in it.
    fn fold_into_root(
        &self,
        lists: &mut Table<Vec<PlannedChild>>,
        pre: Vec<PlannedChild>,
        post: Vec<PlannedChild>,
    )
        requires
            self.wf(),
            old(lists).wf(),
        ensures
            final(lists).wf(),
            crate::arena::state::plan_view(final(lists)@) == ({
                let before = crate::arena::state::plan_view(old(lists)@);
                let key = self@.root.key();
                let row = if before.contains_key(key) {
                    before[key]
                } else {
                    PlannedView::kept_row(self@.node(self@.root).children)
                };
                before.insert(
                    key,
                    PlannedChild::views(pre@) + row + PlannedChild::views(post@),
                )
            }),
    {
        let ghost before = crate::arena::state::plan_view(lists@);
        let ghost key = self@.root.key();
        let ghost row0 = if before.contains_key(key) {
            before[key]
        } else {
            PlannedView::kept_row(self@.node(self@.root).children)
        };
        let mut row = match lists.remove(self.root().table_key()) {
            Some(row) => row,
            None => {
                let kids = self.children(self.root());
                let mut row: Vec<PlannedChild> = Vec::new();
                let ghost all = PlannedView::kept_row(kids@);
                assert(PlannedChild::views(row@) =~= all.take(0));
                for i in 0..kids.len()
                    invariant
                        all == PlannedView::kept_row(kids@),
                        PlannedChild::views(row@) == all.take(i as int),
                {
                    let ghost part = PlannedChild::views(row@);
                    row.push(PlannedChild::Existing(kids[i]));
                    assert(PlannedChild::views(row@) =~= part.push(all[i as int]));
                    assert(PlannedChild::views(row@) =~= all.take(i + 1));
                }
                assert(all.take(all.len() as int) =~= all);
                row
            },
        };
        assert(PlannedChild::views(row@) =~= row0);
        let mut merged = pre;
        let mut post = post;
        let ghost pre0 = PlannedChild::views(pre@);
        let ghost post0 = PlannedChild::views(post@);
        merged.append(&mut row);
        assert(PlannedChild::views(merged@) =~= pre0 + row0);
        merged.append(&mut post);
        assert(PlannedChild::views(merged@) =~= pre0 + row0 + post0);
        lists.insert(self.root().table_key(), merged);
        assert(crate::arena::state::plan_view(lists@) =~= before.insert(
            key,
            pre0 + row0 + post0,
        ));
    }

    /// Plans an edit batch without changing the tree. The plan is kept for
    /// [`Arena::commit_staged`] and [`Arena::discard_staged`], in place of any
    /// that was staged before; the summary tells what the tree will be.
    pub fn stage_edit_batch(&mut self, ops: Vec<EditOp>, fix_even_unparsable: bool) -> (r:
        StageSummary)
        requires
            old(self).wf(),
        ensures
            final(self).wf(),
            ({
                let state = old(self)@;
                let batch = crate::arena::plan::grouped(ops@);
                let plan = state.plan(batch, fix_even_unparsable);
                let lists = state.plan_lists(batch, fix_even_unparsable);
                let overlay = crate::arena::overlay::Overlay { nodes: state.nodes, lists };
                &&& final(self)@.staged is Some
                &&& (final(self)@.staged->0).children_of == lists
                &&& (final(self)@.staged->0).tombstones == plan.tombstones
                &&& (final(self)@.staged->0).validate.no_duplicates()
                &&& (final(self)@.staged->0).validate.to_set() == state.suspects(batch)
                &&& final(self)@ == (ArenaState { staged: final(self)@.staged, ..state })
                &&& r.staged_raw@ == overlay.raw(state.root.0 as int)
                &&& SourceFixSpec::views(r.staged_source_fixes@) == overlay.fixes(
                    state.root.0 as int,
                )
                &&& r.applied == plan.applied
                &&& r.unapplied_anchors@.no_duplicates()
                &&& r.unapplied_anchors@.to_set() == plan.ops.dom()
                &&& r.reverted_containers == plan.reverted
                &&& r.changed == (plan.changed && lists != Map::<u128, Seq<PlannedView>>::empty())
            }),
    {
        let mut table = group_ops(ops);
        let ghost batch = crate::arena::plan::grouped(ops@);
        let ghost state = self@;
        let root = self.root();
        let validate_containers = self.suspect_containers(&table);
        let dirty = self.dirty_containers(&table);
        let plan = self.plan_node(root, &mut table, &dirty, fix_even_unparsable);
        let ghost p = state.plan(batch, fix_even_unparsable);
        proof {
            crate::arena::plan::plan_behind(
                state.nodes,
                root,
                batch,
                dirty@,
                fix_even_unparsable,
            );
        }
        let unapplied_anchors = Arena::anchors_of(&table);
        assert(table@.dom() =~= p.ops.dom());
        let mut lists = plan.children_of;
        if plan.pre.len() > 0 || plan.post.len() > 0 {
            self.fold_into_root(&mut lists, plan.pre, plan.post);
        }
        let ghost views = crate::arena::state::plan_view(lists@);
        assert(views == state.plan_lists(batch, fix_even_unparsable));
        proof {
            let key = root.key();
            self@.lemma_at(root);
            assert forall|i: int| 0 <= i < self@.node(root).children.len() implies root.0 < (
            #[trigger] self@.node(root).children[i]).0 < state.nodes.len() by {}
            assert(crate::arena::plan::lists_behind(views, 0, state.nodes)) by {
                let row = if p.children_of.contains_key(key) {
                    p.children_of[key]
                } else {
                    PlannedView::kept_row(self@.node(root).children)
                };
                assert(PlannedView::row_behind(row, root.0 as int, state.nodes)) by {
                    if !p.children_of.contains_key(key) {
                        assert forall|i: int| 0 <= i < row.len() implies match #[trigger] row[i] {
                            PlannedView::Existing(c) => root.0 < c.0 < state.nodes.len(),
                            PlannedView::New(..) => true,
                        } by {
                            let c = self@.node(root).children[i];
                        }
                    }
                }
            }
            assert(crate::arena::plan::stones_behind(p.tombstones, -1, state.nodes));
        }
        let staged_raw = self.planned_raw(root, &lists);
        let mut staged_source_fixes: Vec<SourceFixSpec> = Vec::new();
        self.planned_source_fixes(root, &lists, &mut staged_source_fixes);
        let changed = plan.changed && !lists.is_empty();
        proof {
            if lists@ == Map::<u128, Vec<PlannedChild>>::empty() {
                assert(views =~= Map::empty());
            } else if views == Map::<u128, Seq<PlannedView>>::empty() {
                assert forall|k: u128| !lists@.contains_key(k) by {
                    assert(!views.contains_key(k));
                }
                assert(lists@ =~= Map::empty());
            }
            assert(SourceFixSpec::views(staged_source_fixes@) =~= self.under(lists@).fixes(
                root.0 as int,
            ));
        }
        self.set_staged(
            Some(StagedBatch { children_of: lists, tombstones: plan.tombstones, validate_containers }),
        );
        StageSummary {
            staged_raw,
            staged_source_fixes,
            applied: plan.applied,
            unapplied_anchors,
            reverted_containers: plan.reverted,
            changed,
        }
    }

    /// Drops the staged batch, if any; the tree is as it was.
    pub fn discard_staged(&mut self)
        requires
            old(self).wf(),
        ensures
            final(self).wf(),
            final(self)@ == (ArenaState { staged: None, ..old(self)@ }),
    {
        self.set_staged(None);
    }

    /// The staged batch.
    pub(crate) fn staged_batch(&self) -> (r: Option<&StagedBatch>)
        requires
            self.tables_ok(),
        ensures
            match r {
                Some(b) => b.wf() && self@.staged == Some(b@),
                None => self@.staged is None,
            },
    {
        match &self.staged {
            Some(b) => Some(b),
            None => None,
        }
    }

    /// Whether an edit batch is staged.
    pub fn has_staged(&self) -> (r: bool)
        ensures
            r == (self@.staged is Some),
    {
        self.staged.is_some()
    }
}

} // verus!
