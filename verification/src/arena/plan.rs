//! Planning an edit batch: what every container's child list will be.
//!
//! Edits are applied from the container of their anchor. A container's children
//! are spliced, then the plan goes down into what is there now, new segments
//! included: a copy keeps the uuids of what it was copied from, so edits may be
//! anchored inside it. Non-code at the ends of a container moves up to the
//! container's own container. Where the grammar may be broken inside something
//! that did not parse to begin with, all that was planned there is dropped.

use vstd::prelude::*;

use crate::arena::state::NodeId;
use crate::edit::{EditKind, EditOp};
use crate::marker::PositionMarker;

#[allow(unused_imports)]
use crate::arena::state::{NodeRecord, PlannedView};
#[allow(unused_imports)]
use crate::edit::{OpView, SpecTree};
#[allow(unused_imports)]
use crate::tree::Tree;

verus! {

/// The edits by anchor uuid.
pub type Ops = Map<u128, Seq<OpView>>;

/// The edits of a table by anchor uuid.
pub open spec fn ops_view(table: Map<u128, Vec<EditOp>>) -> Ops {
    Map::new(|k: u128| table.contains_key(k), |k: u128| EditOp::views(table[k]@))
}

/// The edits of a batch by anchor uuid, those of one anchor in the order of the
/// batch.
pub open spec fn grouped(batch: Seq<EditOp>) -> Ops
    decreases batch.len(),
{
    if batch.len() == 0 {
        Map::empty()
    } else {
        let before = grouped(batch.drop_last());
        let u = batch.last().anchor_uuid;
        before.insert(
            u,
            (if before.contains_key(u) {
                before[u]
            } else {
                Seq::empty()
            }).push(batch.last()@),
        )
    }
}

impl OpView {
    /// The edits of one anchor in the order in which they apply: a pair puts
    /// the one that creates after the anchor last.
    pub open spec fn paired(list: Seq<OpView>) -> Seq<OpView> {
        if list.len() == 2 && list[0].kind == EditKind::CreateAfter {
            seq![list[1], list[0]]
        } else {
            list
        }
    }

    /// Whether the edit may break the grammar of its anchor's container; only a
    /// replacement by one segment of the very same types cannot.
    pub open spec fn may_break(self, types: Set<Seq<char>>) -> bool {
        !(self.kind == EditKind::Replace && self.edits.len() == 1 && self.edits[0].declared_types()
            == types)
    }

    /// Whether one of the edits may break the grammar.
    pub open spec fn any_may_break(list: Seq<OpView>, types: Set<Seq<char>>) -> bool {
        exists|i: int| 0 <= i < list.len() && (#[trigger] list[i]).may_break(types)
    }

    /// Whether the edit takes its anchor out of the tree.
    pub open spec fn removes(self) -> bool {
        self.kind == EditKind::Delete || self.kind == EditKind::Replace
    }

    /// The nodes that the edits at `anchor` take out of the tree.
    pub open spec fn removed(list: Seq<OpView>, anchor: NodeId) -> Seq<NodeId>
        decreases list.len(),
    {
        if list.len() == 0 {
            Seq::empty()
        } else {
            let before = OpView::removed(list.drop_last(), anchor);
            if list.last().removes() {
                before.push(anchor)
            } else {
                before
            }
        }
    }

    /// What stands in the place of the anchor after one edit out of `n`: the
    /// first replacement whose text is the anchor's takes over its position.
    pub open spec fn row(self, anchor: NodeId, tree: Tree, n: nat) -> Seq<PlannedView> {
        match self.kind {
            EditKind::Delete => Seq::empty(),
            EditKind::Replace => Seq::new(
                self.edits.len(),
                |i: int|
                    PlannedView::New(
                        self.edits[i],
                        if self.takes_place(tree.raw(), i) {
                            tree.marker
                        } else {
                            None
                        },
                    ),
            ),
            EditKind::CreateBefore => PlannedView::fresh_row(self.edits).push(
                PlannedView::Existing(anchor),
            ),
            EditKind::CreateAfter => if n == 1 {
                seq![PlannedView::Existing(anchor)] + PlannedView::fresh_row(self.edits)
            } else {
                PlannedView::fresh_row(self.edits)
            },
        }
    }

    /// Whether the `i`-th segment is the first with the given text.
    pub open spec fn takes_place(self, raw: Seq<char>, i: int) -> bool {
        self.edits[i].raw() == raw && forall|j: int|
            0 <= j < i ==> (#[trigger] self.edits[j]).raw() != raw
    }

    /// What stands in the place of the anchor after the edits out of `n`.
    pub open spec fn rows(list: Seq<OpView>, anchor: NodeId, tree: Tree, n: nat) -> Seq<PlannedView>
        decreases list.len(),
    {
        if list.len() == 0 {
            Seq::empty()
        } else {
            OpView::rows(list.drop_last(), anchor, tree, n) + list.last().row(anchor, tree, n)
        }
    }

    /// What stands in the place of a segment to be created after one edit out
    /// of `n` anchored at it.
    pub open spec fn spec_row(self, anchor: SpecTree, n: nat) -> Seq<SpecTree> {
        match self.kind {
            EditKind::Delete => Seq::empty(),
            EditKind::Replace => self.edits,
            EditKind::CreateBefore => self.edits.push(anchor),
            EditKind::CreateAfter => if n == 1 {
                seq![anchor] + self.edits
            } else {
                self.edits
            },
        }
    }

    /// What stands in the place of a segment to be created after the edits.
    pub open spec fn spec_rows(list: Seq<OpView>, anchor: SpecTree, n: nat) -> Seq<SpecTree>
        decreases list.len(),
    {
        if list.len() == 0 {
            Seq::empty()
        } else {
            OpView::spec_rows(list.drop_last(), anchor, n) + list.last().spec_row(anchor, n)
        }
    }
}

impl PlannedView {
    /// Segments to be created that take over no position.
    pub open spec fn fresh_row(row: Seq<SpecTree>) -> Seq<PlannedView> {
        Seq::new(row.len(), |i: int| PlannedView::New(row[i], None))
    }

    /// Nodes that are kept.
    pub open spec fn kept_row(kids: Seq<NodeId>) -> Seq<PlannedView> {
        Seq::new(kids.len(), |i: int| PlannedView::Existing(kids[i]))
    }

    /// Whether the entry is code or a meta: what a container may start and end
    /// with.
    pub open spec fn anchors_end(self, nodes: Seq<NodeRecord>) -> bool {
        match self {
            PlannedView::Existing(c) => {
                let t = NodeRecord::tree_of(nodes, c.0 as int);
                t.is_code() || t.is_meta()
            },
            PlannedView::New(spec, _) => spec.anchors_end(),
        }
    }

    /// Which entries may stand at an end.
    pub open spec fn end_flags(row: Seq<PlannedView>, nodes: Seq<NodeRecord>) -> Seq<bool> {
        Seq::new(row.len(), |i: int| row[i].anchors_end(nodes))
    }

    /// Kept nodes of the row lie behind `lo`.
    pub open spec fn row_behind(row: Seq<PlannedView>, lo: int, nodes: Seq<NodeRecord>) -> bool {
        forall|i: int|
            0 <= i < row.len() ==> match #[trigger] row[i] {
                PlannedView::Existing(c) => lo < c.0 < nodes.len(),
                PlannedView::New(..) => true,
            }
    }
}

/// Which segments may stand at an end.
pub open spec fn spec_end_flags(row: Seq<SpecTree>) -> Seq<bool> {
    Seq::new(row.len(), |i: int| row[i].anchors_end())
}

/// The number of entries before the first flagged one.
pub open spec fn lead(flags: Seq<bool>) -> nat
    decreases flags.len(),
{
    if flags.len() == 0 || flags[0] {
        0
    } else {
        1 + lead(flags.drop_first())
    }
}

/// The number of entries up to the last flagged one.
pub open spec fn reach(flags: Seq<bool>) -> nat
    decreases flags.len(),
{
    if flags.len() == 0 {
        0
    } else if flags.last() {
        flags.len()
    } else {
        reach(flags.drop_last())
    }
}

/// A row parted at the first and behind the last flagged entry.
#[verifier::ext_equal]
pub struct Parted<A> {
    pub pre: Seq<A>,
    pub mid: Seq<A>,
    pub post: Seq<A>,
}

impl<A> Parted<A> {
    /// Parts a row by its flags.
    pub open spec fn of(row: Seq<A>, flags: Seq<bool>) -> Parted<A> {
        let start = lead(flags) as int;
        let rest = row.skip(start);
        let stop = reach(flags.skip(start)) as int;
        Parted { pre: row.take(start), mid: rest.take(stop), post: rest.skip(stop) }
    }

    /// The row as it is.
    pub open spec fn whole(row: Seq<A>) -> Parted<A> {
        Parted { pre: Seq::empty(), mid: row, post: Seq::empty() }
    }
}

/// A container's children after the edits anchored at them.
#[verifier::ext_equal]
pub struct Spliced {
    pub row: Seq<PlannedView>,
    pub tombstones: Seq<NodeId>,
    pub applied: usize,
    pub may_break: bool,
    pub hit: bool,
    pub ops: Ops,
}

impl Spliced {
    /// Splices the edits into a row of children. Edits are used up.
    pub open spec fn of(nodes: Seq<NodeRecord>, kids: Seq<NodeId>, ops: Ops) -> Spliced
        decreases kids.len(),
    {
        if kids.len() == 0 {
            Spliced {
                row: Seq::empty(),
                tombstones: Seq::empty(),
                applied: 0,
                may_break: false,
                hit: false,
                ops,
            }
        } else {
            let s = Spliced::of(nodes, kids.drop_last(), ops);
            let c = kids.last();
            let u = nodes[c.0 as int].uuid;
            if s.ops.contains_key(u) {
                let list = OpView::paired(s.ops[u]);
                let tree = NodeRecord::tree_of(nodes, c.0 as int);
                Spliced {
                    row: s.row + OpView::rows(list, c, tree, list.len()),
                    tombstones: s.tombstones + OpView::removed(list, c),
                    applied: crate::marker::clamped_sum(s.applied as int, list.len() as int),
                    may_break: s.may_break || OpView::any_may_break(
                        list,
                        tree.kind.type_list().to_set(),
                    ),
                    hit: true,
                    ops: s.ops.remove(u),
                }
            } else {
                Spliced { row: s.row.push(PlannedView::Existing(c)), ..s }
            }
        }
    }
}

/// The children of a segment to be created after the edits anchored at them.
#[verifier::ext_equal]
pub struct SpecSpliced {
    pub row: Seq<SpecTree>,
    pub applied: usize,
    pub may_break: bool,
    pub ops: Ops,
}

impl SpecSpliced {
    /// Splices the edits into a row of segments to be created.
    pub open spec fn of(kids: Seq<SpecTree>, ops: Ops) -> SpecSpliced
        decreases kids.len(),
    {
        if kids.len() == 0 {
            SpecSpliced { row: Seq::empty(), applied: 0, may_break: false, ops }
        } else {
            let s = SpecSpliced::of(kids.drop_last(), ops);
            let c = kids.last();
            if s.ops.contains_key(c.uuid) {
                let list = OpView::paired(s.ops[c.uuid]);
                SpecSpliced {
                    row: s.row + OpView::spec_rows(list, c, list.len()),
                    applied: crate::marker::clamped_sum(s.applied as int, list.len() as int),
                    may_break: s.may_break || OpView::any_may_break(list, c.declared_types()),
                    ops: s.ops.remove(c.uuid),
                }
            } else {
                SpecSpliced { row: s.row.push(c), ..s }
            }
        }
    }
}

/// Either nothing was spliced in, or edits were used up.
pub proof fn spec_splice_uses_up(kids: Seq<SpecTree>, ops: Ops)
    requires
        ops.dom().finite(),
    ensures
        SpecSpliced::of(kids, ops).ops.dom().finite(),
        SpecSpliced::of(kids, ops).ops.dom().len() < ops.dom().len() || (SpecSpliced::of(
            kids,
            ops,
        ).ops == ops && SpecSpliced::of(kids, ops).row == kids),
        SpecSpliced::of(kids, ops).ops.dom().len() <= ops.dom().len(),
    decreases kids.len(),
{
    if kids.len() > 0 {
        spec_splice_uses_up(kids.drop_last(), ops);
        assert(kids.drop_last().push(kids.last()) =~= kids);
    } else {
        assert(SpecSpliced::of(kids, ops).row =~= kids);
    }
}

/// The plan for a segment to be created: the segment as edited, the non-code
/// that moves out of it at either end, and the edits left over.
#[verifier::ext_equal]
pub struct SpecPlan {
    pub spec: SpecTree,
    pub pre: Seq<SpecTree>,
    pub post: Seq<SpecTree>,
    pub applied: usize,
    pub may_break: bool,
    pub ops: Ops,
}

/// The plan for a row of segments to be created.
#[verifier::ext_equal]
pub struct SpecRowPlan {
    pub row: Seq<SpecTree>,
    pub applied: usize,
    pub may_break: bool,
    pub ops: Ops,
}

impl SpecPlan {
    /// Applies the edits anchored inside a segment to be created.
    pub open spec fn of(spec: SpecTree, ops: Ops) -> SpecPlan
        decreases ops.dom().len(), spec, 1int,
    {
        if spec.children.len() == 0 || ops.dom().len() == 0 || !ops.dom().finite() {
            SpecPlan {
                spec,
                pre: Seq::empty(),
                post: Seq::empty(),
                applied: 0,
                may_break: false,
                ops,
            }
        } else {
            proof {
                spec_splice_uses_up(spec.children, ops);
            }
            let s = SpecSpliced::of(spec.children, ops);
            let r = SpecRowPlan::of(s.row, s.ops);
            let parts = Parted::of(r.row, spec_end_flags(r.row));
            SpecPlan {
                spec: SpecTree { children: parts.mid, ..spec },
                pre: parts.pre,
                post: parts.post,
                applied: crate::marker::clamped_sum(s.applied as int, r.applied as int),
                may_break: s.may_break || r.may_break,
                ops: r.ops,
            }
        }
    }
}

impl SpecRowPlan {
    /// Applies the edits anchored inside a row of segments to be created.
    pub open spec fn of(row: Seq<SpecTree>, ops: Ops) -> SpecRowPlan
        decreases ops.dom().len(), row, 0int,
    {
        if row.len() == 0 {
            SpecRowPlan { row, applied: 0, may_break: false, ops }
        } else {
            let r = SpecRowPlan::of(row.drop_last(), ops);
            if r.ops.dom().finite() && r.ops.dom().len() <= ops.dom().len() {
                let s = SpecPlan::of(row.last(), r.ops);
                SpecRowPlan {
                    row: r.row + s.pre + seq![s.spec] + s.post,
                    applied: crate::marker::clamped_sum(r.applied as int, s.applied as int),
                    may_break: r.may_break || s.may_break,
                    ops: s.ops,
                }
            } else {
                r
            }
        }
    }
}

/// Edits are only ever used up.
pub proof fn spec_plan_uses_up(spec: SpecTree, ops: Ops)
    requires
        ops.dom().finite(),
    ensures
        SpecPlan::of(spec, ops).ops.dom().finite(),
        SpecPlan::of(spec, ops).ops.dom().len() <= ops.dom().len(),
    decreases ops.dom().len(), spec, 1int,
{
    if spec.children.len() != 0 && ops.dom().len() != 0 {
        spec_splice_uses_up(spec.children, ops);
        let s = SpecSpliced::of(spec.children, ops);
        spec_row_plan_uses_up(s.row, s.ops);
    }
}

/// Edits are only ever used up.
pub proof fn spec_row_plan_uses_up(row: Seq<SpecTree>, ops: Ops)
    requires
        ops.dom().finite(),
    ensures
        SpecRowPlan::of(row, ops).ops.dom().finite(),
        SpecRowPlan::of(row, ops).ops.dom().len() <= ops.dom().len(),
    decreases ops.dom().len(), row, 0int,
{
    if row.len() > 0 {
        spec_row_plan_uses_up(row.drop_last(), ops);
        let r = SpecRowPlan::of(row.drop_last(), ops);
        spec_plan_uses_up(row.last(), r.ops);
    }
}

/// The plan below a node.
#[verifier::ext_equal]
pub struct SubPlanView {
    /// Whether anything changes at the node or below.
    pub changed: bool,
    /// Non-code that moves up in front of the node.
    pub pre: Seq<PlannedView>,
    /// Non-code that moves up behind the node.
    pub post: Seq<PlannedView>,
    /// The new child lists.
    pub children_of: Map<u128, Seq<PlannedView>>,
    /// The roots of the removed subtrees.
    pub tombstones: Seq<NodeId>,
    /// The number of edits used up.
    pub applied: usize,
    /// The number of containers whose plan was dropped.
    pub reverted: usize,
    /// The edits left over.
    pub ops: Ops,
}

/// The plan below the entries of a row.
#[verifier::ext_equal]
pub struct RowPlanView {
    pub row: Seq<PlannedView>,
    pub changed: bool,
    pub children_of: Map<u128, Seq<PlannedView>>,
    pub tombstones: Seq<NodeId>,
    pub applied: usize,
    pub reverted: usize,
    pub may_break: bool,
    pub ops: Ops,
}

impl SubPlanView {
    /// Nothing changes.
    pub open spec fn unchanged(ops: Ops) -> SubPlanView {
        SubPlanView {
            changed: false,
            pre: Seq::empty(),
            post: Seq::empty(),
            children_of: Map::empty(),
            tombstones: Seq::empty(),
            applied: 0,
            reverted: 0,
            ops,
        }
    }

    /// The plan of a container from its spliced children and the plan below
    /// them.
    pub open spec fn finish(
        nodes: Seq<NodeRecord>,
        id: NodeId,
        s: Spliced,
        r: RowPlanView,
        fix_even_unparsable: bool,
    ) -> SubPlanView {
        let tree = NodeRecord::tree_of(nodes, id.0 as int);
        let kids = nodes[id.0 as int].children;
        let parts = if tree.kind.allows_non_code_ends() {
            Parted::whole(r.row)
        } else {
            Parted::of(r.row, PlannedView::end_flags(r.row, nodes))
        };
        let tombstones = s.tombstones + r.tombstones;
        let applied = crate::marker::clamped_sum(s.applied as int, r.applied as int);
        let changed_here = s.hit || r.changed || parts.pre.len() > 0 || parts.post.len() > 0
            || parts.mid != PlannedView::kept_row(kids);
        if !changed_here {
            SubPlanView {
                changed: false,
                pre: Seq::empty(),
                post: Seq::empty(),
                children_of: r.children_of,
                tombstones,
                applied,
                reverted: r.reverted,
                ops: r.ops,
            }
        } else if (s.may_break || r.may_break) && !fix_even_unparsable && (tree.kind.is_type(
            "unparsable"@,
        ) || tree.types_below().contains("unparsable"@)) {
            SubPlanView {
                changed: false,
                pre: Seq::empty(),
                post: Seq::empty(),
                children_of: Map::empty(),
                tombstones: Seq::empty(),
                applied,
                reverted: crate::marker::clamped_sum(r.reverted as int, 1),
                ops: r.ops,
            }
        } else {
            SubPlanView {
                changed: true,
                pre: parts.pre,
                post: parts.post,
                children_of: r.children_of.insert(id.key(), parts.mid),
                tombstones,
                applied,
                reverted: r.reverted,
                ops: r.ops,
            }
        }
    }

    /// The plan below a node: only containers on the way to an anchor can change.
    pub open spec fn of(
        nodes: Seq<NodeRecord>,
        id: NodeId,
        ops: Ops,
        dirty: Set<u128>,
        fix_even_unparsable: bool,
    ) -> SubPlanView
        decreases nodes.len() - id.0, 1int, 0nat,
    {
        if id.0 >= nodes.len() || nodes[id.0 as int].children.len() == 0 || !dirty.contains(
            id.key(),
        ) {
            SubPlanView::unchanged(ops)
        } else {
            let s = Spliced::of(nodes, nodes[id.0 as int].children, ops);
            let r = RowPlanView::of(nodes, id, s.row, s.ops, dirty, fix_even_unparsable);
            SubPlanView::finish(nodes, id, s, r, fix_even_unparsable)
        }
    }
}

impl RowPlanView {
    /// Nothing planned yet.
    pub open spec fn none(ops: Ops) -> RowPlanView {
        RowPlanView {
            row: Seq::empty(),
            changed: false,
            children_of: Map::empty(),
            tombstones: Seq::empty(),
            applied: 0,
            reverted: 0,
            may_break: false,
            ops,
        }
    }

    /// One more entry: a kept node with the plan below it.
    pub open spec fn with_kept(self, c: NodeId, s: SubPlanView) -> RowPlanView {
        RowPlanView {
            row: self.row + s.pre + seq![PlannedView::Existing(c)] + s.post,
            changed: self.changed || s.changed,
            children_of: self.children_of.union_prefer_right(s.children_of),
            tombstones: self.tombstones + s.tombstones,
            applied: crate::marker::clamped_sum(self.applied as int, s.applied as int),
            reverted: crate::marker::clamped_sum(self.reverted as int, s.reverted as int),
            may_break: self.may_break,
            ops: s.ops,
        }
    }

    /// One more entry: a segment to be created with the plan inside it.
    pub open spec fn with_new(self, marker: Option<PositionMarker>, s: SpecPlan) -> RowPlanView {
        RowPlanView {
            row: self.row + PlannedView::fresh_row(s.pre) + seq![PlannedView::New(s.spec, marker)]
                + PlannedView::fresh_row(s.post),
            applied: crate::marker::clamped_sum(self.applied as int, s.applied as int),
            may_break: self.may_break || s.may_break,
            ops: s.ops,
            ..self
        }
    }

    /// The plan below the entries of a row behind `lo`.
    pub open spec fn of(
        nodes: Seq<NodeRecord>,
        lo: NodeId,
        row: Seq<PlannedView>,
        ops: Ops,
        dirty: Set<u128>,
        fix_even_unparsable: bool,
    ) -> RowPlanView
        decreases nodes.len() - lo.0, 0int, row.len(),
    {
        if row.len() == 0 {
            RowPlanView::none(ops)
        } else {
            let r = RowPlanView::of(nodes, lo, row.drop_last(), ops, dirty, fix_even_unparsable);
            match row.last() {
                PlannedView::Existing(c) => if lo.0 < c.0 < nodes.len() {
                    r.with_kept(
                        c,
                        SubPlanView::of(nodes, c, r.ops, dirty, fix_even_unparsable),
                    )
                } else {
                    r
                },
                PlannedView::New(spec, marker) => r.with_new(marker, SpecPlan::of(spec, r.ops)),
            }
        }
    }
}

/// Every planned child list lies behind its container, in the part of the arena
/// that starts at `lo`.
pub open spec fn lists_behind(
    children_of: Map<u128, Seq<PlannedView>>,
    lo: int,
    nodes: Seq<NodeRecord>,
) -> bool {
    forall|k: u128| #[trigger]
        children_of.contains_key(k) ==> lo <= k < nodes.len() && PlannedView::row_behind(
            children_of[k],
            k as int,
            nodes,
        )
}

/// Removed nodes lie behind `lo`.
pub open spec fn stones_behind(stones: Seq<NodeId>, lo: int, nodes: Seq<NodeRecord>) -> bool {
    forall|i: int| 0 <= i < stones.len() ==> lo < (#[trigger] stones[i]).0 < nodes.len()
}

proof fn rows_behind(list: Seq<OpView>, anchor: NodeId, tree: Tree, n: nat, lo: int, nodes: Seq<NodeRecord>)
    requires
        lo < anchor.0 < nodes.len(),
    ensures
        PlannedView::row_behind(OpView::rows(list, anchor, tree, n), lo, nodes),
        stones_behind(OpView::removed(list, anchor), lo, nodes),
    decreases list.len(),
{
    if list.len() > 0 {
        rows_behind(list.drop_last(), anchor, tree, n, lo, nodes);
    }
}

/// Spliced children lie behind the container.
pub proof fn splice_behind(nodes: Seq<NodeRecord>, kids: Seq<NodeId>, ops: Ops, lo: int)
    requires
        forall|i: int| 0 <= i < kids.len() ==> lo < (#[trigger] kids[i]).0 < nodes.len(),
    ensures
        PlannedView::row_behind(Spliced::of(nodes, kids, ops).row, lo, nodes),
        stones_behind(Spliced::of(nodes, kids, ops).tombstones, lo, nodes),
    decreases kids.len(),
{
    if kids.len() > 0 {
        splice_behind(nodes, kids.drop_last(), ops, lo);
        let s = Spliced::of(nodes, kids.drop_last(), ops);
        let c = kids.last();
        let u = nodes[c.0 as int].uuid;
        if s.ops.contains_key(u) {
            let list = OpView::paired(s.ops[u]);
            rows_behind(
                list,
                c,
                NodeRecord::tree_of(nodes, c.0 as int),
                list.len(),
                lo,
                nodes,
            );
        }
    }
}

/// What is planned below a node lies behind it.
pub proof fn plan_behind(
    nodes: Seq<NodeRecord>,
    id: NodeId,
    ops: Ops,
    dirty: Set<u128>,
    fix_even_unparsable: bool,
)
    requires
        NodeRecord::kids_behind(nodes),
        id.0 < nodes.len(),
    ensures
        ({
            let p = SubPlanView::of(nodes, id, ops, dirty, fix_even_unparsable);
            &&& PlannedView::row_behind(p.pre, id.0 as int, nodes)
            &&& PlannedView::row_behind(p.post, id.0 as int, nodes)
            &&& lists_behind(p.children_of, id.0 as int, nodes)
            &&& stones_behind(p.tombstones, id.0 as int, nodes)
        }),
    decreases nodes.len() - id.0, 1int, 0nat,
{
    let kids = nodes[id.0 as int].children;
    if kids.len() > 0 && dirty.contains(id.key()) {
        let lo = id.0 as int;
        splice_behind(nodes, kids, ops, lo);
        let s = Spliced::of(nodes, kids, ops);
        row_plan_behind(nodes, id, s.row, s.ops, dirty, fix_even_unparsable);
        let r = RowPlanView::of(nodes, id, s.row, s.ops, dirty, fix_even_unparsable);
        let flags = PlannedView::end_flags(r.row, nodes);
        lead_in_range(flags);
        reach_in_range(flags.skip(lead(flags) as int));
    }
}

/// What is planned below the entries of a row lies behind its container.
pub proof fn row_plan_behind(
    nodes: Seq<NodeRecord>,
    lo: NodeId,
    row: Seq<PlannedView>,
    ops: Ops,
    dirty: Set<u128>,
    fix_even_unparsable: bool,
)
    requires
        NodeRecord::kids_behind(nodes),
        lo.0 < nodes.len(),
        PlannedView::row_behind(row, lo.0 as int, nodes),
    ensures
        ({
            let r = RowPlanView::of(nodes, lo, row, ops, dirty, fix_even_unparsable);
            &&& PlannedView::row_behind(r.row, lo.0 as int, nodes)
            &&& lists_behind(r.children_of, lo.0 + 1, nodes)
            &&& stones_behind(r.tombstones, lo.0 as int, nodes)
        }),
    decreases nodes.len() - lo.0, 0int, row.len(),
{
    if row.len() > 0 {
        assert(PlannedView::row_behind(row.drop_last(), lo.0 as int, nodes)) by {
            assert forall|i: int| 0 <= i < row.len() - 1 implies match
            #[trigger] row.drop_last()[i] {
                PlannedView::Existing(c) => lo.0 < c.0 < nodes.len(),
                PlannedView::New(..) => true,
            } by {
                assert(row.drop_last()[i] == row[i]);
            }
        }
        row_plan_behind(nodes, lo, row.drop_last(), ops, dirty, fix_even_unparsable);
        let r = RowPlanView::of(nodes, lo, row.drop_last(), ops, dirty, fix_even_unparsable);
        match row.last() {
            PlannedView::Existing(c) => {
                assert(lo.0 < c.0 < nodes.len()) by {
                    let last = row[row.len() - 1];
                }
                plan_behind(nodes, c, r.ops, dirty, fix_even_unparsable);
            },
            PlannedView::New(spec, marker) => {},
        }
    }
}

/// The lead is part of the row.
pub proof fn lead_in_range(flags: Seq<bool>)
    ensures
        lead(flags) <= flags.len(),
    decreases flags.len(),
{
    if flags.len() > 0 && !flags[0] {
        lead_in_range(flags.drop_first());
    }
}

/// The reach is part of the row.
pub proof fn reach_in_range(flags: Seq<bool>)
    ensures
        reach(flags) <= flags.len(),
    decreases flags.len(),
{
    if flags.len() > 0 && !flags.last() {
        reach_in_range(flags.drop_last());
    }
}

} // verus!
