//! The position pass: markers for new nodes, working positions for all.

use vstd::prelude::*;

use crate::arena::state::NodeId;
use crate::arena::Arena;
use crate::marker::PositionMarker;
use crate::tables::IdSet;
use crate::text::same_text;

#[allow(unused_imports)]
use crate::arena::state::{ArenaState, NodeRecord};
#[allow(unused_imports)]
use crate::marker::advance;

verus! {

impl NodeRecord {
    /// The first leaf below a node.
    pub open spec fn first_leaf(nodes: Seq<NodeRecord>, id: int) -> int
        decreases nodes.len() - id,
    {
        if 0 <= id < nodes.len() && nodes[id].children.len() > 0 && id < nodes[id].children[0].0
            < nodes.len() {
            NodeRecord::first_leaf(nodes, nodes[id].children[0].0 as int)
        } else {
            id
        }
    }

    /// Whether the node is a templated placeholder that rendered to nothing.
    /// It may stand before a sibling with an earlier templated position, so it
    /// says nothing of where a gap ends.
    pub open spec fn rendered_empty(nodes: Seq<NodeRecord>, id: int, m: PositionMarker) -> bool {
        &&& nodes[id].kind.is_type("placeholder"@)
        &&& NodeRecord::tree_of(nodes, id).raw().len() == 0
        &&& m.templated_slice.start == m.templated_slice.stop
        &&& m.source_slice.start != m.source_slice.stop
        &&& nodes[id].kind.block_type() == Some("templated"@)
    }

    /// Where a gap ends: at the start of the first sibling from `from` on that
    /// has a position, taken from its first leaf where that has one.
    pub open spec fn gap_end(nodes: Seq<NodeRecord>, kids: Seq<NodeId>, from: int) -> Option<
        PositionMarker,
    >
        decreases kids.len() - from,
    {
        if from < 0 || from >= kids.len() {
            None
        } else {
            let c = kids[from].0 as int;
            match nodes[c].marker {
                Some(m) => if NodeRecord::rendered_empty(nodes, c, m) {
                    NodeRecord::gap_end(nodes, kids, from + 1)
                } else {
                    match nodes[NodeRecord::first_leaf(nodes, c)].marker {
                        Some(leaf) => Some(leaf.start_point()),
                        None => Some(m.start_point()),
                    }
                },
                None => NodeRecord::gap_end(nodes, kids, from + 1),
            }
        }
    }

    /// Where a gap starts: at the end of the sibling before, or at the start of
    /// the container.
    pub open spec fn gap_start(
        nodes: Seq<NodeRecord>,
        pos: PositionMarker,
        kids: Seq<NodeId>,
        idx: int,
    ) -> Option<PositionMarker> {
        if idx > 0 {
            match nodes[kids[idx - 1].0 as int].marker {
                Some(m) => Some(m.end_point()),
                None => None,
            }
        } else {
            Some(pos.start_point())
        }
    }

    /// The position of a child: its own, else the gap that it fills, else the
    /// point at either end of the gap.
    pub open spec fn place(
        nodes: Seq<NodeRecord>,
        pos: PositionMarker,
        kids: Seq<NodeId>,
        idx: int,
    ) -> Option<PositionMarker> {
        let own = nodes[kids[idx].0 as int].marker;
        if own is Some {
            own
        } else {
            match (
                NodeRecord::gap_start(nodes, pos, kids, idx),
                NodeRecord::gap_end(nodes, kids, idx + 1),
            ) {
                (Some(s), Some(e)) => if s.same_place(e) {
                    Some(s)
                } else {
                    Some(PositionMarker::joined(s, e))
                },
                (Some(s), None) => Some(s),
                (None, e) => e,
            }
        }
    }

    /// The nodes after the children of `parent` from `idx` on were placed, the
    /// working position being at `line_no`, `line_pos`. The pass goes down into
    /// a child whose working position changed and into those of `dirty`.
    pub open spec fn placed_row(
        nodes: Seq<NodeRecord>,
        limit: int,
        parent: int,
        pos: PositionMarker,
        kids: Seq<NodeId>,
        idx: int,
        line_no: usize,
        line_pos: usize,
        dirty: Set<u128>,
    ) -> Seq<NodeRecord>
        decreases limit - parent, kids.len() - idx,
    {
        if idx < 0 || idx >= kids.len() || !(parent < kids[idx].0 < limit) {
            nodes
        } else {
            let c = kids[idx].0 as int;
            match NodeRecord::place(nodes, pos, kids, idx) {
                None => NodeRecord::placed_row(
                    nodes,
                    limit,
                    parent,
                    pos,
                    kids,
                    idx + 1,
                    line_no,
                    line_pos,
                    dirty,
                ),
                Some(m) => {
                    let here = m.at_working(line_no, line_pos);
                    let next = advance(line_no, line_pos, NodeRecord::tree_of(nodes, c).raw());
                    let set = nodes.update(c, NodeRecord { marker: Some(here), ..nodes[c] });
                    let moved = match nodes[c].marker {
                        Some(old) => !old.same_place(here),
                        None => true,
                    };
                    let below = if nodes[c].children.len() > 0 && (moved || dirty.contains(
                        kids[idx].key(),
                    )) {
                        NodeRecord::placed_row(
                            set,
                            limit,
                            c,
                            here,
                            nodes[c].children,
                            0,
                            line_no,
                            line_pos,
                            dirty,
                        )
                    } else {
                        set
                    };
                    NodeRecord::placed_row(
                        below,
                        limit,
                        parent,
                        pos,
                        kids,
                        idx + 1,
                        next.0,
                        next.1,
                        dirty,
                    )
                },
            }
        }
    }

    /// The nodes after the position pass below a node at `pos`.
    pub open spec fn placed_below(
        nodes: Seq<NodeRecord>,
        parent: int,
        pos: PositionMarker,
        dirty: Set<u128>,
    ) -> Seq<NodeRecord> {
        NodeRecord::placed_row(
            nodes,
            nodes.len() as int,
            parent,
            pos,
            nodes[parent].children,
            0,
            pos.working_line_no,
            pos.working_line_pos,
            dirty,
        )
    }

    /// The two differ in markers only.
    pub open spec fn same_but_markers(a: Seq<NodeRecord>, b: Seq<NodeRecord>) -> bool {
        &&& a.len() == b.len()
        &&& forall|i: int|
            0 <= i < a.len() ==> #[trigger] b[i] == (NodeRecord { marker: b[i].marker, ..a[i] })
    }
}

/// The tree below a node stays the same but for positions.
pub proof fn same_but_markers_tree(a: Seq<NodeRecord>, b: Seq<NodeRecord>, id: int)
    requires
        NodeRecord::same_but_markers(a, b),
        NodeRecord::kids_behind(a),
        0 <= id < a.len(),
    ensures
        NodeRecord::tree_of(b, id).unplaced() == NodeRecord::tree_of(a, id).unplaced(),
        NodeRecord::tree_of(b, id).raw() == NodeRecord::tree_of(a, id).raw(),
        NodeRecord::tree_of(b, id).source_fixes() == NodeRecord::tree_of(a, id).source_fixes(),
    decreases a.len() - id,
{
    let ta = NodeRecord::tree_of(a, id);
    let tb = NodeRecord::tree_of(b, id);
    assert(b[id].children == a[id].children);
    assert forall|i: int| 0 <= i < a[id].children.len() implies ta.unplaced().children[i]
        == tb.unplaced().children[i] by {
        let c = a[id].children[i].0 as int;
        assert(id < c < a.len());
        same_but_markers_tree(a, b, c);
    }
    assert(ta.unplaced().children =~= tb.unplaced().children);
    crate::tree::raw_ignores_positions(ta);
    crate::tree::raw_ignores_positions(tb);
    crate::tree::fixes_ignore_positions(ta);
    crate::tree::fixes_ignore_positions(tb);
}

impl Arena {
    /// Whether two markers are at the same working position.
    fn marker_eq(a: &PositionMarker, b: &PositionMarker) -> (r: bool)
        ensures
            r == a.same_place(*b),
    {
        a.working_line_no == b.working_line_no && a.working_line_pos == b.working_line_pos
    }

    /// Whether the node is a templated placeholder that rendered to nothing.
    fn is_zero_templated_placeholder(&self, id: NodeId, pm: &PositionMarker) -> (r: bool)
        requires
            self.wf(),
            self@.has(id),
        ensures
            r == NodeRecord::rendered_empty(self@.nodes, id.0 as int, *pm),
    {
        if !self.is_type(id, "placeholder") {
            return false;
        }
        let raw = self.raw(id);
        if !raw.as_str().is_empty() || !pm.templated_slice.is_empty()
            || pm.source_slice.is_empty() {
            return false;
        }
        match self.block_type(id) {
            Some(t) => same_text(t.as_str(), "templated"),
            None => false,
        }
    }

    /// The first leaf below a node.
    fn first_leaf(&self, id: NodeId) -> (r: NodeId)
        requires
            self.wf(),
            self@.has(id),
        ensures
            self@.has(r),
            r.0 == NodeRecord::first_leaf(self@.nodes, id.0 as int),
        decreases self@.nodes.len() - id.0,
    {
        proof {
            self@.lemma_at(id);
        }
        let kids = self.children(id);
        if kids.len() == 0 {
            id
        } else {
            assert(self@.node(id).children[0] == kids@[0]);
            self.first_leaf(kids[0])
        }
    }

    /// Where a gap ends.
    fn gap_end(&self, kids: &Vec<NodeId>, from: usize) -> (r: Option<PositionMarker>)
        requires
            self.wf(),
            forall|i: int| 0 <= i < kids@.len() ==> self@.has(#[trigger] kids@[i]),
            from <= kids@.len(),
        ensures
            r == NodeRecord::gap_end(self@.nodes, kids@, from as int),
    {
        let mut i: usize = from;
        while i < kids.len()
            invariant
                self.wf(),
                forall|j: int| 0 <= j < kids@.len() ==> self@.has(#[trigger] kids@[j]),
                i <= kids@.len(),
                NodeRecord::gap_end(self@.nodes, kids@, from as int) == NodeRecord::gap_end(
                    self@.nodes,
                    kids@,
                    i as int,
                ),
            decreases kids@.len() - i,
        {
            let ahead = kids[i];
            assert(self@.has(ahead));
            if let Some(m) = self.pos_marker(ahead) {
                if !self.is_zero_templated_placeholder(ahead, &m) {
                    let leaf = self.first_leaf(ahead);
                    return match self.pos_marker(leaf) {
                        Some(lm) => Some(lm.start_point_marker()),
                        None => Some(m.start_point_marker()),
                    };
                }
            }
            i += 1;
        }
        None
    }

    /// The position of a child.
    fn place(&self, pos: &PositionMarker, kids: &Vec<NodeId>, idx: usize) -> (r: Option<
        PositionMarker,
    >)
        requires
            self.wf(),
            forall|i: int| 0 <= i < kids@.len() ==> self@.has(#[trigger] kids@[i]),
            idx < kids.len(),
        ensures
            r == NodeRecord::place(self@.nodes, *pos, kids@, idx as int),
    {
        assert(self@.has(kids@[idx as int]));
        let own = self.pos_marker(kids[idx]);
        if own.is_some() {
            return own;
        }
        let start = if idx > 0 {
            assert(self@.has(kids@[idx - 1]));
            match self.pos_marker(kids[idx - 1]) {
                Some(m) => Some(m.end_point_marker()),
                None => None,
            }
        } else {
            Some(pos.start_point_marker())
        };
        let end = self.gap_end(kids, idx + 1);
        match (start, end) {
            (Some(s), Some(e)) => if Arena::marker_eq(&s, &e) {
                Some(s)
            } else {
                Some(PositionMarker::from_points(&s, &e))
            },
            (Some(s), None) => Some(s),
            (None, e) => e,
        }
    }

    /// Places the nodes below `parent`: position-less ones get a marker, and all
    /// get the working position that follows from the text before them.
    pub(crate) fn position_children(
        &mut self,
        parent: NodeId,
        parent_pos: &PositionMarker,
        dirty: &IdSet,
    )
        requires
            old(self).wf(),
            old(self)@.has(parent),
        ensures
            final(self).wf(),
            NodeRecord::same_but_markers(old(self)@.nodes, final(self)@.nodes),
            final(self)@ == (ArenaState {
                nodes: NodeRecord::placed_below(
                    old(self)@.nodes,
                    parent.0 as int,
                    *parent_pos,
                    dirty@,
                ),
                ..old(self)@
            }),
        decreases old(self)@.nodes.len() - parent.0,
    {
        let ghost start = self@;
        let ghost limit = self@.nodes.len() as int;
        let ghost row = self@.node(parent).children;
        let mut kids: Vec<NodeId> = Vec::new();
        let own = self.children(parent);
        for i in 0..own.len()
            invariant
                own@ == row,
                kids@ == row.take(i as int),
        {
            kids.push(own[i]);
            assert(kids@ =~= row.take(i + 1));
        }
        assert(kids@ =~= row);
        proof {
            self@.lemma_at(parent);
        }
        let mut line_no: usize = parent_pos.working_line_no;
        let mut line_pos: usize = parent_pos.working_line_pos;
        let mut idx: usize = 0;
        while idx < kids.len()
            invariant
                self.wf(),
                start.wf(),
                start.has(parent),
                row == start.node(parent).children,
                kids@ == row,
                limit == start.nodes.len(),
                idx <= kids@.len(),
                start == old(self)@,
                NodeRecord::same_but_markers(start.nodes, self@.nodes),
                self@ == (ArenaState { nodes: self@.nodes, ..start }),
                NodeRecord::placed_below(start.nodes, parent.0 as int, *parent_pos, dirty@)
                    == NodeRecord::placed_row(
                    self@.nodes,
                    limit,
                    parent.0 as int,
                    *parent_pos,
                    row,
                    idx as int,
                    line_no,
                    line_pos,
                    dirty@,
                ),
            decreases kids@.len() - idx,
        {
            let child = kids[idx];
            proof {
                start.lemma_at(parent);
                assert(start.node(parent).children[idx as int] == child);
                assert forall|i: int| 0 <= i < kids@.len() implies self@.has(
                    #[trigger] kids@[i],
                ) by {
                    assert(start.node(parent).children[i] == kids@[i]);
                }
                assert(self@.has(child));
            }
            let old_marker = self.pos_marker(child);
            let newp = self.place(parent_pos, &kids, idx);
            if let Some(m) = newp {
                let here = m.with_working_position(line_no, line_pos);
                let raw = self.raw(child);
                let (next_line, next_pos) = here.infer_next_position(
                    raw.as_str(),
                    line_no,
                    line_pos,
                );
                let moved = match &old_marker {
                    Some(o) => !Arena::marker_eq(o, &here),
                    None => true,
                };
                let ghost before = self@;
                self.set_marker(child, Some(here.clone()));
                proof {
                    let b = before.nodes;
                    let n = self@.nodes;
                    assert(NodeRecord::same_but_markers(start.nodes, n));
                    self.lemma_still_wf(start);
                }
                if self.children(child).len() > 0 && (moved || dirty.contains(
                    child.table_key(),
                )) {
                    assert(self@.node(child).children == before.node(child).children);
                    self.position_children(child, &here, dirty);
                }
                line_no = next_line;
                line_pos = next_pos;
            }
            idx += 1;
        }
    }

    /// Markers do not matter for whether the arena is in order.
    proof fn lemma_still_wf(&self, before: ArenaState)
        requires
            self.tables_ok(),
            self@.ids_ok(),
            before.wf(),
            NodeRecord::same_but_markers(before.nodes, self@.nodes),
            self@ == (ArenaState { nodes: self@.nodes, ..before }),
        ensures
            self.wf(),
    {
        let a = before.nodes;
        let b = self@.nodes;
        assert forall|p: int, i: int|
            0 <= p < b.len() && 0 <= i < b[p].children.len() implies p < (
        #[trigger] b[p].children[i]).0 < b.len() by {
            assert(b[p].children == a[p].children);
            let c = a[p].children[i];
        }
        assert forall|c: int| 0 <= c < b.len() && (#[trigger] b[c]).parent is Some implies (
        b[c].parent->0).0 < c by {
            assert(a[c].parent == b[c].parent);
        }
        assert(self@.staged is Some ==> (self@.staged->0).fits(b));
    }
}

/// Whether a node is a placeholder of a template expression that rendered to nothing.
pub open spec fn left_no_text(nodes: Seq<NodeRecord>, id: NodeId) -> bool {
    let kind = nodes[id.0 as int].kind;
    &&& nodes[id.0 as int].marker matches Some(m) && m.templated_slice.start
        == m.templated_slice.stop && m.source_slice.start != m.source_slice.stop
    &&& kind matches crate::kind::Kind::Meta {
        meta: crate::kind::MetaView::Template { block_type, .. },
        ..
    } && block_type == "templated"@
    &&& kind.is_type("placeholder"@)
    &&& NodeRecord::tree_of(nodes, id.0 as int).raw().len() == 0
}

/// Whether a node says where a gap before it ends.
pub open spec fn ends_gap(nodes: Seq<NodeRecord>, id: NodeId) -> bool {
    nodes[id.0 as int].marker is Some && !left_no_text(nodes, id)
}

/// The position of a node as its first leaf has it, or its own where that has none.
pub open spec fn leading_marker(nodes: Seq<NodeRecord>, id: NodeId) -> Option<PositionMarker> {
    let leaf = nodes[NodeRecord::leaves(nodes, id.0 as int)[0].0 as int].marker;
    if leaf is Some {
        leaf
    } else {
        nodes[id.0 as int].marker
    }
}

/// The first leaf of a node is the first of its leaves.
proof fn first_leaf_leads(nodes: Seq<NodeRecord>, id: int)
    requires
        NodeRecord::kids_behind(nodes),
        0 <= id < nodes.len() <= u32::MAX,
    ensures
        NodeRecord::leaves(nodes, id).len() > 0,
        NodeRecord::leaves(nodes, id)[0].0 == NodeRecord::first_leaf(nodes, id),
    decreases nodes.len() - id,
{
    let kids = nodes[id].children;
    if kids.len() > 0 {
        assert(kids.take(kids.len() as int) =~= kids);
        first_of_row(nodes, id, kids.len() as int);
    }
}

proof fn first_of_row(nodes: Seq<NodeRecord>, id: int, n: int)
    requires
        NodeRecord::kids_behind(nodes),
        0 <= id < nodes.len() <= u32::MAX,
        0 < n <= nodes[id].children.len(),
    ensures
        NodeRecord::row_leaves(nodes, id, nodes[id].children.take(n)).len() > 0,
        NodeRecord::row_leaves(nodes, id, nodes[id].children.take(n))[0].0
            == NodeRecord::first_leaf(nodes, nodes[id].children[0].0 as int),
    decreases nodes.len() - id, n,
{
    let kids = nodes[id].children;
    let c = nodes[id].children[n - 1].0 as int;
    assert(id < nodes[id].children[n - 1].0 < nodes.len());
    assert(kids.take(n).drop_last() =~= kids.take(n - 1));
    assert(kids.take(n).last().0 == c);
    if n == 1 {
        first_leaf_leads(nodes, c);
        assert(NodeRecord::row_leaves(nodes, id, kids.take(0)) =~= Seq::empty());
    } else {
        first_of_row(nodes, id, n - 1);
    }
}

/// A new child fills the gap in which it stands: its source starts where that of the
/// sibling before it stops, or where that of the container starts, and stops where that
/// of the next sibling with a position starts, unless both are at one working position.
/// A placeholder that rendered to nothing does not end the gap.
pub proof fn new_child_fills_the_gap(
    nodes: Seq<NodeRecord>,
    pos: PositionMarker,
    kids: Seq<NodeId>,
    idx: int,
    j: int,
)
    requires
        NodeRecord::kids_behind(nodes),
        nodes.len() <= u32::MAX,
        0 <= idx < j < kids.len(),
        forall|k: int| 0 <= k < kids.len() ==> (#[trigger] kids[k]).0 < nodes.len(),
        nodes[kids[idx].0 as int].marker is None,
        idx > 0 ==> nodes[kids[idx - 1].0 as int].marker is Some,
        ends_gap(nodes, kids[j]),
        forall|k: int| idx < k < j ==> !ends_gap(nodes, #[trigger] kids[k]),
    ensures
        ({
            let got = NodeRecord::place(nodes, pos, kids, idx);
            let next = leading_marker(nodes, kids[j])->0;
            let (source, templated) = if idx > 0 {
                let m = nodes[kids[idx - 1].0 as int].marker->0;
                (m.source_slice.stop, m.templated_slice.stop)
            } else {
                (pos.source_slice.start, pos.templated_slice.start)
            };
            let place = if idx > 0 {
                let m = nodes[kids[idx - 1].0 as int].marker->0;
                m.templated_file.line_pos(m.templated_slice.stop)
            } else {
                (pos.working_line_no, pos.working_line_pos)
            };
            let closed = place == (next.working_line_no, next.working_line_pos);
            &&& got is Some
            &&& got->0.source_slice.start == source
            &&& got->0.templated_slice.start == templated
            &&& got->0.source_slice.stop == (if closed {
                source
            } else {
                next.source_slice.start
            })
            &&& got->0.templated_slice.stop == (if closed {
                templated
            } else {
                next.templated_slice.start
            })
        }),
{
    gap_ends_at(nodes, kids, idx + 1, j);
}

proof fn gap_ends_at(nodes: Seq<NodeRecord>, kids: Seq<NodeId>, from: int, j: int)
    requires
        NodeRecord::kids_behind(nodes),
        nodes.len() <= u32::MAX,
        0 <= from <= j < kids.len(),
        forall|k: int| 0 <= k < kids.len() ==> (#[trigger] kids[k]).0 < nodes.len(),
        ends_gap(nodes, kids[j]),
        forall|k: int| from <= k < j ==> !ends_gap(nodes, #[trigger] kids[k]),
    ensures
        NodeRecord::gap_end(nodes, kids, from) == Some(
            (leading_marker(nodes, kids[j])->0).start_point(),
        ),
    decreases j - from,
{
    let c = kids[from];
    first_leaf_leads(nodes, c.0 as int);
    assert(nodes[c.0 as int].marker is Some ==> (NodeRecord::rendered_empty(
        nodes,
        c.0 as int,
        nodes[c.0 as int].marker->0,
    ) <==> left_no_text(nodes, c)));
    if from < j {
        assert(!ends_gap(nodes, kids[from]));
        gap_ends_at(nodes, kids, from + 1, j);
    }
}

/// A new child with no position behind it is a point: at the end of the sibling before
/// it, or at the start of the container.
pub proof fn last_new_child_is_a_point(
    nodes: Seq<NodeRecord>,
    pos: PositionMarker,
    kids: Seq<NodeId>,
    idx: int,
)
    requires
        0 <= idx < kids.len(),
        nodes[kids[idx].0 as int].marker is None,
        idx > 0 ==> nodes[kids[idx - 1].0 as int].marker is Some,
        forall|k: int| idx < k < kids.len() ==> !ends_gap(nodes, #[trigger] kids[k]),
    ensures
        ({
            let got = NodeRecord::place(nodes, pos, kids, idx);
            let (source, templated) = if idx > 0 {
                let m = nodes[kids[idx - 1].0 as int].marker->0;
                (m.source_slice.stop, m.templated_slice.stop)
            } else {
                (pos.source_slice.start, pos.templated_slice.start)
            };
            &&& got is Some
            &&& got->0.source_slice == (crate::marker::Slice { start: source, stop: source })
            &&& got->0.templated_slice == (crate::marker::Slice {
                start: templated,
                stop: templated,
            })
        }),
{
    no_gap_end(nodes, kids, idx + 1);
}

proof fn no_gap_end(nodes: Seq<NodeRecord>, kids: Seq<NodeId>, from: int)
    requires
        0 <= from <= kids.len(),
        forall|k: int| from <= k < kids.len() ==> !ends_gap(nodes, #[trigger] kids[k]),
    ensures
        NodeRecord::gap_end(nodes, kids, from) is None,
    decreases kids.len() - from,
{
    if from < kids.len() {
        let c = kids[from];
        assert(!ends_gap(nodes, kids[from]));
        no_gap_end(nodes, kids, from + 1);
    }
}

/// A child keeps the position that it has.
pub proof fn own_position_stays(
    nodes: Seq<NodeRecord>,
    pos: PositionMarker,
    kids: Seq<NodeId>,
    idx: int,
)
    requires
        0 <= idx < kids.len(),
        nodes[kids[idx].0 as int].marker is Some,
    ensures
        NodeRecord::place(nodes, pos, kids, idx) == nodes[kids[idx].0 as int].marker,
{
}

} // verus!
