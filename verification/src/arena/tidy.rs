//! Working positions that fit the text, and that commits keep so.

use std::sync::Arc;

use vstd::prelude::*;

use crate::arena::state::NodeId;
use crate::marker::{PositionMarker, TemplatedFile};

#[allow(unused_imports)]
use crate::arena::coherence::{committed, linked, splices};
#[allow(unused_imports)]
use crate::arena::plan::Ops;
#[allow(unused_imports)]
use crate::arena::state::{ArenaState, NodeRecord, PlannedView, StagedView};
#[allow(unused_imports)]
use crate::edit::OpView;
#[allow(unused_imports)]
use crate::marker::advance;
#[allow(unused_imports)]
use crate::tree::Tree;

verus! {

impl Tree {
    /// Whether the tree stands at a working position.
    pub open spec fn stands_at(self, place: (usize, usize)) -> bool {
        match self.marker {
            Some(m) => m.working_line_no == place.0 && m.working_line_pos == place.1,
            None => false,
        }
    }

    /// Whether every child, here and below, stands where the text before it in
    /// its container ends.
    pub open spec fn tidy(self) -> bool
        decreases self,
    {
        match self.marker {
            Some(m) => forall|j: int|
                0 <= j < self.children.len() ==> (#[trigger] self.children[j]).tidy()
                    && self.children[j].stands_at(
                    advance(
                        m.working_line_no,
                        m.working_line_pos,
                        Tree::raws(self.children.take(j)),
                    ),
                ),
            None => false,
        }
    }

    /// Whether containers with a position are tidy inside; those without one
    /// have only such containers in them.
    pub open spec fn settled(self) -> bool
        decreases self,
    {
        ||| self.children.len() == 0
        ||| self.marker is Some && self.tidy()
        ||| self.marker is None && forall|j: int|
            0 <= j < self.children.len() ==> (#[trigger] self.children[j]).settled()
    }
}

impl NodeRecord {
    /// Whether the position pass leaves the node tidy: what it does not go down
    /// into is tidy already.
    pub(crate) open(crate) spec fn ready(nodes: Seq<NodeRecord>, id: int, dirty: Set<u128>) -> bool
        decreases nodes.len() - id,
    {
        &&& 0 <= id < nodes.len()
        &&& {
            ||| nodes[id].children.len() == 0
            ||| nodes[id].marker is Some && NodeRecord::tree_of(nodes, id).tidy()
            ||| (nodes[id].marker is None || dirty.contains(id as u128)) && forall|i: int|
                0 <= i < nodes[id].children.len() ==> id < (#[trigger] nodes[id].children[i]).0
                    < nodes.len() && NodeRecord::ready(nodes, nodes[id].children[i].0 as int, dirty)
        }
    }

    /// The text of the children from `from` up to `to`.
    pub(crate) open(crate) spec fn row_text(
        nodes: Seq<NodeRecord>,
        kids: Seq<NodeId>,
        from: int,
        to: int,
    ) -> Seq<char>
        decreases to - from,
    {
        if from >= to {
            Seq::empty()
        } else {
            NodeRecord::row_text(nodes, kids, from, to - 1) + NodeRecord::tree_of(
                nodes,
                kids[to - 1].0 as int,
            ).raw()
        }
    }
}

/// The children of a node that is ready are ready.
proof fn ready_child(nodes: Seq<NodeRecord>, id: int, i: int, dirty: Set<u128>)
    requires
        linked(nodes),
        NodeRecord::ready(nodes, id, dirty),
        0 <= i < nodes[id].children.len(),
    ensures
        NodeRecord::ready(nodes, nodes[id].children[i].0 as int, dirty),
{
    let c = nodes[id].children[i].0 as int;
    let t = NodeRecord::tree_of(nodes, id);
    if nodes[id].marker is Some && t.tidy() {
        assert(t.children[i] == NodeRecord::tree_of(nodes, c));
        assert(t.children[i].tidy());
    }
}

/// Links do not depend on markers.
proof fn linked_same(a: Seq<NodeRecord>, b: Seq<NodeRecord>)
    requires
        linked(a),
        NodeRecord::same_but_markers(a, b),
    ensures
        linked(b),
{
    assert forall|p: int, i: int| 0 <= p < b.len() && 0 <= i < b[p].children.len() implies {
        let c = (#[trigger] b[p].children[i]).0 as int;
        p < c < b.len() && b[c].parent == Some(NodeId(p as u32)) && b[c].parent_idx == i
    } by {
        assert(b[p].children == a[p].children);
        let c = a[p].children[i].0 as int;
        assert(b[c].parent == a[c].parent);
    }
}

/// What is below a node does not depend on markers.
proof fn below_same(a: Seq<NodeRecord>, b: Seq<NodeRecord>, id: int)
    requires
        NodeRecord::same_but_markers(a, b),
    ensures
        NodeRecord::below(a, id) == NodeRecord::below(b, id),
    decreases a.len() - id, 1int, 0nat,
{
    if 0 <= id < a.len() {
        assert(b[id].children == a[id].children);
        row_below_same(a, b, id, a[id].children);
    }
}

proof fn row_below_same(a: Seq<NodeRecord>, b: Seq<NodeRecord>, lo: int, row: Seq<NodeId>)
    requires
        NodeRecord::same_but_markers(a, b),
        lo < a.len(),
    ensures
        NodeRecord::row_below(a, lo, row) == NodeRecord::row_below(b, lo, row),
    decreases a.len() - lo, 0int, row.len(),
{
    if row.len() > 0 {
        row_below_same(a, b, lo, row.drop_last());
        let c = row.last().0 as int;
        if lo < c < a.len() {
            below_same(a, b, c);
        }
    }
}

/// The tree below a node depends on the nodes below it only.
proof fn tree_same(a: Seq<NodeRecord>, b: Seq<NodeRecord>, id: int)
    requires
        linked(a),
        0 <= id < a.len() <= b.len(),
        forall|k: int| #[trigger]
            NodeRecord::below(a, id).contains(k) ==> NodeRecord::same_payload(a[k], b[k]),
    ensures
        NodeRecord::tree_of(a, id) == NodeRecord::tree_of(b, id),
    decreases a.len() - id,
{
    let x = NodeRecord::tree_of(a, id);
    let y = NodeRecord::tree_of(b, id);
    assert(NodeRecord::below(a, id).contains(id));
    assert forall|i: int| 0 <= i < a[id].children.len() implies x.children[i] == y.children[i] by {
        let c = a[id].children[i].0 as int;
        assert forall|k: int| #[trigger] NodeRecord::below(a, c).contains(k) implies
            NodeRecord::same_payload(a[k], b[k]) by {
            crate::arena::coherence::below_of_child(a, id, i, k);
        }
        tree_same(a, b, c);
    }
    assert(x.children =~= y.children);
}

/// Whether a node is ready depends on the nodes below it only.
proof fn ready_same(a: Seq<NodeRecord>, b: Seq<NodeRecord>, id: int, dirty: Set<u128>)
    requires
        linked(a),
        NodeRecord::same_but_markers(a, b),
        NodeRecord::ready(a, id, dirty),
        forall|k: int| #[trigger] NodeRecord::below(a, id).contains(k) ==> b[k] == a[k],
    ensures
        NodeRecord::ready(b, id, dirty),
    decreases a.len() - id,
{
    assert(NodeRecord::below(a, id).contains(id));
    assert forall|k: int| #[trigger] NodeRecord::below(a, id).contains(k) implies
        NodeRecord::same_payload(a[k], b[k]) by {
        assert(b[k] == a[k]);
    }
    tree_same(a, b, id);
    if a[id].children.len() > 0 && !(a[id].marker is Some && NodeRecord::tree_of(a, id).tidy()) {
        assert forall|i: int| 0 <= i < b[id].children.len() implies id < (
        #[trigger] b[id].children[i]).0 < b.len() && NodeRecord::ready(
            b,
            b[id].children[i].0 as int,
            dirty,
        ) by {
            let c = a[id].children[i].0 as int;
            assert forall|k: int| #[trigger] NodeRecord::below(a, c).contains(k) implies b[k]
                == a[k] by {
                crate::arena::coherence::below_of_child(a, id, i, k);
            }
            ready_same(a, b, c, dirty);
        }
    }
}

/// The text of a row does not depend on markers.
proof fn row_text_same(
    a: Seq<NodeRecord>,
    b: Seq<NodeRecord>,
    kids: Seq<NodeId>,
    from: int,
    to: int,
)
    requires
        linked(a),
        NodeRecord::same_but_markers(a, b),
        0 <= from,
        to <= kids.len(),
        forall|i: int| 0 <= i < kids.len() ==> (#[trigger] kids[i]).0 < a.len(),
    ensures
        NodeRecord::row_text(a, kids, from, to) == NodeRecord::row_text(b, kids, from, to),
    decreases to - from,
{
    if from < to {
        row_text_same(a, b, kids, from, to - 1);
        assert(NodeRecord::kids_behind(a));
        crate::arena::position::same_but_markers_tree(a, b, kids[to - 1].0 as int);
    }
}

/// The text of a row is that of its first child and of the rest.
proof fn row_text_front(nodes: Seq<NodeRecord>, kids: Seq<NodeId>, from: int, to: int)
    requires
        from < to,
    ensures
        NodeRecord::row_text(nodes, kids, from, to) == NodeRecord::tree_of(
            nodes,
            kids[from].0 as int,
        ).raw() + NodeRecord::row_text(nodes, kids, from + 1, to),
    decreases to - from,
{
    let first = NodeRecord::tree_of(nodes, kids[from].0 as int).raw();
    if to == from + 1 {
        assert(NodeRecord::row_text(nodes, kids, from, from) =~= Seq::empty());
        assert(NodeRecord::row_text(nodes, kids, from + 1, to) =~= Seq::empty());
        assert(Seq::<char>::empty() + first =~= first + Seq::<char>::empty());
    } else {
        row_text_front(nodes, kids, from, to - 1);
        let mid = NodeRecord::row_text(nodes, kids, from + 1, to - 1);
        let last = NodeRecord::tree_of(nodes, kids[to - 1].0 as int).raw();
        assert((first + mid) + last =~= first + (mid + last));
    }
}

/// The text of the first children is that of the subtrees.
proof fn row_text_is_raws(nodes: Seq<NodeRecord>, id: int, j: int)
    requires
        linked(nodes),
        0 <= id < nodes.len(),
        0 <= j <= nodes[id].children.len(),
    ensures
        NodeRecord::row_text(nodes, nodes[id].children, 0, j) == Tree::raws(
            NodeRecord::tree_of(nodes, id).children.take(j),
        ),
    decreases j,
{
    let kids = NodeRecord::tree_of(nodes, id).children;
    if j > 0 {
        row_text_is_raws(nodes, id, j - 1);
        assert(kids.take(j).drop_last() =~= kids.take(j - 1));
        let c = nodes[id].children[j - 1];
        assert(kids.take(j).last() == kids[j - 1]);
        assert(kids[j - 1] == NodeRecord::tree_of(nodes, c.0 as int));
    } else {
        assert(kids.take(0) =~= Seq::empty());
    }
}

/// Whether a node is below none of the children from `from` on.
spec fn apart(nodes: Seq<NodeRecord>, kids: Seq<NodeId>, from: int, k: int) -> bool {
    forall|j: int|
        from <= j < kids.len() ==> !NodeRecord::below(
            nodes,
            (#[trigger] kids[j]).0 as int,
        ).contains(k)
}

/// Whether the children from `from` on are tidy and stand one behind the other,
/// the first of them at the given position.
spec fn in_line(
    a: Seq<NodeRecord>,
    b: Seq<NodeRecord>,
    kids: Seq<NodeId>,
    from: int,
    line_no: usize,
    line_pos: usize,
) -> bool {
    forall|j: int|
        from <= j < kids.len() ==> {
            let t = NodeRecord::tree_of(b, (#[trigger] kids[j]).0 as int);
            t.tidy() && t.stands_at(
                advance(line_no, line_pos, NodeRecord::row_text(a, kids, from, j)),
            )
        }
}

/// A container whose children stand in line from its own position is tidy.
proof fn line_is_tidy(a: Seq<NodeRecord>, b: Seq<NodeRecord>, id: int, m: PositionMarker)
    requires
        linked(a),
        NodeRecord::same_but_markers(a, b),
        0 <= id < a.len(),
        b[id].marker == Some(m),
        in_line(a, b, a[id].children, 0, m.working_line_no, m.working_line_pos),
    ensures
        NodeRecord::tree_of(b, id).tidy(),
{
    let t = NodeRecord::tree_of(b, id);
    let kids = a[id].children;
    linked_same(a, b);
    assert(b[id].children == kids);
    assert forall|j: int| 0 <= j < t.children.len() implies (#[trigger] t.children[j]).tidy()
        && t.children[j].stands_at(
        advance(m.working_line_no, m.working_line_pos, Tree::raws(t.children.take(j))),
    ) by {
        let c = kids[j];
        assert(t.children[j] == NodeRecord::tree_of(b, c.0 as int));
        assert forall|i: int| 0 <= i < kids.len() implies (#[trigger] kids[i]).0 < a.len() by {
            let q = a[id].children[i];
        }
        row_text_same(a, b, kids, 0, j);
        row_text_is_raws(b, id, j);
    }
}

/// The position pass over a child leaves it tidy, at the given position, and
/// changes markers below it only.
proof fn placed_child(
    nodes: Seq<NodeRecord>,
    parent: int,
    pos: PositionMarker,
    idx: int,
    line_no: usize,
    line_pos: usize,
    dirty: Set<u128>,
) -> (below: Seq<NodeRecord>)
    requires
        linked(nodes),
        0 <= parent < nodes.len(),
        0 <= idx < nodes[parent].children.len(),
        NodeRecord::ready(nodes, nodes[parent].children[idx].0 as int, dirty),
        idx > 0 ==> nodes[nodes[parent].children[idx - 1].0 as int].marker is Some,
    ensures
        ({
            let kids = nodes[parent].children;
            let c = kids[idx].0 as int;
            let next = advance(line_no, line_pos, NodeRecord::tree_of(nodes, c).raw());
            &&& NodeRecord::placed_row(
                nodes,
                nodes.len() as int,
                parent,
                pos,
                kids,
                idx,
                line_no,
                line_pos,
                dirty,
            ) == NodeRecord::placed_row(
                below,
                nodes.len() as int,
                parent,
                pos,
                kids,
                idx + 1,
                next.0,
                next.1,
                dirty,
            )
            &&& NodeRecord::same_but_markers(nodes, below)
            &&& NodeRecord::tree_of(below, c).tidy()
            &&& NodeRecord::tree_of(below, c).stands_at((line_no, line_pos))
            &&& forall|k: int|
                0 <= k < nodes.len() && !NodeRecord::below(nodes, c).contains(k)
                    ==> #[trigger] below[k] == nodes[k]
        }),
    decreases nodes.len() - parent, nodes[parent].children.len() - idx, 0int,
{
    let kids = nodes[parent].children;
    let c = kids[idx].0 as int;
    let limit = nodes.len() as int;
    let m = NodeRecord::place(nodes, pos, kids, idx)->0;
    assert(NodeRecord::place(nodes, pos, kids, idx) is Some);
    let here = m.at_working(line_no, line_pos);
    let set = nodes.update(c, NodeRecord { marker: Some(here), ..nodes[c] });
    let moved = match nodes[c].marker {
        Some(old) => !old.same_place(here),
        None => true,
    };
    assert(NodeRecord::same_but_markers(nodes, set));
    linked_same(nodes, set);
    assert(NodeRecord::below(nodes, c).contains(c));
    if nodes[c].children.len() > 0 && (moved || dirty.contains(kids[idx].key())) {
        let down = NodeRecord::placed_row(
            set,
            limit,
            c,
            here,
            nodes[c].children,
            0,
            line_no,
            line_pos,
            dirty,
        );
        assert forall|i: int| 0 <= i < set[c].children.len() implies NodeRecord::ready(
            set,
            (#[trigger] set[c].children[i]).0 as int,
            dirty,
        ) by {
            let k = nodes[c].children[i].0 as int;
            ready_child(nodes, c, i, dirty);
            assert forall|q: int| #[trigger] NodeRecord::below(nodes, k).contains(q) implies set[q]
                == nodes[q] by {
                crate::arena::coherence::below_facts(nodes, k, q);
            }
            ready_same(nodes, set, k, dirty);
        }
        placed_line(set, c, here, 0, line_no, line_pos, dirty);
        assert(apart(set, set[c].children, 0, c)) by {
            assert forall|j: int| 0 <= j < set[c].children.len() implies !NodeRecord::below(
                set,
                (#[trigger] set[c].children[j]).0 as int,
            ).contains(c) by {
                let k = set[c].children[j].0 as int;
                if NodeRecord::below(set, k).contains(c) {
                    crate::arena::coherence::below_facts(set, k, c);
                }
            }
        }
        assert(down[c] == set[c]);
        line_is_tidy(set, down, c, here);
        assert forall|k: int| 0 <= k < nodes.len() && !NodeRecord::below(nodes, c).contains(k)
            implies #[trigger] down[k] == nodes[k] by {
            assert(apart(set, set[c].children, 0, k)) by {
                assert forall|j: int| 0 <= j < set[c].children.len() implies !NodeRecord::below(
                    set,
                    (#[trigger] set[c].children[j]).0 as int,
                ).contains(k) by {
                    let q = nodes[c].children[j].0 as int;
                    below_same(nodes, set, q);
                    if NodeRecord::below(nodes, q).contains(k) {
                        crate::arena::coherence::below_of_child(nodes, c, j, k);
                    }
                }
            }
        }
        down
    } else {
        let t = NodeRecord::tree_of(nodes, c);
        let u = NodeRecord::tree_of(set, c);
        assert forall|i: int| 0 <= i < nodes[c].children.len() implies u.children[i]
            == t.children[i] by {
            let k = nodes[c].children[i].0 as int;
            assert forall|q: int| #[trigger] NodeRecord::below(nodes, k).contains(q) implies
                NodeRecord::same_payload(nodes[q], set[q]) by {
                crate::arena::coherence::below_facts(nodes, k, q);
            }
            tree_same(nodes, set, k);
        }
        assert(u.children =~= t.children);
        set
    }
}

/// The position pass over the children from `idx` on leaves them in line, and
/// changes markers below them only.
proof fn placed_line(
    nodes: Seq<NodeRecord>,
    parent: int,
    pos: PositionMarker,
    idx: int,
    line_no: usize,
    line_pos: usize,
    dirty: Set<u128>,
)
    requires
        linked(nodes),
        0 <= parent < nodes.len(),
        0 <= idx <= nodes[parent].children.len(),
        forall|j: int|
            idx <= j < nodes[parent].children.len() ==> NodeRecord::ready(
                nodes,
                (#[trigger] nodes[parent].children[j]).0 as int,
                dirty,
            ),
        idx > 0 ==> nodes[nodes[parent].children[idx - 1].0 as int].marker is Some,
    ensures
        ({
            let kids = nodes[parent].children;
            let b = NodeRecord::placed_row(
                nodes,
                nodes.len() as int,
                parent,
                pos,
                kids,
                idx,
                line_no,
                line_pos,
                dirty,
            );
            &&& NodeRecord::same_but_markers(nodes, b)
            &&& forall|k: int|
                0 <= k < nodes.len() && apart(nodes, kids, idx, k) ==> #[trigger] b[k] == nodes[k]
            &&& in_line(nodes, b, kids, idx, line_no, line_pos)
        }),
    decreases nodes.len() - parent, nodes[parent].children.len() - idx, 1int,
{
    let kids = nodes[parent].children;
    let limit = nodes.len() as int;
    if idx < kids.len() {
        let c = kids[idx].0 as int;
        let next = advance(line_no, line_pos, NodeRecord::tree_of(nodes, c).raw());
        let below = placed_child(nodes, parent, pos, idx, line_no, line_pos, dirty);
        linked_same(nodes, below);
        assert(below[parent].children == kids);
        assert forall|j: int| idx + 1 <= j < kids.len() implies NodeRecord::ready(
            below,
            (#[trigger] below[parent].children[j]).0 as int,
            dirty,
        ) by {
            let d = kids[j].0 as int;
            assert(nodes[parent].children[j].0 == d);
            assert(nodes[parent].children[idx].0 == c);
            assert forall|q: int| #[trigger] NodeRecord::below(nodes, d).contains(q) implies
                below[q] == nodes[q] by {
                crate::arena::coherence::below_facts(nodes, d, q);
                if NodeRecord::below(nodes, c).contains(q) {
                    crate::arena::coherence::siblings_apart(nodes, c, d, q);
                }
            }
            ready_same(nodes, below, d, dirty);
        }
        placed_line(below, parent, pos, idx + 1, next.0, next.1, dirty);
        let b = NodeRecord::placed_row(
            below,
            limit,
            parent,
            pos,
            kids,
            idx + 1,
            next.0,
            next.1,
            dirty,
        );
        assert forall|i: int| 0 <= i < nodes.len() implies #[trigger] b[i] == (NodeRecord {
            marker: b[i].marker,
            ..nodes[i]
        }) by {
            assert(below[i] == (NodeRecord { marker: below[i].marker, ..nodes[i] }));
        }
        assert forall|k: int| 0 <= k < nodes.len() && apart(nodes, kids, idx, k) implies
            #[trigger] b[k] == nodes[k] by {
            assert(!NodeRecord::below(nodes, kids[idx].0 as int).contains(k));
            assert(below[k] == nodes[k]);
            apart_same(nodes, below, kids, idx, k);
        }
        line_grows(nodes, below, b, parent, idx, line_no, line_pos);
    }
}

proof fn apart_same(a: Seq<NodeRecord>, b: Seq<NodeRecord>, kids: Seq<NodeId>, idx: int, k: int)
    requires
        NodeRecord::same_but_markers(a, b),
        apart(a, kids, idx, k),
    ensures
        apart(b, kids, idx + 1, k),
{
    assert forall|j: int| idx + 1 <= j < kids.len() implies !NodeRecord::below(
        b,
        (#[trigger] kids[j]).0 as int,
    ).contains(k) by {
        below_same(a, b, kids[j].0 as int);
    }
}

/// A child in front of children in line is in line with them.
proof fn line_grows(
    nodes: Seq<NodeRecord>,
    below: Seq<NodeRecord>,
    b: Seq<NodeRecord>,
    parent: int,
    idx: int,
    line_no: usize,
    line_pos: usize,
)
    requires
        linked(nodes),
        0 <= parent < nodes.len(),
        0 <= idx < nodes[parent].children.len(),
        NodeRecord::same_but_markers(nodes, below),
        NodeRecord::same_but_markers(below, b),
        NodeRecord::tree_of(below, nodes[parent].children[idx].0 as int).tidy(),
        NodeRecord::tree_of(below, nodes[parent].children[idx].0 as int).stands_at(
            (line_no, line_pos),
        ),
        forall|k: int|
            0 <= k < nodes.len() && apart(below, nodes[parent].children, idx + 1, k)
                ==> #[trigger] b[k] == below[k],
        ({
            let next = advance(
                line_no,
                line_pos,
                NodeRecord::tree_of(nodes, nodes[parent].children[idx].0 as int).raw(),
            );
            in_line(below, b, nodes[parent].children, idx + 1, next.0, next.1)
        }),
    ensures
        in_line(nodes, b, nodes[parent].children, idx, line_no, line_pos),
{
    let kids = nodes[parent].children;
    let c = kids[idx].0 as int;
    let raw = NodeRecord::tree_of(nodes, c).raw();
    let next = advance(line_no, line_pos, raw);
    linked_same(nodes, below);
    assert forall|i: int| 0 <= i < kids.len() implies (#[trigger] kids[i]).0 < nodes.len() by {
        let q = nodes[parent].children[i];
    }
    assert forall|j: int| idx <= j < kids.len() implies {
        let t = NodeRecord::tree_of(b, (#[trigger] kids[j]).0 as int);
        t.tidy() && t.stands_at(
            advance(line_no, line_pos, NodeRecord::row_text(nodes, kids, idx, j)),
        )
    } by {
        if j == idx {
            assert(nodes[parent].children[idx].0 == c);
            assert forall|q: int| #[trigger] NodeRecord::below(below, c).contains(q) implies
                NodeRecord::same_payload(below[q], b[q]) by {
                crate::arena::coherence::below_facts(below, c, q);
                assert(apart(below, kids, idx + 1, q)) by {
                    assert forall|i: int| idx + 1 <= i < kids.len() implies !NodeRecord::below(
                        below,
                        (#[trigger] kids[i]).0 as int,
                    ).contains(q) by {
                        let d = below[parent].children[i].0 as int;
                        assert(below[parent].children == kids);
                        assert(below[parent].children[idx].0 == c);
                        if NodeRecord::below(below, d).contains(q) {
                            crate::arena::coherence::siblings_apart(below, c, d, q);
                            assert(below[c].parent_idx == idx);
                            assert(below[d].parent_idx == i);
                        }
                    }
                }
                assert(b[q] == below[q]);
            }
            tree_same(below, b, c);
        } else {
            row_text_front(nodes, kids, idx, j);
            row_text_same(nodes, below, kids, idx + 1, j);
            let rest = NodeRecord::row_text(nodes, kids, idx + 1, j);
            crate::marker::advance_over_concat(line_no, line_pos, raw, rest);
            let d = kids[j];
        }
    }
}

/// A tree that stands as settled below a node makes the node ready.
proof fn settled_ready(nodes: Seq<NodeRecord>, id: int, dirty: Set<u128>)
    requires
        linked(nodes),
        0 <= id < nodes.len(),
        NodeRecord::tree_of(nodes, id).settled(),
    ensures
        NodeRecord::ready(nodes, id, dirty),
    decreases nodes.len() - id,
{
    let t = NodeRecord::tree_of(nodes, id);
    if nodes[id].children.len() > 0 && nodes[id].marker is None {
        assert forall|i: int| 0 <= i < nodes[id].children.len() implies id < (
        #[trigger] nodes[id].children[i]).0 < nodes.len() && NodeRecord::ready(
            nodes,
            nodes[id].children[i].0 as int,
            dirty,
        ) by {
            let c = nodes[id].children[i].0 as int;
            assert(t.children[i] == NodeRecord::tree_of(nodes, c));
            assert(t.children[i].settled());
            settled_ready(nodes, c, dirty);
        }
    }
}

/// What is below a tidy node is tidy.
proof fn tidy_below(nodes: Seq<NodeRecord>, id: int, k: int)
    requires
        linked(nodes),
        NodeRecord::below(nodes, id).contains(k),
        NodeRecord::tree_of(nodes, id).tidy(),
    ensures
        0 <= k < nodes.len(),
        NodeRecord::tree_of(nodes, k).tidy(),
    decreases nodes.len() - id,
{
    crate::arena::coherence::below_facts(nodes, id, k);
    if k != id {
        crate::arena::coherence::below_child(nodes, id, k);
        let kids = nodes[id].children;
        let b = choose|b: int|
            0 <= b < kids.len() && id < kids[b].0 < nodes.len() && #[trigger] NodeRecord::below(
                nodes,
                kids[b].0 as int,
            ).contains(k);
        let t = NodeRecord::tree_of(nodes, id);
        assert(t.children[b] == NodeRecord::tree_of(nodes, kids[b].0 as int));
        assert(t.children[b].tidy());
        tidy_below(nodes, kids[b].0 as int, k);
    }
}

/// What is above a node is above what hangs below it.
proof fn above_up(nodes: Seq<NodeRecord>, k: int, c: int, p: NodeId)
    requires
        0 <= c < nodes.len() <= u32::MAX,
        NodeRecord::above(nodes, k).contains(c as u128),
        nodes[c].parent == Some(p),
        p.0 < c,
    ensures
        NodeRecord::above(nodes, k).contains(p.key()),
    decreases k,
{
    let q = nodes[k].parent->0;
    if q.0 == c {
        assert(NodeRecord::above(nodes, c).contains(p.key()));
    } else {
        above_up(nodes, q.0 as int, c, p);
    }
}

/// Whether the new segments in the lists are settled.
pub open spec fn newcomers_settled(
    lists: Map<u128, Seq<PlannedView>>,
    file: Option<Arc<TemplatedFile>>,
) -> bool {
    forall|k: u128, j: int|
        lists.contains_key(k) && 0 <= j < lists[k].len() ==> match #[trigger] lists[k][j] {
            PlannedView::New(spec, marker) => PlannedView::new_tree(spec, marker, file).settled(),
            PlannedView::Existing(_) => true,
        }
}

/// The spliced nodes hold a tree.
proof fn spliced_linked(s: ArenaState, ops: Ops, feu: bool, b: Seq<NodeRecord>)
    requires
        splices(s, ops, feu, b),
    ensures
        linked(b),
{
    assert forall|p: int, i: int| 0 <= p < b.len() && 0 <= i < b[p].children.len() implies {
        let c = (#[trigger] b[p].children[i]).0 as int;
        p < c < b.len() && b[c].parent == Some(NodeId(p as u32)) && b[c].parent_idx == i
    } by {
        crate::arena::coherence::child_knows(s, ops, feu, b, p, i);
    }
}

/// A subtree without new child lists is as it was.
proof fn untouched_tree(s: ArenaState, ops: Ops, feu: bool, b: Seq<NodeRecord>, k: int)
    requires
        splices(s, ops, feu, b),
        linked(s.nodes),
        linked(b),
        0 <= k < s.nodes.len(),
        !ArenaState::touched(b, s.plan_lists(ops, feu)).contains(k as u128),
    ensures
        NodeRecord::tree_of(b, k) == NodeRecord::tree_of(s.nodes, k),
    decreases s.nodes.len() - k,
{
    let a = s.nodes;
    let lists = s.plan_lists(ops, feu);
    let stones = s.plan(ops, feu).tombstones;
    let buried = s.buried(stones).nodes;
    assert(!lists.contains_key(k as u128));
    assert(buried[k].same_self(b[k]));
    assert(b[k].children == buried[k].children);
    let x = NodeRecord::tree_of(a, k);
    let y = NodeRecord::tree_of(b, k);
    assert forall|i: int| 0 <= i < a[k].children.len() implies x.children[i] == y.children[i] by {
        let c = a[k].children[i].0 as int;
        assert(b[k].children[i].0 == c);
        assert(b[c].parent == Some(NodeId(k as u32)));
        if ArenaState::touched(b, lists).contains(c as u128) {
            let d = choose|d: u128| #[trigger]
                lists.contains_key(d) && (c as u128 == d || NodeRecord::above(
                    b,
                    d as int,
                ).contains(c as u128));
            if c as u128 == d {
                assert(NodeRecord::above(b, d as int).contains(NodeId(k as u32).key()));
            } else {
                above_up(b, d as int, c, NodeId(k as u32));
            }
            assert(NodeId(k as u32).key() == k as u128);
        }
        untouched_tree(s, ops, feu, b, c);
    }
    assert(x.children =~= y.children);
}

/// After the splice the nodes of a tidy tree are ready for the position pass.
proof fn spliced_ready(s: ArenaState, ops: Ops, feu: bool, b: Seq<NodeRecord>, k: int)
    requires
        splices(s, ops, feu, b),
        linked(s.nodes),
        linked(b),
        NodeRecord::tree_of(s.nodes, s.root.0 as int).tidy(),
        NodeRecord::below(s.nodes, s.root.0 as int).contains(k),
        newcomers_settled(s.plan_lists(ops, feu), s.file()),
    ensures
        0 <= k < s.nodes.len(),
        NodeRecord::ready(b, k, ArenaState::touched(b, s.plan_lists(ops, feu))),
    decreases s.nodes.len() - k,
{
    let a = s.nodes;
    let root = s.root.0 as int;
    let lists = s.plan_lists(ops, feu);
    let stones = s.plan(ops, feu).tombstones;
    let buried = s.buried(stones).nodes;
    let dirty = ArenaState::touched(b, lists);
    tidy_below(a, root, k);
    assert(buried[k].same_self(b[k]));
    if !dirty.contains(k as u128) {
        untouched_tree(s, ops, feu, b, k);
    } else {
        crate::arena::coherence::whole_plan_holds(s, ops, feu);
        assert forall|i: int| 0 <= i < b[k].children.len() implies k < (
        #[trigger] b[k].children[i]).0 < b.len() && NodeRecord::ready(
            b,
            b[k].children[i].0 as int,
            dirty,
        ) by {
            let c = b[k].children[i].0 as int;
            if lists.contains_key(k as u128) {
                let row = lists[k as u128];
                assert(NodeRecord::stands_for(row[i], a.len() as int, s.file(), b, b[k].children[i]));
                match row[i] {
                    PlannedView::Existing(e) => {
                        assert(PlannedView::row_behind(row, k, a));
                        assert(e == NodeId(c as u32));
                        assert(NodeRecord::listed(lists, k as u128, i, c));
                        crate::arena::coherence::only_place(s, ops, feu, k as u128, i, c);
                        spliced_ready(s, ops, feu, b, c);
                    },
                    PlannedView::New(spec, marker) => {
                        assert(lists[k as u128][i] == PlannedView::New(spec, marker));
                        settled_ready(b, c, dirty);
                    },
                }
            } else {
                assert(b[k].children == buried[k].children);
                assert(a[k].children[i].0 == c);
                below_step(a, root, k, i);
                spliced_ready(s, ops, feu, b, c);
            }
        }
    }
}

/// A child of a node below another is below it.
proof fn below_step(nodes: Seq<NodeRecord>, id: int, k: int, i: int)
    requires
        linked(nodes),
        NodeRecord::below(nodes, id).contains(k),
        0 <= i < nodes[k].children.len(),
    ensures
        NodeRecord::below(nodes, id).contains(nodes[k].children[i].0 as int),
    decreases nodes.len() - id,
{
    crate::arena::coherence::below_facts(nodes, id, k);
    let c = nodes[k].children[i].0 as int;
    if k == id {
        assert(NodeRecord::below(nodes, c).contains(c));
        crate::arena::coherence::below_of_child(nodes, id, i, c);
    } else {
        crate::arena::coherence::below_child(nodes, id, k);
        let kids = nodes[id].children;
        let b = choose|b: int|
            0 <= b < kids.len() && id < kids[b].0 < nodes.len() && #[trigger] NodeRecord::below(
                nodes,
                kids[b].0 as int,
            ).contains(k);
        below_step(nodes, kids[b].0 as int, k, i);
        crate::arena::coherence::below_of_child(nodes, id, b, c);
    }
}

/// Committing keeps a tidy tree tidy: every node stands where the text before it
/// ends. The new segments may have no position at all; where a new container has
/// one, the nodes in it have theirs too, and fit it.
pub proof fn commit_keeps_tidy(
    s: ArenaState,
    ops: Ops,
    fix_even_unparsable: bool,
    batch: StagedView,
    spliced: Seq<NodeRecord>,
    next: ArenaState,
)
    requires
        s.wf(),
        s.coherent(),
        OpView::all_go_together(ops),
        s.stages(ops, fix_even_unparsable, batch),
        s.commits_via(batch, spliced, next),
        next.wf(),
        s.tree().tidy(),
        newcomers_settled(batch.children_of, s.file()),
    ensures
        next.tree().tidy(),
{
    let feu = fix_even_unparsable;
    assert(committed(s, ops, feu, batch, spliced, next)) by {
        reveal(committed);
    }
    crate::arena::coherence::commit_splices(s, ops, feu, batch, spliced, next);
    tidy_after(s, ops, feu, batch, spliced, next);
}

proof fn tidy_after(
    s: ArenaState,
    ops: Ops,
    feu: bool,
    batch: StagedView,
    spliced: Seq<NodeRecord>,
    next: ArenaState,
)
    requires
        splices(s, ops, feu, spliced),
        batch.children_of == s.plan_lists(ops, feu),
        next.nodes == ArenaState::positioned(spliced, s.root, batch.children_of),
        next.root == s.root,
        s.tree().tidy(),
        newcomers_settled(batch.children_of, s.file()),
    ensures
        next.tree().tidy(),
{
    let root = s.root.0 as int;
    let lists = batch.children_of;
    let dirty = ArenaState::touched(spliced, lists);
    let b = spliced;
    spliced_linked(s, ops, feu, b);
    crate::arena::coherence::whole_plan_holds(s, ops, feu);
    let buried = s.buried(s.plan(ops, feu).tombstones).nodes;
    assert(buried[root].same_self(b[root]));
    assert(NodeRecord::below(s.nodes, root).contains(root));
    spliced_ready(s, ops, feu, b, root);
    let m = b[root].marker->0;
    assert forall|j: int| 0 <= j < b[root].children.len() implies NodeRecord::ready(
        b,
        (#[trigger] b[root].children[j]).0 as int,
        dirty,
    ) by {
        ready_child(b, root, j, dirty);
    }
    placed_line(b, root, m, 0, m.working_line_no, m.working_line_pos, dirty);
    assert(apart(b, b[root].children, 0, root)) by {
        assert forall|j: int| 0 <= j < b[root].children.len() implies !NodeRecord::below(
            b,
            (#[trigger] b[root].children[j]).0 as int,
        ).contains(root) by {
            let k = b[root].children[j].0 as int;
            if NodeRecord::below(b, k).contains(root) {
                crate::arena::coherence::below_facts(b, k, root);
            }
        }
    }
    assert(next.nodes[root] == b[root]);
    line_is_tidy(b, next.nodes, root, m);
}

/// Committing leaves the position of the root as it was.
pub proof fn commit_keeps_root_position(
    s: ArenaState,
    ops: Ops,
    fix_even_unparsable: bool,
    batch: StagedView,
    spliced: Seq<NodeRecord>,
    next: ArenaState,
)
    requires
        s.wf(),
        s.commits_via(batch, spliced, next),
        s.stages(ops, fix_even_unparsable, batch),
    ensures
        next.node(s.root).marker == s.node(s.root).marker,
{
    let root = s.root.0 as int;
    let buried = s.buried(batch.tombstones).nodes;
    assert(buried[root].same_self(spliced[root]));
    if let Some(m) = spliced[root].marker {
        placed_leaves_parent(
            spliced,
            spliced.len() as int,
            root,
            m,
            spliced[root].children,
            0,
            m.working_line_no,
            m.working_line_pos,
            ArenaState::touched(spliced, batch.children_of),
            root,
        );
    }
}

/// The position pass below a node leaves it, and what lies before it, as it was.
proof fn placed_leaves_parent(
    nodes: Seq<NodeRecord>,
    limit: int,
    parent: int,
    pos: PositionMarker,
    kids: Seq<NodeId>,
    idx: int,
    line_no: usize,
    line_pos: usize,
    dirty: Set<u128>,
    k: int,
)
    requires
        0 <= k <= parent,
        k < nodes.len(),
        limit <= nodes.len(),
    ensures
        NodeRecord::placed_row(
            nodes,
            limit,
            parent,
            pos,
            kids,
            idx,
            line_no,
            line_pos,
            dirty,
        )[k] == nodes[k],
        NodeRecord::placed_row(
            nodes,
            limit,
            parent,
            pos,
            kids,
            idx,
            line_no,
            line_pos,
            dirty,
        ).len() == nodes.len(),
    decreases limit - parent, kids.len() - idx,
{
    if 0 <= idx < kids.len() && parent < kids[idx].0 < limit {
        let c = kids[idx].0 as int;
        match NodeRecord::place(nodes, pos, kids, idx) {
            None => {
                placed_leaves_parent(
                    nodes,
                    limit,
                    parent,
                    pos,
                    kids,
                    idx + 1,
                    line_no,
                    line_pos,
                    dirty,
                    k,
                );
            },
            Some(m) => {
                let here = m.at_working(line_no, line_pos);
                let next = advance(line_no, line_pos, NodeRecord::tree_of(nodes, c).raw());
                let set = nodes.update(c, NodeRecord { marker: Some(here), ..nodes[c] });
                let moved = match nodes[c].marker {
                    Some(old) => !old.same_place(here),
                    None => true,
                };
                let below = if nodes[c].children.len() > 0 && (moved || dirty.contains(
                    kids[idx].key(),
                )) {
                    placed_leaves_parent(
                        set,
                        limit,
                        c,
                        here,
                        nodes[c].children,
                        0,
                        line_no,
                        line_pos,
                        dirty,
                        k,
                    );
                    NodeRecord::placed_row(
                        set,
                        limit,
                        c,
                        here,
                        nodes[c].children,
                        0,
                        line_no,
                        line_pos,
                        dirty,
                    )
                } else {
                    set
                };
                placed_leaves_parent(
                    below,
                    limit,
                    parent,
                    pos,
                    kids,
                    idx + 1,
                    next.0,
                    next.1,
                    dirty,
                    k,
                );
            },
        }
    }
}

} // verus!
