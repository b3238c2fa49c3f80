//! What searching the tree is for: which nodes a walk gives, and in what order.

use vstd::prelude::*;

use crate::arena::state::NodeId;

#[allow(unused_imports)]
use crate::arena::coherence::{
    below_child, below_facts, below_of_child, below_transitive, linked, siblings_apart,
};
#[allow(unused_imports)]
use crate::arena::state::{ArenaState, NodeRecord};
#[allow(unused_imports)]
use crate::arena::walk::{code_places, stack_place, StepView};
#[allow(unused_imports)]
use crate::tree::{FixView, Tree};

verus! {

proof fn linked_of(s: ArenaState)
    requires
        s.wf(),
        s.coherent(),
    ensures
        linked(s.nodes),
{
    assert forall|p: int, i: int| 0 <= p < s.nodes.len() && 0 <= i < s.nodes[p].children.len()
        implies {
        let c = (#[trigger] s.nodes[p].children[i]).0 as int;
        p < c < s.nodes.len() && s.nodes[c].parent == Some(NodeId(p as u32))
            && s.nodes[c].parent_idx == i
    } by {}
}

/// The walk over a subtree gives the nodes below its root, each of them once.
pub proof fn walk_gives_each_once(s: ArenaState, id: NodeId)
    requires
        s.wf(),
        s.coherent(),
        s.has(id),
    ensures
        NodeRecord::preorder(s.nodes, id.0 as int).no_duplicates(),
        forall|k: int|
            0 <= k < s.nodes.len() ==> (#[trigger] NodeRecord::preorder(
                s.nodes,
                id.0 as int,
            ).contains(NodeId(k as u32)) <==> NodeRecord::below(s.nodes, id.0 as int).contains(k)),
{
    linked_of(s);
    preorder_members(s.nodes, id.0 as int);
    preorder_distinct(s.nodes, id.0 as int);
}

/// Whether the list has the nodes of the set, and nothing else.
spec fn lists_set(list: Seq<NodeId>, set: Set<int>) -> bool {
    forall|c: NodeId| #[trigger] list.contains(c) <==> set.contains(c.0 as int)
}

proof fn preorder_members(nodes: Seq<NodeRecord>, id: int)
    requires
        linked(nodes),
        0 <= id < nodes.len(),
    ensures
        lists_set(NodeRecord::preorder(nodes, id), NodeRecord::below(nodes, id)),
    decreases nodes.len() - id, 1int, 0nat,
{
    let own = seq![NodeId(id as u32)];
    let rest = NodeRecord::row_preorder(nodes, id, nodes[id].children);
    row_preorder_members(nodes, id, nodes[id].children);
    let all = NodeRecord::preorder(nodes, id);
    assert forall|c: NodeId| #[trigger] all.contains(c) <==> NodeRecord::below(nodes, id).contains(
        c.0 as int,
    ) by {
        in_sum(own, rest, c);
        assert(rest.contains(c) <==> NodeRecord::row_below(nodes, id, nodes[id].children).contains(
            c.0 as int,
        ));
        if c.0 == id {
            assert(own[0] == c);
        }
    }
}

proof fn in_sum<A>(a: Seq<A>, b: Seq<A>, x: A)
    ensures
        (a + b).contains(x) <==> a.contains(x) || b.contains(x),
{
    if a.contains(x) {
        let i = choose|i: int| 0 <= i < a.len() && a[i] == x;
        assert((a + b)[i] == x);
    }
    if b.contains(x) {
        let i = choose|i: int| 0 <= i < b.len() && b[i] == x;
        assert((a + b)[a.len() + i] == x);
    }
    if (a + b).contains(x) {
        let i = choose|i: int| 0 <= i < (a + b).len() && (a + b)[i] == x;
        if i < a.len() {
            assert(a[i] == x);
        } else {
            assert(b[i - a.len()] == x);
        }
    }
}

proof fn row_preorder_members(nodes: Seq<NodeRecord>, lo: int, row: Seq<NodeId>)
    requires
        linked(nodes),
        0 <= lo < nodes.len(),
    ensures
        lists_set(
            NodeRecord::row_preorder(nodes, lo, row),
            NodeRecord::row_below(nodes, lo, row),
        ),
    decreases nodes.len() - lo, 0int, row.len(),
{
    if row.len() > 0 {
        row_preorder_members(nodes, lo, row.drop_last());
        let before = NodeRecord::row_preorder(nodes, lo, row.drop_last());
        let c = row.last().0 as int;
        if lo < c < nodes.len() {
            preorder_members(nodes, c);
            assert forall|x: NodeId| #[trigger]
                NodeRecord::row_preorder(nodes, lo, row).contains(x) <==> NodeRecord::row_below(
                    nodes,
                    lo,
                    row,
                ).contains(x.0 as int) by {
                in_sum(before, NodeRecord::preorder(nodes, c), x);
                assert(before.contains(x) <==> NodeRecord::row_below(
                    nodes,
                    lo,
                    row.drop_last(),
                ).contains(x.0 as int));
                assert(NodeRecord::preorder(nodes, c).contains(x) <==> NodeRecord::below(
                    nodes,
                    c,
                ).contains(x.0 as int));
            }
        }
    }
}

/// What lies below the first children of a node lies below none of the others.
proof fn first_kids_apart(nodes: Seq<NodeRecord>, id: int, n: int, k: int)
    requires
        linked(nodes),
        0 <= id < nodes.len(),
        0 <= n < nodes[id].children.len(),
        NodeRecord::row_below(nodes, id, nodes[id].children.take(n)).contains(k),
    ensures
        !NodeRecord::below(nodes, nodes[id].children[n].0 as int).contains(k),
        exists|m: int|
            0 <= m < n && #[trigger] NodeRecord::below(
                nodes,
                nodes[id].children[m].0 as int,
            ).contains(k),
{
    let kids = nodes[id].children;
    crate::arena::coherence::row_below_facts(nodes, id, kids.take(n), k);
    let c = choose|c: NodeId|
        kids.take(n).contains(c) && id < c.0 < nodes.len() && #[trigger] NodeRecord::below(
            nodes,
            c.0 as int,
        ).contains(k);
    let m = choose|m: int| 0 <= m < kids.take(n).len() && kids.take(n)[m] == c;
    assert(nodes[id].children[m] == c);
    let d = nodes[id].children[n];
    assert(NodeRecord::below(nodes, nodes[id].children[m].0 as int).contains(k));
    if NodeRecord::below(nodes, d.0 as int).contains(k) {
        siblings_apart(nodes, c.0 as int, d.0 as int, k);
    }
}

proof fn preorder_distinct(nodes: Seq<NodeRecord>, id: int)
    requires
        linked(nodes),
        0 <= id < nodes.len(),
    ensures
        NodeRecord::preorder(nodes, id).no_duplicates(),
    decreases nodes.len() - id, 1int, 0nat,
{
    let kids = nodes[id].children;
    let own = seq![NodeId(id as u32)];
    let rest = NodeRecord::row_preorder(nodes, id, kids);
    assert(kids.take(kids.len() as int) =~= kids);
    row_preorder_distinct(nodes, id, kids.len() as int);
    row_preorder_members(nodes, id, kids);
    let all = NodeRecord::preorder(nodes, id);
    assert forall|i: int, j: int| 0 <= i < all.len() && 0 <= j < all.len() && i != j implies all[i]
        != all[j] by {
        if i == 0 || j == 0 {
            let x = if i == 0 {
                all[j]
            } else {
                all[i]
            };
            assert(rest.contains(x)) by {
                if i == 0 {
                    assert(rest[j - 1] == x);
                } else {
                    assert(rest[i - 1] == x);
                }
            }
            crate::arena::coherence::row_below_facts(nodes, id, kids, x.0 as int);
            let c = choose|c: NodeId|
                kids.contains(c) && id < c.0 < nodes.len() && #[trigger] NodeRecord::below(
                    nodes,
                    c.0 as int,
                ).contains(x.0 as int);
            below_facts(nodes, c.0 as int, x.0 as int);
        } else {
            assert(rest[i - 1] != rest[j - 1]);
        }
    }
}

proof fn row_preorder_distinct(nodes: Seq<NodeRecord>, id: int, n: int)
    requires
        linked(nodes),
        0 <= id < nodes.len(),
        0 <= n <= nodes[id].children.len(),
    ensures
        NodeRecord::row_preorder(nodes, id, nodes[id].children.take(n)).no_duplicates(),
    decreases nodes.len() - id, 0int, n,
{
    let kids = nodes[id].children;
    if n > 0 {
        let row = kids.take(n);
        assert(row.drop_last() =~= kids.take(n - 1));
        assert(row.last() == kids[n - 1]);
        row_preorder_distinct(nodes, id, n - 1);
        let before = NodeRecord::row_preorder(nodes, id, kids.take(n - 1));
        let c = nodes[id].children[n - 1].0 as int;
        assert(id < c < nodes.len());
        preorder_distinct(nodes, c);
        row_preorder_members(nodes, id, kids.take(n - 1));
        preorder_members(nodes, c);
        let more = NodeRecord::preorder(nodes, c);
        let all = NodeRecord::row_preorder(nodes, id, row);
        assert(all == before + more);
        assert forall|i: int, j: int|
            0 <= i < all.len() && 0 <= j < all.len() && i != j implies all[i] != all[j] by {
            if i < before.len() && j >= before.len() {
                assert(before.contains(before[i]));
                assert(more.contains(more[j - before.len()]));
                first_kids_apart(nodes, id, n - 1, before[i].0 as int);
            } else if j < before.len() && i >= before.len() {
                assert(before.contains(before[j]));
                assert(more.contains(more[i - before.len()]));
                first_kids_apart(nodes, id, n - 1, before[j].0 as int);
            } else if i < before.len() {
                assert(before[i] != before[j]);
            } else {
                assert(more[i - before.len()] != more[j - before.len()]);
            }
        }
    }
}

/// The walk is in document order: a node comes before what lies below it, and what
/// lies below a child comes before what lies below the children behind it.
pub proof fn walk_is_in_order(
    s: ArenaState,
    id: NodeId,
    i: int,
    j: int,
    p: NodeId,
    a: int,
    b: int,
)
    requires
        s.wf(),
        s.coherent(),
        s.has(id),
        0 <= i < NodeRecord::preorder(s.nodes, id.0 as int).len(),
        0 <= j < NodeRecord::preorder(s.nodes, id.0 as int).len(),
        i != j,
    ensures
        ({
            let list = NodeRecord::preorder(s.nodes, id.0 as int);
            let x = list[i].0 as int;
            let y = list[j].0 as int;
            &&& NodeRecord::below(s.nodes, x).contains(y) ==> i < j
            &&& NodeRecord::below(s.nodes, id.0 as int).contains(p.0 as int) && 0 <= a < b
                < s.node(p).children.len() && NodeRecord::below(
                s.nodes,
                s.node(p).children[a].0 as int,
            ).contains(x) && NodeRecord::below(
                s.nodes,
                s.node(p).children[b].0 as int,
            ).contains(y) ==> i < j
        }),
{
    linked_of(s);
    let list = NodeRecord::preorder(s.nodes, id.0 as int);
    let x = list[i].0 as int;
    let y = list[j].0 as int;
    if NodeRecord::below(s.nodes, x).contains(y) {
        above_first(s.nodes, id.0 as int, i, j);
    }
    if NodeRecord::below(s.nodes, id.0 as int).contains(p.0 as int) && 0 <= a < b < s.node(
        p,
    ).children.len() && NodeRecord::below(s.nodes, s.node(p).children[a].0 as int).contains(x)
        && NodeRecord::below(s.nodes, s.node(p).children[b].0 as int).contains(y) {
        left_first(s.nodes, id.0 as int, i, j, p.0 as int, a, b);
    }
}

/// The part of a walk that belongs to a child: where it starts, and the child.
proof fn part_of(nodes: Seq<NodeRecord>, id: int, n: int, i: int) -> (r: (int, int))
    requires
        linked(nodes),
        0 <= id < nodes.len(),
        0 <= n <= nodes[id].children.len(),
        0 <= i < NodeRecord::row_preorder(nodes, id, nodes[id].children.take(n)).len(),
    ensures
        ({
            let (m, at) = r;
            let kid = nodes[id].children[m].0 as int;
            let row = NodeRecord::row_preorder(nodes, id, nodes[id].children.take(n));
            &&& 0 <= m < n
            &&& at == NodeRecord::row_preorder(nodes, id, nodes[id].children.take(m)).len()
            &&& at <= i < at + NodeRecord::preorder(nodes, kid).len() <= row.len()
            &&& row[i] == NodeRecord::preorder(nodes, kid)[i - at]
            &&& NodeRecord::below(nodes, kid).contains(row[i].0 as int)
        }),
    decreases n,
{
    let kids = nodes[id].children;
    if n == 0 {
        assert(kids.take(0) =~= Seq::empty());
        (0, 0)
    } else {
        let row = kids.take(n);
        assert(row.drop_last() =~= kids.take(n - 1));
        assert(row.last() == kids[n - 1]);
        let before = NodeRecord::row_preorder(nodes, id, kids.take(n - 1));
        let c = nodes[id].children[n - 1].0 as int;
        assert(id < c < nodes.len());
        let all = NodeRecord::row_preorder(nodes, id, row);
        assert(all == before + NodeRecord::preorder(nodes, c));
        if i < before.len() {
            let r = part_of(nodes, id, n - 1, i);
            assert(all[i] == before[i]);
            r
        } else {
            preorder_members(nodes, c);
            let more = NodeRecord::preorder(nodes, c);
            assert(more.contains(more[i - before.len()]));
            (n - 1, before.len() as int)
        }
    }
}

/// The parts of children come in the order of the children.
proof fn parts_in_order(nodes: Seq<NodeRecord>, id: int, m: int, n: int)
    requires
        linked(nodes),
        0 <= id < nodes.len(),
        0 <= m <= n <= nodes[id].children.len(),
    ensures
        NodeRecord::row_preorder(nodes, id, nodes[id].children.take(m)).len()
            <= NodeRecord::row_preorder(nodes, id, nodes[id].children.take(n)).len(),
        m < n ==> NodeRecord::row_preorder(nodes, id, nodes[id].children.take(m)).len()
            + NodeRecord::preorder(nodes, nodes[id].children[m].0 as int).len()
            <= NodeRecord::row_preorder(nodes, id, nodes[id].children.take(n)).len(),
    decreases n,
{
    let kids = nodes[id].children;
    if m < n {
        assert(kids.take(n).drop_last() =~= kids.take(n - 1));
        let c = nodes[id].children[n - 1].0 as int;
        assert(id < c < nodes.len());
        assert(kids.take(n).last() == kids[n - 1]);
        parts_in_order(nodes, id, m, n - 1);
    }
}

proof fn above_first(nodes: Seq<NodeRecord>, id: int, i: int, j: int)
    requires
        linked(nodes),
        0 <= id < nodes.len(),
        0 <= i < NodeRecord::preorder(nodes, id).len(),
        0 <= j < NodeRecord::preorder(nodes, id).len(),
        i != j,
        NodeRecord::below(nodes, NodeRecord::preorder(nodes, id)[i].0 as int).contains(
            NodeRecord::preorder(nodes, id)[j].0 as int,
        ),
    ensures
        i < j,
    decreases nodes.len() - id,
{
    let all = NodeRecord::preorder(nodes, id);
    let kids = nodes[id].children;
    let rest = NodeRecord::row_preorder(nodes, id, kids);
    assert(kids.take(kids.len() as int) =~= kids);
    let x = all[i].0 as int;
    let y = all[j].0 as int;
    below_facts(nodes, x, y);
    if i > 0 && j == 0 {
        preorder_members(nodes, id);
        preorder_distinct(nodes, id);
        assert(all.contains(all[i]));
        below_facts(nodes, id, x);
        assert(all[i] == all[j]);
    } else if i > 0 {
        let (m, at) = part_of(nodes, id, kids.len() as int, i - 1);
        let (n, bt) = part_of(nodes, id, kids.len() as int, j - 1);
        let a = nodes[id].children[m].0 as int;
        let b = nodes[id].children[n].0 as int;
        below_transitive(nodes, a, x, y);
        siblings_apart(nodes, a, b, y);
        assert(m == n);
        above_first(nodes, a, i - 1 - at, j - 1 - at);
    }
}

proof fn left_first(nodes: Seq<NodeRecord>, id: int, i: int, j: int, p: int, a: int, b: int)
    requires
        linked(nodes),
        0 <= id < nodes.len(),
        0 <= i < NodeRecord::preorder(nodes, id).len(),
        0 <= j < NodeRecord::preorder(nodes, id).len(),
        NodeRecord::below(nodes, id).contains(p),
        0 <= a < b < nodes[p].children.len(),
        NodeRecord::below(nodes, nodes[p].children[a].0 as int).contains(
            NodeRecord::preorder(nodes, id)[i].0 as int,
        ),
        NodeRecord::below(nodes, nodes[p].children[b].0 as int).contains(
            NodeRecord::preorder(nodes, id)[j].0 as int,
        ),
    ensures
        i < j,
    decreases nodes.len() - id,
{
    let all = NodeRecord::preorder(nodes, id);
    let kids = nodes[id].children;
    let rest = NodeRecord::row_preorder(nodes, id, kids);
    assert(kids.take(kids.len() as int) =~= kids);
    below_facts(nodes, id, p);
    let ca = nodes[p].children[a].0 as int;
    let cb = nodes[p].children[b].0 as int;
    let x = all[i].0 as int;
    let y = all[j].0 as int;
    below_facts(nodes, ca, x);
    below_facts(nodes, cb, y);
    assert(i > 0 && j > 0);
    let (m, at) = part_of(nodes, id, kids.len() as int, i - 1);
    let (n, bt) = part_of(nodes, id, kids.len() as int, j - 1);
    let ka = nodes[id].children[m].0 as int;
    let kb = nodes[id].children[n].0 as int;
    if p == id {
        siblings_apart(nodes, ka, ca, x);
        siblings_apart(nodes, kb, cb, y);
        assert(m == a) by {
            assert(nodes[ka].parent_idx == m);
            assert(nodes[ca].parent_idx == a);
        }
        assert(n == b) by {
            assert(nodes[kb].parent_idx == n);
            assert(nodes[cb].parent_idx == b);
        }
        parts_in_order(nodes, id, m, n);
    } else {
        below_child(nodes, id, p);
        let q = choose|q: int|
            0 <= q < kids.len() && id < kids[q].0 < nodes.len() && #[trigger] NodeRecord::below(
                nodes,
                kids[q].0 as int,
            ).contains(p);
        let k = nodes[id].children[q].0 as int;
        assert(NodeRecord::below(nodes, ca).contains(ca));
        below_of_child(nodes, p, a, x);
        below_of_child(nodes, p, b, y);
        below_transitive(nodes, k, p, x);
        below_transitive(nodes, k, p, y);
        siblings_apart(nodes, ka, k, x);
        siblings_apart(nodes, kb, k, y);
        assert(m == q) by {
            assert(nodes[ka].parent_idx == m);
            assert(nodes[k].parent_idx == q);
        }
        assert(n == q) by {
            assert(nodes[kb].parent_idx == n);
        }
        left_first(nodes, k, i - 1 - at, j - 1 - at, p, a, b);
    }
}

/// The leaves are the nodes of the walk without children, in its order.
pub proof fn leaves_are_childless(nodes: Seq<NodeRecord>, id: int)
    requires
        nodes.len() <= u32::MAX,
        0 <= id < nodes.len(),
        NodeRecord::kids_behind(nodes),
    ensures
        NodeRecord::leaves(nodes, id) == NodeRecord::preorder(nodes, id).filter(
            |c: NodeId| nodes[c.0 as int].children.len() == 0,
        ),
    decreases nodes.len() - id, 1int, 0nat,
{
    let pred = |c: NodeId| nodes[c.0 as int].children.len() == 0;
    reveal(Seq::filter);
    let row = nodes[id].children;
    let own = seq![NodeId(id as u32)];
    row_leaves_are_childless(nodes, id, row.len() as int);
    assert(row.take(row.len() as int) =~= row);
    Seq::filter_distributes_over_add(own, NodeRecord::row_preorder(nodes, id, row), pred);
    assert(own.drop_last() =~= Seq::empty());
    assert(own.drop_last().filter(pred) =~= Seq::empty());
    if row.len() == 0 {
        assert(NodeRecord::row_preorder(nodes, id, row).filter(pred) =~= Seq::empty());
        assert(own.filter(pred) =~= own);
        assert(own + Seq::<NodeId>::empty() =~= own);
    } else {
        assert(own.filter(pred) =~= Seq::empty());
        let rest = NodeRecord::row_preorder(nodes, id, row).filter(pred);
        assert(Seq::<NodeId>::empty() + rest =~= rest);
    }
}

proof fn row_leaves_are_childless(nodes: Seq<NodeRecord>, id: int, n: int)
    requires
        nodes.len() <= u32::MAX,
        0 <= id < nodes.len(),
        0 <= n <= nodes[id].children.len(),
        NodeRecord::kids_behind(nodes),
    ensures
        NodeRecord::row_leaves(nodes, id, nodes[id].children.take(n)) == NodeRecord::row_preorder(
            nodes,
            id,
            nodes[id].children.take(n),
        ).filter(|c: NodeId| nodes[c.0 as int].children.len() == 0),
    decreases nodes.len() - id, 0int, n,
{
    let pred = |c: NodeId| nodes[c.0 as int].children.len() == 0;
    reveal(Seq::filter);
    let kids = nodes[id].children;
    if n > 0 {
        assert(kids.take(n).drop_last() =~= kids.take(n - 1));
        assert(kids.take(n).last() == kids[n - 1]);
        row_leaves_are_childless(nodes, id, n - 1);
        let c = nodes[id].children[n - 1].0 as int;
        assert(id < nodes[id].children[n - 1].0 < nodes.len());
        leaves_are_childless(nodes, c);
        Seq::filter_distributes_over_add(
            NodeRecord::row_preorder(nodes, id, kids.take(n - 1)),
            NodeRecord::preorder(nodes, c),
            pred,
        );
    } else {
        assert(NodeRecord::row_preorder(nodes, id, kids.take(0)).filter(pred) =~= Seq::empty());
    }
}

/// Whether a node stands in the way of what lies below it: a match that is not
/// searched further, or, other than the start, a node at which the search stops.
pub open spec fn blocks(
    nodes: Seq<NodeRecord>,
    start: int,
    types: Seq<Seq<char>>,
    recurse_into: bool,
    stop: Seq<Seq<char>>,
    allow_self: bool,
    a: int,
) -> bool {
    ||| !recurse_into && nodes[a].kind.is_any_type(types) && (a == start ==> allow_self)
    ||| a != start && nodes[a].kind.is_any_type(stop)
}

/// Whether a search from a node is to find another: it is of the types, it is not
/// the start unless that is allowed, and nothing above it stands in the way.
pub open spec fn to_find(
    nodes: Seq<NodeRecord>,
    start: int,
    types: Seq<Seq<char>>,
    recurse_into: bool,
    stop: Seq<Seq<char>>,
    allow_self: bool,
    n: int,
) -> bool {
    &&& nodes[n].kind.is_any_type(types)
    &&& n == start ==> allow_self
    &&& forall|a: int|
        a != n && NodeRecord::below(nodes, start).contains(a) && #[trigger] NodeRecord::below(
            nodes,
            a,
        ).contains(n) ==> !blocks(nodes, start, types, recurse_into, stop, allow_self, a)
}

proof fn filter_agrees(list: Seq<NodeId>, p: spec_fn(NodeId) -> bool, q: spec_fn(NodeId) -> bool)
    requires
        forall|c: NodeId| #[trigger] list.contains(c) ==> p(c) == q(c),
    ensures
        list.filter(p) == list.filter(q),
    decreases list.len(),
{
    reveal(Seq::filter);
    if list.len() > 0 {
        let rest = list.drop_last();
        assert(list.contains(list.last())) by {
            assert(list[list.len() - 1] == list.last());
        }
        assert forall|c: NodeId| #[trigger] rest.contains(c) implies p(c) == q(c) by {
            let i = choose|i: int| 0 <= i < rest.len() && rest[i] == c;
            assert(list[i] == c);
            assert(list.contains(c));
        }
        filter_agrees(rest, p, q);
    }
}

proof fn filter_nothing(list: Seq<NodeId>, p: spec_fn(NodeId) -> bool)
    requires
        forall|c: NodeId| #[trigger] list.contains(c) ==> !p(c),
    ensures
        list.filter(p) == Seq::<NodeId>::empty(),
    decreases list.len(),
{
    reveal(Seq::filter);
    if list.len() > 0 {
        let rest = list.drop_last();
        assert(list.contains(list.last())) by {
            assert(list[list.len() - 1] == list.last());
        }
        assert forall|c: NodeId| #[trigger] rest.contains(c) implies !p(c) by {
            let i = choose|i: int| 0 <= i < rest.len() && rest[i] == c;
            assert(list[i] == c);
            assert(list.contains(c));
        }
        filter_nothing(rest, p);
    }
}

/// A part of a list without duplicates has none.
proof fn filter_distinct(list: Seq<NodeId>, p: spec_fn(NodeId) -> bool)
    requires
        list.no_duplicates(),
    ensures
        list.filter(p).no_duplicates(),
    decreases list.len(),
{
    reveal(Seq::filter);
    if list.len() > 0 {
        let rest = list.drop_last();
        filter_distinct(rest, p);
        if rest.filter(p).contains(list.last()) {
            let i = choose|i: int| 0 <= i < rest.filter(p).len() && rest.filter(p)[i] == list.last();
            rest.lemma_filter_contains_rev(p, list.last());
            let j = choose|j: int| 0 <= j < rest.len() && rest[j] == list.last();
            assert(list[j] == list[list.len() - 1]);
        }
        assert forall|i: int, j: int|
            0 <= i < list.filter(p).len() && 0 <= j < list.filter(p).len() && i != j implies
            list.filter(p)[i] != list.filter(p)[j] by {
            let part = rest.filter(p);
            if i < part.len() && j < part.len() {
                assert(part[i] != part[j]);
            } else if i < part.len() {
                assert(part.contains(part[i]));
            } else if j < part.len() {
                assert(part.contains(part[j]));
            }
        }
    }
}

/// A search finds, in document order, the nodes that it is to find, and no others.
pub proof fn search_finds(
    s: ArenaState,
    id: NodeId,
    types: Seq<Seq<char>>,
    recurse_into: bool,
    stop: Seq<Seq<char>>,
    allow_self: bool,
)
    requires
        s.wf(),
        s.coherent(),
        s.has(id),
    ensures
        NodeRecord::crawl(s.nodes, id.0 as int, types, recurse_into, stop, allow_self)
            == NodeRecord::preorder(s.nodes, id.0 as int).filter(
            |c: NodeId|
                to_find(
                    s.nodes,
                    id.0 as int,
                    types,
                    recurse_into,
                    stop,
                    allow_self,
                    c.0 as int,
                ),
        ),
{
    linked_of(s);
    crawl_is_filter(s.nodes, id.0 as int, types, recurse_into, stop, allow_self);
}

proof fn crawl_is_filter(
    nodes: Seq<NodeRecord>,
    id: int,
    types: Seq<Seq<char>>,
    recurse: bool,
    stop: Seq<Seq<char>>,
    allow: bool,
)
    requires
        linked(nodes),
        0 <= id < nodes.len(),
    ensures
        NodeRecord::crawl(nodes, id, types, recurse, stop, allow) == NodeRecord::preorder(
            nodes,
            id,
        ).filter(|c: NodeId| to_find(nodes, id, types, recurse, stop, allow, c.0 as int)),
    decreases nodes.len() - id, 1int, 0nat,
{
    let pred = |c: NodeId| to_find(nodes, id, types, recurse, stop, allow, c.0 as int);
    reveal(Seq::filter);
    let kids = nodes[id].children;
    let own = seq![NodeId(id as u32)];
    let rest = NodeRecord::row_preorder(nodes, id, kids);
    let hit = allow && nodes[id].kind.is_any_type(types);
    Seq::filter_distributes_over_add(own, rest, pred);
    assert(own.drop_last() =~= Seq::empty());
    assert(own.drop_last().filter(pred) =~= Seq::empty());
    assert(pred(NodeId(id as u32)) == hit) by {
        assert forall|a: int|
            a != id && NodeRecord::below(nodes, id).contains(a) && #[trigger] NodeRecord::below(
                nodes,
                a,
            ).contains(id) implies false by {
            below_facts(nodes, id, a);
            below_facts(nodes, a, id);
        }
    }
    assert(own.filter(pred) =~= if hit {
        own
    } else {
        Seq::empty()
    });
    if recurse || !hit {
        assert(kids.take(kids.len() as int) =~= kids);
        row_crawl_is_filter(nodes, id, kids.len() as int, types, recurse, stop, allow);
    } else {
        row_preorder_members(nodes, id, kids);
        assert forall|c: NodeId| #[trigger] rest.contains(c) implies !pred(c) by {
            assert(NodeRecord::row_below(nodes, id, kids).contains(c.0 as int));
            assert(NodeRecord::below(nodes, id).contains(c.0 as int));
            assert(NodeRecord::below(nodes, id).contains(id));
            crate::arena::coherence::row_below_facts(nodes, id, kids, c.0 as int);
            let d = choose|d: NodeId|
                kids.contains(d) && id < d.0 < nodes.len() && #[trigger] NodeRecord::below(
                    nodes,
                    d.0 as int,
                ).contains(c.0 as int);
            below_facts(nodes, d.0 as int, c.0 as int);
            assert(blocks(nodes, id, types, recurse, stop, allow, id));
        }
        filter_nothing(rest, pred);
        assert(own + Seq::<NodeId>::empty() =~= own);
    }
}

proof fn row_crawl_is_filter(
    nodes: Seq<NodeRecord>,
    id: int,
    n: int,
    types: Seq<Seq<char>>,
    recurse: bool,
    stop: Seq<Seq<char>>,
    allow: bool,
)
    requires
        linked(nodes),
        0 <= id < nodes.len(),
        0 <= n <= nodes[id].children.len(),
        recurse || !(allow && nodes[id].kind.is_any_type(types)),
    ensures
        NodeRecord::row_crawl(nodes, id, nodes[id].children.take(n), types, recurse, stop)
            == NodeRecord::row_preorder(nodes, id, nodes[id].children.take(n)).filter(
            |c: NodeId| to_find(nodes, id, types, recurse, stop, allow, c.0 as int),
        ),
    decreases nodes.len() - id, 0int, n,
{
    let pred = |c: NodeId| to_find(nodes, id, types, recurse, stop, allow, c.0 as int);
    let kids = nodes[id].children;
    if n > 0 {
        assert(kids.take(n).drop_last() =~= kids.take(n - 1));
        assert(kids.take(n).last() == kids[n - 1]);
        row_crawl_is_filter(nodes, id, n - 1, types, recurse, stop, allow);
        let top = nodes[id].children[n - 1];
        let c = top.0 as int;
        assert(id < c < nodes.len());
        let before = NodeRecord::row_preorder(nodes, id, kids.take(n - 1));
        let more = NodeRecord::preorder(nodes, c);
        Seq::filter_distributes_over_add(before, more, pred);
        if !nodes[c].kind.is_any_type(stop) {
            crawl_is_filter(nodes, c, types, recurse, stop, true);
            child_is_filter(nodes, id, n - 1, types, recurse, stop, allow);
        } else {
            stop_is_filter(nodes, id, n - 1, types, recurse, stop, allow);
            let found = before.filter(pred);
            assert(found.push(top) =~= found + seq![top]);
            assert(found + Seq::<NodeId>::empty() =~= found);
        }
    } else {
        filter_nothing(NodeRecord::row_preorder(nodes, id, kids.take(0)), pred);
    }
}

/// Below a child that does not stop the search, the start finds what the child does.
proof fn child_is_filter(
    nodes: Seq<NodeRecord>,
    id: int,
    m: int,
    types: Seq<Seq<char>>,
    recurse: bool,
    stop: Seq<Seq<char>>,
    allow: bool,
)
    requires
        linked(nodes),
        0 <= id < nodes.len(),
        0 <= m < nodes[id].children.len(),
        recurse || !(allow && nodes[id].kind.is_any_type(types)),
        !nodes[nodes[id].children[m].0 as int].kind.is_any_type(stop),
    ensures
        ({
            let c = nodes[id].children[m].0 as int;
            NodeRecord::preorder(nodes, c).filter(
                |x: NodeId| to_find(nodes, id, types, recurse, stop, allow, x.0 as int),
            ) == NodeRecord::preorder(nodes, c).filter(
                |x: NodeId| to_find(nodes, c, types, recurse, stop, true, x.0 as int),
            )
        }),
{
    let c = nodes[id].children[m].0 as int;
    assert(id < c < nodes.len());
    let pred = |x: NodeId| to_find(nodes, id, types, recurse, stop, allow, x.0 as int);
    let q = |x: NodeId| to_find(nodes, c, types, recurse, stop, true, x.0 as int);
    let more = NodeRecord::preorder(nodes, c);
    preorder_members(nodes, c);
    assert forall|x: NodeId| #[trigger] more.contains(x) implies pred(x) == q(x) by {
        child_finds(nodes, id, m, types, recurse, stop, allow, x.0 as int);
    }
    filter_agrees(more, pred, q);
}

/// At a child that stops the search, only the child itself can be found.
proof fn stop_is_filter(
    nodes: Seq<NodeRecord>,
    id: int,
    m: int,
    types: Seq<Seq<char>>,
    recurse: bool,
    stop: Seq<Seq<char>>,
    allow: bool,
)
    requires
        linked(nodes),
        0 <= id < nodes.len(),
        0 <= m < nodes[id].children.len(),
        recurse || !(allow && nodes[id].kind.is_any_type(types)),
        nodes[nodes[id].children[m].0 as int].kind.is_any_type(stop),
    ensures
        NodeRecord::preorder(nodes, nodes[id].children[m].0 as int).filter(
            |c: NodeId| to_find(nodes, id, types, recurse, stop, allow, c.0 as int),
        ) == if nodes[nodes[id].children[m].0 as int].kind.is_any_type(types) {
            seq![nodes[id].children[m]]
        } else {
            Seq::empty()
        },
{
    let pred = |c: NodeId| to_find(nodes, id, types, recurse, stop, allow, c.0 as int);
    reveal(Seq::filter);
    let top = nodes[id].children[m];
    let c = top.0 as int;
    assert(id < c < nodes.len());
    let own = seq![NodeId(c as u32)];
    let rest = NodeRecord::row_preorder(nodes, c, nodes[c].children);
    Seq::filter_distributes_over_add(own, rest, pred);
    assert(own.drop_last() =~= Seq::empty());
    assert(own.drop_last().filter(pred) =~= Seq::empty());
    row_preorder_members(nodes, c, nodes[c].children);
    assert(NodeRecord::below(nodes, c).contains(c));
    below_of_child(nodes, id, m, c);
    assert forall|x: NodeId| #[trigger] rest.contains(x) implies !pred(x) by {
        assert(NodeRecord::row_below(nodes, c, nodes[c].children).contains(x.0 as int));
        assert(NodeRecord::below(nodes, c).contains(x.0 as int));
        crate::arena::coherence::row_below_facts(nodes, c, nodes[c].children, x.0 as int);
        let d = choose|d: NodeId|
            nodes[c].children.contains(d) && c < d.0 < nodes.len()
                && #[trigger] NodeRecord::below(nodes, d.0 as int).contains(x.0 as int);
        below_facts(nodes, d.0 as int, x.0 as int);
        assert(blocks(nodes, id, types, recurse, stop, allow, c));
    }
    filter_nothing(rest, pred);
    only_parent_above(nodes, id, m, types, recurse, stop, allow);
    assert(own[0] == top);
    assert(pred(top) == nodes[c].kind.is_any_type(types));
    assert(own + Seq::<NodeId>::empty() =~= own);
    assert(own =~= seq![top]);
    assert(Seq::<NodeId>::empty() + Seq::<NodeId>::empty() =~= Seq::empty());
    assert(own.filter(pred) =~= if nodes[c].kind.is_any_type(types) {
        own
    } else {
        Seq::empty()
    });
}

/// Above a child, and at or below the start, stands the start only.
proof fn only_parent_above(
    nodes: Seq<NodeRecord>,
    id: int,
    m: int,
    types: Seq<Seq<char>>,
    recurse: bool,
    stop: Seq<Seq<char>>,
    allow: bool,
)
    requires
        linked(nodes),
        0 <= id < nodes.len(),
        0 <= m < nodes[id].children.len(),
        recurse || !(allow && nodes[id].kind.is_any_type(types)),
    ensures
        to_find(nodes, id, types, recurse, stop, allow, nodes[id].children[m].0 as int)
            == nodes[nodes[id].children[m].0 as int].kind.is_any_type(types),
{
    let c = nodes[id].children[m].0 as int;
    assert forall|a: int|
        a != c && NodeRecord::below(nodes, id).contains(a) && #[trigger] NodeRecord::below(
            nodes,
            a,
        ).contains(c) implies !blocks(nodes, id, types, recurse, stop, allow, a) by {
        below_facts(nodes, a, c);
        below_facts(nodes, id, a);
        assert(NodeRecord::below(nodes, a).contains(id));
        below_facts(nodes, a, id);
        assert(a == id);
    }
}

/// What a child is to find below it, the start is to find too, where the child does
/// not stop the search.
proof fn child_finds(
    nodes: Seq<NodeRecord>,
    id: int,
    m: int,
    types: Seq<Seq<char>>,
    recurse: bool,
    stop: Seq<Seq<char>>,
    allow: bool,
    x: int,
)
    requires
        linked(nodes),
        0 <= id < nodes.len(),
        0 <= m < nodes[id].children.len(),
        recurse || !(allow && nodes[id].kind.is_any_type(types)),
        !nodes[nodes[id].children[m].0 as int].kind.is_any_type(stop),
        NodeRecord::below(nodes, nodes[id].children[m].0 as int).contains(x),
    ensures
        to_find(nodes, nodes[id].children[m].0 as int, types, recurse, stop, true, x) == to_find(
            nodes,
            id,
            types,
            recurse,
            stop,
            allow,
            x,
        ),
{
    let c = nodes[id].children[m].0 as int;
    below_facts(nodes, c, x);
    if to_find(nodes, c, types, recurse, stop, true, x) {
        assert forall|a: int|
            a != x && NodeRecord::below(nodes, id).contains(a) && #[trigger] NodeRecord::below(
                nodes,
                a,
            ).contains(x) implies !blocks(nodes, id, types, recurse, stop, allow, a) by {
            if a != id {
                on_the_way(nodes, id, m, a, x);
                assert(!blocks(nodes, c, types, recurse, stop, true, a));
            }
        }
    }
    if to_find(nodes, id, types, recurse, stop, allow, x) {
        assert forall|a: int|
            a != x && NodeRecord::below(nodes, c).contains(a) && #[trigger] NodeRecord::below(
                nodes,
                a,
            ).contains(x) implies !blocks(nodes, c, types, recurse, stop, true, a) by {
            below_of_child(nodes, id, m, a);
            below_facts(nodes, c, a);
            assert(!blocks(nodes, id, types, recurse, stop, allow, a));
        }
    }
}

/// A node between the start and what lies below a child is the child or below it.
proof fn on_the_way(nodes: Seq<NodeRecord>, id: int, m: int, a: int, x: int)
    requires
        linked(nodes),
        0 <= id < nodes.len(),
        0 <= m < nodes[id].children.len(),
        NodeRecord::below(nodes, nodes[id].children[m].0 as int).contains(x),
        NodeRecord::below(nodes, id).contains(a),
        NodeRecord::below(nodes, a).contains(x),
        a != id,
    ensures
        NodeRecord::below(nodes, nodes[id].children[m].0 as int).contains(a),
{
    let c = nodes[id].children[m].0 as int;
    below_child(nodes, id, a);
    let kids = nodes[id].children;
    let q = choose|q: int|
        0 <= q < kids.len() && id < kids[q].0 < nodes.len() && #[trigger] NodeRecord::below(
            nodes,
            kids[q].0 as int,
        ).contains(a);
    let d = nodes[id].children[q].0 as int;
    below_transitive(nodes, d, a, x);
    siblings_apart(nodes, c, d, x);
}

/// Matches do not nest where a match is not searched further: of two nodes that a
/// search finds, neither lies below the other.
pub proof fn matches_do_not_nest(
    s: ArenaState,
    id: NodeId,
    types: Seq<Seq<char>>,
    stop: Seq<Seq<char>>,
    allow_self: bool,
    i: int,
    j: int,
)
    requires
        s.wf(),
        s.coherent(),
        s.has(id),
        0 <= i < NodeRecord::crawl(s.nodes, id.0 as int, types, false, stop, allow_self).len(),
        0 <= j < NodeRecord::crawl(s.nodes, id.0 as int, types, false, stop, allow_self).len(),
        i != j,
    ensures
        ({
            let found = NodeRecord::crawl(s.nodes, id.0 as int, types, false, stop, allow_self);
            !NodeRecord::below(s.nodes, found[i].0 as int).contains(found[j].0 as int)
        }),
{
    linked_of(s);
    let start = id.0 as int;
    let found = NodeRecord::crawl(s.nodes, start, types, false, stop, allow_self);
    search_finds(s, id, types, false, stop, allow_self);
    let pred = |c: NodeId|
        to_find(s.nodes, start, types, false, stop, allow_self, c.0 as int);
    let list = NodeRecord::preorder(s.nodes, start);
    assert(found == list.filter(pred));
    preorder_members(s.nodes, start);
    preorder_distinct(s.nodes, start);
    filter_distinct(list, pred);
    assert(found.contains(found[i]) && found.contains(found[j]));
    list.lemma_filter_contains_rev(pred, found[i]);
    list.lemma_filter_contains_rev(pred, found[j]);
    list.lemma_filter_pred(pred, i);
    list.lemma_filter_pred(pred, j);
    let x = found[i].0 as int;
    let y = found[j].0 as int;
    if NodeRecord::below(s.nodes, x).contains(y) {
        assert(found[i] != found[j]);
        assert(blocks(s.nodes, start, types, false, stop, allow_self, x));
    }
}

/// The places of the code are in order, and they are the places of the code.
pub proof fn code_places_are(row: Seq<Tree>)
    requires
        row.len() <= usize::MAX + 1,
    ensures
        lists_code(row, code_places(row)),
    decreases row.len(),
{
    if row.len() > 0 {
        let rest = row.drop_last();
        code_places_are(rest);
        let before = code_places(rest);
        let all = code_places(row);
        let last = (row.len() - 1) as usize;
        assert forall|i: usize| #[trigger] all.contains(i) <==> i < row.len()
            && row[i as int].is_code() by {
            assert(before.contains(i) <==> i < rest.len() && rest[i as int].is_code());
            if row.last().is_code() {
                assert(all =~= before + seq![last]);
                in_sum(before, seq![last], i);
                assert(seq![last][0] == last);
            }
        }
        assert forall|a: int, b: int| 0 <= a < b < all.len() implies (#[trigger] all[a]) < (
        #[trigger] all[b]) by {
            if b < before.len() {
                assert(before[a] < before[b]);
            } else {
                assert(before.contains(before[a]));
            }
        }
    }
}

/// Whether no tree of a row is code.
pub open spec fn no_code(row: Seq<Tree>) -> bool {
    forall|j: int| 0 <= j < row.len() ==> !(#[trigger] row[j]).is_code()
}

/// Whether just one tree of a row is code.
pub open spec fn one_code(row: Seq<Tree>) -> bool {
    exists|k: int| #[trigger]
        row[k].is_code() && 0 <= k < row.len() && forall|j: int|
            0 <= j < row.len() && (#[trigger] row[j]).is_code() ==> j == k
}

/// Whether a tree of a row is code with no code before it.
pub open spec fn first_code(row: Seq<Tree>, i: int) -> bool {
    row[i].is_code() && forall|j: int| 0 <= j < i ==> !(#[trigger] row[j]).is_code()
}

/// Whether a tree of a row is code with no code behind it.
pub open spec fn last_code(row: Seq<Tree>, i: int) -> bool {
    row[i].is_code() && forall|j: int| i < j < row.len() ==> !(#[trigger] row[j]).is_code()
}

/// Whether a name says where a tree stands among the code of its row: `solo` where
/// just one tree is code; else `start` at the first that is code, `end` at the last,
/// and nothing anywhere else.
pub open spec fn names_place(row: Seq<Tree>, i: int, place: Seq<char>) -> bool {
    &&& no_code(row) ==> place == ""@
    &&& one_code(row) ==> place == "solo"@
    &&& !no_code(row) && !one_code(row) ==> {
        &&& first_code(row, i) <==> place == "start"@
        &&& last_code(row, i) <==> place == "end"@
        &&& !first_code(row, i) && !last_code(row, i) <==> place == ""@
    }
}

/// The place of a child on the way down a tree is named as [`names_place`] says.
pub proof fn place_in_row(row: Seq<Tree>, i: int)
    requires
        row.len() <= usize::MAX + 1,
        0 <= i < row.len(),
    ensures
        names_place(row, i, stack_place(code_places(row), i)),
{
    reveal_strlit("");
    reveal_strlit("solo");
    reveal_strlit("start");
    reveal_strlit("end");
    assert("solo"@.len() == 4 && "start"@.len() == 5 && "end"@.len() == 3 && ""@.len() == 0);
    code_places_are(row);
    let code = code_places(row);
    places_count(row, code);
    if code.len() >= 2 {
        places_ends(row, code, i);
    }
}

/// Whether a list holds the places of the code of a row, in order.
pub open spec fn lists_code(row: Seq<Tree>, code: Seq<usize>) -> bool {
    &&& forall|a: int, b: int|
        0 <= a < b < code.len() ==> (#[trigger] code[a]) < (#[trigger] code[b])
    &&& forall|k: usize| #[trigger]
        code.contains(k) <==> k < row.len() && row[k as int].is_code()
}

/// How many trees are code shows in how long the list of their places is.
pub(crate) proof fn places_count(row: Seq<Tree>, code: Seq<usize>)
    requires
        row.len() <= usize::MAX + 1,
        lists_code(row, code),
    ensures
        no_code(row) <==> code.len() == 0,
        one_code(row) <==> code.len() == 1,
{
    if code.len() > 0 {
        assert(code.contains(code[0]));
        assert(row[code[0] as int].is_code());
    }
    if code.len() == 0 {
        assert forall|j: int| 0 <= j < row.len() implies !(#[trigger] row[j]).is_code() by {
            if row[j].is_code() {
                assert(code.contains(j as usize));
            }
        }
    }
    if code.len() == 1 {
        let k = code[0] as int;
        assert forall|j: int| 0 <= j < row.len() && (#[trigger] row[j]).is_code() implies j
            == k by {
            assert(code.contains(j as usize));
        }
        assert(row[k].is_code());
    }
    if code.len() >= 2 {
        assert(code.contains(code[1]));
        assert(code[0] < code[1]);
        assert(row[code[1] as int].is_code());
    }
}

/// The first and the last of the places are those of the first and the last code.
pub(crate) proof fn places_ends(row: Seq<Tree>, code: Seq<usize>, i: int)
    requires
        row.len() <= usize::MAX + 1,
        0 <= i < row.len(),
        lists_code(row, code),
        code.len() >= 2,
    ensures
        first_code(row, i) <==> i == code[0],
        last_code(row, i) <==> i == code.last(),
        code[0] < code.last(),
{
    let lo = code[0];
    let hi = code[code.len() - 1];
    assert(lo < hi);
    assert(code.contains(lo) && code.contains(hi));
    assert(row[lo as int].is_code() && row[hi as int].is_code());
    assert forall|j: int| 0 <= j < row.len() && (#[trigger] row[j]).is_code() implies lo <= j
        <= hi by {
        assert(code.contains(j as usize));
        let a = choose|a: int| 0 <= a < code.len() && code[a] == j as usize;
        if a > 0 {
            assert(code[0] < code[a]);
        }
        if a < code.len() - 1 {
            assert(code[a] < code[code.len() - 1]);
        }
    }
}

/// A path leads from its start down to its end: every step goes from a node to the
/// child at the place it names, knows how many children there are, and names where the
/// place stands among the code.
pub proof fn paths_lead_down(s: ArenaState, from: NodeId, to: NodeId)
    requires
        s.wf(),
        s.coherent(),
        s.has(from),
        s.has(to),
    ensures
        ({
            let path = NodeRecord::path(s.nodes, from.0 as int, to.0 as int);
            &&& path is Some <==> NodeRecord::below(s.nodes, from.0 as int).contains(to.0 as int)
            &&& path is Some ==> {
                let steps = path->0;
                &&& steps.len() == 0 <==> from == to
                &&& steps.len() > 0 ==> steps[0].node == from
                &&& forall|k: int|
                    0 <= k < steps.len() ==> {
                        let kids = s.node((#[trigger] steps[k]).node).children;
                        &&& steps[k].len == kids.len()
                        &&& steps[k].idx < kids.len()
                        &&& kids[steps[k].idx as int] == (if k + 1 < steps.len() {
                            steps[k + 1].node
                        } else {
                            to
                        })
                        &&& names_place(
                            s.at(steps[k].node).children,
                            steps[k].idx as int,
                            s.depth_of(steps)[k].3,
                        )
                        &&& s.depth_of(steps)[k].0 == s.node(steps[k].node).uuid
                        &&& s.depth_of(steps)[k].1 == steps[k].idx
                        &&& s.depth_of(steps)[k].2 == steps[k].len
                    }
            }
        }),
    decreases to.0,
{
    linked_of(s);
    let a = from.0 as int;
    let b = to.0 as int;
    assert(NodeRecord::below(s.nodes, a).contains(a));
    if a != b {
        if NodeRecord::below(s.nodes, a).contains(b) {
            below_facts(s.nodes, a, b);
        }
        if s.nodes[b].parent is Some {
            let p = s.nodes[b].parent->0;
            let at = s.nodes[b].parent_idx;
            assert(s.nodes[p.0 as int].children[at as int] == NodeId(b as u32));
            paths_lead_down(s, from, p);
            if NodeRecord::below(s.nodes, a).contains(p.0 as int) {
                assert(NodeRecord::below(s.nodes, b).contains(b));
                below_of_child(s.nodes, p.0 as int, at as int, b);
                below_transitive(s.nodes, a, p.0 as int, b);
                let before = NodeRecord::path(s.nodes, a, p.0 as int)->0;
                let steps = NodeRecord::path(s.nodes, a, b)->0;
                assert(steps == before.push(NodeRecord::step(s.nodes, p.0 as int, at)));
                assert forall|k: int| 0 <= k < steps.len() implies {
                    let kids = s.node((#[trigger] steps[k]).node).children;
                    &&& steps[k].len == kids.len()
                    &&& steps[k].idx < kids.len()
                    &&& kids[steps[k].idx as int] == (if k + 1 < steps.len() {
                        steps[k + 1].node
                    } else {
                        to
                    })
                    &&& names_place(
                        s.at(steps[k].node).children,
                        steps[k].idx as int,
                        s.depth_of(steps)[k].3,
                    )
                    &&& s.depth_of(steps)[k].0 == s.node(steps[k].node).uuid
                    &&& s.depth_of(steps)[k].1 == steps[k].idx
                    &&& s.depth_of(steps)[k].2 == steps[k].len
                } by {
                    if k < before.len() {
                        assert(steps[k] == before[k]);
                        assert(s.depth_of(steps)[k] == s.depth_of(before)[k]);
                        if k + 1 < before.len() {
                            assert(steps[k + 1] == before[k + 1]);
                        }
                    } else {
                        s.lemma_at(p);
                        let kids = s.node(p).children;
                        let c = s.nodes[p.0 as int].children[kids.len() - 1];
                        assert(s.nodes[c.0 as int].parent_idx == kids.len() - 1);
                        place_in_row(s.at(p).children, at as int);
                    }
                }
            }
        }
    }
}

/// A node is above another just where the other lies below it.
pub proof fn above_is_not_below(s: ArenaState, a: NodeId, n: NodeId)
    requires
        s.wf(),
        s.coherent(),
        s.has(a),
        s.has(n),
    ensures
        NodeRecord::above(s.nodes, n.0 as int).contains(a.key()) <==> a != n && NodeRecord::below(
            s.nodes,
            a.0 as int,
        ).contains(n.0 as int),
    decreases n.0,
{
    linked_of(s);
    let x = a.0 as int;
    let y = n.0 as int;
    if NodeRecord::below(s.nodes, x).contains(y) {
        below_facts(s.nodes, x, y);
    }
    if s.nodes[y].parent is Some {
        let p = s.nodes[y].parent->0;
        let at = s.nodes[y].parent_idx as int;
        assert(s.nodes[p.0 as int].children[at] == NodeId(y as u32));
        above_is_not_below(s, a, p);
        assert(NodeRecord::below(s.nodes, y).contains(y));
        assert(NodeRecord::below(s.nodes, p.0 as int).contains(p.0 as int));
        below_of_child(s.nodes, p.0 as int, at, y);
        if NodeRecord::below(s.nodes, x).contains(p.0 as int) {
            below_transitive(s.nodes, x, p.0 as int, y);
        }
        if a == n && NodeRecord::above(s.nodes, y).contains(a.key()) {
            crate::arena::state::above_transitive(s.nodes, y, a.key());
        }
    }
}

/// The containers are the nodes of the walk with children, in its order, each once.
pub proof fn containers_have_children(s: ArenaState, id: NodeId)
    requires
        s.wf(),
        s.coherent(),
        s.has(id),
    ensures
        crate::arena::depth::firsts(NodeRecord::containers(s.nodes, id.0 as int))
            == NodeRecord::preorder(s.nodes, id.0 as int).filter(
            |c: NodeId| s.nodes[c.0 as int].children.len() > 0,
        ),
{
    linked_of(s);
    let pred = |c: NodeId| s.nodes[c.0 as int].children.len() > 0;
    let list = NodeRecord::preorder(s.nodes, id.0 as int);
    containers_filter(s.nodes, id.0 as int);
    preorder_distinct(s.nodes, id.0 as int);
    filter_distinct(list, pred);
    first_of_each(list.filter(pred));
}

proof fn containers_filter(nodes: Seq<NodeRecord>, id: int)
    requires
        linked(nodes),
        0 <= id < nodes.len(),
    ensures
        NodeRecord::containers(nodes, id) == NodeRecord::preorder(nodes, id).filter(
            |c: NodeId| nodes[c.0 as int].children.len() > 0,
        ),
    decreases nodes.len() - id, 1int, 0nat,
{
    let pred = |c: NodeId| nodes[c.0 as int].children.len() > 0;
    reveal(Seq::filter);
    let row = nodes[id].children;
    let own = seq![NodeId(id as u32)];
    row_containers_filter(nodes, id, row.len() as int);
    assert(row.take(row.len() as int) =~= row);
    Seq::filter_distributes_over_add(own, NodeRecord::row_preorder(nodes, id, row), pred);
    assert(own.drop_last() =~= Seq::empty());
    assert(own.drop_last().filter(pred) =~= Seq::empty());
    if row.len() == 0 {
        assert(NodeRecord::row_preorder(nodes, id, row).filter(pred) =~= Seq::empty());
        assert(own.filter(pred) =~= Seq::empty());
        assert(Seq::<NodeId>::empty() + Seq::<NodeId>::empty() =~= Seq::empty());
    } else {
        assert(own.filter(pred) =~= own);
    }
}

proof fn row_containers_filter(nodes: Seq<NodeRecord>, id: int, n: int)
    requires
        linked(nodes),
        0 <= id < nodes.len(),
        0 <= n <= nodes[id].children.len(),
    ensures
        NodeRecord::row_containers(nodes, id, nodes[id].children.take(n))
            == NodeRecord::row_preorder(nodes, id, nodes[id].children.take(n)).filter(
            |c: NodeId| nodes[c.0 as int].children.len() > 0,
        ),
    decreases nodes.len() - id, 0int, n,
{
    let pred = |c: NodeId| nodes[c.0 as int].children.len() > 0;
    reveal(Seq::filter);
    let kids = nodes[id].children;
    if n > 0 {
        assert(kids.take(n).drop_last() =~= kids.take(n - 1));
        assert(kids.take(n).last() == kids[n - 1]);
        row_containers_filter(nodes, id, n - 1);
        let c = nodes[id].children[n - 1].0 as int;
        assert(id < c < nodes.len());
        containers_filter(nodes, c);
        Seq::filter_distributes_over_add(
            NodeRecord::row_preorder(nodes, id, kids.take(n - 1)),
            NodeRecord::preorder(nodes, c),
            pred,
        );
    } else {
        assert(NodeRecord::row_preorder(nodes, id, kids.take(0)).filter(pred) =~= Seq::empty());
    }
}

/// A list without duplicates is that of its first occurrences.
proof fn first_of_each(list: Seq<NodeId>)
    requires
        list.no_duplicates(),
    ensures
        crate::arena::depth::firsts(list) == list,
    decreases list.len(),
{
    if list.len() > 0 {
        let rest = list.drop_last();
        assert(rest.no_duplicates()) by {
            assert forall|i: int, j: int| 0 <= i < rest.len() && 0 <= j < rest.len() && i != j
                implies rest[i] != rest[j] by {
                assert(list[i] != list[j]);
            }
        }
        first_of_each(rest);
        if rest.contains(list.last()) {
            let i = choose|i: int| 0 <= i < rest.len() && rest[i] == list.last();
            assert(list[i] != list[list.len() - 1]);
        }
        assert(rest.push(list.last()) =~= list);
    } else {
        assert(crate::arena::depth::firsts(list) =~= list);
    }
}

/// The leaves with their paths are the leaves, in document order.
pub proof fn paths_go_to_the_leaves(nodes: Seq<NodeRecord>, id: int, stack: Seq<StepView>)
    requires
        0 <= id < nodes.len(),
    ensures
        NodeRecord::leaf_paths(nodes, id, stack).map_values(|e: (NodeId, Seq<StepView>)| e.0)
            == NodeRecord::leaves(nodes, id),
    decreases nodes.len() - id, 1int, 0nat,
{
    let first = |e: (NodeId, Seq<StepView>)| e.0;
    if nodes[id].children.len() > 0 {
        row_paths_go_to_the_leaves(nodes, id, nodes[id].children, stack);
    } else {
        assert(NodeRecord::leaf_paths(nodes, id, stack).map_values(first)
            =~= NodeRecord::leaves(nodes, id));
    }
}

proof fn row_paths_go_to_the_leaves(
    nodes: Seq<NodeRecord>,
    lo: int,
    row: Seq<NodeId>,
    stack: Seq<StepView>,
)
    requires
        0 <= lo < nodes.len(),
    ensures
        NodeRecord::row_leaf_paths(nodes, lo, row, stack).map_values(
            |e: (NodeId, Seq<StepView>)| e.0,
        ) == NodeRecord::row_leaves(nodes, lo, row),
    decreases nodes.len() - lo, 0int, row.len(),
{
    let first = |e: (NodeId, Seq<StepView>)| e.0;
    if row.len() == 0 {
        assert(NodeRecord::row_leaf_paths(nodes, lo, row, stack).map_values(first)
            =~= NodeRecord::row_leaves(nodes, lo, row));
    } else {
        row_paths_go_to_the_leaves(nodes, lo, row.drop_last(), stack);
        let before = NodeRecord::row_leaf_paths(nodes, lo, row.drop_last(), stack);
        let c = row.last().0 as int;
        if lo < c < nodes.len() {
            let down = stack.push(NodeRecord::step(nodes, lo, (row.len() - 1) as usize));
            paths_go_to_the_leaves(nodes, c, down);
            let more = NodeRecord::leaf_paths(nodes, c, down);
            assert((before + more).map_values(first) =~= before.map_values(first)
                + more.map_values(first));
        }
    }
}

/// The source fixes of listed nodes, one node behind the other.
pub open spec fn fixes_along(nodes: Seq<NodeRecord>, list: Seq<NodeId>) -> Seq<FixView>
    decreases list.len(),
{
    if list.len() == 0 {
        Seq::empty()
    } else {
        fixes_along(nodes, list.drop_last()) + nodes[list.last().0 as int].fixes
    }
}

proof fn fixes_sum(nodes: Seq<NodeRecord>, a: Seq<NodeId>, b: Seq<NodeId>)
    ensures
        fixes_along(nodes, a + b) == fixes_along(nodes, a) + fixes_along(nodes, b),
    decreases b.len(),
{
    if b.len() == 0 {
        assert(a + b =~= a);
        assert(fixes_along(nodes, a) + fixes_along(nodes, b) =~= fixes_along(nodes, a));
    } else {
        assert((a + b).drop_last() =~= a + b.drop_last());
        fixes_sum(nodes, a, b.drop_last());
        assert(fixes_along(nodes, a + b) =~= fixes_along(nodes, a) + fixes_along(nodes, b));
    }
}

/// The source fixes of a tree are those of its nodes, in document order.
pub proof fn fixes_in_document_order(s: ArenaState, id: NodeId)
    requires
        s.wf(),
        s.has(id),
    ensures
        s.at(id).source_fixes() == fixes_along(
            s.nodes,
            NodeRecord::preorder(s.nodes, id.0 as int),
        ),
    decreases s.nodes.len() - id.0, 1int, 0nat,
{
    s.lemma_at(id);
    let own = seq![NodeId(id.0)];
    let kids = s.node(id).children;
    let rest = NodeRecord::row_preorder(s.nodes, id.0 as int, kids);
    assert(own.drop_last() =~= Seq::empty());
    assert(fixes_along(s.nodes, own.drop_last()) =~= Seq::empty());
    assert(fixes_along(s.nodes, own) =~= s.node(id).fixes);
    fixes_sum(s.nodes, own, rest);
    row_fixes_in_order(s, id, kids.len() as int);
    assert(kids.take(kids.len() as int) =~= kids);
    assert(s.at(id).children.take(kids.len() as int) =~= s.at(id).children);
    assert(NodeId(id.0 as int as u32) == NodeId(id.0));
}

proof fn row_fixes_in_order(s: ArenaState, id: NodeId, n: int)
    requires
        s.wf(),
        s.has(id),
        0 <= n <= s.node(id).children.len(),
    ensures
        Tree::fixes_of(s.at(id).children.take(n)) == fixes_along(
            s.nodes,
            NodeRecord::row_preorder(s.nodes, id.0 as int, s.node(id).children.take(n)),
        ),
    decreases s.nodes.len() - id.0, 0int, n as nat,
{
    s.lemma_at(id);
    let kids = s.node(id).children;
    let trees = s.at(id).children;
    let lo = id.0 as int;
    if n > 0 {
        row_fixes_in_order(s, id, n - 1);
        assert(kids.take(n).drop_last() =~= kids.take(n - 1));
        assert(trees.take(n).drop_last() =~= trees.take(n - 1));
        let c = s.nodes[lo].children[n - 1];
        assert(lo < c.0 < s.nodes.len());
        assert(kids.take(n).last() == c);
        assert(trees.take(n).last() == s.at(c));
        fixes_in_document_order(s, c);
        fixes_sum(
            s.nodes,
            NodeRecord::row_preorder(s.nodes, lo, kids.take(n - 1)),
            NodeRecord::preorder(s.nodes, c.0 as int),
        );
    } else {
        assert(trees.take(0) =~= Seq::empty());
        assert(kids.take(0) =~= Seq::empty());
    }
}

/// Whether a leaf is a raw segment of whitespace or a newline, by its type or as an
/// instance.
pub open spec fn spacing_leaf(kind: crate::kind::Kind) -> bool {
    kind matches crate::kind::Kind::Raw { segment_type, instance_types, .. } && {
        ||| segment_type == "whitespace"@
        ||| segment_type == "newline"@
        ||| instance_types.contains("whitespace"@)
        ||| instance_types.contains("newline"@)
    }
}

/// Whether a leaf is a raw segment with a comment in its type or among its class types.
pub open spec fn comment_leaf(kind: crate::kind::Kind) -> bool {
    kind matches crate::kind::Kind::Raw { segment_type, class_types, .. } && {
        ||| crate::text::has_infix(segment_type, "comment"@)
        ||| class_types.contains("comment"@)
    }
}

/// A tree is whitespace, or a comment, just where all of its leaves are.
pub proof fn spacing_all_through(s: ArenaState, id: NodeId)
    requires
        s.wf(),
        s.proper(),
        s.has(id),
    ensures
        s.at(id).is_whitespace() <==> forall|i: int|
            0 <= i < NodeRecord::leaves(s.nodes, id.0 as int).len() ==> spacing_leaf(
                s.nodes[(#[trigger] NodeRecord::leaves(s.nodes, id.0 as int)[i]).0 as int].kind,
            ),
        s.at(id).is_comment() <==> forall|i: int|
            0 <= i < NodeRecord::leaves(s.nodes, id.0 as int).len() ==> comment_leaf(
                s.nodes[(#[trigger] NodeRecord::leaves(s.nodes, id.0 as int)[i]).0 as int].kind,
            ),
    decreases s.nodes.len() - id.0, 1int, 0nat,
{
    s.lemma_at(id);
    let lo = id.0 as int;
    let kids = s.nodes[lo].children;
    let leaves = NodeRecord::leaves(s.nodes, lo);
    if kids.len() == 0 {
        assert(leaves.len() == 1 && leaves[0].0 == lo);
        assert(s.nodes[leaves[0].0 as int].kind == s.at(id).kind);
    } else {
        assert(s.nodes[lo].kind is Segment || s.nodes[lo].kind is Unparsable);
        row_spacing_all_through(s, id, kids.len() as int);
        assert(kids.take(kids.len() as int) =~= kids);
    }
}

proof fn row_spacing_all_through(s: ArenaState, id: NodeId, n: int)
    requires
        s.wf(),
        s.proper(),
        s.has(id),
        0 <= n <= s.node(id).children.len(),
    ensures
        ({
            let leaves = NodeRecord::row_leaves(
                s.nodes,
                id.0 as int,
                s.nodes[id.0 as int].children.take(n),
            );
            let trees = s.at(id).children;
            &&& (forall|j: int| 0 <= j < n ==> (#[trigger] trees[j]).is_whitespace()) <==> forall|
                i: int,
            |
                0 <= i < leaves.len() ==> spacing_leaf(
                    s.nodes[(#[trigger] leaves[i]).0 as int].kind,
                )
            &&& (forall|j: int| 0 <= j < n ==> (#[trigger] trees[j]).is_comment()) <==> forall|
                i: int,
            |
                0 <= i < leaves.len() ==> comment_leaf(
                    s.nodes[(#[trigger] leaves[i]).0 as int].kind,
                )
        }),
    decreases s.nodes.len() - id.0, 0int, n as nat,
{
    s.lemma_at(id);
    let lo = id.0 as int;
    let kids = s.nodes[lo].children;
    let trees = s.at(id).children;
    if n > 0 {
        row_spacing_all_through(s, id, n - 1);
        assert(kids.take(n).drop_last() =~= kids.take(n - 1));
        let c = s.nodes[lo].children[n - 1];
        assert(lo < c.0 < s.nodes.len());
        assert(kids.take(n).last() == c);
        assert(trees[n - 1] == s.at(c));
        spacing_all_through(s, c);
        let a = NodeRecord::row_leaves(s.nodes, lo, kids.take(n - 1));
        let b = NodeRecord::leaves(s.nodes, c.0 as int);
        let all = NodeRecord::row_leaves(s.nodes, lo, kids.take(n));
        assert(all == a + b);
        all_of_two(a, b, |x: NodeId| spacing_leaf(s.nodes[x.0 as int].kind));
        all_of_two(a, b, |x: NodeId| comment_leaf(s.nodes[x.0 as int].kind));
    }
}

proof fn all_of_two(a: Seq<NodeId>, b: Seq<NodeId>, f: spec_fn(NodeId) -> bool)
    ensures
        (forall|i: int| 0 <= i < (a + b).len() ==> f(#[trigger] (a + b)[i])) <==> (forall|i: int|
            0 <= i < a.len() ==> f(#[trigger] a[i])) && (forall|i: int|
            0 <= i < b.len() ==> f(#[trigger] b[i])),
{
    if forall|i: int| 0 <= i < (a + b).len() ==> f(#[trigger] (a + b)[i]) {
        assert forall|i: int| 0 <= i < a.len() implies f(#[trigger] a[i]) by {
            assert((a + b)[i] == a[i]);
        }
        assert forall|i: int| 0 <= i < b.len() implies f(#[trigger] b[i]) by {
            assert((a + b)[a.len() + i] == b[i]);
        }
    }
}

} // verus!
