//! What holds over any number of committed batches.

use vstd::prelude::*;

use crate::arena::state::NodeId;

#[allow(unused_imports)]
use crate::arena::coherence::{committed, linked};
#[allow(unused_imports)]
use crate::arena::laws::lists_over_containers;
#[allow(unused_imports)]
use crate::arena::overlay::Overlay;
#[allow(unused_imports)]
use crate::arena::plan::{Ops, RowPlanView, Spliced, SubPlanView};
#[allow(unused_imports)]
use crate::arena::state::{ArenaState, NodeRecord, PlannedView, StagedView};
#[allow(unused_imports)]
use crate::edit::OpView;

verus! {

/// A committed batch: its edits, what was staged for them, and the nodes after
/// the new child lists were installed.
pub struct Commit {
    pub ops: Ops,
    pub fix_even_unparsable: bool,
    pub batch: StagedView,
    pub spliced: Seq<NodeRecord>,
}

impl Commit {
    /// Whether only segments and what did not parse have children in the segments
    /// that the batch brings.
    pub open spec fn brings_proper(self) -> bool {
        forall|k: u128, j: int|
            #[trigger] self.batch.children_of.contains_key(k) && 0 <= j
                < self.batch.children_of[k].len() ==> (
            #[trigger] self.batch.children_of[k][j] matches PlannedView::New(spec, _)
                ==> spec.proper())
    }
}

impl ArenaState {
    /// The state of an arena just made from a parsed tree.
    pub open spec fn fresh(self) -> bool {
        &&& self.wf()
        &&& self.coherent()
        &&& self.proper()
        &&& self.retired == Set::<u128>::empty()
        &&& self.epoch == 0
        &&& self.staged is None
    }

    /// Whether staging the edits of a batch, each anchor's going together, and
    /// committing them leads from this state to `next`.
    pub open spec fn goes_to(self, c: Commit, next: ArenaState) -> bool {
        &&& OpView::all_go_together(c.ops)
        &&& self.stages(c.ops, c.fix_even_unparsable, c.batch)
        &&& (ArenaState { staged: Some(c.batch), ..self }).commits_via(c.batch, c.spliced, next)
        &&& next.wf()
    }

    /// Whether every node of the tree is found under its uuid.
    pub open spec fn all_found(self) -> bool {
        forall|k: int| #[trigger]
            NodeRecord::below(self.nodes, self.root.0 as int).contains(k)
                ==> self.by_uuid.contains_key(self.nodes[k].uuid)
                && self.by_uuid[self.nodes[k].uuid] == k
    }

    /// Whether a node and all below it are out of the tree.
    pub open spec fn gone(self, id: NodeId) -> bool {
        forall|k: int| #[trigger]
            NodeRecord::below(self.nodes, id.0 as int).contains(k) ==> !NodeRecord::below(
                self.nodes,
                self.root.0 as int,
            ).contains(k)
    }
}

/// Whether the states follow one another by the commits, from a fresh one on.
pub open spec fn history(states: Seq<ArenaState>, commits: Seq<Commit>) -> bool {
    &&& states.len() == commits.len() + 1
    &&& states[0].fresh()
    &&& forall|i: int|
        0 <= i < commits.len() ==> states[i].goes_to(#[trigger] commits[i], states[i + 1])
}

/// A step of a history, as the laws of single commits have it.
proof fn step_commits(s: ArenaState, c: Commit, next: ArenaState)
    requires
        s.wf(),
        s.coherent(),
        s.goes_to(c, next),
    ensures
        s.commits_via(c.batch, c.spliced, next),
        committed(s, c.ops, c.fix_even_unparsable, c.batch, c.spliced, next),
        next.coherent(),
        linked(s.nodes),
        linked(next.nodes),
        forall|i: int|
            0 <= i < c.batch.tombstones.len() ==> next.node(
                #[trigger] c.batch.tombstones[i],
            ).parent is None,
{
    let staged = ArenaState { staged: Some(c.batch), ..s };
    let a = staged.buried(c.batch.tombstones);
    let b = s.buried(c.batch.tombstones);
    assert(a.nodes =~= b.nodes);
    assert(a.retired =~= b.retired);
    assert(s.commits_via(c.batch, c.spliced, next));
    reveal(committed);
    crate::arena::coherence::commit_keeps_coherence(
        s,
        c.ops,
        c.fix_even_unparsable,
        c.batch,
        c.spliced,
        next,
    );
    crate::arena::coherence::whole_plan_holds(s, c.ops, c.fix_even_unparsable);
    coherent_is_linked(next);
}

proof fn coherent_is_linked(s: ArenaState)
    requires
        s.wf(),
        s.coherent(),
    ensures
        linked(s.nodes),
{
    assert forall|p: int, i: int| 0 <= p < s.nodes.len() && 0 <= i < s.nodes[p].children.len()
        implies {
        let c = (#[trigger] s.nodes[p].children[i]).0 as int;
        p < c < s.nodes.len() && s.nodes[c].parent == Some(NodeId(p as u32))
            && s.nodes[c].parent_idx == i
    } by {}
}

/// A node that was there and is in the tree was in the tree.
proof fn was_in_tree(s: ArenaState, c: Commit, next: ArenaState, k: int)
    requires
        s.wf(),
        s.coherent(),
        s.goes_to(c, next),
        k < s.nodes.len(),
        NodeRecord::below(next.nodes, next.root.0 as int).contains(k),
    ensures
        NodeRecord::below(s.nodes, s.root.0 as int).contains(k),
    decreases k,
{
    step_commits(s, c, next);
    let root = s.root.0 as int;
    let lists = c.batch.children_of;
    let n = s.nodes.len() as int;
    let buried = s.buried(c.batch.tombstones).nodes;
    crate::arena::coherence::below_facts(next.nodes, root, k);
    if k != root {
        let p = (next.nodes[k].parent->0).0 as int;
        let at = next.nodes[k].parent_idx as int;
        was_in_tree(s, c, next, p);
        assert(next.nodes[p].children[at] == NodeId(k as u32));
        assert(next.nodes[p].children == c.spliced[p].children);
        if lists.contains_key(p as u128) {
            let kids = c.spliced[p].children;
            assert(NodeRecord::row_stands(lists[p as u128], n, s.file(), c.spliced, kids));
            assert(NodeRecord::stands_for(
                lists[p as u128][at],
                n,
                s.file(),
                c.spliced,
                kids[at],
            ));
            assert(NodeRecord::listed(lists, p as u128, at, k));
            crate::arena::coherence::only_place(
                s,
                c.ops,
                c.fix_even_unparsable,
                p as u128,
                at,
                k,
            );
        } else {
            assert(c.spliced[p].children == buried[p].children);
            assert(s.nodes[p].children[at].0 == k);
            assert(NodeRecord::below(s.nodes, k).contains(k));
            crate::arena::coherence::below_of_child(s.nodes, p, at, k);
            crate::arena::coherence::below_transitive(s.nodes, root, p, k);
        }
    }
}

/// Where the child lists below a node are the same, so is what lies below it.
proof fn below_agrees(a: Seq<NodeRecord>, b: Seq<NodeRecord>, id: int, m: int)
    requires
        linked(a),
        linked(b),
        0 <= id < a.len() <= b.len(),
        forall|k: int| #[trigger]
            NodeRecord::below(a, id).contains(k) ==> b[k].children == a[k].children,
    ensures
        NodeRecord::below(a, id).contains(m) == NodeRecord::below(b, id).contains(m),
    decreases a.len() - id,
{
    assert(NodeRecord::below(a, id).contains(id));
    assert(NodeRecord::below(b, id).contains(id));
    let kids = a[id].children;
    assert forall|i: int| 0 <= i < kids.len() implies NodeRecord::below(
        a,
        (#[trigger] kids[i]).0 as int,
    ).contains(m) == NodeRecord::below(b, kids[i].0 as int).contains(m) by {
        let d = a[id].children[i].0 as int;
        assert forall|k: int| #[trigger] NodeRecord::below(a, d).contains(k) implies b[k].children
            == a[k].children by {
            crate::arena::coherence::below_of_child(a, id, i, k);
        }
        below_agrees(a, b, d, m);
    }
    if m != id && NodeRecord::below(a, id).contains(m) {
        crate::arena::coherence::below_child(a, id, m);
        let i = choose|i: int|
            0 <= i < a[id].children.len() && id < a[id].children[i].0 < a.len()
                && #[trigger] NodeRecord::below(a, a[id].children[i].0 as int).contains(m);
        assert(NodeRecord::below(b, kids[i].0 as int).contains(m));
        crate::arena::coherence::below_of_child(b, id, i, m);
    }
    if m != id && NodeRecord::below(b, id).contains(m) {
        crate::arena::coherence::below_child(b, id, m);
        let i = choose|i: int|
            0 <= i < b[id].children.len() && id < b[id].children[i].0 < b.len()
                && #[trigger] NodeRecord::below(b, b[id].children[i].0 as int).contains(m);
        assert(NodeRecord::below(a, kids[i].0 as int).contains(m));
        crate::arena::coherence::below_of_child(a, id, i, m);
    }
}

/// What lies below a node that hangs nowhere is not in the tree.
proof fn unhung_is_out(s: ArenaState, t: int, k: int)
    requires
        s.coherent(),
        linked(s.nodes),
        0 <= t < s.nodes.len(),
        t != s.root.0,
        s.nodes[t].parent is None,
        NodeRecord::below(s.nodes, t).contains(k),
    ensures
        !NodeRecord::below(s.nodes, s.root.0 as int).contains(k),
    decreases k,
{
    let root = s.root.0 as int;
    if NodeRecord::below(s.nodes, root).contains(k) {
        crate::arena::coherence::below_facts(s.nodes, t, k);
        crate::arena::coherence::below_facts(s.nodes, root, k);
        if k != t && k != root {
            unhung_is_out(s, t, (s.nodes[k].parent->0).0 as int);
        }
    }
}

/// A commit takes a removed subtree out of the tree; it still reads.
proof fn removed_goes(s: ArenaState, c: Commit, next: ArenaState, i: int, id: NodeId)
    requires
        s.wf(),
        s.coherent(),
        s.goes_to(c, next),
        0 <= i < c.batch.tombstones.len(),
        NodeRecord::below(s.nodes, c.batch.tombstones[i].0 as int).contains(id.0 as int),
    ensures
        s.has(id),
        next.gone(id),
        next.at(id).unplaced() == s.at(id).unplaced(),
        next.retired.contains(s.node(id).uuid),
{
    step_commits(s, c, next);
    crate::arena::coherence::whole_plan_holds(s, c.ops, c.fix_even_unparsable);
    crate::arena::plan::plan_behind(
        s.nodes,
        s.root,
        c.ops,
        s.dirty(c.ops),
        c.fix_even_unparsable,
    );
    let stones = c.batch.tombstones;
    let t = stones[i].0 as int;
    let k = id.0 as int;
    crate::arena::coherence::below_facts(s.nodes, t, k);
    assert forall|m: int| #[trigger] NodeRecord::below(s.nodes, t).contains(m) implies
        next.nodes[m].children == s.nodes[m].children && next.nodes[m].kind == s.nodes[m].kind
        && next.nodes[m].fixes == s.nodes[m].fixes by {
        crate::arena::coherence::below_facts(s.nodes, t, m);
        assert(NodeRecord::below(s.nodes, stones[i].0 as int).contains(m));
        assert(NodeId(m as u32).key() == m as u128);
        crate::arena::laws::commit_keeps_nodes(s, c.batch, c.spliced, next, NodeId(m as u32));
    }
    below_agrees(s.nodes, next.nodes, t, k);
    assert forall|m: int| #[trigger] NodeRecord::below(next.nodes, k).contains(m) implies
        !NodeRecord::below(next.nodes, next.root.0 as int).contains(m) by {
        crate::arena::coherence::below_transitive(next.nodes, t, k, m);
        assert(next.node(stones[i]).parent is None);
        unhung_is_out(next, t, m);
    }
    assert forall|m: int| #[trigger] NodeRecord::below(s.nodes, k).contains(m) implies
        next.nodes[m].kind == s.nodes[m].kind && next.nodes[m].fixes == s.nodes[m].fixes
        && next.nodes[m].children == s.nodes[m].children by {
        crate::arena::coherence::below_transitive(s.nodes, t, k, m);
    }
    crate::arena::coherence::unplaced_frame(s.nodes, next.nodes, k);
    row_below_holds(s.nodes, stones, i, k);
    crate::arena::laws::removed_are_retired(s, c.batch, c.spliced, next, id);
}

/// A node that leaves the tree lies in a removed subtree.
proof fn leaving_is_removal(s: ArenaState, c: Commit, next: ArenaState, k: int) -> (i: int)
    requires
        s.wf(),
        s.coherent(),
        s.goes_to(c, next),
        NodeRecord::below(s.nodes, s.root.0 as int).contains(k),
        !NodeRecord::below(next.nodes, next.root.0 as int).contains(k),
    ensures
        0 <= i < c.batch.tombstones.len(),
        NodeRecord::below(s.nodes, c.batch.tombstones[i].0 as int).contains(k),
    decreases k,
{
    broadcast use vstd::seq_lib::group_to_multiset_ensures;

    let feu = c.fix_even_unparsable;
    let root = s.root.0 as int;
    let lists = c.batch.children_of;
    let stones = c.batch.tombstones;
    let id = NodeId(k as u32);
    let o = Overlay { nodes: s.nodes, lists };
    step_commits(s, c, next);
    crate::arena::coherence::whole_plan_holds(s, c.ops, feu);
    crate::arena::coherence::below_facts(s.nodes, root, k);
    assert(NodeRecord::below(next.nodes, root).contains(root));
    crate::arena::coherence::once_each(s, c.ops, feu, id);
    if stones.to_multiset().count(id) > 0 {
        let i = choose|i: int| 0 <= i < stones.len() && stones[i] == id;
        assert(NodeRecord::below(s.nodes, k).contains(k));
        i
    } else {
        crate::arena::coherence::counted_has_place(s.nodes, lists, root, id);
        let (m, j) = choose|m: int, j: int|
            #[trigger] NodeRecord::below(s.nodes, root).contains(m) && 0 <= j < o.row(m).len()
                && #[trigger] o.row(m)[j] == PlannedView::Existing(id);
        crate::arena::coherence::below_facts(s.nodes, root, m);
        placed_child(s, c, next, m, j, id);
        assert(NodeRecord::below(next.nodes, k).contains(k));
        crate::arena::coherence::below_of_child(next.nodes, m, j, k);
        if NodeRecord::below(next.nodes, root).contains(m) {
            crate::arena::coherence::below_transitive(next.nodes, root, m, k);
        }
        let i = leaving_is_removal(s, c, next, m);
        assert(NodeRecord::below(s.nodes, stones[i].0 as int).contains(m));
        assert(!lists.contains_key(m as u128));
        assert(NodeRecord::below(s.nodes, k).contains(k));
        crate::arena::coherence::below_of_child(s.nodes, m, j, k);
        crate::arena::coherence::below_transitive(s.nodes, stones[i].0 as int, m, k);
        i
    }
}

/// A node that the overlay keeps below another hangs there after the commit.
proof fn placed_child(s: ArenaState, c: Commit, next: ArenaState, m: int, j: int, id: NodeId)
    requires
        s.wf(),
        s.coherent(),
        s.goes_to(c, next),
        0 <= m < s.nodes.len(),
        ({
            let row = (Overlay { nodes: s.nodes, lists: c.batch.children_of }).row(m);
            0 <= j < row.len() && row[j] == PlannedView::Existing(id)
        }),
    ensures
        0 <= j < next.nodes[m].children.len(),
        next.nodes[m].children[j] == id,
        m < id.0,
        !c.batch.children_of.contains_key(m as u128) ==> 0 <= j < s.nodes[m].children.len()
            && s.nodes[m].children[j] == id,
{
    step_commits(s, c, next);
    let n = s.nodes.len() as int;
    let lists = c.batch.children_of;
    let buried = s.buried(c.batch.tombstones).nodes;
    assert(next.nodes[m].children == c.spliced[m].children);
    let kids = c.spliced[m].children;
    if lists.contains_key(m as u128) {
        assert(NodeRecord::row_stands(lists[m as u128], n, s.file(), c.spliced, kids));
        assert(NodeRecord::stands_for(lists[m as u128][j], n, s.file(), c.spliced, kids[j]));
    } else {
        assert(kids == buried[m].children);
    }
    assert(m < next.nodes[m].children[j].0);
}

/// What lies below a member of a row lies below the row.
proof fn row_below_holds(nodes: Seq<NodeRecord>, row: Seq<NodeId>, i: int, k: int)
    requires
        0 <= i < row.len(),
        row[i].0 < nodes.len(),
        NodeRecord::below(nodes, row[i].0 as int).contains(k),
    ensures
        NodeRecord::row_below(nodes, -1, row).contains(k),
    decreases row.len(),
{
    if i < row.len() - 1 {
        row_below_holds(nodes, row.drop_last(), i, k);
    }
}

/// What is out of the tree stays out, hangs where it did, and still reads.
proof fn gone_stays(s: ArenaState, c: Commit, next: ArenaState, id: NodeId)
    requires
        s.wf(),
        s.coherent(),
        s.goes_to(c, next),
        s.has(id),
        s.gone(id),
    ensures
        next.gone(id),
        next.at(id).unplaced() == s.at(id).unplaced(),
        s.node(id).parent is None ==> next.node(id).parent is None,
{
    step_commits(s, c, next);
    crate::arena::coherence::whole_plan_holds(s, c.ops, c.fix_even_unparsable);
    let k = id.0 as int;
    let lists = c.batch.children_of;
    assert forall|m: int| #[trigger] NodeRecord::below(s.nodes, k).contains(m) implies
        next.nodes[m].kind == s.nodes[m].kind && next.nodes[m].fixes == s.nodes[m].fixes
        && next.nodes[m].children == s.nodes[m].children by {
        crate::arena::coherence::below_facts(s.nodes, k, m);
        assert(NodeId(m as u32).key() == m as u128);
        if lists.contains_key(m as u128) {
            assert(NodeRecord::below(s.nodes, s.root.0 as int).contains(m as u128 as int));
        }
        crate::arena::laws::commit_keeps_nodes(s, c.batch, c.spliced, next, NodeId(m as u32));
    }
    crate::arena::coherence::unplaced_frame(s.nodes, next.nodes, k);
    assert forall|m: int| #[trigger] NodeRecord::below(next.nodes, k).contains(m) implies
        !NodeRecord::below(next.nodes, next.root.0 as int).contains(m) by {
        below_agrees(s.nodes, next.nodes, k, m);
        crate::arena::coherence::below_facts(s.nodes, k, m);
        if NodeRecord::below(next.nodes, next.root.0 as int).contains(m) {
            was_in_tree(s, c, next, m);
        }
    }
    if s.node(id).parent is None {
        let buried = s.buried(c.batch.tombstones).nodes;
        assert(NodeRecord::rehung(buried, lists, c.spliced, k));
        assert(NodeRecord::below(s.nodes, k).contains(k));
        assert forall|m: u128, j: int| !(#[trigger] NodeRecord::listed(lists, m, j, k)) by {
            if NodeRecord::listed(lists, m, j, k) {
                crate::arena::coherence::only_place(
                    s,
                    c.ops,
                    c.fix_even_unparsable,
                    m,
                    j,
                    k,
                );
            }
        }
        assert(next.nodes[k].parent == c.spliced[k].parent);
    }
}

/// A commit leaves every node of the tree found under its uuid.
proof fn found_stays(s: ArenaState, c: Commit, next: ArenaState)
    requires
        s.wf(),
        s.coherent(),
        s.all_found(),
        s.goes_to(c, next),
    ensures
        next.all_found(),
{
    step_commits(s, c, next);
    crate::arena::plan::plan_behind(
        s.nodes,
        s.root,
        c.ops,
        s.dirty(c.ops),
        c.fix_even_unparsable,
    );
    let stones = c.batch.tombstones;
    let root = next.root.0 as int;
    assert forall|k: int| #[trigger] NodeRecord::below(next.nodes, root).contains(k) implies
        next.by_uuid.contains_key(next.nodes[k].uuid) && next.by_uuid[next.nodes[k].uuid] == k by {
        crate::arena::coherence::below_facts(next.nodes, root, k);
        let u = next.nodes[k].uuid;
        if next.retired.contains(u) {
            if k < s.nodes.len() {
                was_in_tree(s, c, next, k);
                crate::arena::laws::commit_keeps_nodes(
                    s,
                    c.batch,
                    c.spliced,
                    next,
                    NodeId(k as u32),
                );
                assert(s.nodes[k].uuid == u);
                assert(s.by_uuid[u] == k);
                assert(NodeRecord::row_below(s.nodes, -1, stones).contains(k));
                crate::arena::coherence::row_below_facts(s.nodes, -1, stones, k);
                let t = choose|t: NodeId|
                    stones.contains(t) && -1 < t.0 < s.nodes.len() && #[trigger] NodeRecord::below(
                        s.nodes,
                        t.0 as int,
                    ).contains(k);
                let i = choose|i: int| 0 <= i < stones.len() && stones[i] == t;
                removed_goes(s, c, next, i, NodeId(k as u32));
                assert(NodeRecord::below(next.nodes, k).contains(k));
            } else {
                assert(s.known(u)) by {
                    if s.by_uuid.contains_key(u) {
                        assert(s.nodes[s.by_uuid[u] as int].uuid == u);
                    }
                }
                let i = choose|i: int|
                    0 <= i < s.nodes.len() && (#[trigger] s.nodes[i]).uuid == u;
                crate::arena::laws::commit_keeps_nodes(
                    s,
                    c.batch,
                    c.spliced,
                    next,
                    NodeId(i as u32),
                );
                assert(next.nodes[i].uuid == next.nodes[k].uuid);
            }
        }
    }
}

proof fn links_step(s: ArenaState, c: Commit, next: ArenaState)
    requires
        s.wf(),
        s.coherent(),
        s.all_found(),
        s.goes_to(c, next),
    ensures
        next.wf(),
        next.coherent(),
        next.all_found(),
        next.staged is None,
        next.epoch == s.epoch + 1,
{
    step_commits(s, c, next);
    found_stays(s, c, next);
}

/// A commit keeps every node.
proof fn ids_step(s: ArenaState, c: Commit, next: ArenaState, id: NodeId)
    requires
        s.wf(),
        s.coherent(),
        s.goes_to(c, next),
        s.has(id),
    ensures
        s.nodes.len() <= next.nodes.len(),
        next.has(id),
        next.node(id).uuid == s.node(id).uuid,
        next.node(id).kind == s.node(id).kind,
        next.node(id).fixes == s.node(id).fixes,
{
    step_commits(s, c, next);
    crate::arena::laws::commit_keeps_nodes(s, c.batch, c.spliced, next, id);
}

/// After any number of commits links down and up agree and every node of the tree
/// is found under its uuid.
pub proof fn links_hold(states: Seq<ArenaState>, commits: Seq<Commit>, i: int)
    requires
        history(states, commits),
        0 <= i < states.len(),
    ensures
        states[i].wf(),
        states[i].coherent(),
        states[i].all_found(),
        states[i].staged is None,
        states[i].epoch == i,
    decreases i,
{
    if i == 0 {
        let s = states[0];
        coherent_is_linked(s);
        assert forall|k: int| #[trigger] NodeRecord::below(s.nodes, s.root.0 as int).contains(
            k,
        ) implies s.by_uuid.contains_key(s.nodes[k].uuid) && s.by_uuid[s.nodes[k].uuid] == k by {
            crate::arena::coherence::below_facts(s.nodes, s.root.0 as int, k);
            let u = s.nodes[k].uuid;
        }
    } else {
        links_hold(states, commits, i - 1);
        links_step(states[i - 1], commits[i - 1], states[i]);
    }
}

/// Ids stay valid for good: no node is ever freed, and each keeps its uuid,
/// payload and source fixes.
pub proof fn ids_stay_valid(
    states: Seq<ArenaState>,
    commits: Seq<Commit>,
    i: int,
    j: int,
    id: NodeId,
)
    requires
        history(states, commits),
        0 <= i <= j < states.len(),
        states[i].has(id),
    ensures
        states[i].nodes.len() <= states[j].nodes.len(),
        states[j].has(id),
        states[j].node(id).uuid == states[i].node(id).uuid,
        states[j].node(id).kind == states[i].node(id).kind,
        states[j].node(id).fixes == states[i].node(id).fixes,
    decreases j - i,
{
    if i < j {
        ids_stay_valid(states, commits, i, j - 1, id);
        links_hold(states, commits, j - 1);
        ids_step(states[j - 1], commits[j - 1], states[j], id);
    }
}

/// What leaves the tree stays out of it, with all below it: it was removed, its
/// uuid leads nowhere, and its source text still reads.
pub proof fn what_leaves_stays_out(
    states: Seq<ArenaState>,
    commits: Seq<Commit>,
    i: int,
    j: int,
    id: NodeId,
)
    requires
        history(states, commits),
        0 <= i < j < states.len(),
        NodeRecord::below(states[i].nodes, states[i].root.0 as int).contains(id.0 as int),
        !NodeRecord::below(states[i + 1].nodes, states[i + 1].root.0 as int).contains(
            id.0 as int,
        ),
    ensures
        states[j].gone(id),
        !states[j].by_uuid.contains_key(states[i].node(id).uuid),
        states[j].at(id).raw() == states[i].at(id).raw(),
{
    links_hold(states, commits, i);
    let c = commits[i];
    let t = leaving_is_removal(states[i], c, states[i + 1], id.0 as int);
    removed_stay_removed(states, commits, i, j, t, id);
}

/// What a commit removes stays removed: its root hangs nowhere, nothing of it is
/// in the tree, its uuids lead nowhere, and its source text still reads.
pub proof fn removed_stay_removed(
    states: Seq<ArenaState>,
    commits: Seq<Commit>,
    i: int,
    j: int,
    t: int,
    id: NodeId,
)
    requires
        history(states, commits),
        0 <= i < j < states.len(),
        0 <= t < commits[i].batch.tombstones.len(),
        NodeRecord::below(
            states[i].nodes,
            commits[i].batch.tombstones[t].0 as int,
        ).contains(id.0 as int),
    ensures
        states[j].node(commits[i].batch.tombstones[t]).parent is None,
        states[j].gone(id),
        !states[j].by_uuid.contains_key(states[i].node(id).uuid),
        states[j].at(id).raw() == states[i].at(id).raw(),
{
    let s = states[i];
    links_hold(states, commits, j);
    reveal(recorded);
    removed_is_out(states, commits, i, j, t, id);
    reveal(out_since);
    crate::tree::raw_ignores_positions(s.at(id));
    crate::tree::raw_ignores_positions(states[j].at(id));
}

/// Whether a commit leads on from a state in order.
#[verifier::opaque]
spec fn good_step(s: ArenaState, c: Commit, next: ArenaState) -> bool {
    s.wf() && s.coherent() && s.goes_to(c, next)
}

#[verifier::opaque]
spec fn recorded(states: Seq<ArenaState>, commits: Seq<Commit>) -> bool {
    history(states, commits)
}

proof fn step_of(states: Seq<ArenaState>, commits: Seq<Commit>, i: int)
    requires
        recorded(states, commits),
        0 <= i < states.len() - 1,
    ensures
        good_step(states[i], commits[i], states[i + 1]),
{
    reveal(recorded);
    reveal(good_step);
    links_hold(states, commits, i);
}

/// Whether `now` has the subtree of `top`, which `s` had in its tree, and the node
/// `id` of it out of the tree.
#[verifier::opaque]
spec fn out_since(s: ArenaState, now: ArenaState, top: NodeId, id: NodeId) -> bool {
    &&& s.has(id)
    &&& now.has(id)
    &&& now.has(top)
    &&& now.gone(id)
    &&& now.gone(top)
    &&& now.node(top).parent is None
    &&& now.retired.contains(s.node(id).uuid)
    &&& now.at(id).unplaced() == s.at(id).unplaced()
}

proof fn out_at_once(s: ArenaState, c: Commit, next: ArenaState, t: int, id: NodeId)
    requires
        good_step(s, c, next),
        0 <= t < c.batch.tombstones.len(),
        NodeRecord::below(s.nodes, c.batch.tombstones[t].0 as int).contains(id.0 as int),
    ensures
        out_since(s, next, c.batch.tombstones[t], id),
{
    reveal(good_step);
    reveal(out_since);
    let top = c.batch.tombstones[t];
    step_commits(s, c, next);
    removed_goes(s, c, next, t, id);
    crate::arena::coherence::below_facts(s.nodes, top.0 as int, id.0 as int);
    assert(NodeRecord::below(s.nodes, top.0 as int).contains(top.0 as int));
    removed_goes(s, c, next, t, top);
    assert(next.node(c.batch.tombstones[t]).parent is None);
}

proof fn out_still(
    s: ArenaState,
    now: ArenaState,
    c: Commit,
    next: ArenaState,
    top: NodeId,
    id: NodeId,
)
    requires
        out_since(s, now, top, id),
        good_step(now, c, next),
    ensures
        out_since(s, next, top, id),
{
    reveal(good_step);
    reveal(out_since);
    step_commits(now, c, next);
    gone_stays(now, c, next, id);
    gone_stays(now, c, next, top);
    crate::arena::laws::retired_stay_retired(now, c.batch, c.spliced, next, s.node(id).uuid);
}

proof fn removed_is_out(
    states: Seq<ArenaState>,
    commits: Seq<Commit>,
    i: int,
    j: int,
    t: int,
    id: NodeId,
)
    requires
        recorded(states, commits),
        0 <= i < j < states.len(),
        0 <= t < commits[i].batch.tombstones.len(),
        NodeRecord::below(
            states[i].nodes,
            commits[i].batch.tombstones[t].0 as int,
        ).contains(id.0 as int),
    ensures
        out_since(states[i], states[j], commits[i].batch.tombstones[t], id),
    decreases j - i,
{
    step_of(states, commits, j - 1);
    let c = commits[j - 1];
    if j == i + 1 {
        out_at_once(states[i], c, states[j], t, id);
    } else {
        removed_is_out(states, commits, i, j - 1, t, id);
        out_still(
            states[i],
            states[j - 1],
            c,
            states[j],
            commits[i].batch.tombstones[t],
            id,
        );
    }
}

/// A container that gets a new child list had children.
proof fn listed_had_children(
    nodes: Seq<NodeRecord>,
    id: NodeId,
    ops: Ops,
    dirty: Set<u128>,
    feu: bool,
    k: u128,
)
    requires
        SubPlanView::of(nodes, id, ops, dirty, feu).children_of.contains_key(k),
    ensures
        k < nodes.len(),
        nodes[k as int].children.len() > 0,
    decreases nodes.len() - id.0, 1int, 0nat,
{
    let s = Spliced::of(nodes, nodes[id.0 as int].children, ops);
    let r = RowPlanView::of(nodes, id, s.row, s.ops, dirty, feu);
    if r.children_of.contains_key(k) {
        row_listed_had_children(nodes, id, s.row, s.ops, dirty, feu, k);
    }
}

proof fn row_listed_had_children(
    nodes: Seq<NodeRecord>,
    lo: NodeId,
    row: Seq<PlannedView>,
    ops: Ops,
    dirty: Set<u128>,
    feu: bool,
    k: u128,
)
    requires
        RowPlanView::of(nodes, lo, row, ops, dirty, feu).children_of.contains_key(k),
    ensures
        k < nodes.len(),
        nodes[k as int].children.len() > 0,
    decreases nodes.len() - lo.0, 0int, row.len(),
{
    if row.len() > 0 {
        let r = RowPlanView::of(nodes, lo, row.drop_last(), ops, dirty, feu);
        if r.children_of.contains_key(k) {
            row_listed_had_children(nodes, lo, row.drop_last(), ops, dirty, feu, k);
        } else if let PlannedView::Existing(c) = row.last() {
            listed_had_children(nodes, c, r.ops, dirty, feu, k);
        }
    }
}

/// A commit of proper segments keeps the tree proper.
proof fn proper_step(s: ArenaState, c: Commit, next: ArenaState)
    requires
        s.wf(),
        s.coherent(),
        s.proper(),
        s.goes_to(c, next),
        c.brings_proper(),
    ensures
        next.proper(),
{
    let feu = c.fix_even_unparsable;
    step_commits(s, c, next);
    crate::arena::coherence::whole_plan_holds(s, c.ops, feu);
    listed_all_had_children(s, c.ops, feu);
    crate::arena::laws::commit_keeps_proper(s, c.batch, c.spliced, next);
}

proof fn listed_all_had_children(s: ArenaState, ops: Ops, feu: bool)
    requires
        s.wf(),
    ensures
        forall|k: u128| #[trigger]
            s.plan_lists(ops, feu).contains_key(k) ==> s.nodes[k as int].children.len() > 0,
{
    let p = s.plan(ops, feu);
    assert forall|k: u128| #[trigger] s.plan_lists(ops, feu).contains_key(k) implies s.nodes[k as
        int].children.len() > 0 by {
        if p.children_of.contains_key(k) {
            listed_had_children(s.nodes, s.root, ops, s.dirty(ops), feu, k);
        }
    }
}

/// A commit brings about what staging predicted.
proof fn predicted_step(s: ArenaState, c: Commit, next: ArenaState)
    requires
        s.wf(),
        s.coherent(),
        s.goes_to(c, next),
        lists_over_containers(s.overlay(c.ops, c.fix_even_unparsable)),
    ensures
        ({
            let seen = s.overlay(c.ops, c.fix_even_unparsable);
            &&& next.tree().raw() == seen.raw(s.root.0 as int)
            &&& next.tree().source_fixes() == seen.fixes(s.root.0 as int)
        }),
{
    step_commits(s, c, next);
    crate::arena::laws::commit_brings_the_prediction(
        s,
        c.ops,
        c.fix_even_unparsable,
        c.batch,
        c.spliced,
        next,
    );
}

/// After any number of commits of proper segments the tree is proper.
pub proof fn stays_proper(states: Seq<ArenaState>, commits: Seq<Commit>, i: int)
    requires
        history(states, commits),
        forall|j: int| 0 <= j < commits.len() ==> (#[trigger] commits[j]).brings_proper(),
        0 <= i < states.len(),
    ensures
        states[i].proper(),
    decreases i,
{
    if i > 0 {
        stays_proper(states, commits, i - 1);
        links_hold(states, commits, i - 1);
        proper_step(states[i - 1], commits[i - 1], states[i]);
    }
}

/// Where all commits brought proper segments, edits reach into segments and what
/// did not parse only.
pub proof fn proper_edits_stay_in_containers(
    states: Seq<ArenaState>,
    commits: Seq<Commit>,
    i: int,
)
    requires
        history(states, commits),
        forall|j: int| 0 <= j < commits.len() ==> (#[trigger] commits[j]).brings_proper(),
        0 <= i < commits.len(),
    ensures
        lists_over_containers(
            states[i].overlay(commits[i].ops, commits[i].fix_even_unparsable),
        ),
{
    links_hold(states, commits, i);
    stays_proper(states, commits, i);
    let s = states[i];
    listed_all_had_children(s, commits[i].ops, commits[i].fix_even_unparsable);
    let o = s.overlay(commits[i].ops, commits[i].fix_even_unparsable);
    assert forall|k: u128| #[trigger]
        o.lists.contains_key(k) && k < o.nodes.len() implies o.nodes[k as int].kind is Segment
        || o.nodes[k as int].kind is Unparsable by {
        assert(s.nodes[k as int].children.len() > 0);
    }
}

/// Every commit of a history brings about what staging predicted: the source text
/// and the source fixes of the whole tree, where its edits reach into segments and
/// what did not parse only.
pub proof fn predictions_come_true(states: Seq<ArenaState>, commits: Seq<Commit>, i: int)
    requires
        history(states, commits),
        0 <= i < commits.len(),
        lists_over_containers(
            states[i].overlay(commits[i].ops, commits[i].fix_even_unparsable),
        ),
    ensures
        ({
            let s = states[i];
            let root = s.root.0 as int;
            let seen = s.overlay(commits[i].ops, commits[i].fix_even_unparsable);
            &&& states[i + 1].tree().raw() == seen.raw(root)
            &&& states[i + 1].tree().source_fixes() == seen.fixes(root)
        }),
{
    links_hold(states, commits, i);
    predicted_step(states[i], commits[i], states[i + 1]);
}

} // verus!
