//! The nesting of every leaf, as reflow reads it, in one walk.

use vstd::prelude::*;

use crate::arena::state::NodeId;
use crate::arena::Arena;
use crate::tables::IdSet;

#[allow(unused_imports)]
use crate::arena::state::{ArenaState, NodeRecord};
#[allow(unused_imports)]
use crate::arena::walk::{stack_place, StepView};

verus! {

/// A step down: the uuid of the container, the place in it, the number of its
/// children, and where the place stands among the code (`start`, `end`, `solo`
/// or nothing).
pub type DepthStep = (u128, usize, usize, String);

/// The mathematical form of [`DepthStep`].
pub type DepthView = (u128, usize, nat, Seq<char>);

/// The mathematical forms of a stack of steps.
pub open spec fn depth_views(list: Seq<DepthStep>) -> Seq<DepthView> {
    Seq::new(list.len(), |i: int| (list[i].0, list[i].1, list[i].2 as nat, list[i].3@))
}

/// The mathematical forms of leaves with their stacks.
pub open spec fn leaf_depth_views(list: Seq<(u128, Vec<DepthStep>)>) -> Seq<
    (u128, Seq<DepthView>),
> {
    Seq::new(list.len(), |i: int| (list[i].0, depth_views(list[i].1@)))
}

/// The mathematical forms of containers with their types.
pub open spec fn type_views(list: Seq<(u128, Vec<String>)>) -> Seq<(u128, Seq<Seq<char>>)> {
    Seq::new(list.len(), |i: int| (list[i].0, crate::text::texts(list[i].1@)))
}

/// The members of a list at their first occurrence.
pub open spec fn firsts(list: Seq<NodeId>) -> Seq<NodeId>
    decreases list.len(),
{
    if list.len() == 0 {
        Seq::empty()
    } else {
        let before = firsts(list.drop_last());
        if before.contains(list.last()) {
            before
        } else {
            before.push(list.last())
        }
    }
}

impl ArenaState {
    /// The steps with uuids in place of ids.
    pub open spec fn depth_of(self, steps: Seq<StepView>) -> Seq<DepthView> {
        Seq::new(
            steps.len(),
            |i: int|
                (
                    self.node(steps[i].node).uuid,
                    steps[i].idx,
                    steps[i].len,
                    stack_place(steps[i].code_idxs, steps[i].idx as int),
                ),
        )
    }

    /// The leaves with their stacks.
    pub open spec fn depths_of(self, list: Seq<(NodeId, Seq<StepView>)>) -> Seq<
        (u128, Seq<DepthView>),
    > {
        Seq::new(list.len(), |i: int| (self.node(list[i].0).uuid, self.depth_of(list[i].1)))
    }

    /// The containers with their types.
    pub open spec fn types_of(self, list: Seq<NodeId>) -> Seq<(u128, Seq<Seq<char>>)> {
        Seq::new(
            list.len(),
            |i: int| (self.node(list[i]).uuid, self.node(list[i]).kind.type_list()),
        )
    }
}

proof fn firsts_push(list: Seq<NodeId>, c: NodeId)
    ensures
        firsts(list.push(c)) == (if firsts(list).contains(c) {
            firsts(list)
        } else {
            firsts(list).push(c)
        }),
{
    assert(list.push(c).drop_last() =~= list);
}

proof fn firsts_contains(list: Seq<NodeId>, c: NodeId)
    ensures
        firsts(list).contains(c) == list.contains(c),
    decreases list.len(),
{
    if list.len() > 0 {
        let rest = list.drop_last();
        firsts_contains(rest, c);
        let before = firsts(rest);
        if before.contains(c) {
            let i = choose|i: int| 0 <= i < before.len() && before[i] == c;
            assert(before.push(list.last())[i] == c);
            let j = choose|j: int| 0 <= j < rest.len() && rest[j] == c;
            assert(list[j] == c);
        }
        if list.last() == c {
            assert(before.push(c)[before.len() as int] == c);
            assert(list[list.len() - 1] == c);
        }
        if list.contains(c) && list.last() != c {
            let j = choose|j: int| 0 <= j < list.len() && list[j] == c;
            assert(rest[j] == c);
        }
        if firsts(list).contains(c) && !before.contains(c) {
            let i = choose|i: int| 0 <= i < firsts(list).len() && firsts(list)[i] == c;
            if i < before.len() {
                assert(before[i] == c);
            }
        }
    }
}

/// A copy of a stack.
fn clone_stack(list: &Vec<DepthStep>) -> (r: Vec<DepthStep>)
    ensures
        r@ == list@,
{
    let mut out: Vec<DepthStep> = Vec::new();
    for i in 0..list.len()
        invariant
            out@ == list@.take(i as int),
    {
        out.push((list[i].0, list[i].1, list[i].2, list[i].3.clone()));
    }
    assert(list@.take(list@.len() as int) == list@);
    out
}

/// Where a place stands among those of the code.
fn stack_place_text(code: &Vec<usize>, i: usize) -> (r: String)
    ensures
        r@ == stack_place(code@, i as int),
{
    if code.len() == 0 {
        "".to_owned()
    } else if code.len() == 1 {
        "solo".to_owned()
    } else if i == code[0] {
        "start".to_owned()
    } else if i == code[code.len() - 1] {
        "end".to_owned()
    } else {
        "".to_owned()
    }
}

impl Arena {
    /// For every leaf below `root` its uuid and the steps down to it; and the
    /// types of every container on the way, each container once.
    pub fn reflow_depth_info(&self, root: NodeId) -> (r: (
        Vec<(u128, Vec<DepthStep>)>,
        Vec<(u128, Vec<String>)>,
    ))
        requires
            self.wf(),
            self@.has(root),
        ensures
            leaf_depth_views(r.0@) == self@.depths_of(
                NodeRecord::leaf_paths(self@.nodes, root.0 as int, Seq::empty()),
            ),
            type_views(r.1@) == self@.types_of(
                firsts(NodeRecord::containers(self@.nodes, root.0 as int)),
            ),
    {
        let mut per_leaf: Vec<(u128, Vec<DepthStep>)> = Vec::new();
        let mut types: Vec<(u128, Vec<String>)> = Vec::new();
        let mut seen = IdSet::new();
        let mut stack: Vec<DepthStep> = Vec::new();
        let ghost none = Seq::<NodeId>::empty();
        let ghost steps = Seq::<StepView>::empty();
        assert(depth_views(stack@) =~= self@.depth_of(steps));
        assert(type_views(types@) =~= self@.types_of(firsts(none)));
        self.rdi_dfs(
            root,
            &mut stack,
            &mut per_leaf,
            &mut types,
            &mut seen,
            Ghost(steps),
            Ghost(none),
        );
        proof {
            let all = NodeRecord::leaf_paths(self@.nodes, root.0 as int, steps);
            assert(leaf_depth_views(per_leaf@) =~= self@.depths_of(all));
            assert(none + NodeRecord::containers(self@.nodes, root.0 as int)
                =~= NodeRecord::containers(self@.nodes, root.0 as int));
        }
        (per_leaf, types)
    }

    fn rdi_dfs(
        &self,
        node: NodeId,
        stack: &mut Vec<DepthStep>,
        per_leaf: &mut Vec<(u128, Vec<DepthStep>)>,
        types: &mut Vec<(u128, Vec<String>)>,
        seen: &mut IdSet,
        Ghost(steps): Ghost<Seq<StepView>>,
        Ghost(visited): Ghost<Seq<NodeId>>,
    )
        requires
            self.wf(),
            self@.has(node),
            depth_views(old(stack)@) == self@.depth_of(steps),
            type_views(old(types)@) == self@.types_of(firsts(visited)),
            forall|c: NodeId| #[trigger]
                self@.has(c) ==> (old(seen)@.contains(self@.node(c).uuid) <==> visited.contains(c)),
        ensures
            final(stack)@ == old(stack)@,
            leaf_depth_views(final(per_leaf)@) == leaf_depth_views(old(per_leaf)@)
                + self@.depths_of(NodeRecord::leaf_paths(self@.nodes, node.0 as int, steps)),
            type_views(final(types)@) == self@.types_of(
                firsts(visited + NodeRecord::containers(self@.nodes, node.0 as int)),
            ),
            forall|c: NodeId| #[trigger]
                self@.has(c) ==> (final(seen)@.contains(self@.node(c).uuid) <==> (visited
                    + NodeRecord::containers(self@.nodes, node.0 as int)).contains(c)),
        decreases self@.nodes.len() - node.0,
    {
        let ghost lo = node.0 as int;
        let kids = self.children(node);
        let ghost row = kids@;
        let ghost start = leaf_depth_views(per_leaf@);
        if kids.len() == 0 {
            per_leaf.push((self.uuid(node), clone_stack(stack)));
            proof {
                assert(leaf_depth_views(per_leaf@) =~= start + self@.depths_of(
                    NodeRecord::leaf_paths(self@.nodes, lo, steps),
                ));
                assert(visited + NodeRecord::containers(self@.nodes, lo) =~= visited);
            }
            return;
        }
        let step = self.make_step(node, 0);
        let ghost code = step.code_idxs@;
        let node_uuid = self.uuid(node);
        let ghost types0 = type_views(types@);
        let ghost all = visited.push(node);
        proof {
            firsts_push(visited, node);
            firsts_contains(visited, node);
            assert(NodeId(lo as u32) == node);
        }
        let ghost seen0 = seen@;
        if seen.insert(node_uuid) {
            let own = self.class_types(node);
            types.push((node_uuid, own));
            assert(type_views(types@) =~= types0.push((node_uuid, self@.node(node).kind.type_list())));
        }
        proof {
            assert(type_views(types@) =~= self@.types_of(firsts(all)));
            assert forall|c: NodeId| #[trigger] self@.has(c) implies (seen@.contains(
                self@.node(c).uuid,
            ) <==> all.contains(c)) by {
                if c == node {
                    assert(all[visited.len() as int] == node);
                } else {
                    assert(self@.nodes[c.0 as int].uuid != self@.nodes[lo].uuid);
                    if visited.contains(c) {
                        let i = choose|i: int| 0 <= i < visited.len() && visited[i] == c;
                        assert(all[i] == c);
                    }
                    if all.contains(c) {
                        let i = choose|i: int| 0 <= i < all.len() && all[i] == c;
                        assert(visited[i] == c);
                    }
                }
            }
            assert(row.take(0) =~= Seq::empty());
            assert(all + NodeRecord::row_containers(self@.nodes, lo, row.take(0)) =~= all);
            assert(leaf_depth_views(per_leaf@) =~= start + self@.depths_of(
                NodeRecord::row_leaf_paths(self@.nodes, lo, row.take(0), steps),
            ));
        }
        for i in 0..kids.len()
            invariant
                self.wf(),
                self@.has(node),
                lo == node.0,
                row == kids@,
                kids@ == self@.node(node).children,
                node_uuid == self@.node(node).uuid,
                NodeId(lo as u32) == node,
                code == step.code_idxs@,
                step@ == NodeRecord::step(self@.nodes, lo, 0),
                stack@ == old(stack)@,
                depth_views(stack@) == self@.depth_of(steps),
                leaf_depth_views(per_leaf@) == start + self@.depths_of(
                    NodeRecord::row_leaf_paths(self@.nodes, lo, row.take(i as int), steps),
                ),
                type_views(types@) == self@.types_of(
                    firsts(
                        all + NodeRecord::row_containers(self@.nodes, lo, row.take(i as int)),
                    ),
                ),
                forall|c: NodeId| #[trigger]
                    self@.has(c) ==> (seen@.contains(self@.node(c).uuid) <==> (all
                        + NodeRecord::row_containers(
                        self@.nodes,
                        lo,
                        row.take(i as int),
                    )).contains(c)),
        {
            let ghost done = all + NodeRecord::row_containers(
                self@.nodes,
                lo,
                row.take(i as int),
            );
            let ghost leaves0 = leaf_depth_views(per_leaf@);
            proof {
                self@.lemma_at(node);
                assert(self@.node(node).children[i as int] == kids@[i as int]);
                assert(row.take(i + 1).drop_last() =~= row.take(i as int));
            }
            let place = stack_place_text(&step.code_idxs, i);
            stack.push((node_uuid, i, step.len, place));
            let ghost deep = steps.push(NodeRecord::step(self@.nodes, lo, i));
            proof {
                let was = depth_views(old(stack)@);
                let now = depth_views(stack@);
                let want = self@.depth_of(deep);
                assert(was.len() == steps.len());
                assert(step@.code_idxs == NodeRecord::step(self@.nodes, lo, i).code_idxs);
                assert forall|j: int| 0 <= j < now.len() implies now[j] == want[j] by {
                    if j < was.len() {
                        assert(now[j] == was[j]);
                        assert(self@.depth_of(steps)[j] == want[j]);
                    } else {
                        assert(deep[j] == NodeRecord::step(self@.nodes, lo, i));
                    }
                }
            }
            assert(depth_views(stack@) =~= self@.depth_of(deep));
            self.rdi_dfs(kids[i], stack, per_leaf, types, seen, Ghost(deep), Ghost(done));
            stack.pop();
            proof {
                let c = kids@[i as int].0 as int;
                assert(stack@ =~= old(stack)@);
                let more = NodeRecord::leaf_paths(self@.nodes, c, deep);
                let before = NodeRecord::row_leaf_paths(
                    self@.nodes,
                    lo,
                    row.take(i as int),
                    steps,
                );
                assert(self@.depths_of(before) + self@.depths_of(more) =~= self@.depths_of(
                    before + more,
                ));
                assert(leaf_depth_views(per_leaf@) =~= start + self@.depths_of(
                    NodeRecord::row_leaf_paths(self@.nodes, lo, row.take(i + 1), steps),
                ));
                assert(done + NodeRecord::containers(self@.nodes, c) =~= all
                    + NodeRecord::row_containers(self@.nodes, lo, row.take(i + 1)));
            }
        }
        proof {
            assert(row.take(row.len() as int) =~= row);
            assert(all + NodeRecord::row_containers(self@.nodes, lo, row) =~= visited
                + NodeRecord::containers(self@.nodes, lo));
        }
    }
}

} // verus!
