//! Walking the tree: children by type, leaves, crawls and paths.

use vstd::prelude::*;

use crate::arena::state::NodeId;
use crate::arena::Arena;


#[allow(unused_imports)]
use crate::arena::state::{ArenaState, NodeRecord};
#[allow(unused_imports)]
use crate::tree::Tree;

verus! {

/// A step on the way from a node down to one below it.
#[derive(Debug, PartialEq)]
pub struct PathStep {
    /// The node that the step starts from.
    pub node: NodeId,
    /// The place of the child that the step goes to.
    pub idx: usize,
    /// The number of children.
    pub len: usize,
    /// The places of the children that are code.
    pub code_idxs: Vec<usize>,
}

/// The mathematical form of [`PathStep`].
#[verifier::ext_equal]
pub struct StepView {
    pub node: NodeId,
    pub idx: usize,
    pub len: nat,
    pub code_idxs: Seq<usize>,
}

impl PathStep {
    /// The mathematical form.
    pub open spec fn view(self) -> StepView {
        StepView {
            node: self.node,
            idx: self.idx,
            len: self.len as nat,
            code_idxs: self.code_idxs@,
        }
    }

    /// The mathematical forms of a list.
    pub open spec fn views(list: Seq<PathStep>) -> Seq<StepView> {
        Seq::new(list.len(), |i: int| list[i]@)
    }
}

impl Clone for PathStep {
    fn clone(&self) -> (r: PathStep)
        ensures
            r@ == self@,
    {
        let mut code_idxs: Vec<usize> = Vec::new();
        code_idxs.extend_from_slice(self.code_idxs.as_slice());
        assert(code_idxs@ =~= self.code_idxs@);
        PathStep { node: self.node, idx: self.idx, len: self.len, code_idxs }
    }
}

/// The places of the trees that are code.
pub open spec fn code_places(row: Seq<Tree>) -> Seq<usize>
    decreases row.len(),
{
    if row.len() == 0 {
        Seq::empty()
    } else {
        let before = code_places(row.drop_last());
        if row.last().is_code() {
            before.push((row.len() - 1) as usize)
        } else {
            before
        }
    }
}

/// Where a place stands among those of the code: `solo` where there is only one
/// of those, `start` and `end` at the first and the last, nothing in between.
pub open spec fn stack_place(code: Seq<usize>, i: int) -> Seq<char> {
    if code.len() == 0 {
        ""@
    } else if code.len() == 1 {
        "solo"@
    } else if i == code[0] {
        "start"@
    } else if i == code.last() {
        "end"@
    } else {
        ""@
    }
}

impl NodeRecord {
    /// The leaves below a node, in order.
    pub open spec fn leaves(nodes: Seq<NodeRecord>, id: int) -> Seq<NodeId>
        decreases nodes.len() - id, 1int, 0nat,
    {
        if 0 <= id < nodes.len() && nodes[id].children.len() > 0 {
            NodeRecord::row_leaves(nodes, id, nodes[id].children)
        } else {
            seq![NodeId(id as u32)]
        }
    }

    /// The leaves below the nodes of a row behind `lo`.
    pub open spec fn row_leaves(nodes: Seq<NodeRecord>, lo: int, row: Seq<NodeId>) -> Seq<NodeId>
        decreases nodes.len() - lo, 0int, row.len(),
    {
        if row.len() == 0 {
            Seq::empty()
        } else {
            let before = NodeRecord::row_leaves(nodes, lo, row.drop_last());
            let c = row.last().0 as int;
            if lo < c < nodes.len() {
                before + NodeRecord::leaves(nodes, c)
            } else {
                before
            }
        }
    }

    /// A node and all below it, each before what is below it.
    pub open spec fn preorder(nodes: Seq<NodeRecord>, id: int) -> Seq<NodeId>
        decreases nodes.len() - id, 1int, 0nat,
    {
        if 0 <= id < nodes.len() {
            seq![NodeId(id as u32)] + NodeRecord::row_preorder(nodes, id, nodes[id].children)
        } else {
            Seq::empty()
        }
    }

    /// The same of a row behind `lo`.
    pub open spec fn row_preorder(nodes: Seq<NodeRecord>, lo: int, row: Seq<NodeId>) -> Seq<NodeId>
        decreases nodes.len() - lo, 0int, row.len(),
    {
        if row.len() == 0 {
            Seq::empty()
        } else {
            let before = NodeRecord::row_preorder(nodes, lo, row.drop_last());
            let c = row.last().0 as int;
            if lo < c < nodes.len() {
                before + NodeRecord::preorder(nodes, c)
            } else {
                before
            }
        }
    }

    /// The nodes of the types in document order: the start itself where
    /// `allow_self`, and what lies below. A match is not searched further
    /// unless `recurse_into`; a child of one of the `stop` types is taken if it is
    /// of the types, and never searched further.
    pub open spec fn crawl(
        nodes: Seq<NodeRecord>,
        id: int,
        types: Seq<Seq<char>>,
        recurse_into: bool,
        stop: Seq<Seq<char>>,
        allow_self: bool,
    ) -> Seq<NodeId>
        decreases nodes.len() - id, 1int, 0nat,
    {
        if 0 <= id < nodes.len() {
            let hit = allow_self && nodes[id].kind.is_any_type(types);
            let own = if hit {
                seq![NodeId(id as u32)]
            } else {
                Seq::empty()
            };
            if recurse_into || !hit {
                own + NodeRecord::row_crawl(
                    nodes,
                    id,
                    nodes[id].children,
                    types,
                    recurse_into,
                    stop,
                )
            } else {
                own
            }
        } else {
            Seq::empty()
        }
    }

    /// The same of the children of a row behind `lo`.
    pub open spec fn row_crawl(
        nodes: Seq<NodeRecord>,
        lo: int,
        row: Seq<NodeId>,
        types: Seq<Seq<char>>,
        recurse_into: bool,
        stop: Seq<Seq<char>>,
    ) -> Seq<NodeId>
        decreases nodes.len() - lo, 0int, row.len(),
    {
        if row.len() == 0 {
            Seq::empty()
        } else {
            let before = NodeRecord::row_crawl(
                nodes,
                lo,
                row.drop_last(),
                types,
                recurse_into,
                stop,
            );
            let c = row.last().0 as int;
            if !(lo < c < nodes.len()) {
                before
            } else if !nodes[c].kind.is_any_type(stop) {
                before + NodeRecord::crawl(nodes, c, types, recurse_into, stop, true)
            } else if nodes[c].kind.is_any_type(types) {
                before.push(row.last())
            } else {
                before
            }
        }
    }

    /// A step from a node to its child at a place.
    pub open spec fn step(nodes: Seq<NodeRecord>, from: int, idx: usize) -> StepView {
        StepView {
            node: NodeId(from as u32),
            idx,
            len: nodes[from].children.len(),
            code_idxs: code_places(NodeRecord::tree_of(nodes, from).children),
        }
    }

    /// The steps from `from` down to `to`, by the links from child to
    /// container; none where `from` is not above `to`.
    pub open spec fn path(nodes: Seq<NodeRecord>, from: int, to: int) -> Option<Seq<StepView>>
        decreases to,
    {
        if to == from {
            Some(Seq::empty())
        } else if 0 <= to < nodes.len() && nodes[to].parent is Some && (nodes[to].parent->0).0
            < to {
            let p = (nodes[to].parent->0).0 as int;
            match NodeRecord::path(nodes, from, p) {
                Some(steps) => Some(
                    steps.push(NodeRecord::step(nodes, p, nodes[to].parent_idx)),
                ),
                None => None,
            }
        } else {
            None
        }
    }

    /// The leaves below a node with the steps that lead to each, behind those
    /// of `stack`.
    pub open spec fn leaf_paths(nodes: Seq<NodeRecord>, id: int, stack: Seq<StepView>) -> Seq<
        (NodeId, Seq<StepView>),
    >
        decreases nodes.len() - id, 1int, 0nat,
    {
        if 0 <= id < nodes.len() && nodes[id].children.len() > 0 {
            NodeRecord::row_leaf_paths(nodes, id, nodes[id].children, stack)
        } else {
            seq![(NodeId(id as u32), stack)]
        }
    }

    /// The same of the first children of a node.
    pub open spec fn row_leaf_paths(
        nodes: Seq<NodeRecord>,
        lo: int,
        row: Seq<NodeId>,
        stack: Seq<StepView>,
    ) -> Seq<(NodeId, Seq<StepView>)>
        decreases nodes.len() - lo, 0int, row.len(),
    {
        if row.len() == 0 {
            Seq::empty()
        } else {
            let before = NodeRecord::row_leaf_paths(nodes, lo, row.drop_last(), stack);
            let c = row.last().0 as int;
            if lo < c < nodes.len() {
                before + NodeRecord::leaf_paths(
                    nodes,
                    c,
                    stack.push(NodeRecord::step(nodes, lo, (row.len() - 1) as usize)),
                )
            } else {
                before
            }
        }
    }

    /// The containers below a node, itself included, each before what is below
    /// it.
    pub open spec fn containers(nodes: Seq<NodeRecord>, id: int) -> Seq<NodeId>
        decreases nodes.len() - id, 1int, 0nat,
    {
        if 0 <= id < nodes.len() && nodes[id].children.len() > 0 {
            seq![NodeId(id as u32)] + NodeRecord::row_containers(nodes, id, nodes[id].children)
        } else {
            Seq::empty()
        }
    }

    /// The same of a row behind `lo`.
    pub open spec fn row_containers(
        nodes: Seq<NodeRecord>,
        lo: int,
        row: Seq<NodeId>,
    ) -> Seq<NodeId>
        decreases nodes.len() - lo, 0int, row.len(),
    {
        if row.len() == 0 {
            Seq::empty()
        } else {
            let before = NodeRecord::row_containers(nodes, lo, row.drop_last());
            let c = row.last().0 as int;
            if lo < c < nodes.len() {
                before + NodeRecord::containers(nodes, c)
            } else {
                before
            }
        }
    }
}

impl Arena {
    /// The first child of one of the types.
    pub fn get_child(&self, id: NodeId, seg_type: &[String]) -> (r: Option<NodeId>)
        requires
            self.wf(),
            self@.has(id),
        ensures
            match r {
                Some(c) => exists|i: int|
                    0 <= i < self@.node(id).children.len() && #[trigger] self@.node(id).children[i]
                        == c && self@.node(c).kind.is_any_type(crate::text::texts(seg_type@))
                        && forall|j: int|
                        0 <= j < i ==> !self@.node(
                            #[trigger] self@.node(id).children[j],
                        ).kind.is_any_type(crate::text::texts(seg_type@)),
                None => forall|j: int|
                    0 <= j < self@.node(id).children.len() ==> !self@.node(
                        #[trigger] self@.node(id).children[j],
                    ).kind.is_any_type(crate::text::texts(seg_type@)),
            },
    {
        let kids = self.children(id);
        let mut i: usize = 0;
        while i < kids.len()
            invariant
                self.wf(),
                self@.has(id),
                kids@ == self@.node(id).children,
                i <= kids@.len(),
                forall|j: int|
                    0 <= j < i ==> !self@.node(
                        #[trigger] self@.node(id).children[j],
                    ).kind.is_any_type(crate::text::texts(seg_type@)),
            decreases kids@.len() - i,
        {
            proof {
                self@.lemma_at(id);
                assert(self@.node(id).children[i as int] == kids@[i as int]);
            }
            if self.is_any_type(kids[i], seg_type) {
                return Some(kids[i]);
            }
            i += 1;
        }
        None
    }

    /// All children of one of the types, in order.
    pub fn get_children(&self, id: NodeId, seg_type: &[String]) -> (r: Vec<NodeId>)
        requires
            self.wf(),
            self@.has(id),
        ensures
            r@ == self@.node(id).children.filter(
                |c: NodeId| self@.node(c).kind.is_any_type(crate::text::texts(seg_type@)),
            ),
    {
        let kids = self.children(id);
        let ghost pred = |c: NodeId|
            self@.node(c).kind.is_any_type(crate::text::texts(seg_type@));
        let mut out: Vec<NodeId> = Vec::new();
        proof {
            reveal(Seq::filter);
        }
        assert(kids@.take(0).filter(pred) =~= Seq::empty());
        for i in 0..kids.len()
            invariant
                self.wf(),
                self@.has(id),
                kids@ == self@.node(id).children,
                pred == (|c: NodeId|
                    self@.node(c).kind.is_any_type(crate::text::texts(seg_type@))),
                out@ == kids@.take(i as int).filter(pred),
        {
            proof {
                self@.lemma_at(id);
                assert(self@.node(id).children[i as int] == kids@[i as int]);
                reveal(Seq::filter);
                assert(kids@.take(i + 1).drop_last() =~= kids@.take(i as int));
            }
            if self.is_any_type(kids[i], seg_type) {
                out.push(kids[i]);
            }
        }
        assert(kids@.take(kids@.len() as int) =~= kids@);
        out
    }

    /// The leaves below a node, in order.
    pub fn raw_segments(&self, id: NodeId) -> (r: Vec<NodeId>)
        requires
            self.wf(),
            self@.has(id),
        ensures
            r@ == NodeRecord::leaves(self@.nodes, id.0 as int),
            forall|i: int| 0 <= i < r@.len() ==> self@.has(#[trigger] r@[i]),
    {
        let mut out: Vec<NodeId> = Vec::new();
        self.collect_raw_segments(id, &mut out);
        assert(out@ =~= NodeRecord::leaves(self@.nodes, id.0 as int));
        out
    }

    fn collect_raw_segments(&self, id: NodeId, out: &mut Vec<NodeId>)
        requires
            self.wf(),
            self@.has(id),
            forall|i: int| 0 <= i < old(out)@.len() ==> self@.has(#[trigger] old(out)@[i]),
        ensures
            final(out)@ == old(out)@ + NodeRecord::leaves(self@.nodes, id.0 as int),
            forall|i: int| 0 <= i < final(out)@.len() ==> self@.has(#[trigger] final(out)@[i]),
        decreases self@.nodes.len() - id.0,
    {
        let kids = self.children(id);
        if kids.len() == 0 {
            out.push(id);
            assert(out@ =~= old(out)@ + NodeRecord::leaves(self@.nodes, id.0 as int));
        } else {
            let ghost lo = id.0 as int;
            let ghost row = kids@;
            assert(row.take(0) =~= Seq::empty());
            assert(out@ =~= old(out)@ + NodeRecord::row_leaves(self@.nodes, lo, row.take(0)));
            for i in 0..kids.len()
                invariant
                    self.wf(),
                    self@.has(id),
                    lo == id.0,
                    row == kids@,
                    kids@ == self@.node(id).children,
                    forall|j: int| 0 <= j < out@.len() ==> self@.has(#[trigger] out@[j]),
                    out@ == old(out)@ + NodeRecord::row_leaves(
                        self@.nodes,
                        lo,
                        row.take(i as int),
                    ),
            {
                proof {
                    self@.lemma_at(id);
                    assert(self@.node(id).children[i as int] == kids@[i as int]);
                    assert(row.take(i + 1).drop_last() =~= row.take(i as int));
                }
                self.collect_raw_segments(kids[i], out);
                assert(out@ =~= old(out)@ + NodeRecord::row_leaves(
                    self@.nodes,
                    lo,
                    row.take(i + 1),
                ));
            }
            assert(row.take(row.len() as int) =~= row);
        }
    }

    /// The nodes of the types below a node, in document order. The search stops at
    /// nodes of the types in `no_recursive_seg_type`; such a node is still given if
    /// it matches. The start itself does not stop the search.
    pub fn recursive_crawl(
        &self,
        id: NodeId,
        seg_type: &[String],
        recurse_into: bool,
        no_recursive_seg_type: &[String],
        allow_self: bool,
    ) -> (r: Vec<NodeId>)
        requires
            self.wf(),
            self@.has(id),
        ensures
            r@ == NodeRecord::crawl(
                self@.nodes,
                id.0 as int,
                crate::text::texts(seg_type@),
                recurse_into,
                crate::text::texts(no_recursive_seg_type@),
                allow_self,
            ),
    {
        let mut out: Vec<NodeId> = Vec::new();
        self.recursive_crawl_into(
            id,
            seg_type,
            recurse_into,
            no_recursive_seg_type,
            allow_self,
            &mut out,
        );
        assert(out@ =~= NodeRecord::crawl(
            self@.nodes,
            id.0 as int,
            crate::text::texts(seg_type@),
            recurse_into,
            crate::text::texts(no_recursive_seg_type@),
            allow_self,
        ));
        out
    }

    fn recursive_crawl_into(
        &self,
        id: NodeId,
        seg_type: &[String],
        recurse_into: bool,
        no_recursive_seg_type: &[String],
        allow_self: bool,
        out: &mut Vec<NodeId>,
    )
        requires
            self.wf(),
            self@.has(id),
        ensures
            final(out)@ == old(out)@ + NodeRecord::crawl(
                self@.nodes,
                id.0 as int,
                crate::text::texts(seg_type@),
                recurse_into,
                crate::text::texts(no_recursive_seg_type@),
                allow_self,
            ),
        decreases self@.nodes.len() - id.0,
    {
        let ghost types = crate::text::texts(seg_type@);
        let ghost stop = crate::text::texts(no_recursive_seg_type@);
        let ghost lo = id.0 as int;
        let ghost row = self@.node(id).children;
        let hit = allow_self && self.is_any_type(id, seg_type);
        if hit {
            out.push(id);
        }
        let ghost own = out@;
        let below = self.descendant_type_set(id);
        let mut reachable = false;
        let mut i: usize = 0;
        while i < seg_type.len() && !reachable
            invariant
                i <= seg_type@.len(),
                types == crate::text::texts(seg_type@),
                !reachable ==> forall|j: int|
                    0 <= j < i ==> !below@.contains(#[trigger] types[j]),
            decreases seg_type@.len() - i,
        {
            if below.contains(seg_type[i].as_str()) {
                reachable = true;
            }
            i += 1;
        }
        if !reachable {
            proof {
                nothing_below(
                    self@,
                    id,
                    types,
                    recurse_into,
                    stop,
                );
                assert(out@ =~= old(out)@ + NodeRecord::crawl(
                    self@.nodes,
                    lo,
                    types,
                    recurse_into,
                    stop,
                    allow_self,
                ));
            }
            return;
        }
        if recurse_into || !hit {
            let kids = self.children(id);
            assert(row.take(0) =~= Seq::empty());
            assert(out@ =~= own + NodeRecord::row_crawl(
                self@.nodes,
                lo,
                row.take(0),
                types,
                recurse_into,
                stop,
            ));
            for i in 0..kids.len()
                invariant
                    self.wf(),
                    self@.has(id),
                    lo == id.0,
                    row == kids@,
                    kids@ == self@.node(id).children,
                    types == crate::text::texts(seg_type@),
                    stop == crate::text::texts(no_recursive_seg_type@),
                    out@ == own + NodeRecord::row_crawl(
                        self@.nodes,
                        lo,
                        row.take(i as int),
                        types,
                        recurse_into,
                        stop,
                    ),
            {
                proof {
                    self@.lemma_at(id);
                    assert(self@.node(id).children[i as int] == kids@[i as int]);
                    assert(row.take(i + 1).drop_last() =~= row.take(i as int));
                }
                let c = kids[i];
                if no_recursive_seg_type.len() == 0 || !self.is_any_type(
                    c,
                    no_recursive_seg_type,
                ) {
                    self.recursive_crawl_into(
                        c,
                        seg_type,
                        recurse_into,
                        no_recursive_seg_type,
                        true,
                        out,
                    );
                } else if self.is_any_type(c, seg_type) {
                    out.push(c);
                }
                assert(out@ =~= own + NodeRecord::row_crawl(
                    self@.nodes,
                    lo,
                    row.take(i + 1),
                    types,
                    recurse_into,
                    stop,
                ));
            }
            assert(row.take(row.len() as int) =~= row);
        }
        assert(out@ =~= old(out)@ + NodeRecord::crawl(
            self@.nodes,
            lo,
            types,
            recurse_into,
            stop,
            allow_self,
        ));
    }

    /// A node and all below it in document order.
    pub fn recursive_crawl_all(&self, id: NodeId) -> (r: Vec<NodeId>)
        requires
            self.wf(),
            self@.has(id),
        ensures
            r@ == NodeRecord::preorder(self@.nodes, id.0 as int),
    {
        let mut out: Vec<NodeId> = Vec::new();
        self.crawl_all_into(id, &mut out);
        assert(out@ =~= NodeRecord::preorder(self@.nodes, id.0 as int));
        out
    }

    fn crawl_all_into(&self, id: NodeId, out: &mut Vec<NodeId>)
        requires
            self.wf(),
            self@.has(id),
        ensures
            final(out)@ == old(out)@ + NodeRecord::preorder(self@.nodes, id.0 as int),
        decreases self@.nodes.len() - id.0,
    {
        let ghost lo = id.0 as int;
        let kids = self.children(id);
        let ghost row = kids@;
        out.push(id);
        let ghost own = out@;
        assert(row.take(0) =~= Seq::empty());
        assert(out@ =~= own + NodeRecord::row_preorder(self@.nodes, lo, row.take(0)));
        for i in 0..kids.len()
            invariant
                self.wf(),
                self@.has(id),
                lo == id.0,
                row == kids@,
                kids@ == self@.node(id).children,
                out@ == own + NodeRecord::row_preorder(self@.nodes, lo, row.take(i as int)),
        {
            proof {
                self@.lemma_at(id);
                assert(self@.node(id).children[i as int] == kids@[i as int]);
                assert(row.take(i + 1).drop_last() =~= row.take(i as int));
            }
            self.crawl_all_into(kids[i], out);
            assert(out@ =~= own + NodeRecord::row_preorder(self@.nodes, lo, row.take(i + 1)));
        }
        assert(row.take(row.len() as int) =~= row);
        assert(out@ =~= old(out)@ + NodeRecord::preorder(self@.nodes, lo));
    }

    /// The container of a node, and the node's place in it.
    pub fn get_parent(&self, id: NodeId) -> (r: Option<(NodeId, usize)>)
        requires
            self@.has(id),
        ensures
            r == (match self@.node(id).parent {
                Some(p) => Some((p, self@.node(id).parent_idx)),
                None => None,
            }),
    {
        match self.parent(id) {
            Some(p) => Some((p, self.nodes[id.idx()].parent_idx)),
            None => None,
        }
    }

    /// The places of the children that are code.
    fn code_children(&self, id: NodeId) -> (r: Vec<usize>)
        requires
            self.wf(),
            self@.has(id),
        ensures
            r@ == code_places(self@.at(id).children),
    {
        let kids = self.children(id);
        let ghost trees = self@.at(id).children;
        proof {
            self@.lemma_at(id);
        }
        let mut out: Vec<usize> = Vec::new();
        assert(trees.take(0) =~= Seq::empty());
        for i in 0..kids.len()
            invariant
                self.wf(),
                self@.has(id),
                kids@ == self@.node(id).children,
                trees == self@.at(id).children,
                trees.len() == kids@.len(),
                out@ == code_places(trees.take(i as int)),
        {
            proof {
                self@.lemma_at(id);
                assert(self@.node(id).children[i as int] == kids@[i as int]);
                assert(trees.take(i + 1).drop_last() =~= trees.take(i as int));
            }
            if self.is_code(kids[i]) {
                out.push(i);
            }
        }
        assert(trees.take(trees.len() as int) =~= trees);
        out
    }

    /// A step from a node to its child at a place.
    pub(crate) fn make_step(&self, from: NodeId, idx: usize) -> (r: PathStep)
        requires
            self.wf(),
            self@.has(from),
        ensures
            r@ == NodeRecord::step(self@.nodes, from.0 as int, idx),
    {
        let code_idxs = self.code_children(from);
        PathStep { node: from, idx, len: self.children(from).len(), code_idxs }
    }

    /// The steps from `from` down to `to`, by the links from child to container;
    /// none where `from` is not above `to`.
    pub fn path_to(&self, from: NodeId, to: NodeId) -> (r: Vec<PathStep>)
        requires
            self.wf(),
            self@.has(from),
            self@.has(to),
        ensures
            PathStep::views(r@) == (match NodeRecord::path(
                self@.nodes,
                from.0 as int,
                to.0 as int,
            ) {
                Some(steps) => steps,
                None => Seq::empty(),
            }),
    {
        match self.steps_to(from, to) {
            Some(steps) => steps,
            None => {
                let none: Vec<PathStep> = Vec::new();
                assert(PathStep::views(none@) =~= Seq::empty());
                none
            },
        }
    }

    fn steps_to(&self, from: NodeId, to: NodeId) -> (r: Option<Vec<PathStep>>)
        requires
            self.wf(),
            self@.has(from),
            self@.has(to),
        ensures
            match r {
                Some(steps) => NodeRecord::path(self@.nodes, from.0 as int, to.0 as int) == Some(
                    PathStep::views(steps@),
                ),
                None => NodeRecord::path(self@.nodes, from.0 as int, to.0 as int) is None,
            },
        decreases to.0,
    {
        if to == from {
            let none: Vec<PathStep> = Vec::new();
            assert(PathStep::views(none@) =~= Seq::empty());
            return Some(none);
        }
        match self.get_parent(to) {
            Some((p, idx)) => {
                assert(self@.nodes[to.0 as int].parent == Some(p));
                match self.steps_to(from, p) {
                    Some(steps) => {
                        let ghost before = PathStep::views(steps@);
                        let mut steps = steps;
                        let step = self.make_step(p, idx);
                        let ghost view = step@;
                        steps.push(step);
                        assert(PathStep::views(steps@) =~= before.push(view));
                        Some(steps)
                    },
                    None => None,
                }
            },
            None => None,
        }
    }

    /// The leaves below a node, each with the steps from the node down to it, in
    /// one walk.
    pub fn raw_segments_with_ancestors(&self, root: NodeId) -> (r: Vec<(NodeId, Vec<PathStep>)>)
        requires
            self.wf(),
            self@.has(root),
        ensures
            path_views(r@) == NodeRecord::leaf_paths(self@.nodes, root.0 as int, Seq::empty()),
    {
        let mut out: Vec<(NodeId, Vec<PathStep>)> = Vec::new();
        let mut stack: Vec<PathStep> = Vec::new();
        assert(PathStep::views(stack@) =~= Seq::empty());
        self.rwa_dfs(root, &mut stack, &mut out);
        assert(path_views(out@) =~= NodeRecord::leaf_paths(
            self@.nodes,
            root.0 as int,
            Seq::empty(),
        ));
        out
    }

    fn rwa_dfs(
        &self,
        node: NodeId,
        stack: &mut Vec<PathStep>,
        out: &mut Vec<(NodeId, Vec<PathStep>)>,
    )
        requires
            self.wf(),
            self@.has(node),
        ensures
            PathStep::views(final(stack)@) == PathStep::views(old(stack)@),
            path_views(final(out)@) == path_views(old(out)@) + NodeRecord::leaf_paths(
                self@.nodes,
                node.0 as int,
                PathStep::views(old(stack)@),
            ),
        decreases self@.nodes.len() - node.0,
    {
        let ghost lo = node.0 as int;
        let ghost base = PathStep::views(stack@);
        let kids = self.children(node);
        let ghost row = kids@;
        if kids.len() == 0 {
            out.push((node, clone_steps(stack)));
            assert(path_views(out@) =~= path_views(old(out)@) + NodeRecord::leaf_paths(
                self@.nodes,
                lo,
                base,
            ));
            return;
        }
        let ghost start = path_views(out@);
        assert(row.take(0) =~= Seq::empty());
        assert(path_views(out@) =~= start + NodeRecord::row_leaf_paths(
            self@.nodes,
            lo,
            row.take(0),
            base,
        ));
        for i in 0..kids.len()
            invariant
                self.wf(),
                self@.has(node),
                lo == node.0,
                row == kids@,
                kids@ == self@.node(node).children,
                PathStep::views(stack@) == base,
                path_views(out@) == start + NodeRecord::row_leaf_paths(
                    self@.nodes,
                    lo,
                    row.take(i as int),
                    base,
                ),
        {
            proof {
                self@.lemma_at(node);
                assert(self@.node(node).children[i as int] == kids@[i as int]);
                assert(row.take(i + 1).drop_last() =~= row.take(i as int));
            }
            let step = self.make_step(node, i);
            let ghost view = step@;
            stack.push(step);
            assert(PathStep::views(stack@) =~= base.push(view));
            self.rwa_dfs(kids[i], stack, out);
            let ghost deep = PathStep::views(stack@);
            assert(stack@.len() == deep.len());
            stack.pop();
            assert(PathStep::views(stack@) =~= deep.drop_last());
            assert(PathStep::views(stack@) =~= base);
            assert(path_views(out@) =~= start + NodeRecord::row_leaf_paths(
                self@.nodes,
                lo,
                row.take(i + 1),
                base,
            ));
        }
        assert(row.take(row.len() as int) =~= row);
    }
}

/// A copy of the steps.
fn clone_steps(list: &Vec<PathStep>) -> (r: Vec<PathStep>)
    ensures
        PathStep::views(r@) == PathStep::views(list@),
{
    let mut out: Vec<PathStep> = Vec::new();
    let ghost all = PathStep::views(list@);
    assert(PathStep::views(out@) =~= all.take(0));
    for i in 0..list.len()
        invariant
            all == PathStep::views(list@),
            PathStep::views(out@) == all.take(i as int),
    {
        let ghost before = PathStep::views(out@);
        out.push(list[i].clone());
        assert(PathStep::views(out@) =~= before.push(all[i as int]));
        assert(PathStep::views(out@) =~= all.take(i + 1));
    }
    assert(all.take(all.len() as int) =~= all);
    out
}

/// The mathematical form of leaves with their steps.
pub open spec fn path_views(list: Seq<(NodeId, Vec<PathStep>)>) -> Seq<(NodeId, Seq<StepView>)> {
    Seq::new(list.len(), |i: int| (list[i].0, PathStep::views(list[i].1@)))
}

/// Where none of the types occurs below a node, a crawl finds none there.
proof fn nothing_below(
    s: ArenaState,
    id: NodeId,
    types: Seq<Seq<char>>,
    recurse_into: bool,
    stop: Seq<Seq<char>>,
)
    requires
        s.wf(),
        s.has(id),
        forall|j: int| 0 <= j < types.len() ==> !s.at(id).types_below().contains(#[trigger] types[j]),
    ensures
        NodeRecord::row_crawl(
            s.nodes,
            id.0 as int,
            s.node(id).children,
            types,
            recurse_into,
            stop,
        ) == Seq::<NodeId>::empty(),
    decreases s.nodes.len() - id.0, 1int, 0nat,
{
    s.lemma_at(id);
    nothing_in_row(s, id, s.node(id).children.len() as int, types, recurse_into, stop);
    let row = s.node(id).children;
    assert(row.take(row.len() as int) =~= row);
}

proof fn nothing_in_row(
    s: ArenaState,
    id: NodeId,
    n: int,
    types: Seq<Seq<char>>,
    recurse_into: bool,
    stop: Seq<Seq<char>>,
)
    requires
        s.wf(),
        s.has(id),
        0 <= n <= s.node(id).children.len(),
        forall|j: int| 0 <= j < types.len() ==> !s.at(id).types_below().contains(#[trigger] types[j]),
    ensures
        NodeRecord::row_crawl(
            s.nodes,
            id.0 as int,
            s.node(id).children.take(n),
            types,
            recurse_into,
            stop,
        ) == Seq::<NodeId>::empty(),
    decreases s.nodes.len() - id.0, 0int, n,
{
    s.lemma_at(id);
    let row = s.node(id).children;
    if n > 0 {
        nothing_in_row(s, id, n - 1, types, recurse_into, stop);
        assert(row.take(n).drop_last() =~= row.take(n - 1));
        let c = row[n - 1];
        assert(row.take(n).last() == c);
        let trees = s.at(id).children;
        assert(trees[n - 1] == s.at(c));
        assert(id.0 < s.node(id).children[n - 1].0);
        s.lemma_at(c);
        types_of_member(trees, n - 1);
        assert forall|j: int| 0 <= j < types.len() implies !s.at(c).types_below().contains(
            #[trigger] types[j],
        ) by {
            assert(!s.at(id).types_below().contains(types[j]));
        }
        nothing_below(s, c, types, recurse_into, stop);
        assert(!s.node(c).kind.is_any_type(types)) by {
            if s.node(c).kind.is_any_type(types) {
                let j = choose|j: int|
                    0 <= j < types.len() && s.node(c).kind.is_type(#[trigger] types[j]);
                crate::kind::type_is_listed(s.node(c).kind, types[j]);
                assert(s.at(c).kind.type_list().to_set().contains(types[j]));
                assert(!s.at(id).types_below().contains(types[j]));
            }
        }
        assert(NodeRecord::crawl(s.nodes, c.0 as int, types, recurse_into, stop, true)
            =~= Seq::empty());
    }
    assert(NodeRecord::row_crawl(
        s.nodes,
        id.0 as int,
        row.take(n),
        types,
        recurse_into,
        stop,
    ) =~= Seq::<NodeId>::empty());
}

/// The types of a member of a row are among those of the row.
proof fn types_of_member(row: Seq<Tree>, i: int)
    requires
        0 <= i < row.len(),
    ensures
        row[i].kind.type_list().to_set().subset_of(Tree::types_of(row)),
        row[i].types_below().subset_of(Tree::types_of(row)),
    decreases row.len(),
{
    if i < row.len() - 1 {
        types_of_member(row.drop_last(), i);
        assert(row.drop_last()[i] == row[i]);
    }
}

/// The text below a node is that of its leaves, in order, in a tree where only
/// segments and what did not parse have children.
pub proof fn text_is_that_of_the_leaves(s: ArenaState, id: NodeId)
    requires
        s.wf(),
        s.proper(),
        s.has(id),
    ensures
        s.at(id).raw() == leaf_texts(s, NodeRecord::leaves(s.nodes, id.0 as int)),
    decreases s.nodes.len() - id.0, 1int, 0nat,
{
    s.lemma_at(id);
    let kids = s.node(id).children;
    if kids.len() == 0 {
        let one = seq![id];
        assert(one.drop_last() =~= Seq::empty());
        assert(NodeId(id.0 as int as u32) == id);
        assert(leaf_texts(s, one) =~= leaf_texts(s, one.drop_last()) + s.at(id).raw());
        assert(leaf_texts(s, one.drop_last()) =~= Seq::empty());
    } else {
        assert(s.nodes[id.0 as int].children.len() > 0);
        text_of_row(s, id, kids.len() as int);
        assert(kids.take(kids.len() as int) =~= kids);
        let trees = s.at(id).children;
        assert(trees.take(trees.len() as int) =~= trees);
    }
}

proof fn text_of_row(s: ArenaState, id: NodeId, n: int)
    requires
        s.wf(),
        s.proper(),
        s.has(id),
        0 <= n <= s.node(id).children.len(),
    ensures
        Tree::raws(s.at(id).children.take(n)) == leaf_texts(
            s,
            NodeRecord::row_leaves(s.nodes, id.0 as int, s.node(id).children.take(n)),
        ),
    decreases s.nodes.len() - id.0, 0int, n,
{
    s.lemma_at(id);
    let kids = s.node(id).children;
    let trees = s.at(id).children;
    if n > 0 {
        text_of_row(s, id, n - 1);
        assert(kids.take(n).drop_last() =~= kids.take(n - 1));
        assert(trees.take(n).drop_last() =~= trees.take(n - 1));
        let c = kids[n - 1];
        assert(kids.take(n).last() == c);
        assert(id.0 < s.node(id).children[n - 1].0);
        assert(trees.take(n).last() == trees[n - 1]);
        text_is_that_of_the_leaves(s, c);
        leaf_texts_concat(
            s,
            NodeRecord::row_leaves(s.nodes, id.0 as int, kids.take(n - 1)),
            NodeRecord::leaves(s.nodes, c.0 as int),
        );
    } else {
        assert(kids.take(0) =~= Seq::empty());
        assert(trees.take(0) =~= Seq::empty());
    }
}

/// The texts of leaves, joined.
pub open spec fn leaf_texts(s: ArenaState, leaves: Seq<NodeId>) -> Seq<char>
    decreases leaves.len(),
{
    if leaves.len() == 0 {
        Seq::empty()
    } else {
        leaf_texts(s, leaves.drop_last()) + s.at(leaves.last()).raw()
    }
}

proof fn leaf_texts_concat(s: ArenaState, a: Seq<NodeId>, b: Seq<NodeId>)
    ensures
        leaf_texts(s, a + b) == leaf_texts(s, a) + leaf_texts(s, b),
    decreases b.len(),
{
    if b.len() == 0 {
        assert(a + b =~= a);
        assert(leaf_texts(s, a) + leaf_texts(s, b) =~= leaf_texts(s, a));
    } else {
        assert((a + b).drop_last() =~= a + b.drop_last());
        leaf_texts_concat(s, a, b.drop_last());
        assert(leaf_texts(s, a + b) =~= leaf_texts(s, a) + leaf_texts(s, b));
    }
}

/// A crawl that goes into matches, stops nowhere and takes the start along finds
/// every node of the types.
pub proof fn crawl_finds_all(nodes: Seq<NodeRecord>, id: int, types: Seq<Seq<char>>)
    requires
        nodes.len() <= u32::MAX,
    ensures
        NodeRecord::crawl(nodes, id, types, true, Seq::empty(), true) == NodeRecord::preorder(
            nodes,
            id,
        ).filter(|c: NodeId| nodes[c.0 as int].kind.is_any_type(types)),
    decreases nodes.len() - id, 1int, 0nat,
{
    let pred = |c: NodeId| nodes[c.0 as int].kind.is_any_type(types);
    reveal(Seq::filter);
    if 0 <= id < nodes.len() {
        let row = nodes[id].children;
        row_crawl_finds_all(nodes, id, row, types);
        let own = seq![NodeId(id as u32)];
        Seq::filter_distributes_over_add(own, NodeRecord::row_preorder(nodes, id, row), pred);
        assert(own.drop_last() =~= Seq::empty());
        assert(own.drop_last().filter(pred) =~= Seq::empty());
        assert(own.filter(pred) =~= if nodes[id].kind.is_any_type(types) {
            own
        } else {
            Seq::empty()
        });
    }
}

/// A child of the types is found, also where its type stops the search: only what
/// lies below it is then left out.
pub proof fn crawl_finds_children(
    nodes: Seq<NodeRecord>,
    id: int,
    types: Seq<Seq<char>>,
    recurse_into: bool,
    stop: Seq<Seq<char>>,
    allow_self: bool,
    i: int,
)
    requires
        NodeRecord::kids_behind(nodes),
        0 <= id < nodes.len(),
        0 <= i < nodes[id].children.len(),
        nodes[nodes[id].children[i].0 as int].kind.is_any_type(types),
        recurse_into || !allow_self || !nodes[id].kind.is_any_type(types),
    ensures
        NodeRecord::crawl(nodes, id, types, recurse_into, stop, allow_self).contains(
            nodes[id].children[i],
        ),
{
    let row = nodes[id].children;
    row_crawl_finds(nodes, id, row.len() as int, types, recurse_into, stop, i);
    assert(row.take(row.len() as int) =~= row);
    let rest = NodeRecord::row_crawl(nodes, id, row, types, recurse_into, stop);
    let at = choose|at: int| 0 <= at < rest.len() && rest[at] == row[i];
    let all = NodeRecord::crawl(nodes, id, types, recurse_into, stop, allow_self);
    let own = all.len() - rest.len();
    assert(all[own + at] == row[i]);
}

proof fn row_crawl_finds(
    nodes: Seq<NodeRecord>,
    id: int,
    n: int,
    types: Seq<Seq<char>>,
    recurse_into: bool,
    stop: Seq<Seq<char>>,
    i: int,
)
    requires
        NodeRecord::kids_behind(nodes),
        0 <= id < nodes.len(),
        0 <= i < n <= nodes[id].children.len(),
        nodes[nodes[id].children[i].0 as int].kind.is_any_type(types),
    ensures
        NodeRecord::row_crawl(
            nodes,
            id,
            nodes[id].children.take(n),
            types,
            recurse_into,
            stop,
        ).contains(nodes[id].children[i]),
    decreases n,
{
    let row = nodes[id].children;
    let all = NodeRecord::row_crawl(nodes, id, row.take(n), types, recurse_into, stop);
    let before = NodeRecord::row_crawl(nodes, id, row.take(n - 1), types, recurse_into, stop);
    assert(row.take(n).drop_last() =~= row.take(n - 1));
    assert(row.take(n).last() == row[n - 1]);
    if i < n - 1 {
        row_crawl_finds(nodes, id, n - 1, types, recurse_into, stop, i);
        let at = choose|at: int| 0 <= at < before.len() && before[at] == row[i];
        assert(all[at] == row[i]);
    } else {
        let c = row[i].0 as int;
        assert(id < row[i].0 < nodes.len());
        assert(NodeId(c as u32) == row[i]);
        if !nodes[c].kind.is_any_type(stop) {
            let own = NodeRecord::crawl(nodes, c, types, recurse_into, stop, true);
            assert(own[0] == row[i]);
        }
        assert(all[before.len() as int] == row[i]);
    }
}

proof fn row_crawl_finds_all(
    nodes: Seq<NodeRecord>,
    lo: int,
    row: Seq<NodeId>,
    types: Seq<Seq<char>>,
)
    requires
        nodes.len() <= u32::MAX,
    ensures
        NodeRecord::row_crawl(nodes, lo, row, types, true, Seq::empty())
            == NodeRecord::row_preorder(nodes, lo, row).filter(
            |c: NodeId| nodes[c.0 as int].kind.is_any_type(types),
        ),
    decreases nodes.len() - lo, 0int, row.len(),
{
    let pred = |c: NodeId| nodes[c.0 as int].kind.is_any_type(types);
    reveal(Seq::filter);
    if row.len() > 0 {
        row_crawl_finds_all(nodes, lo, row.drop_last(), types);
        let c = row.last().0 as int;
        if lo < c < nodes.len() {
            crawl_finds_all(nodes, c, types);
            assert(!nodes[c].kind.is_any_type(Seq::empty()));
            Seq::filter_distributes_over_add(
                NodeRecord::row_preorder(nodes, lo, row.drop_last()),
                NodeRecord::preorder(nodes, c),
                pred,
            );
        }
    } else {
        assert(NodeRecord::row_preorder(nodes, lo, row).filter(pred) =~= Seq::empty());
    }
}

/// The steps that one walk records for a leaf are those of the path to it.
pub proof fn walked_paths_are_paths(s: ArenaState, root: NodeId, i: int)
    requires
        s.wf(),
        s.coherent(),
        s.has(root),
        0 <= i < NodeRecord::leaf_paths(s.nodes, root.0 as int, Seq::empty()).len(),
    ensures
        ({
            let entry = NodeRecord::leaf_paths(s.nodes, root.0 as int, Seq::empty())[i];
            NodeRecord::path(s.nodes, root.0 as int, (entry.0).0 as int) == Some(entry.1)
        }),
{
    walked_below(s, root.0 as int, root.0 as int, Seq::empty(), i);
}

proof fn walked_below(s: ArenaState, root: int, id: int, stack: Seq<StepView>, i: int)
    requires
        s.wf(),
        s.coherent(),
        0 <= root <= id < s.nodes.len(),
        NodeRecord::path(s.nodes, root, id) == Some(stack),
        0 <= i < NodeRecord::leaf_paths(s.nodes, id, stack).len(),
    ensures
        ({
            let entry = NodeRecord::leaf_paths(s.nodes, id, stack)[i];
            NodeRecord::path(s.nodes, root, (entry.0).0 as int) == Some(entry.1)
        }),
    decreases s.nodes.len() - id, 1int, 0nat,
{
    let kids = s.nodes[id].children;
    if kids.len() > 0 {
        assert(kids.take(kids.len() as int) =~= kids);
        walked_row(s, root, id, kids.len() as int, stack, i);
    } else {
        assert(NodeId(id as u32).0 == id);
    }
}

proof fn walked_row(s: ArenaState, root: int, id: int, n: int, stack: Seq<StepView>, i: int)
    requires
        s.wf(),
        s.coherent(),
        0 <= root <= id < s.nodes.len(),
        NodeRecord::path(s.nodes, root, id) == Some(stack),
        0 <= n <= s.nodes[id].children.len(),
        0 <= i < NodeRecord::row_leaf_paths(
            s.nodes,
            id,
            s.nodes[id].children.take(n),
            stack,
        ).len(),
    ensures
        ({
            let entry = NodeRecord::row_leaf_paths(
                s.nodes,
                id,
                s.nodes[id].children.take(n),
                stack,
            )[i];
            NodeRecord::path(s.nodes, root, (entry.0).0 as int) == Some(entry.1)
        }),
    decreases s.nodes.len() - id, 0int, n,
{
    let kids = s.nodes[id].children;
    if n > 0 {
        assert(kids.take(n).drop_last() =~= kids.take(n - 1));
        let before = NodeRecord::row_leaf_paths(s.nodes, id, kids.take(n - 1), stack);
        let c = s.nodes[id].children[n - 1].0 as int;
        assert(kids.take(n).last().0 == c);
        if i < before.len() {
            walked_row(s, root, id, n - 1, stack, i);
        } else {
            assert(s.nodes[c].parent == Some(NodeId(id as u32)) && s.nodes[c].parent_idx == n - 1);
            let deep = stack.push(NodeRecord::step(s.nodes, id, (n - 1) as usize));
            assert(NodeRecord::path(s.nodes, root, c) == Some(deep));
            walked_below(s, root, c, deep, i - before.len());
        }
    } else {
        assert(kids.take(0) =~= Seq::empty());
    }
}

} // verus!
