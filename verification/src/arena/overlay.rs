//! Reading the tree as a staged edit batch will leave it.

use std::sync::Arc;
use vstd::prelude::*;

use crate::arena::state::{NodeId, PlannedChild};
use crate::arena::Arena;
use crate::marker::TemplatedFile;
use crate::revalidate::LeafDescriptor;
use crate::tables::Table;
use crate::tree::SourceFixSpec;

#[allow(unused_imports)]
use crate::arena::state::{NodeRecord, PlannedView};
#[allow(unused_imports)]
use crate::edit::SpecTree;
#[allow(unused_imports)]
use crate::tree::{FixView, LeafView, Tree};

verus! {

/// New child lists laid over an arena.
#[verifier::ext_equal]
pub struct Overlay {
    pub nodes: Seq<NodeRecord>,
    pub lists: Map<u128, Seq<PlannedView>>,
}

impl PlannedView {
    /// The tree that a segment to be created becomes, at the position that it
    /// takes over, if any.
    pub open spec fn new_tree(
        spec: SpecTree,
        marker: Option<crate::marker::PositionMarker>,
        file: Option<Arc<TemplatedFile>>,
    ) -> Tree {
        if marker is Some {
            Tree { marker, ..spec.tree(file) }
        } else {
            spec.tree(file)
        }
    }
}

impl Overlay {
    /// The children of a node under the overlay.
    pub open spec fn row(self, id: int) -> Seq<PlannedView> {
        if self.lists.contains_key(id as u128) {
            self.lists[id as u128]
        } else {
            PlannedView::kept_row(self.nodes[id].children)
        }
    }

    /// The tree below a node under the overlay.
    pub open spec fn tree(self, file: Option<Arc<TemplatedFile>>, id: int) -> Tree
        decreases self.nodes.len() - id,
    {
        if 0 <= id < self.nodes.len() {
            let n = self.nodes[id];
            let row = self.row(id);
            Tree {
                kind: n.kind,
                marker: n.marker,
                fixes: n.fixes,
                children: Seq::new(
                    row.len(),
                    |i: int|
                        match row[i] {
                            PlannedView::Existing(c) => if id < c.0 < self.nodes.len() {
                                self.tree(file, c.0 as int)
                            } else {
                                arbitrary()
                            },
                            PlannedView::New(spec, marker) => PlannedView::new_tree(
                                spec,
                                marker,
                                file,
                            ),
                        },
                ),
            }
        } else {
            arbitrary()
        }
    }

    /// The predicted source text below a node.
    pub open spec fn raw(self, id: int) -> Seq<char>
        decreases self.nodes.len() - id, 1int, 0nat,
    {
        if 0 <= id < self.nodes.len() && self.lists.contains_key(id as u128) {
            self.row_raw(id, self.lists[id as u128])
        } else {
            NodeRecord::tree_of(self.nodes, id).raw()
        }
    }

    /// The predicted source text of a row below `lo`.
    pub open spec fn row_raw(self, lo: int, row: Seq<PlannedView>) -> Seq<char>
        decreases self.nodes.len() - lo, 0int, row.len(),
    {
        if row.len() == 0 {
            Seq::empty()
        } else {
            self.row_raw(lo, row.drop_last()) + match row.last() {
                PlannedView::Existing(c) => if lo < c.0 < self.nodes.len() {
                    self.raw(c.0 as int)
                } else {
                    Seq::empty()
                },
                PlannedView::New(spec, _) => spec.raw(),
            }
        }
    }

    /// The predicted source fixes below a node.
    pub open spec fn fixes(self, id: int) -> Seq<FixView>
        decreases self.nodes.len() - id, 1int, 0nat,
    {
        if 0 <= id < self.nodes.len() {
            self.nodes[id].fixes + self.row_fixes(id, self.row(id))
        } else {
            Seq::empty()
        }
    }

    /// The predicted source fixes of a row below `lo`.
    pub open spec fn row_fixes(self, lo: int, row: Seq<PlannedView>) -> Seq<FixView>
        decreases self.nodes.len() - lo, 0int, row.len(),
    {
        if row.len() == 0 {
            Seq::empty()
        } else {
            self.row_fixes(lo, row.drop_last()) + match row.last() {
                PlannedView::Existing(c) => if lo < c.0 < self.nodes.len() {
                    self.fixes(c.0 as int)
                } else {
                    Seq::empty()
                },
                PlannedView::New(spec, _) => spec.source_fixes(),
            }
        }
    }

    /// The leaves below a node under the overlay.
    pub open spec fn leaves(self, id: int) -> Seq<LeafView>
        decreases self.nodes.len() - id, 1int, 0nat,
    {
        if 0 <= id < self.nodes.len() {
            if !self.lists.contains_key(id as u128) && self.nodes[id].children.len() == 0 {
                seq![NodeRecord::tree_of(self.nodes, id).leaf_view()]
            } else {
                self.row_leaves(id, self.row(id))
            }
        } else {
            Seq::empty()
        }
    }

    /// The leaves of a row below `lo`.
    pub open spec fn row_leaves(self, lo: int, row: Seq<PlannedView>) -> Seq<LeafView>
        decreases self.nodes.len() - lo, 0int, row.len(),
    {
        if row.len() == 0 {
            Seq::empty()
        } else {
            self.row_leaves(lo, row.drop_last()) + match row.last() {
                PlannedView::Existing(c) => if lo < c.0 < self.nodes.len() {
                    self.leaves(c.0 as int)
                } else {
                    Seq::empty()
                },
                PlannedView::New(spec, _) => spec.leaves(),
            }
        }
    }

    /// Every list lies behind its container.
    pub open spec fn behind(self) -> bool {
        crate::arena::plan::lists_behind(self.lists, 0, self.nodes)
    }
}

impl Arena {
    /// The arena under new child lists.
    pub open spec fn under(&self, lists: Map<u128, Vec<PlannedChild>>) -> Overlay {
        Overlay { nodes: self@.nodes, lists: crate::arena::state::plan_view(lists) }
    }

    /// The predicted source text below a node.
    pub(crate) fn planned_raw(&self, id: NodeId, lists: &Table<Vec<PlannedChild>>) -> (r: String)
        requires
            self.wf(),
            self@.has(id),
            lists.wf(),
            self.under(lists@).behind(),
        ensures
            r@ == self.under(lists@).raw(id.0 as int),
        decreases self@.nodes.len() - id.0,
    {
        match lists.get(id.table_key()) {
            None => self.raw(id),
            Some(planned) => {
                let ghost o = self.under(lists@);
                let ghost row = PlannedChild::views(planned@);
                assert(o.lists[id.key()] == row);
                let mut s = String::new();
                assert(row.take(0) =~= Seq::empty());
                for i in 0..planned.len()
                    invariant
                        self.wf(),
                        self@.has(id),
                        lists.wf(),
                        o == self.under(lists@),
                        o.behind(),
                        row == PlannedChild::views(planned@),
                        o.lists.contains_key(id.key()),
                        o.lists[id.key()] == row,
                        s@ == o.row_raw(id.0 as int, row.take(i as int)),
                {
                    assert(row[i as int] == planned@[i as int]@);
                    assert(row.take(i + 1).drop_last() =~= row.take(i as int));
                    let part = match &planned[i] {
                        PlannedChild::Existing(c) => self.planned_raw(*c, lists),
                        PlannedChild::New(spec, _) => spec.spec_raw(),
                    };
                    s.push_str(part.as_str());
                }
                assert(row.take(row.len() as int) =~= row);
                s
            },
        }
    }

    /// Appends the predicted source fixes below a node.
    pub(crate) fn planned_source_fixes(
        &self,
        id: NodeId,
        lists: &Table<Vec<PlannedChild>>,
        out: &mut Vec<SourceFixSpec>,
    )
        requires
            self.wf(),
            self@.has(id),
            lists.wf(),
            self.under(lists@).behind(),
        ensures
            SourceFixSpec::views(final(out)@) == SourceFixSpec::views(old(out)@) + self.under(
                lists@,
            ).fixes(id.0 as int),
        decreases self@.nodes.len() - id.0,
    {
        let ghost o = self.under(lists@);
        let ghost row = o.row(id.0 as int);
        let ghost start = SourceFixSpec::views(out@) + self@.node(id).fixes;
        let ghost first = SourceFixSpec::views(out@);
        proof {
            self@.lemma_at(id);
        }
        self.own_source_fixes(id, out);
        assert(row.take(0) =~= Seq::empty());
        assert(SourceFixSpec::views(out@) =~= start + o.row_fixes(id.0 as int, row.take(0)));
        match lists.get(id.table_key()) {
            None => {
                let kids = self.children(id);
                for i in 0..kids.len()
                    invariant
                        self.wf(),
                        self@.has(id),
                        lists.wf(),
                        o == self.under(lists@),
                        o.behind(),
                        kids@ == self@.node(id).children,
                        row == PlannedView::kept_row(kids@),
                        SourceFixSpec::views(out@) == start + o.row_fixes(
                            id.0 as int,
                            row.take(i as int),
                        ),
                {
                    proof {
                        self@.lemma_at(id);
                        assert(self@.node(id).children[i as int] == kids@[i as int]);
                    }
                    assert(row.take(i + 1).drop_last() =~= row.take(i as int));
                    self.planned_source_fixes(kids[i], lists, out);
                    assert(SourceFixSpec::views(out@) =~= start + o.row_fixes(
                        id.0 as int,
                        row.take(i + 1),
                    ));
                }
            },
            Some(planned) => {
                for i in 0..planned.len()
                    invariant
                        self.wf(),
                        self@.has(id),
                        lists.wf(),
                        o == self.under(lists@),
                        o.behind(),
                        row == PlannedChild::views(planned@),
                        o.lists.contains_key(id.key()),
                        o.lists[id.key()] == row,
                        SourceFixSpec::views(out@) == start + o.row_fixes(
                            id.0 as int,
                            row.take(i as int),
                        ),
                {
                    assert(row[i as int] == planned@[i as int]@);
                    assert(row.take(i + 1).drop_last() =~= row.take(i as int));
                    match &planned[i] {
                        PlannedChild::Existing(c) => self.planned_source_fixes(*c, lists, out),
                        PlannedChild::New(spec, _) => spec.spec_source_fixes(out),
                    }
                    assert(SourceFixSpec::views(out@) =~= start + o.row_fixes(
                        id.0 as int,
                        row.take(i + 1),
                    ));
                }
            },
        }
        assert(row.take(row.len() as int) =~= row);
        assert(SourceFixSpec::views(out@) =~= first + o.fixes(id.0 as int));
    }

    /// Appends the leaves below a node under new child lists.
    pub(crate) fn planned_leaves(
        &self,
        id: NodeId,
        lists: &Table<Vec<PlannedChild>>,
        out: &mut Vec<LeafDescriptor>,
    )
        requires
            self.wf(),
            self@.has(id),
            lists.wf(),
            self.under(lists@).behind(),
        ensures
            LeafDescriptor::views(final(out)@) == LeafDescriptor::views(old(out)@) + self.under(
                lists@,
            ).leaves(id.0 as int),
        decreases self@.nodes.len() - id.0,
    {
        let ghost o = self.under(lists@);
        let ghost row = o.row(id.0 as int);
        let ghost start = LeafDescriptor::views(out@);
        proof {
            self@.lemma_at(id);
        }
        assert(row.take(0) =~= Seq::empty());
        assert(LeafDescriptor::views(out@) =~= start + o.row_leaves(id.0 as int, row.take(0)));
        match lists.get(id.table_key()) {
            None => {
                let kids = self.children(id);
                if kids.len() == 0 {
                    self.push_leaf(id, out);
                    assert(LeafDescriptor::views(out@) =~= start + o.leaves(id.0 as int));
                    return;
                }
                for i in 0..kids.len()
                    invariant
                        self.wf(),
                        self@.has(id),
                        lists.wf(),
                        o == self.under(lists@),
                        o.behind(),
                        kids@ == self@.node(id).children,
                        row == PlannedView::kept_row(kids@),
                        LeafDescriptor::views(out@) == start + o.row_leaves(
                            id.0 as int,
                            row.take(i as int),
                        ),
                {
                    proof {
                        self@.lemma_at(id);
                        assert(self@.node(id).children[i as int] == kids@[i as int]);
                    }
                    assert(row.take(i + 1).drop_last() =~= row.take(i as int));
                    self.planned_leaves(kids[i], lists, out);
                    assert(LeafDescriptor::views(out@) =~= start + o.row_leaves(
                        id.0 as int,
                        row.take(i + 1),
                    ));
                }
            },
            Some(planned) => {
                for i in 0..planned.len()
                    invariant
                        self.wf(),
                        self@.has(id),
                        lists.wf(),
                        o == self.under(lists@),
                        o.behind(),
                        row == PlannedChild::views(planned@),
                        o.lists.contains_key(id.key()),
                        o.lists[id.key()] == row,
                        LeafDescriptor::views(out@) == start + o.row_leaves(
                            id.0 as int,
                            row.take(i as int),
                        ),
                {
                    assert(row[i as int] == planned@[i as int]@);
                    assert(row.take(i + 1).drop_last() =~= row.take(i as int));
                    match &planned[i] {
                        PlannedChild::Existing(c) => self.planned_leaves(*c, lists, out),
                        PlannedChild::New(spec, _) => spec.spec_leaves(out),
                    }
                    assert(LeafDescriptor::views(out@) =~= start + o.row_leaves(
                        id.0 as int,
                        row.take(i + 1),
                    ));
                }
            },
        }
        assert(row.take(row.len() as int) =~= row);
    }

    /// Appends a node as a leaf.
    pub(crate) fn push_leaf(&self, id: NodeId, out: &mut Vec<LeafDescriptor>)
        requires
            self.wf(),
            self@.has(id),
        ensures
            LeafDescriptor::views(final(out)@) == LeafDescriptor::views(old(out)@).push(
                self@.at(id).leaf_view(),
            ),
    {
        proof {
            self@.lemma_at(id);
        }
        out.push(
            LeafDescriptor {
                raw: self.raw(id),
                instance_types: self.instance_types(id),
                class_types: self.class_types(id),
                is_code: self.is_code(id),
                is_meta: self.is_meta(id),
            },
        );
        assert(LeafDescriptor::views(out@) =~= LeafDescriptor::views(old(out)@).push(
            self@.at(id).leaf_view(),
        ));
    }
}

} // verus!
