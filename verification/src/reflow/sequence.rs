//! The reflow sequence: the blocks and points of a tree, and their findings.

use vstd::prelude::*;

use crate::node::Node;
use crate::reflow::config::ReflowConfig;
use crate::reflow::depthmap::{
    clone_info, DepthInfo, DepthMap, PathStep, RawRef, SegmentCounter,
};
use crate::reflow::elements::{ReflowBlock, ReflowElement, ReflowPoint};
use crate::reflow::respace::{
    determine_constraints, handle_inline_with_space, handle_inline_without_space, process_spacing,
    FixType, LintViolation,
};
use crate::text::contains_text;

#[allow(unused_imports)]
use crate::reflow::config::ConfigView;
#[allow(unused_imports)]
use crate::reflow::depthmap::{wrapped, DepthView, FlatView, RawView};
#[allow(unused_imports)]
use crate::reflow::elements::{BlockView, ElementView, PointView};
#[allow(unused_imports)]
use crate::reflow::respace::{CleanedView, LintView, SpacingScan};
#[allow(unused_imports)]
use crate::tree::Tree;

verus! {

broadcast use vstd::std_specs::hash::group_hash_axioms;

/// The blocks and points of a tree, and what was found about its spacing.
#[derive(Debug)]
pub struct ReflowSequence {
    pub elements: Vec<ReflowElement>,
    pub violations: Vec<LintViolation>,
}

impl RawView {
    /// Whether the raw segment belongs to a point: whitespace, a newline, an
    /// indent, or a placeholder that stands for whitespace.
    pub open spec fn is_point_like(self) -> bool {
        ||| self.is_type("whitespace"@)
        ||| self.is_type("newline"@)
        ||| self.is_type("indent"@)
        ||| self.is_type("dedent"@)
        ||| self.consumed_whitespace is Some
    }
}

/// Whether the raw segment belongs to a point.
fn is_point_like(r: &RawRef) -> (b: bool)
    ensures
        b == r@.is_point_like(),
{
    r.is_type("whitespace") || r.is_type("newline") || r.is_type("indent") || r.is_type("dedent")
        || r.consumed_whitespace.is_some()
}

impl PointView {
    /// The point with one more raw segment.
    pub open spec fn with(self, r: RawView) -> PointView {
        PointView {
            raw_indices: self.raw_indices.push(r.index),
            segment_types: self.segment_types.push(r.segment_type),
            raws: self.raws.push(r.raw),
            is_literals: self.is_literals.push(r.is_literal()),
        }
    }
}

/// The elements so far, and the point that is not closed yet.
#[verifier::ext_equal]
pub struct Split {
    pub elements: Seq<ElementView>,
    pub pending: PointView,
}

impl Split {
    /// What stands above a raw segment; nothing where it is not known.
    pub open spec fn depth_of(depths: Map<usize, DepthView>, i: usize) -> DepthView {
        if depths.contains_key(i) {
            depths[i]
        } else {
            DepthView::of(Seq::empty())
        }
    }

    /// The block of a raw segment.
    pub open spec fn block_of(
        r: RawView,
        depths: Map<usize, DepthView>,
        config: ConfigView,
    ) -> BlockView {
        BlockView::of(
            r.index,
            r.segment_type,
            r.raw,
            r.instance_types,
            r.class_types,
            config,
            Split::depth_of(depths, r.index),
        )
    }

    /// The split of the first `n` raw segments: what is point-like is gathered,
    /// and anything else is a block of its own. Between two blocks there is
    /// always a point, if an empty one; before the first block only where
    /// something stands there.
    pub open spec fn of(
        raws: Seq<RawView>,
        depths: Map<usize, DepthView>,
        config: ConfigView,
        n: nat,
    ) -> Split
        decreases n,
    {
        if n == 0 {
            Split { elements: Seq::empty(), pending: PointView::nothing() }
        } else {
            let s = Split::of(raws, depths, config, (n - 1) as nat);
            let r = raws[n - 1];
            if r.is_point_like() {
                Split { pending: s.pending.with(r), ..s }
            } else {
                let parted = if s.elements.len() > 0 || s.pending.raw_indices.len() > 0 {
                    s.elements.push(ElementView::Point(s.pending))
                } else {
                    s.elements
                };
                Split {
                    elements: parted.push(ElementView::Block(Split::block_of(r, depths, config))),
                    pending: PointView::nothing(),
                }
            }
        }
    }

    /// The elements of all raw segments; a point at the end is only there where
    /// something stands in it.
    pub open spec fn whole(
        raws: Seq<RawView>,
        depths: Map<usize, DepthView>,
        config: ConfigView,
    ) -> Seq<ElementView> {
        let s = Split::of(raws, depths, config, raws.len());
        if s.pending.raw_indices.len() > 0 {
            s.elements.push(ElementView::Point(s.pending))
        } else {
            s.elements
        }
    }
}

/// The places of the points among the first `n` elements.
pub open spec fn point_places(list: Seq<ElementView>, n: nat) -> Seq<int>
    decreases n,
{
    if n == 0 {
        Seq::empty()
    } else if list[n - 1] is Point {
        point_places(list, (n - 1) as nat).push(n - 1)
    } else {
        point_places(list, (n - 1) as nat)
    }
}

/// What was found about a point, given its neighbours. First what pruning found;
/// at the end of the file whitespace that is left goes too. A point that keeps a
/// newline, or ends the file, is left to the rules on indents; any other is held
/// to what its neighbours want.
pub open spec fn findings(prev: Option<BlockView>, p: PointView, next: Option<BlockView>) -> Seq<
    LintView,
> {
    let (pre, post, strip) = crate::reflow::respace::wanted(prev, next, false);
    let c = CleanedView::of(p.segment_types, p.raws, p.raw_indices, p.is_literals, strip);
    let eof = next is Some && next->0.class_types.contains("end_of_file"@);
    let pruned = match c.last_space {
        Some(w) => if eof {
            c.found.push(
                LintView::delete(
                    "Unnecessary trailing whitespace at end of file."@,
                    c.raw_indices[w],
                ),
            )
        } else {
            c.found
        },
        None => c.found,
    };
    if (c.segment_types.contains("newline"@) && !strip) || eof {
        pruned
    } else {
        match c.last_space {
            Some(w) => pruned + crate::reflow::respace::wrong_with_space(
                pre,
                post,
                next,
                c.raws[w],
                c.raw_indices[w],
            ),
            None => pruned + crate::reflow::respace::wrong_without_space(pre, post, prev, next),
        }
    }
}

/// What was found about the points at the given places.
pub open spec fn findings_at(list: Seq<ElementView>, places: Seq<int>) -> Seq<LintView>
    decreases places.len(),
{
    if places.len() == 0 {
        Seq::empty()
    } else {
        let at = places.last();
        findings_at(list, places.drop_last()) + findings(
            ElementView::block_at(list, at - 1),
            list[at]->Point_0,
            ElementView::block_at(list, at + 1),
        )
    }
}

/// What was found about all points, in order.
pub open spec fn all_findings(list: Seq<ElementView>) -> Seq<LintView> {
    findings_at(list, point_places(list, list.len()))
}

/// What stands above a raw segment; nothing where it is not known.
fn info_of(depth_map: &DepthMap, index: usize) -> (r: DepthInfo)
    requires
        infos_ok(depth_map.depth_info@),
    ensures
        r.wf(),
        r@ == Split::depth_of(depths_view(depth_map.depth_info@), index),
{
    match depth_map.get_depth_info(index) {
        Some(info) => clone_info(info),
        None => {
            let none: Vec<PathStep> = Vec::new();
            assert(PathStep::views(none@) =~= Seq::empty());
            DepthInfo::from_path_steps(none.as_slice())
        },
    }
}

/// Whether every info in the map is well-formed.
pub open spec fn infos_ok(infos: Map<usize, DepthInfo>) -> bool {
    forall|i: usize| #[trigger] infos.contains_key(i) ==> infos[i].wf()
}

/// The mathematical forms of the infos.
pub open spec fn depths_view(infos: Map<usize, DepthInfo>) -> Map<usize, DepthView> {
    infos.map_values(|d: DepthInfo| d@)
}

/// What the paths to raw segments say.
pub open spec fn depths_of(flats: Seq<FlatView>) -> Map<usize, DepthView> {
    Map::new(|i: usize| i < flats.len(), |i: usize| DepthView::of(flats[i as int].path))
}

/// The elements of a tree whose segments are numbered from `first` on.
pub open spec fn elements_of(t: Tree, first: u64, config: ConfigView) -> Seq<ElementView> {
    let flats = FlatView::all(t, first, config.inherited);
    Split::whole(raws_of(flats), depths_of(flats), config)
}

impl ReflowSequence {
    /// Whether the blocks are well-formed.
    pub open spec fn wf(self) -> bool {
        forall|i: int| 0 <= i < self.elements@.len() ==> (#[trigger] self.elements@[i]).wf()
    }

    /// The sequence of a tree. Its segments take their numbers from the counter.
    pub fn from_root(root: &Node, config: &ReflowConfig, counter: &mut SegmentCounter) -> (r:
        ReflowSequence)
        ensures
            r.wf(),
            ReflowElement::views(r.elements@) == elements_of(
                root.tree(),
                old(counter)@,
                config@,
            ),
            r.violations@.len() == 0,
            final(counter)@ == wrapped(old(counter)@ as nat + FlatView::segments(root.tree())),
    {
        let (depth_map, raws) = DepthMap::from_node(root, config, counter);
        let ghost flats = FlatView::all(root.tree(), old(counter)@, config@.inherited);
        assert(RawRef::views(raws@) =~= raws_of(flats));
        assert(depths_view(depth_map.depth_info@) =~= depths_of(flats));
        ReflowSequence::from_raws(raws.as_slice(), &depth_map, config)
    }

    /// The sequence of a list of raw segments.
    pub fn from_raws(raws: &[RawRef], depth_map: &DepthMap, config: &ReflowConfig) -> (r:
        ReflowSequence)
        requires
            infos_ok(depth_map.depth_info@),
        ensures
            r.wf(),
            ReflowElement::views(r.elements@) == Split::whole(
                RawRef::views(raws@),
                depths_view(depth_map.depth_info@),
                config@,
            ),
            r.violations@.len() == 0,
    {
        let elements = ReflowSequence::elements_from_raws(raws, depth_map, config);
        ReflowSequence { elements, violations: Vec::new() }
    }

    /// Splits raw segments into blocks and points.
    pub fn elements_from_raws(
        raws: &[RawRef],
        depth_map: &DepthMap,
        config: &ReflowConfig,
    ) -> (r: Vec<ReflowElement>)
        requires
            infos_ok(depth_map.depth_info@),
        ensures
            ReflowElement::views(r@) == Split::whole(
                RawRef::views(raws@),
                depths_view(depth_map.depth_info@),
                config@,
            ),
            forall|i: int| 0 <= i < r@.len() ==> (#[trigger] r@[i]).wf(),
    {
        let ghost views = RawRef::views(raws@);
        let ghost depths = depths_view(depth_map.depth_info@);
        let mut out: Vec<ReflowElement> = Vec::new();
        let mut pending = ReflowPoint::empty();
        assert(ReflowElement::views(out@) =~= Split::of(views, depths, config@, 0).elements);
        for i in 0..raws.len()
            invariant
                infos_ok(depth_map.depth_info@),
                views == RawRef::views(raws@),
                depths == depths_view(depth_map.depth_info@),
                ReflowElement::views(out@) == Split::of(
                    views,
                    depths,
                    config@,
                    i as nat,
                ).elements,
                pending@ == Split::of(views, depths, config@, i as nat).pending,
                forall|j: int| 0 <= j < out@.len() ==> (#[trigger] out@[j]).wf(),
        {
            let r = &raws[i];
            assert(views[i as int] == r@);
            let ghost was = ReflowElement::views(out@);
            let ghost s = Split::of(views, depths, config@, i as nat);
            let ghost next = Split::of(views, depths, config@, (i + 1) as nat);
            if is_point_like(r) {
                let ghost before = pending@;
                pending.raw_indices.push(r.index);
                pending.segment_types.push(r.segment_type.to_owned());
                pending.raws.push(r.raw.to_owned());
                pending.is_literals.push(r.is_literal());
                assert(pending@ =~= before.with(r@));
            } else {
                let parted = out.len() > 0 || pending.raw_indices.len() > 0;
                assert(was.len() == out@.len());
                if parted {
                    let done = pending;
                    let ghost view = done@;
                    out.push(ReflowElement::Point(done));
                    assert(ReflowElement::views(out@) =~= was.push(ElementView::Point(view)));
                }
                pending = ReflowPoint::empty();
                let info = info_of(depth_map, r.index);
                let block = ReflowBlock::from_config(
                    r.index,
                    r.segment_type,
                    r.raw,
                    r.instance_types,
                    r.class_types,
                    config,
                    info,
                );
                let ghost had = ReflowElement::views(out@);
                let ghost view = block@;
                out.push(ReflowElement::Block(block));
                assert(ReflowElement::views(out@) =~= had.push(ElementView::Block(view)));
                assert(ReflowElement::views(out@) =~= next.elements);
            }
        }
        if pending.raw_indices.len() > 0 {
            let ghost was = ReflowElement::views(out@);
            let ghost view = pending@;
            out.push(ReflowElement::Point(pending));
            assert(ReflowElement::views(out@) =~= was.push(ElementView::Point(view)));
        }
        out
    }

    /// The block at a place, if there is one.
    fn block_at(&self, i: usize) -> (r: Option<&ReflowBlock>)
        requires
            self.wf(),
        ensures
            crate::reflow::respace::opt_block(r) == ElementView::block_at(
                ReflowElement::views(self.elements@),
                i as int,
            ),
            r is Some ==> r->0.wf(),
    {
        if i < self.elements.len() {
            assert(self.elements@[i as int].wf());
            match &self.elements[i] {
                ReflowElement::Block(b) => Some(b),
                ReflowElement::Point(_) => None,
            }
        } else {
            None
        }
    }

    /// The points, each with its place and the blocks before and behind it.
    pub fn iter_points_with_constraints(&self) -> (r: Vec<
        (usize, Option<&ReflowBlock>, Option<&ReflowBlock>),
    >)
        requires
            self.wf(),
        ensures
            ({
                let list = ReflowElement::views(self.elements@);
                let places = point_places(list, list.len());
                &&& r@.len() == places.len()
                &&& forall|k: int|
                    0 <= k < r@.len() ==> {
                        &&& (#[trigger] r@[k]).0 == places[k]
                        &&& r@[k].0 < list.len()
                        &&& list[r@[k].0 as int] is Point
                        &&& crate::reflow::respace::opt_block(r@[k].1) == ElementView::block_at(
                            list,
                            places[k] - 1,
                        )
                        &&& crate::reflow::respace::opt_block(r@[k].2) == ElementView::block_at(
                            list,
                            places[k] + 1,
                        )
                        &&& r@[k].1 is Some ==> r@[k].1->0.wf()
                        &&& r@[k].2 is Some ==> r@[k].2->0.wf()
                    }
            }),
    {
        let ghost list = ReflowElement::views(self.elements@);
        let mut out: Vec<(usize, Option<&ReflowBlock>, Option<&ReflowBlock>)> = Vec::new();
        let n: usize = self.elements.len();
        for i in 0..n
            invariant
                self.wf(),
                n == self.elements@.len(),
                n == list.len(),
                list == ReflowElement::views(self.elements@),
                out@.len() == point_places(list, i as nat).len(),
                forall|k: int|
                    0 <= k < out@.len() ==> {
                        &&& (#[trigger] out@[k]).0 == point_places(list, i as nat)[k]
                        &&& out@[k].0 < list.len()
                        &&& list[out@[k].0 as int] is Point
                        &&& crate::reflow::respace::opt_block(out@[k].1) == ElementView::block_at(
                            list,
                            point_places(list, i as nat)[k] - 1,
                        )
                        &&& crate::reflow::respace::opt_block(out@[k].2) == ElementView::block_at(
                            list,
                            point_places(list, i as nat)[k] + 1,
                        )
                        &&& out@[k].1 is Some ==> out@[k].1->0.wf()
                        &&& out@[k].2 is Some ==> out@[k].2->0.wf()
                    },
        {
            assert(list[i as int] == self.elements@[i as int]@);
            if let ReflowElement::Point(_) = &self.elements[i] {
                let prev = if i > 0 {
                    self.block_at(i - 1)
                } else {
                    None
                };
                let next = self.block_at(i + 1);
                out.push((i, prev, next));
            }
        }
        out
    }

    /// What was found about one point.
    fn point_violations(
        prev_block: Option<&ReflowBlock>,
        point: &ReflowPoint,
        next_block: Option<&ReflowBlock>,
    ) -> (r: Vec<LintViolation>)
        requires
            prev_block is Some ==> prev_block->0.wf(),
            next_block is Some ==> next_block->0.wf(),
        ensures
            LintViolation::views(r@) == findings(
                crate::reflow::respace::opt_block(prev_block),
                point@,
                crate::reflow::respace::opt_block(next_block),
            ),
    {
        let (pre, post, strip) = determine_constraints(prev_block, next_block, false);
        let cleaned = process_spacing(
            point.segment_types.as_slice(),
            point.raws.as_slice(),
            point.raw_indices.as_slice(),
            point.is_literals.as_slice(),
            strip,
        );
        let ghost c = CleanedView::of(
            point@.segment_types,
            point@.raws,
            point@.raw_indices,
            point@.is_literals,
            strip,
        );
        assert(CleanedView::read(cleaned) == c);
        let (types, raws, indices, last, mut found) = cleaned;
        proof {
            last_space_in_range(c.segment_types);
        }
        assert(types@.len() == crate::text::texts(types@).len());
        assert(raws@.len() == crate::text::texts(raws@).len());
        let eof = match next_block {
            Some(b) => contains_text(&b.class_types, "end_of_file"),
            None => false,
        };
        if let Some(w) = last {
            if eof {
                let one = LintViolation {
                    description: "Unnecessary trailing whitespace at end of file.".to_owned(),
                    line_no: 0,
                    line_pos: 0,
                    fix_type: FixType::Delete,
                    edit_text: None,
                    anchor_idx: indices[w],
                };
                let ghost view = one@;
                found.push(one);
                assert(LintViolation::views(found@) =~= c.found.push(view));
            }
        }
        let has_newline = contains_text(&types, "newline");
        if (has_newline && !strip) || eof {
            return found;
        }
        let ghost pruned = LintViolation::views(found@);
        let mut more = match last {
            Some(w) => {
                assert(crate::text::texts(raws@)[w as int] == raws@[w as int]@);
                handle_inline_with_space(&pre, &post, next_block, raws[w].as_str(), indices[w])
            },
            None => handle_inline_without_space(&pre, &post, prev_block, next_block),
        };
        let ghost rest = LintViolation::views(more@);
        found.append(&mut more);
        assert(LintViolation::views(found@) =~= pruned + rest);
        found
    }

    /// Holds all points to what their neighbours want; the elements stay as they
    /// are, and what was found before goes.
    pub fn respace(self) -> (r: ReflowSequence)
        requires
            self.wf(),
        ensures
            r.wf(),
            r.elements == self.elements,
            LintViolation::views(r.violations@) == all_findings(
                ReflowElement::views(self.elements@),
            ),
    {
        let ghost list = ReflowElement::views(self.elements@);
        let ghost places = point_places(list, list.len());
        let mut all: Vec<LintViolation> = Vec::new();
        let points = self.iter_points_with_constraints();
        assert(LintViolation::views(all@) =~= findings_at(list, places.take(0)));
        for k in 0..points.len()
            invariant
                self.wf(),
                list == ReflowElement::views(self.elements@),
                points@.len() == places.len(),
                forall|j: int|
                    0 <= j < points@.len() ==> {
                        &&& (#[trigger] points@[j]).0 == places[j]
                        &&& points@[j].0 < list.len()
                        &&& list[points@[j].0 as int] is Point
                        &&& crate::reflow::respace::opt_block(points@[j].1)
                            == ElementView::block_at(list, places[j] - 1)
                        &&& crate::reflow::respace::opt_block(points@[j].2)
                            == ElementView::block_at(list, places[j] + 1)
                        &&& points@[j].1 is Some ==> points@[j].1->0.wf()
                        &&& points@[j].2 is Some ==> points@[j].2->0.wf()
                    },
                LintViolation::views(all@) == findings_at(list, places.take(k as int)),
        {
            let (at, prev, next) = points[k];
            assert(points@[k as int].0 == places[k as int]);
            assert(places.take(k + 1).drop_last() =~= places.take(k as int));
            assert(places.take(k + 1).last() == at);
            assert(list[at as int] == self.elements@[at as int]@);
            if let ReflowElement::Point(p) = &self.elements[at] {
                let ghost was = LintViolation::views(all@);
                let mut more = ReflowSequence::point_violations(prev, p, next);
                let ghost rest = LintViolation::views(more@);
                all.append(&mut more);
                assert(LintViolation::views(all@) =~= was + rest);
            }
        }
        assert(places.take(places.len() as int) =~= places);
        ReflowSequence { elements: self.elements, violations: all }
    }

    /// What was found.
    pub fn get_violations(&self) -> (r: &[LintViolation])
        ensures
            r@ == self.violations@,
    {
        self.violations.as_slice()
    }

    /// The text of the sequence.
    pub fn get_raw(&self) -> (r: String)
        ensures
            r@ == ElementView::text(ReflowElement::views(self.elements@)),
    {
        let ghost list = ReflowElement::views(self.elements@);
        let mut out = String::new();
        assert(list.take(0) =~= Seq::empty());
        for i in 0..self.elements.len()
            invariant
                list == ReflowElement::views(self.elements@),
                out@ == ElementView::text(list.take(i as int)),
        {
            assert(list.take(i + 1).drop_last() =~= list.take(i as int));
            assert(list.take(i + 1).last() == self.elements@[i as int]@);
            out.push_str(self.elements[i].raw().as_str());
        }
        assert(list.take(list.len() as int) =~= list);
        out
    }
}

/// The raw segments of a flat tree.
pub open spec fn raws_of(flats: Seq<FlatView>) -> Seq<RawView> {
    Seq::new(flats.len(), |i: int| flats[i].raw)
}

proof fn last_space_in_range(types: Seq<Seq<char>>)
    ensures
        last_space_ok(types),
    decreases types.len(),
{
    if types.len() > 0 && types.last() != "whitespace"@ {
        last_space_in_range(types.drop_last());
    }
}

spec fn last_space_ok(types: Seq<Seq<char>>) -> bool {
    match crate::reflow::respace::last_space(types) {
        Some(i) => 0 <= i < types.len(),
        None => true,
    }
}

/// The text of raw segments.
pub open spec fn raw_text(list: Seq<RawView>) -> Seq<char>
    decreases list.len(),
{
    if list.len() == 0 {
        Seq::empty()
    } else {
        raw_text(list.drop_last()) + list.last().raw
    }
}

proof fn split_text(
    raws: Seq<RawView>,
    depths: Map<usize, DepthView>,
    config: ConfigView,
    n: nat,
)
    requires
        n <= raws.len(),
    ensures
        ({
            let s = Split::of(raws, depths, config, n);
            ElementView::text(s.elements) + crate::reflow::elements::joined(s.pending.raws)
                == raw_text(raws.take(n as int)) && s.pending.raw_indices.len()
                == s.pending.raws.len()
        }),
    decreases n,
{
    let s = Split::of(raws, depths, config, n);
    if n == 0 {
        assert(raws.take(0) =~= Seq::empty());
        assert(ElementView::text(s.elements) + crate::reflow::elements::joined(s.pending.raws)
            =~= Seq::empty());
    } else {
        split_text(raws, depths, config, (n - 1) as nat);
        let q = Split::of(raws, depths, config, (n - 1) as nat);
        let r = raws[n - 1];
        assert(raws.take(n as int).drop_last() =~= raws.take(n - 1));
        let before = ElementView::text(q.elements);
        let held = crate::reflow::elements::joined(q.pending.raws);
        if r.is_point_like() {
            assert(s.pending.raws.drop_last() =~= q.pending.raws);
            assert(before + (held + r.raw) =~= (before + held) + r.raw);
        } else {
            let parted = if q.elements.len() > 0 || q.pending.raw_indices.len() > 0 {
                q.elements.push(ElementView::Point(q.pending))
            } else {
                q.elements
            };
            assert(s.elements.drop_last() =~= parted);
            if q.elements.len() > 0 || q.pending.raw_indices.len() > 0 {
                assert(parted.drop_last() =~= q.elements);
                assert(ElementView::text(parted) == before + held);
            } else {
                assert(q.pending.raws =~= Seq::empty());
                assert(held =~= Seq::empty());
                assert(before + held =~= before);
                assert(ElementView::text(parted) == before + held);
            }
            assert(s.elements.last().raw() == r.raw);
            assert(ElementView::text(s.elements) == before + held + r.raw);
            assert(crate::reflow::elements::joined(s.pending.raws) =~= Seq::empty());
            assert(ElementView::text(s.elements) + Seq::<char>::empty() =~= ElementView::text(
                s.elements,
            ));
        }
    }
}

/// The split keeps the text: that of the elements is that of the raw segments.
pub proof fn split_keeps_text(
    raws: Seq<RawView>,
    depths: Map<usize, DepthView>,
    config: ConfigView,
)
    ensures
        ElementView::text(Split::whole(raws, depths, config)) == raw_text(raws),
{
    split_text(raws, depths, config, raws.len());
    assert(raws.take(raws.len() as int) =~= raws);
    let s = Split::of(raws, depths, config, raws.len());
    if s.pending.raw_indices.len() > 0 {
        assert(s.elements.push(ElementView::Point(s.pending)).drop_last() =~= s.elements);
    } else {
        assert(s.pending.raws =~= Seq::empty());
        assert(ElementView::text(s.elements) + Seq::<char>::empty() =~= ElementView::text(
            s.elements,
        ));
    }
}

proof fn raw_text_is_flat_text(flats: Seq<FlatView>)
    ensures
        raw_text(raws_of(flats)) == FlatView::text(flats),
    decreases flats.len(),
{
    if flats.len() > 0 {
        raw_text_is_flat_text(flats.drop_last());
        assert(raws_of(flats).drop_last() =~= raws_of(flats.drop_last()));
    }
}

/// The text of the sequence of a tree is the source text of the tree.
pub proof fn sequence_text_is_the_source(t: Tree, first: u64, config: ConfigView)
    ensures
        ElementView::text(elements_of(t, first, config)) == t.raw(),
{
    let flats = FlatView::all(t, first, config.inherited);
    split_keeps_text(raws_of(flats), depths_of(flats), config);
    raw_text_is_flat_text(flats);
    crate::reflow::depthmap::listed_text_is_the_source(
        t,
        Seq::empty(),
        first as nat,
        0,
        config.inherited,
    );
}

/// Whether blocks and points take turns.
pub open spec fn takes_turns(list: Seq<ElementView>) -> bool {
    forall|i: int, j: int|
        0 <= i && j == i + 1 && j < list.len() ==> ((#[trigger] list[i]) is Block) != ((
        #[trigger] list[j]) is Block)
}

proof fn split_takes_turns(
    raws: Seq<RawView>,
    depths: Map<usize, DepthView>,
    config: ConfigView,
    n: nat,
)
    requires
        n <= raws.len(),
    ensures
        takes_turns(Split::of(raws, depths, config, n).elements),
        ({
            let e = Split::of(raws, depths, config, n).elements;
            e.len() > 0 ==> e.last() is Block
        }),
    decreases n,
{
    if n > 0 {
        split_takes_turns(raws, depths, config, (n - 1) as nat);
    }
}

/// Blocks and points take turns.
pub proof fn blocks_and_points_take_turns(
    raws: Seq<RawView>,
    depths: Map<usize, DepthView>,
    config: ConfigView,
)
    ensures
        takes_turns(Split::whole(raws, depths, config)),
{
    split_takes_turns(raws, depths, config, raws.len());
}

/// Whether the elements name only raw segments below a bound.
pub open spec fn names_below(list: Seq<ElementView>, bound: usize) -> bool {
    forall|i: int|
        0 <= i < list.len() ==> match #[trigger] list[i] {
            ElementView::Block(b) => b.raw_idx < bound,
            ElementView::Point(p) => point_below(p, bound),
        }
}

/// Whether the point names only raw segments below a bound, one for each of its
/// types and texts.
pub open spec fn point_below(p: PointView, bound: usize) -> bool {
    &&& p.raw_indices.len() == p.segment_types.len()
    &&& p.raws.len() == p.segment_types.len()
    &&& forall|k: int| 0 <= k < p.raw_indices.len() ==> (#[trigger] p.raw_indices[k]) < bound
}

/// Whether the findings have anchors below a bound.
pub open spec fn anchored_below(found: Seq<LintView>, bound: usize) -> bool {
    forall|k: int| 0 <= k < found.len() ==> (#[trigger] found[k]).anchor_idx < bound
}

proof fn scan_anchors(
    types: Seq<Seq<char>>,
    indices: Seq<usize>,
    literals: Seq<bool>,
    strip: bool,
    n: nat,
    bound: usize,
)
    requires
        n <= types.len() == indices.len(),
        forall|k: int| 0 <= k < indices.len() ==> (#[trigger] indices[k]) < bound,
    ensures
        ({
            let s = SpacingScan::of(types, indices, literals, strip, n);
            &&& anchored_below(s.found, bound)
            &&& forall|k: int| 0 <= k < s.pending.len() ==> 0 <= (#[trigger] s.pending[k]) < n
        }),
    decreases n,
{
    if n > 0 {
        scan_anchors(types, indices, literals, strip, (n - 1) as nat, bound);
        let q = SpacingScan::of(types, indices, literals, strip, (n - 1) as nat);
        let s = SpacingScan::of(types, indices, literals, strip, n);
        assert forall|k: int| 0 <= k < s.found.len() implies (#[trigger] s.found[k]).anchor_idx
            < bound by {
            if k >= q.found.len() && s.found.len() > q.found.len() {
                if types[n - 1] == "newline"@ && strip {
                    assert(indices[n - 1] < bound);
                } else {
                    let j = k - q.found.len();
                    assert(indices[q.pending[j]] < bound);
                }
            } else {
                assert(q.found[k].anchor_idx < bound);
            }
        }
    }
}

proof fn kept_in_range(s: SpacingScan, n: nat)
    ensures
        forall|k: int| 0 <= k < s.kept(n).len() ==> 0 <= (#[trigger] s.kept(n)[k]) < n,
    decreases n,
{
    if n > 0 {
        kept_in_range(s, (n - 1) as nat);
        let less = s.kept((n - 1) as nat);
        let now = s.kept(n);
        assert forall|k: int| 0 <= k < now.len() implies 0 <= (#[trigger] now[k]) < n by {
            if k < less.len() {
                assert(now[k] == less[k]);
            }
        }
    }
}

proof fn point_anchors(
    prev: Option<BlockView>,
    p: PointView,
    next: Option<BlockView>,
    bound: usize,
)
    requires
        point_below(p, bound),
        prev is Some ==> prev->0.raw_idx < bound,
        next is Some ==> next->0.raw_idx < bound,
    ensures
        anchored_below(findings(prev, p, next), bound),
{
    let (pre, post, strip) = crate::reflow::respace::wanted(prev, next, false);
    let types = p.segment_types;
    scan_anchors(types, p.raw_indices, p.is_literals, strip, types.len(), bound);
    let s = SpacingScan::of(types, p.raw_indices, p.is_literals, strip, types.len());
    let whole = SpacingScan::whole(types, p.raw_indices, p.is_literals, strip);
    assert forall|k: int| 0 <= k < whole.found.len() implies (#[trigger] whole.found[k]).anchor_idx
        < bound by {
        if k < s.found.len() {
            assert(s.found[k].anchor_idx < bound);
        } else {
            let j = k - s.found.len();
            assert(s.pending.skip(1)[j] == s.pending[j + 1]);
            assert(p.raw_indices[s.pending[j + 1]] < bound);
        }
    }
    let c = CleanedView::of(types, p.raws, p.raw_indices, p.is_literals, strip);
    kept_in_range(whole, types.len());
    last_space_in_range(c.segment_types);
    if let Some(w) = c.last_space {
        assert(c.raw_indices[w] < bound) by {
            let at = whole.kept(types.len())[w];
            assert(p.raw_indices[at] < bound);
        }
    }
}

proof fn findings_anchors(list: Seq<ElementView>, places: Seq<int>, bound: usize)
    requires
        names_below(list, bound),
        forall|k: int|
            0 <= k < places.len() ==> 0 <= (#[trigger] places[k]) < list.len()
                && list[places[k]] is Point,
    ensures
        anchored_below(findings_at(list, places), bound),
    decreases places.len(),
{
    if places.len() > 0 {
        let rest = places.drop_last();
        assert forall|k: int| 0 <= k < rest.len() implies 0 <= (#[trigger] rest[k]) < list.len()
            && list[rest[k]] is Point by {
            assert(rest[k] == places[k]);
        }
        findings_anchors(list, rest, bound);
        let at = places[places.len() - 1];
        assert(list[at] is Point);
        if 0 <= at - 1 {
            assert(list[at - 1] is Block || list[at - 1] is Point);
        }
        if at + 1 < list.len() {
            assert(list[at + 1] is Block || list[at + 1] is Point);
        }
        point_anchors(
            ElementView::block_at(list, at - 1),
            list[at]->Point_0,
            ElementView::block_at(list, at + 1),
            bound,
        );
    }
}

proof fn places_are_points(list: Seq<ElementView>, n: nat)
    requires
        n <= list.len(),
    ensures
        forall|k: int|
            0 <= k < point_places(list, n).len() ==> 0 <= (#[trigger] point_places(list, n)[k]) < n
                && list[point_places(list, n)[k]] is Point,
    decreases n,
{
    if n > 0 {
        places_are_points(list, (n - 1) as nat);
    }
}

/// Every finding is anchored at a raw segment of the sequence.
pub proof fn findings_are_anchored(list: Seq<ElementView>, bound: usize)
    requires
        names_below(list, bound),
    ensures
        anchored_below(all_findings(list), bound),
{
    places_are_points(list, list.len());
    findings_anchors(list, point_places(list, list.len()), bound);
}

proof fn split_names_below(
    raws: Seq<RawView>,
    depths: Map<usize, DepthView>,
    config: ConfigView,
    n: nat,
    bound: usize,
)
    requires
        n <= raws.len(),
        forall|i: int| 0 <= i < raws.len() ==> (#[trigger] raws[i]).index < bound,
    ensures
        names_below(Split::of(raws, depths, config, n).elements, bound),
        point_below(Split::of(raws, depths, config, n).pending, bound),
    decreases n,
{
    if n > 0 {
        split_names_below(raws, depths, config, (n - 1) as nat, bound);
        assert(raws[n - 1].index < bound);
    }
}

/// The elements of a list of raw segments name only raw segments of the list.
pub proof fn elements_name_the_list(
    raws: Seq<RawView>,
    depths: Map<usize, DepthView>,
    config: ConfigView,
    bound: usize,
)
    requires
        forall|i: int| 0 <= i < raws.len() ==> (#[trigger] raws[i]).index < bound,
    ensures
        names_below(Split::whole(raws, depths, config), bound),
{
    split_names_below(raws, depths, config, raws.len(), bound);
}

} // verus!
