//! The elements of a reflow sequence: blocks of code and the points between.

use std::collections::HashMap;

use vstd::prelude::*;

use crate::reflow::config::ReflowConfig;
use crate::reflow::depthmap::DepthInfo;
use crate::text::{push_unique, same_text};

#[allow(unused_imports)]
use crate::reflow::config::ConfigView;
#[allow(unused_imports)]
use crate::reflow::depthmap::DepthView;

verus! {

broadcast use vstd::std_specs::hash::group_hash_axioms;

/// A piece of code: one raw segment, and the spacing that it wants.
#[derive(Debug)]
pub struct ReflowBlock {
    /// Its place in the list of raw segments.
    pub raw_idx: usize,
    pub segment_type: String,
    pub raw: String,
    pub class_types: Vec<String>,
    pub spacing_before: String,
    pub spacing_after: String,
    pub line_position: Option<String>,
    /// What stands above it.
    pub depth_info: DepthInfo,
    /// The spacing wanted within the segments above it, by their numbers.
    pub stack_spacing_configs: HashMap<u64, String>,
}

/// The mathematical form of [`ReflowBlock`].
#[verifier::ext_equal]
pub struct BlockView {
    pub raw_idx: usize,
    pub segment_type: Seq<char>,
    pub raw: Seq<char>,
    pub class_types: Seq<Seq<char>>,
    pub spacing_before: Seq<char>,
    pub spacing_after: Seq<char>,
    pub line_position: Option<Seq<char>>,
    pub depth: DepthView,
    pub within: Map<u64, Seq<char>>,
}

impl BlockView {
    /// The types of a block: the declared ones, where there are any; else its
    /// instance types, its type and what that inherits.
    pub open spec fn types_of(
        segment_type: Seq<char>,
        instance_types: Seq<Seq<char>>,
        declared: Seq<Seq<char>>,
        config: ConfigView,
    ) -> Seq<Seq<char>> {
        if declared.len() == 0 {
            crate::reflow::depthmap::unique_all(
                crate::text::with_unique(instance_types, segment_type),
                config.inherits(segment_type),
            )
        } else {
            declared
        }
    }

    /// The spacing wanted within the `n` outermost segments above.
    pub open spec fn within_of(d: DepthView, config: ConfigView, n: nat) -> Map<u64, Seq<char>>
        decreases n,
    {
        if n == 0 {
            Map::empty()
        } else {
            let before = BlockView::within_of(d, config, (n - 1) as nat);
            match config.within(d.class_types[n - 1]) {
                Some(w) => before.insert(d.hashes[n - 1], w),
                None => before,
            }
        }
    }

    /// The block of a raw segment.
    pub open spec fn of(
        raw_idx: usize,
        segment_type: Seq<char>,
        raw: Seq<char>,
        instance_types: Seq<Seq<char>>,
        declared: Seq<Seq<char>>,
        config: ConfigView,
        d: DepthView,
    ) -> BlockView {
        let types = BlockView::types_of(segment_type, instance_types, declared, config);
        let wants = config.block(types, Some(d));
        BlockView {
            raw_idx,
            segment_type,
            raw,
            class_types: types,
            spacing_before: wants.spacing_before,
            spacing_after: wants.spacing_after,
            line_position: wants.line_position,
            depth: d,
            within: BlockView::within_of(d, config, d.hashes.len()),
        }
    }
}

impl ReflowBlock {
    /// The mathematical form.
    pub open spec fn view(self) -> BlockView {
        BlockView {
            raw_idx: self.raw_idx,
            segment_type: self.segment_type@,
            raw: self.raw@,
            class_types: crate::text::texts(self.class_types@),
            spacing_before: self.spacing_before@,
            spacing_after: self.spacing_after@,
            line_position: crate::kind::opt_text(self.line_position),
            depth: self.depth_info@,
            within: self.stack_spacing_configs@.map_values(|t: String| t@),
        }
    }

    /// Whether the depth info is well-formed.
    pub open spec fn wf(self) -> bool {
        self.depth_info.wf()
    }

    /// The block of a raw segment.
    pub fn from_config(
        raw_idx: usize,
        segment_type: &str,
        raw: &str,
        instance_types: &[String],
        class_types_from_node: &[String],
        config: &ReflowConfig,
        depth_info: DepthInfo,
    ) -> (r: ReflowBlock)
        requires
            depth_info.wf(),
        ensures
            r.wf(),
            r@ == BlockView::of(
                raw_idx,
                segment_type@,
                raw@,
                crate::text::texts(instance_types@),
                crate::text::texts(class_types_from_node@),
                config@,
                depth_info@,
            ),
    {
        let class_types = block_types(segment_type, instance_types, class_types_from_node, config);
        let wants = config.get_block_config(class_types.as_slice(), Some(&depth_info));
        let ghost d = depth_info@;
        let mut within: HashMap<u64, String> = HashMap::new();
        assert(within@.map_values(|t: String| t@) =~= BlockView::within_of(d, config@, 0));
        for i in 0..depth_info.stack_hashes.len()
            invariant
                depth_info.wf(),
                d == depth_info@,
                within@.map_values(|t: String| t@) == BlockView::within_of(d, config@, i as nat),
        {
            let ghost was = within@.map_values(|t: String| t@);
            assert(d.class_types[i as int] == depth_info.stack_class_types@[i as int]@);
            if let Some(w) = config.get_spacing_within(&depth_info.stack_class_types[i]) {
                let ghost text = w@;
                within.insert(depth_info.stack_hashes[i], w);
                assert(within@.map_values(|t: String| t@) =~= was.insert(
                    d.hashes[i as int],
                    text,
                ));
            }
        }
        ReflowBlock {
            raw_idx,
            segment_type: segment_type.to_owned(),
            raw: raw.to_owned(),
            class_types,
            spacing_before: wants.spacing_before,
            spacing_after: wants.spacing_after,
            line_position: wants.line_position,
            depth_info,
            stack_spacing_configs: within,
        }
    }
}

/// A copy of a list of texts.
fn copy_texts(list: &[String]) -> (r: Vec<String>)
    ensures
        crate::text::texts(r@) == crate::text::texts(list@),
{
    let mut out: Vec<String> = Vec::new();
    for i in 0..list.len()
        invariant
            out@ == list@.take(i as int),
    {
        out.push(list[i].clone());
        assert(out@ =~= list@.take(i + 1));
    }
    assert(list@.take(list@.len() as int) =~= list@);
    out
}

/// The types of a block.
fn block_types(
    segment_type: &str,
    instance_types: &[String],
    declared: &[String],
    config: &ReflowConfig,
) -> (r: Vec<String>)
    ensures
        crate::text::texts(r@) == BlockView::types_of(
            segment_type@,
            crate::text::texts(instance_types@),
            crate::text::texts(declared@),
            config@,
        ),
{
    if declared.len() > 0 {
        return copy_texts(declared);
    }
    let mut out = copy_texts(instance_types);
    push_unique(&mut out, segment_type.to_owned());
    let extras = config.extra_class_types(segment_type);
    let ghost all = crate::text::texts(extras@);
    let ghost start = crate::text::texts(out@);
    assert(all.take(0) =~= Seq::empty());
    for i in 0..extras.len()
        invariant
            all == crate::text::texts(extras@),
            crate::text::texts(out@) == crate::reflow::depthmap::unique_all(
                start,
                all.take(i as int),
            ),
    {
        assert(all.take(i + 1).drop_last() =~= all.take(i as int));
        push_unique(&mut out, extras[i].clone());
    }
    assert(all.take(all.len() as int) =~= all);
    out
}

/// What stands between two blocks: whitespace, newlines and indents.
#[derive(Debug)]
pub struct ReflowPoint {
    /// The places of the raw segments in the list of all of them.
    pub raw_indices: Vec<usize>,
    pub segment_types: Vec<String>,
    pub raws: Vec<String>,
    /// Whether each stands in the source as it stands in the rendered text.
    pub is_literals: Vec<bool>,
}

/// The mathematical form of [`ReflowPoint`].
#[verifier::ext_equal]
pub struct PointView {
    pub raw_indices: Seq<usize>,
    pub segment_types: Seq<Seq<char>>,
    pub raws: Seq<Seq<char>>,
    pub is_literals: Seq<bool>,
}

/// The texts of a list, one after the other.
pub open spec fn joined(list: Seq<Seq<char>>) -> Seq<char>
    decreases list.len(),
{
    if list.len() == 0 {
        Seq::empty()
    } else {
        joined(list.drop_last()) + list.last()
    }
}

impl PointView {
    /// The point with nothing in it.
    pub open spec fn nothing() -> PointView {
        PointView {
            raw_indices: Seq::empty(),
            segment_types: Seq::empty(),
            raws: Seq::empty(),
            is_literals: Seq::empty(),
        }
    }
}

impl ReflowPoint {
    /// The mathematical form.
    pub open spec fn view(self) -> PointView {
        PointView {
            raw_indices: self.raw_indices@,
            segment_types: crate::text::texts(self.segment_types@),
            raws: crate::text::texts(self.raws@),
            is_literals: self.is_literals@,
        }
    }

    /// The point of the given raw segments.
    pub fn new(
        raw_indices: Vec<usize>,
        segment_types: Vec<String>,
        raws: Vec<String>,
        is_literals: Vec<bool>,
    ) -> (r: ReflowPoint)
        ensures
            r@ == (PointView {
                raw_indices: raw_indices@,
                segment_types: crate::text::texts(segment_types@),
                raws: crate::text::texts(raws@),
                is_literals: is_literals@,
            }),
    {
        ReflowPoint { raw_indices, segment_types, raws, is_literals }
    }

    /// The point with nothing in it.
    pub fn empty() -> (r: ReflowPoint)
        ensures
            r@ == PointView::nothing(),
    {
        let r = ReflowPoint {
            raw_indices: Vec::new(),
            segment_types: Vec::new(),
            raws: Vec::new(),
            is_literals: Vec::new(),
        };
        assert(r@ =~= PointView::nothing());
        r
    }

    /// The text of the point.
    pub fn raw(&self) -> (r: String)
        ensures
            r@ == joined(self@.raws),
    {
        let ghost all = self@.raws;
        let mut out = String::new();
        assert(all.take(0) =~= Seq::empty());
        for i in 0..self.raws.len()
            invariant
                all == crate::text::texts(self.raws@),
                out@ == joined(all.take(i as int)),
        {
            assert(all.take(i + 1).drop_last() =~= all.take(i as int));
            out.push_str(self.raws[i].as_str());
        }
        assert(all.take(all.len() as int) =~= all);
        out
    }

    /// Whether there is a newline in the point.
    pub fn has_newline(&self) -> (r: bool)
        ensures
            r == self@.segment_types.contains("newline"@),
    {
        crate::text::contains_text(&self.segment_types, "newline")
    }

    /// The place of the last whitespace in the point.
    pub fn last_whitespace_idx(&self) -> (r: Option<usize>)
        ensures
            match r {
                Some(i) => i < self@.segment_types.len() && self@.segment_types[i as int]
                    == "whitespace"@ && forall|j: int|
                    i < j < self@.segment_types.len() ==> (#[trigger] self@.segment_types[j])
                        != "whitespace"@,
                None => !self@.segment_types.contains("whitespace"@),
            },
    {
        let ghost all = self@.segment_types;
        let mut n: usize = self.segment_types.len();
        while n > 0
            invariant
                all == crate::text::texts(self.segment_types@),
                n <= all.len(),
                forall|j: int| n <= j < all.len() ==> (#[trigger] all[j]) != "whitespace"@,
            decreases n,
        {
            assert(all[n - 1] == self.segment_types@[n - 1]@);
            if same_text(self.segment_types[n - 1].as_str(), "whitespace") {
                return Some(n - 1);
            }
            n -= 1;
        }
        None
    }
}

/// A block or a point.
#[derive(Debug)]
pub enum ReflowElement {
    Block(ReflowBlock),
    Point(ReflowPoint),
}

/// The mathematical form of [`ReflowElement`].
pub enum ElementView {
    Block(BlockView),
    Point(PointView),
}

impl ElementView {
    /// The text of the element.
    pub open spec fn raw(self) -> Seq<char> {
        match self {
            ElementView::Block(b) => b.raw,
            ElementView::Point(p) => joined(p.raws),
        }
    }

    /// The text of elements, one after the other.
    pub open spec fn text(list: Seq<ElementView>) -> Seq<char>
        decreases list.len(),
    {
        if list.len() == 0 {
            Seq::empty()
        } else {
            ElementView::text(list.drop_last()) + list.last().raw()
        }
    }

    /// The block at a place, if there is one.
    pub open spec fn block_at(list: Seq<ElementView>, i: int) -> Option<BlockView> {
        if 0 <= i < list.len() && list[i] is Block {
            Some(list[i]->Block_0)
        } else {
            None
        }
    }
}

impl ReflowElement {
    /// The mathematical form.
    pub open spec fn view(self) -> ElementView {
        match self {
            ReflowElement::Block(b) => ElementView::Block(b@),
            ReflowElement::Point(p) => ElementView::Point(p@),
        }
    }

    /// The mathematical forms of a list.
    pub open spec fn views(list: Seq<ReflowElement>) -> Seq<ElementView> {
        Seq::new(list.len(), |i: int| list[i]@)
    }

    /// Whether the depth info of a block is well-formed.
    pub open spec fn wf(self) -> bool {
        match self {
            ReflowElement::Block(b) => b.wf(),
            ReflowElement::Point(_) => true,
        }
    }

    /// The text of the element.
    pub fn raw(&self) -> (r: String)
        ensures
            r@ == self@.raw(),
    {
        match self {
            ReflowElement::Block(b) => b.raw.clone(),
            ReflowElement::Point(p) => p.raw(),
        }
    }
}

} // verus!
