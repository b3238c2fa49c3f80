//! How raw segments are divided into blocks and points.

use vstd::prelude::*;

#[allow(unused_imports)]
use crate::reflow::config::ConfigView;
#[allow(unused_imports)]
use crate::reflow::depthmap::{DepthView, FlatView, RawView};
#[allow(unused_imports)]
use crate::reflow::elements::{BlockView, ElementView, PointView};
#[allow(unused_imports)]
use crate::reflow::sequence::{depths_of, elements_of, raws_of, Split};
#[allow(unused_imports)]
use crate::tree::Tree;

verus! {

/// Whether a raw segment is of a type, by its own type or as an instance.
pub open spec fn goes_by(r: RawView, t: Seq<char>) -> bool {
    r.segment_type == t || r.instance_types.contains(t)
}

/// Whether a raw segment is spacing: whitespace, a newline, an indent or a dedent, or a
/// placeholder that took whitespace out of the source.
pub open spec fn is_spacing(r: RawView) -> bool {
    ||| goes_by(r, "whitespace"@)
    ||| goes_by(r, "newline"@)
    ||| goes_by(r, "indent"@)
    ||| goes_by(r, "dedent"@)
    ||| r.consumed_whitespace is Some
}

/// The raw segments that an element stands for, by their places.
pub open spec fn stands_for(e: ElementView) -> Seq<usize> {
    match e {
        ElementView::Block(b) => seq![b.raw_idx],
        ElementView::Point(p) => p.raw_indices,
    }
}

/// The raw segments that elements stand for, one element behind the other.
pub open spec fn stand_for(list: Seq<ElementView>) -> Seq<usize>
    decreases list.len(),
{
    if list.len() == 0 {
        Seq::empty()
    } else {
        stand_for(list.drop_last()) + stands_for(list.last())
    }
}

/// Whether a block is that of a raw segment that is no spacing.
pub open spec fn is_block_of(b: BlockView, r: RawView, depths: Map<usize, DepthView>) -> bool {
    &&& !is_spacing(r)
    &&& b.raw_idx == r.index
    &&& b.raw == r.raw
    &&& b.segment_type == r.segment_type
    &&& depths.contains_key(r.index) ==> b.depth == depths[r.index]
}

/// Whether the `k`-th part of a point is that of a raw segment that is spacing.
pub open spec fn is_part_of(p: PointView, k: int, r: RawView) -> bool {
    &&& is_spacing(r)
    &&& p.raw_indices[k] == r.index
    &&& p.raws[k] == r.raw
    &&& p.segment_types[k] == r.segment_type
    &&& p.is_literals[k] == (r.marker is Some ==> r.marker->0.literal())
}

/// Whether the parts of a point are those of spacing among raw segments numbered by
/// their places.
pub open spec fn point_fits(p: PointView, raws: Seq<RawView>) -> bool {
    &&& p.segment_types.len() == p.raw_indices.len()
    &&& p.raws.len() == p.raw_indices.len()
    &&& p.is_literals.len() == p.raw_indices.len()
    &&& forall|k: int|
        0 <= k < p.raw_indices.len() ==> (#[trigger] p.raw_indices[k]) < raws.len() && is_part_of(
            p,
            k,
            raws[p.raw_indices[k] as int],
        )
}

/// Whether an element fits raw segments numbered by their places.
pub open spec fn element_fits(
    e: ElementView,
    raws: Seq<RawView>,
    depths: Map<usize, DepthView>,
) -> bool {
    match e {
        ElementView::Block(b) => b.raw_idx < raws.len() && is_block_of(
            b,
            raws[b.raw_idx as int],
            depths,
        ),
        ElementView::Point(p) => point_fits(p, raws),
    }
}

/// Every raw segment stands in one element, in the order in which they come. What is no
/// spacing is a block of its own, and spacing stands in points.
pub proof fn each_in_its_element(
    raws: Seq<RawView>,
    depths: Map<usize, DepthView>,
    config: ConfigView,
)
    requires
        raws.len() <= usize::MAX,
        forall|i: int| 0 <= i < raws.len() ==> (#[trigger] raws[i]).index == i,
    ensures
        ({
            let list = Split::whole(raws, depths, config);
            &&& stand_for(list) == Seq::new(raws.len(), |i: int| i as usize)
            &&& forall|j: int|
                0 <= j < list.len() ==> element_fits(#[trigger] list[j], raws, depths)
        }),
{
    divided(raws, depths, config, raws.len());
    let s = Split::of(raws, depths, config, raws.len());
    let list = Split::whole(raws, depths, config);
    if s.pending.raw_indices.len() > 0 {
        assert(list.drop_last() =~= s.elements);
    } else {
        assert(stand_for(s.elements) + s.pending.raw_indices =~= stand_for(s.elements));
    }
}

proof fn divided(raws: Seq<RawView>, depths: Map<usize, DepthView>, config: ConfigView, n: nat)
    requires
        n <= raws.len() <= usize::MAX,
        forall|i: int| 0 <= i < raws.len() ==> (#[trigger] raws[i]).index == i,
    ensures
        ({
            let s = Split::of(raws, depths, config, n);
            &&& stand_for(s.elements) + s.pending.raw_indices == Seq::new(
                n,
                |i: int| i as usize,
            )
            &&& forall|j: int|
                0 <= j < s.elements.len() ==> element_fits(
                    #[trigger] s.elements[j],
                    raws,
                    depths,
                )
            &&& point_fits(s.pending, raws)
        }),
    decreases n,
{
    let s = Split::of(raws, depths, config, n);
    let all = Seq::new(n, |i: int| i as usize);
    if n == 0 {
        assert(stand_for(s.elements) + s.pending.raw_indices =~= all);
    } else {
        let m = (n - 1) as nat;
        divided(raws, depths, config, m);
        let q = Split::of(raws, depths, config, m);
        let r = raws[n - 1];
        let before = Seq::new(m, |i: int| i as usize);
        assert(before.push(r.index) =~= all);
        if is_spacing(r) {
            assert(r.is_point_like());
            assert(stand_for(s.elements) + s.pending.raw_indices =~= before.push(r.index));
            assert forall|k: int| 0 <= k < s.pending.raw_indices.len() implies (
            #[trigger] s.pending.raw_indices[k]) < raws.len() && is_part_of(
                s.pending,
                k,
                raws[s.pending.raw_indices[k] as int],
            ) by {
                if k < q.pending.raw_indices.len() {
                    assert(q.pending.raw_indices[k] == s.pending.raw_indices[k]);
                    assert(is_part_of(q.pending, k, raws[q.pending.raw_indices[k] as int]));
                }
            }
        } else {
            assert(!r.is_point_like());
            let parted = if q.elements.len() > 0 || q.pending.raw_indices.len() > 0 {
                q.elements.push(ElementView::Point(q.pending))
            } else {
                q.elements
            };
            assert(s.elements.drop_last() =~= parted);
            if q.elements.len() > 0 || q.pending.raw_indices.len() > 0 {
                assert(parted.drop_last() =~= q.elements);
                assert(stand_for(parted) == stand_for(q.elements) + q.pending.raw_indices);
            } else {
                assert(stand_for(parted) =~= stand_for(q.elements) + q.pending.raw_indices);
            }
            assert(stand_for(s.elements) =~= before + seq![r.index]);
            assert(stand_for(s.elements) + s.pending.raw_indices =~= all);
            let b = s.elements.last()->Block_0;
            assert(is_block_of(b, r, depths));
            assert forall|j: int| 0 <= j < s.elements.len() implies element_fits(
                #[trigger] s.elements[j],
                raws,
                depths,
            ) by {
                if j < q.elements.len() {
                    assert(s.elements[j] == q.elements[j]);
                }
            }
        }
    }
}

/// The same of the elements of a tree: every leaf stands in one element, in document
/// order.
pub proof fn leaves_in_elements(t: Tree, first: u64, config: ConfigView)
    requires
        FlatView::all(t, first, config.inherited).len() <= usize::MAX,
    ensures
        ({
            let flats = FlatView::all(t, first, config.inherited);
            let list = elements_of(t, first, config);
            &&& stand_for(list) == Seq::new(flats.len(), |i: int| i as usize)
            &&& forall|j: int|
                0 <= j < list.len() ==> element_fits(
                    #[trigger] list[j],
                    raws_of(flats),
                    depths_of(flats),
                )
        }),
{
    let flats = FlatView::all(t, first, config.inherited);
    let raws = raws_of(flats);
    assert forall|i: int| 0 <= i < raws.len() implies (#[trigger] raws[i]).index == i by {
        listed_in_order(t, Seq::empty(), first as nat, 0, config, i);
    }
    each_in_its_element(raws, depths_of(flats), config);
}

/// The leaves of a tree are numbered by their places.
proof fn listed_in_order(
    t: Tree,
    path: Seq<crate::reflow::depthmap::StepView>,
    hash: nat,
    at: nat,
    config: ConfigView,
    k: int,
)
    requires
        0 <= k < FlatView::flat(t, path, hash, at, config.inherited).len(),
        at + FlatView::flat(t, path, hash, at, config.inherited).len() <= usize::MAX,
    ensures
        FlatView::flat(t, path, hash, at, config.inherited)[k].raw.index == at + k,
    decreases t, t.children.len() + 1,
{
    match t.kind {
        crate::kind::Kind::Raw { .. } | crate::kind::Kind::Meta { .. } => {},
        crate::kind::Kind::Empty => {},
        _ => {
            row_in_order(t, t.children.len(), path, hash, at, config, k);
        },
    }
}

proof fn row_in_order(
    t: Tree,
    n: nat,
    path: Seq<crate::reflow::depthmap::StepView>,
    hash: nat,
    at: nat,
    config: ConfigView,
    k: int,
)
    requires
        n <= t.children.len(),
        0 <= k < FlatView::flat_below(t, n, path, hash, at, config.inherited).len(),
        at + FlatView::flat_below(t, n, path, hash, at, config.inherited).len() <= usize::MAX,
    ensures
        FlatView::flat_below(t, n, path, hash, at, config.inherited)[k].raw.index == at + k,
    decreases t, n,
{
    let extra = config.inherited;
    if n > 0 {
        let m = (n - 1) as nat;
        let before = FlatView::flat_below(t, m, path, hash, at, extra);
        let below = FlatView::segments_below(t, m);
        let kid = t.children[m as int];
        if k < before.len() {
            row_in_order(t, m, path, hash, at, config, k);
        } else if t.kind is Segment {
            listed_in_order(
                kid,
                path.push(FlatView::step(t, m as int, hash, extra)),
                hash + 1 + below,
                at + before.len(),
                config,
                k - before.len(),
            );
        } else {
            listed_in_order(kid, path, hash + below, at + before.len(), config, k - before.len());
        }
    }
}

/// What is wanted within a segment above a block is found under the segment's number.
pub proof fn wanted_within(d: DepthView, config: ConfigView, m: int)
    requires
        0 <= m < d.hashes.len(),
        forall|k: int| 0 <= k < d.hashes.len() && k != m ==> #[trigger] d.hashes[k] != d.hashes[m],
    ensures
        ({
            let within = BlockView::within_of(d, config, d.hashes.len());
            let w = config.within(d.class_types[m]);
            &&& within.contains_key(d.hashes[m]) <==> w is Some
            &&& w is Some ==> within[d.hashes[m]] == w->0
        }),
{
    within_first(d, config, m, d.hashes.len());
}

proof fn within_first(d: DepthView, config: ConfigView, m: int, n: nat)
    requires
        0 <= m < d.hashes.len(),
        n <= d.hashes.len(),
        forall|k: int| 0 <= k < d.hashes.len() && k != m ==> #[trigger] d.hashes[k] != d.hashes[m],
    ensures
        ({
            let within = BlockView::within_of(d, config, n);
            let w = config.within(d.class_types[m]);
            &&& within.contains_key(d.hashes[m]) <==> m < n && w is Some
            &&& m < n && w is Some ==> within[d.hashes[m]] == w->0
        }),
    decreases n,
{
    if n > 0 {
        within_first(d, config, m, (n - 1) as nat);
        if n - 1 != m {
            assert(d.hashes[n - 1] != d.hashes[m]);
        }
    }
}

} // verus!
