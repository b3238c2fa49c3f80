//! The depth map: which segments stand above each raw segment.

use std::collections::{HashMap, HashSet};
use std::sync::Arc;

use vstd::prelude::*;

use crate::kind::{meta_type_str, MetaType};
use crate::marker::{share, PositionMarker};
use crate::node::Node;
use crate::reflow::config::ReflowConfig;
use crate::reflow::lookup::{TextMap, TypeSet};
use crate::text::{chars_of, first_lower, is_space, is_upper, matches_at, same_text};

#[allow(unused_imports)]
use crate::kind::{Kind, MetaView};
#[allow(unused_imports)]
use crate::tree::Tree;

verus! {

broadcast use vstd::std_specs::hash::group_hash_axioms;

/// The place of a segment among its siblings.
#[derive(Debug)]
pub struct StackPosition {
    /// Its index.
    pub idx: usize,
    /// The number of siblings, itself included.
    pub len: usize,
    /// `solo`, `start`, `end`, or empty in the middle.
    pub pos_type: String,
}

/// The mathematical form of [`StackPosition`].
pub struct PositionView {
    pub idx: usize,
    pub len: usize,
    pub pos_type: Seq<char>,
}

/// One step on the way from the root down to a raw segment.
#[derive(Debug)]
pub struct PathStep {
    /// The number of the parent.
    pub segment_hash: u64,
    /// The types of the parent; its children share them.
    pub class_types: Arc<TypeSet>,
    /// The index of the child.
    pub idx: usize,
    /// The number of children.
    pub len: usize,
    /// The indices of the children that hold code, ascending; they share them.
    pub code_idxs: Arc<Vec<usize>>,
}

/// The mathematical form of [`PathStep`].
pub struct StepView {
    pub hash: u64,
    pub class_types: Seq<Seq<char>>,
    pub idx: usize,
    pub len: usize,
    pub code_idxs: Seq<usize>,
}

impl PathStep {
    /// The mathematical form.
    pub open spec fn view(self) -> StepView {
        StepView {
            hash: self.segment_hash,
            class_types: self.class_types@,
            idx: self.idx,
            len: self.len,
            code_idxs: self.code_idxs@,
        }
    }

    /// The mathematical forms of a path.
    pub open spec fn views(list: Seq<PathStep>) -> Seq<StepView> {
        Seq::new(list.len(), |i: int| list[i]@)
    }
}

impl StepView {
    /// How the child stands among the children that hold code.
    pub open spec fn pos_type(self) -> Seq<char> {
        if self.code_idxs.len() == 0 {
            ""@
        } else if self.code_idxs.len() == 1 {
            "solo"@
        } else if self.idx == self.code_idxs[0] {
            "start"@
        } else if self.idx == self.code_idxs.last() {
            "end"@
        } else {
            ""@
        }
    }

    /// The place of the child.
    pub open spec fn position(self) -> PositionView {
        PositionView { idx: self.idx, len: self.len, pos_type: self.pos_type() }
    }
}

impl StackPosition {
    /// The mathematical form.
    pub open spec fn view(self) -> PositionView {
        PositionView { idx: self.idx, len: self.len, pos_type: self.pos_type@ }
    }

    /// The place that a step describes.
    pub fn from_path_step(step: &PathStep) -> (r: StackPosition)
        ensures
            r@ == step@.position(),
    {
        let n: usize = step.code_idxs.len();
        let pos_type = if n == 0 {
            "".to_owned()
        } else if n == 1 {
            "solo".to_owned()
        } else if step.idx == step.code_idxs[0] {
            "start".to_owned()
        } else if step.idx == step.code_idxs[n - 1] {
            "end".to_owned()
        } else {
            "".to_owned()
        };
        StackPosition { idx: step.idx, len: step.len, pos_type }
    }
}

impl Clone for StackPosition {
    fn clone(&self) -> (r: StackPosition)
        ensures
            r == *self,
    {
        StackPosition { idx: self.idx, len: self.len, pos_type: self.pos_type.clone() }
    }
}

/// What stands above a raw segment, from the root down.
#[derive(Debug)]
pub struct DepthInfo {
    /// The number of segments above.
    pub stack_depth: usize,
    /// Their numbers.
    pub stack_hashes: Vec<u64>,
    /// Their numbers, as a set.
    pub stack_hash_set: HashSet<u64>,
    /// Their types.
    pub stack_class_types: Vec<Arc<TypeSet>>,
    /// The place that the way down takes in each of them.
    pub stack_positions: HashMap<u64, StackPosition>,
}

/// The mathematical form of [`DepthInfo`].
#[verifier::ext_equal]
pub struct DepthView {
    pub hashes: Seq<u64>,
    pub class_types: Seq<Seq<Seq<char>>>,
    pub positions: Map<u64, PositionView>,
}

impl DepthView {
    /// What a path says.
    pub open spec fn of(steps: Seq<StepView>) -> DepthView {
        DepthView {
            hashes: steps.map_values(|s: StepView| s.hash),
            class_types: steps.map_values(|s: StepView| s.class_types),
            positions: DepthView::positions_of(steps),
        }
    }

    /// The places along a path; of two steps with one number the later counts.
    pub open spec fn positions_of(steps: Seq<StepView>) -> Map<u64, PositionView>
        decreases steps.len(),
    {
        if steps.len() == 0 {
            Map::empty()
        } else {
            DepthView::positions_of(steps.drop_last()).insert(
                steps.last().hash,
                steps.last().position(),
            )
        }
    }

    /// How many of the outermost segments above this one are also above the other.
    pub open spec fn shared(self, other: DepthView) -> nat {
        shared_lead(self.hashes, other.hashes)
    }
}

/// The length of the longest beginning of `mine` whose members are all in `theirs`.
pub open spec fn shared_lead(mine: Seq<u64>, theirs: Seq<u64>) -> nat
    decreases mine.len(),
{
    if mine.len() == 0 || !theirs.contains(mine[0]) {
        0
    } else {
        1 + shared_lead(mine.drop_first(), theirs)
    }
}

/// The shared beginning is a beginning, it is shared, and it is the longest.
pub proof fn shared_lead_is_longest(mine: Seq<u64>, theirs: Seq<u64>)
    ensures
        shared_lead(mine, theirs) <= mine.len(),
        forall|i: int| 0 <= i < shared_lead(mine, theirs) ==> theirs.contains(#[trigger] mine[i]),
        shared_lead(mine, theirs) < mine.len() ==> !theirs.contains(
            mine[shared_lead(mine, theirs) as int],
        ),
    decreases mine.len(),
{
    if mine.len() > 0 && theirs.contains(mine[0]) {
        let rest = mine.drop_first();
        shared_lead_is_longest(rest, theirs);
        assert forall|i: int| 0 <= i < shared_lead(mine, theirs) implies theirs.contains(
            #[trigger] mine[i],
        ) by {
            if i > 0 {
                assert(rest[i - 1] == mine[i]);
            }
        }
    }
}

impl DepthInfo {
    /// The mathematical form.
    pub open spec fn view(self) -> DepthView {
        DepthView {
            hashes: self.stack_hashes@,
            class_types: Seq::new(
                self.stack_class_types@.len(),
                |i: int| self.stack_class_types@[i]@,
            ),
            positions: self.stack_positions@.map_values(|p: StackPosition| p@),
        }
    }

    /// Whether the parts agree with each other.
    pub open spec fn wf(self) -> bool {
        &&& self.stack_depth == self.stack_hashes@.len()
        &&& self.stack_class_types@.len() == self.stack_hashes@.len()
        &&& self.stack_hash_set@ == self.stack_hashes@.to_set()
        &&& self.stack_positions@.dom() == self.stack_hashes@.to_set()
    }

    /// What a path says.
    pub fn from_path_steps(steps: &[PathStep]) -> (r: DepthInfo)
        ensures
            r.wf(),
            r@ == DepthView::of(PathStep::views(steps@)),
    {
        let ghost views = PathStep::views(steps@);
        let mut hashes: Vec<u64> = Vec::new();
        let mut hash_set: HashSet<u64> = HashSet::new();
        let mut class_types: Vec<Arc<TypeSet>> = Vec::new();
        let mut positions: HashMap<u64, StackPosition> = HashMap::new();
        assert(hash_set@ =~= hashes@.to_set());
        assert(positions@.dom() =~= hashes@.to_set());
        assert(positions@.map_values(|p: StackPosition| p@) =~= DepthView::positions_of(
            views.take(0),
        ));
        for i in 0..steps.len()
            invariant
                views == PathStep::views(steps@),
                hashes@.len() == i,
                class_types@.len() == i,
                forall|j: int| 0 <= j < i ==> (#[trigger] hashes@[j]) == steps@[j].segment_hash,
                forall|j: int| 0 <= j < i ==> (#[trigger] class_types@[j]) == steps@[j].class_types,
                hash_set@ == hashes@.to_set(),
                positions@.dom() == hashes@.to_set(),
                positions@.map_values(|p: StackPosition| p@) == DepthView::positions_of(
                    views.take(i as int),
                ),
        {
            let step = &steps[i];
            let ghost before = hashes@;
            let ghost was = positions@.map_values(|p: StackPosition| p@);
            hashes.push(step.segment_hash);
            hash_set.insert(step.segment_hash);
            class_types.push(share(&step.class_types));
            let position = StackPosition::from_path_step(step);
            let ghost place = position@;
            positions.insert(step.segment_hash, position);
            proof {
                before.lemma_push_to_set_commute(step.segment_hash);
                assert(views.take(i + 1).drop_last() =~= views.take(i as int));
                assert(views.take(i + 1).last() == step@);
            }
            assert(hash_set@ =~= hashes@.to_set());
            assert(positions@.dom() =~= hashes@.to_set());
            assert(positions@.map_values(|p: StackPosition| p@) =~= was.insert(
                step.segment_hash,
                place,
            ));
        }
        assert(views.take(steps@.len() as int) =~= views);
        let r = DepthInfo {
            stack_depth: steps.len(),
            stack_hashes: hashes,
            stack_hash_set: hash_set,
            stack_class_types: class_types,
            stack_positions: positions,
        };
        assert(r@.hashes =~= DepthView::of(views).hashes);
        assert(r@.class_types =~= DepthView::of(views).class_types);
        r
    }

    /// The numbers of the outermost segments that are above both: the longest
    /// beginning of this stack whose members are all in the other.
    pub fn common_with(&self, other: &DepthInfo) -> (r: Vec<u64>)
        requires
            self.wf(),
            other.wf(),
        ensures
            r@ == self@.hashes.take(self@.shared(other@) as int),
    {
        let ghost mine = self.stack_hashes@;
        let ghost theirs = other.stack_hashes@;
        let mut out: Vec<u64> = Vec::new();
        let mut i: usize = 0;
        assert(mine.skip(0) =~= mine);
        assert(out@ =~= mine.take(0));
        while i < self.stack_hashes.len() && other.stack_hash_set.contains(&self.stack_hashes[i])
            invariant
                self.wf(),
                other.wf(),
                mine == self.stack_hashes@,
                theirs == other.stack_hashes@,
                i <= mine.len(),
                out@ == mine.take(i as int),
                shared_lead(mine, theirs) == i + shared_lead(mine.skip(i as int), theirs),
            decreases mine.len() - i,
        {
            assert(theirs.to_set().contains(mine[i as int]));
            assert(mine.skip(i as int)[0] == mine[i as int]);
            assert(mine.skip(i as int).drop_first() =~= mine.skip(i + 1));
            out.push(self.stack_hashes[i]);
            assert(out@ =~= mine.take(i + 1));
            i += 1;
        }
        proof {
            if i < mine.len() {
                assert(mine.skip(i as int)[0] == mine[i as int]);
                assert(!theirs.to_set().contains(mine[i as int]));
            }
        }
        out
    }

    /// The number of the innermost segment that is above both.
    pub fn last_common_hash(&self, other: &DepthInfo) -> (r: Option<u64>)
        requires
            self.wf(),
            other.wf(),
        ensures
            r == self@.innermost_shared(other@),
    {
        let common = self.common_with(other);
        proof {
            shared_lead_is_longest(self.stack_hashes@, other.stack_hashes@);
        }
        if common.len() == 0 {
            None
        } else {
            Some(common[common.len() - 1])
        }
    }
}

impl DepthView {
    /// The number of the innermost segment that is above both.
    pub open spec fn innermost_shared(self, other: DepthView) -> Option<u64> {
        let n = self.shared(other);
        if n == 0 {
            None
        } else {
            Some(self.hashes[n - 1])
        }
    }
}

/// A copy of a depth info.
pub(crate) fn clone_info(info: &DepthInfo) -> (r: DepthInfo)
    requires
        info.wf(),
    ensures
        r.wf(),
        r@ == info@,
{
    let mut hashes: Vec<u64> = Vec::new();
    let mut hash_set: HashSet<u64> = HashSet::new();
    let mut class_types: Vec<Arc<TypeSet>> = Vec::new();
    let mut positions: HashMap<u64, StackPosition> = HashMap::new();
    assert(hash_set@ =~= hashes@.to_set());
    assert(positions@.dom() =~= hashes@.to_set());
    for i in 0..info.stack_hashes.len()
        invariant
            info.wf(),
            hashes@ == info.stack_hashes@.take(i as int),
            class_types@ == info.stack_class_types@.take(i as int),
            hash_set@ == hashes@.to_set(),
            positions@.dom() == hashes@.to_set(),
            forall|h: u64| #[trigger]
                positions@.contains_key(h) ==> info.stack_positions@.contains_key(h)
                    && positions@[h] == info.stack_positions@[h],
    {
        let h: u64 = info.stack_hashes[i];
        let ghost before = hashes@;
        hashes.push(h);
        hash_set.insert(h);
        class_types.push(share(&info.stack_class_types[i]));
        assert(info.stack_hashes@.contains(info.stack_hashes@[i as int]));
        assert(info.stack_hashes@.to_set().contains(h));
        assert(info.stack_positions@.contains_key(h));
        if let Some(p) = info.stack_positions.get(&h) {
            positions.insert(h, p.clone());
        }
        proof {
            before.lemma_push_to_set_commute(h);
        }
        assert(hash_set@ =~= hashes@.to_set());
        assert(positions@.dom() =~= hashes@.to_set());
        assert(hashes@ =~= info.stack_hashes@.take(i + 1));
        assert(class_types@ =~= info.stack_class_types@.take(i + 1));
    }
    assert(info.stack_hashes@.take(info.stack_hashes@.len() as int) =~= info.stack_hashes@);
    assert(info.stack_class_types@.take(info.stack_class_types@.len() as int)
        =~= info.stack_class_types@);
    let r = DepthInfo {
        stack_depth: info.stack_depth,
        stack_hashes: hashes,
        stack_hash_set: hash_set,
        stack_class_types: class_types,
        stack_positions: positions,
    };
    assert(r.stack_positions@ =~= info.stack_positions@);
    r
}

/// A class name in lower case, its words parted by underscores; a closing
/// `Segment` is dropped.
pub open spec fn snake(class: Seq<char>) -> Seq<char> {
    let suffix = "Segment"@;
    if crate::text::infix_at(class, suffix, class.len() - suffix.len()) {
        snaked(class.take(class.len() - suffix.len()))
    } else {
        snaked(class)
    }
}

/// Every upper-case letter in lower case, with an underscore before it unless it
/// comes first.
pub open spec fn snaked(s: Seq<char>) -> Seq<char>
    decreases s.len(),
{
    if s.len() == 0 {
        Seq::empty()
    } else {
        let before = snaked(s.drop_last());
        let c = s.last();
        if !crate::text::uppercase_char(c) {
            before.push(c)
        } else if s.len() == 1 {
            before.push(crate::text::lowercase_char(c))
        } else {
            before.push('_').push(crate::text::lowercase_char(c))
        }
    }
}

/// A class name in lower case, its words parted by underscores.
pub fn to_snake_case(s: &str) -> (r: String)
    ensures
        r@ == snake(s@),
{
    let chars = chars_of(s);
    let suffix = chars_of("Segment");
    let n: usize = if chars.len() >= suffix.len() && matches_at(
        &chars,
        &suffix,
        chars.len() - suffix.len(),
    ) {
        chars.len() - suffix.len()
    } else {
        chars.len()
    };
    let ghost kept = s@.take(n as int);
    assert(s@.take(s@.len() as int) =~= s@);
    assert(snake(s@) == snaked(kept));
    let mut out = String::new();
    for i in 0..n
        invariant
            n <= chars@.len(),
            chars@ == s@,
            kept == s@.take(n as int),
            out@ == snaked(kept.take(i as int)),
    {
        let c: char = chars[i];
        assert(kept.take(i + 1).drop_last() =~= kept.take(i as int));
        assert(kept.take(i + 1).last() == c);
        if is_upper(c) {
            if i > 0 {
                out.push('_');
            }
            out.push(first_lower(c));
        } else {
            out.push(c);
        }
    }
    assert(kept.take(n as int) =~= kept);
    out
}

/// A raw segment of the tree, in the list of all of them.
#[derive(Debug)]
pub struct RawRef<'a> {
    /// Its place in the list.
    pub index: usize,
    pub segment_type: &'a str,
    pub raw: &'a str,
    pub instance_types: &'a [String],
    /// The declared class types.
    pub class_types: &'a [String],
    pub pos_marker: Option<&'a PositionMarker>,
    pub is_code: bool,
    /// The whitespace that a template placeholder stands for.
    pub consumed_whitespace: Option<&'a str>,
}

/// The mathematical form of [`RawRef`].
#[verifier::ext_equal]
pub struct RawView {
    pub index: usize,
    pub segment_type: Seq<char>,
    pub raw: Seq<char>,
    pub instance_types: Seq<Seq<char>>,
    pub class_types: Seq<Seq<char>>,
    pub marker: Option<PositionMarker>,
    pub is_code: bool,
    pub consumed_whitespace: Option<Seq<char>>,
}

impl RawView {
    /// Whether the raw segment is of a type.
    pub open spec fn is_type(self, t: Seq<char>) -> bool {
        self.segment_type == t || self.instance_types.contains(t)
    }

    /// Whether the raw segment stands in the source as it stands in the
    /// rendered text.
    pub open spec fn is_literal(self) -> bool {
        match self.marker {
            Some(m) => m.literal(),
            None => true,
        }
    }
}

impl<'a> RawRef<'a> {
    /// The mathematical form.
    pub open spec fn view(self) -> RawView {
        RawView {
            index: self.index,
            segment_type: self.segment_type@,
            raw: self.raw@,
            instance_types: crate::text::texts(self.instance_types@),
            class_types: crate::text::texts(self.class_types@),
            marker: match self.pos_marker {
                Some(m) => Some(*m),
                None => None,
            },
            is_code: self.is_code,
            consumed_whitespace: match self.consumed_whitespace {
                Some(t) => Some(t@),
                None => None,
            },
        }
    }

    /// The mathematical forms of a list.
    pub open spec fn views(list: Seq<RawRef<'a>>) -> Seq<RawView> {
        Seq::new(list.len(), |i: int| list[i]@)
    }

    /// Whether the raw segment is of a type.
    pub fn is_type(&self, target: &str) -> (r: bool)
        ensures
            r == self@.is_type(target@),
    {
        same_text(self.segment_type, target) || slice_contains(self.instance_types, target)
    }

    /// Whether the raw segment stands in the source as it stands in the
    /// rendered text.
    pub fn is_literal(&self) -> (r: bool)
        ensures
            r == self@.is_literal(),
    {
        match self.pos_marker {
            Some(m) => m.is_literal(),
            None => true,
        }
    }
}

/// Whether the list holds the text.
pub(crate) fn slice_contains(list: &[String], t: &str) -> (r: bool)
    ensures
        r == crate::text::texts(list@).contains(t@),
{
    let mut i: usize = 0;
    while i < list.len()
        invariant
            i <= list@.len(),
            forall|j: int| 0 <= j < i ==> crate::text::texts(list@)[j] != t@,
        decreases list@.len() - i,
    {
        if same_text(list[i].as_str(), t) {
            assert(crate::text::texts(list@)[i as int] == t@);
            return true;
        }
        i += 1;
    }
    false
}

/// The names in `more`, each added to `list` unless it is there.
pub open spec fn unique_all(list: Seq<Seq<char>>, more: Seq<Seq<char>>) -> Seq<Seq<char>>
    decreases more.len(),
{
    if more.len() == 0 {
        list
    } else {
        crate::text::with_unique(unique_all(list, more.drop_last()), more.last())
    }
}

/// The joined list holds what one of the two held.
pub(crate) proof fn unique_all_holds(list: Seq<Seq<char>>, more: Seq<Seq<char>>)
    ensures
        forall|t: Seq<char>| #[trigger]
            unique_all(list, more).contains(t) <==> list.contains(t) || more.contains(t),
    decreases more.len(),
{
    if more.len() > 0 {
        let rest = more.drop_last();
        let so_far = unique_all(list, rest);
        unique_all_holds(list, rest);
        assert forall|t: Seq<char>| #[trigger]
            unique_all(list, more).contains(t) <==> list.contains(t) || more.contains(t) by {
            assert(so_far.contains(t) <==> list.contains(t) || rest.contains(t));
            if rest.contains(t) {
                let i = choose|i: int| 0 <= i < rest.len() && rest[i] == t;
                assert(more[i] == t);
            }
            if more.contains(t) {
                let i = choose|i: int| 0 <= i < more.len() && more[i] == t;
                if i < rest.len() {
                    assert(rest[i] == t);
                }
            }
            if so_far.contains(t) {
                let i = choose|i: int| 0 <= i < so_far.len() && so_far[i] == t;
                assert(so_far.push(more.last())[i] == t);
            }
            assert(so_far.push(more.last())[so_far.len() as int] == more.last());
            assert(more[more.len() - 1] == more.last());
            if so_far.push(more.last()).contains(t) && t != more.last() {
                let i = choose|i: int|
                    0 <= i < so_far.push(more.last()).len() && so_far.push(more.last())[i] == t;
                assert(so_far[i] == t);
            }
        }
    }
}

/// The types of a segment: those that its type inherits, its type, and its class
/// in lower case.
pub open spec fn segment_types(
    class: Seq<char>,
    semantic: Option<Seq<char>>,
    extra: Map<Seq<char>, Seq<Seq<char>>>,
) -> Seq<Seq<char>> {
    let own = match semantic {
        None => Seq::empty(),
        Some(t) => crate::text::with_unique(
            if extra.contains_key(t) {
                unique_all(Seq::empty(), extra[t])
            } else {
                Seq::empty()
            },
            t,
        ),
    };
    crate::text::with_unique(own, snake(class))
}

/// The view of a map of type lists.
pub open spec fn lists_view(map: TextMap<Vec<String>>) -> Map<Seq<char>, Seq<Seq<char>>> {
    map@.map_values(|v: Vec<String>| crate::text::texts(v@))
}

/// The types of a segment.
fn types_of_segment(
    class: &str,
    semantic: &Option<String>,
    extra: &TextMap<Vec<String>>,
) -> (r: TypeSet)
    ensures
        r@ == segment_types(class@, crate::kind::opt_text(*semantic), lists_view(*extra)),
{
    let mut out = TypeSet::new();
    if let Some(t) = semantic {
        if let Some(list) = extra.get(t.as_str()) {
            let ghost all = crate::text::texts(list@);
            for i in 0..list.len()
                invariant
                    all == crate::text::texts(list@),
                    out@ == unique_all(Seq::empty(), all.take(i as int)),
            {
                assert(all.take(i + 1).drop_last() =~= all.take(i as int));
                out.insert(list[i].clone());
            }
            assert(all.take(all.len() as int) =~= all);
        }
        out.insert(t.clone());
    }
    out.insert(to_snake_case(class));
    out
}

/// The places of the code among the first `n` trees of a row.
pub open spec fn code_places(row: Seq<Tree>, n: nat) -> Seq<usize>
    decreases n,
{
    if n == 0 {
        Seq::empty()
    } else if row[n - 1].is_code() {
        code_places(row, (n - 1) as nat).push((n - 1) as usize)
    } else {
        code_places(row, (n - 1) as nat)
    }
}

/// The whitespace that a meta stands for: a literal placeholder whose source is
/// all whitespace, and not empty.
pub open spec fn consumed(meta: MetaView) -> Option<Seq<char>> {
    match meta {
        MetaView::Template { source_str, block_type } => if block_type == "literal"@
            && source_str.len() > 0 && forall|i: int|
            0 <= i < source_str.len() ==> crate::text::whitespace_char(#[trigger] source_str[i]) {
            Some(source_str)
        } else {
            None
        },
        _ => None,
    }
}

/// The whitespace that a meta stands for.
fn consumed_by(meta: &MetaType) -> (r: Option<&str>)
    ensures
        match r {
            Some(t) => consumed(meta@) == Some(t@),
            None => consumed(meta@) is None,
        },
{
    match meta {
        MetaType::Template { source_str, block_type } => {
            let chars = chars_of(source_str.as_str());
            if !same_text(block_type.as_str(), "literal") || chars.len() == 0 {
                return None;
            }
            let mut i: usize = 0;
            while i < chars.len()
                invariant
                    i <= chars@.len(),
                    chars@ == source_str@,
                    *meta is Template,
                    meta->Template_source_str == source_str,
                    forall|j: int|
                        0 <= j < i ==> crate::text::whitespace_char(#[trigger] source_str@[j]),
                decreases chars@.len() - i,
            {
                if !is_space(chars[i]) {
                    assert(!crate::text::whitespace_char(source_str@[i as int]));
                    return None;
                }
                i += 1;
            }
            Some(source_str.as_str())
        },
        _ => None,
    }
}

/// The number that stands for the `n`th segment; after the last one they start
/// again.
pub open spec fn wrapped(n: nat) -> u64 {
    (n % 0x1_0000_0000_0000_0000) as u64
}

/// A raw segment with the path down to it.
pub struct FlatView {
    pub raw: RawView,
    pub path: Seq<StepView>,
}

/// The inherited types of a segment type.
pub type Inherited = Map<Seq<char>, Seq<Seq<char>>>;

impl FlatView {
    /// The number of segments in a tree.
    pub open spec fn segments(t: Tree) -> nat
        decreases t, t.children.len() + 1,
    {
        (if t.kind is Segment {
            1nat
        } else {
            0nat
        }) + FlatView::segments_below(t, t.children.len())
    }

    /// The number of segments in the first `n` children.
    pub open spec fn segments_below(t: Tree, n: nat) -> nat
        decreases t, n,
    {
        if n == 0 || n > t.children.len() {
            0
        } else {
            FlatView::segments_below(t, (n - 1) as nat) + FlatView::segments(t.children[n - 1])
        }
    }

    /// The step from a segment down to a child.
    pub open spec fn step(t: Tree, i: int, hash: nat, extra: Inherited) -> StepView {
        StepView {
            hash: wrapped(hash),
            class_types: match t.kind {
                Kind::Segment { segment_class, segment_type, .. } => segment_types(
                    segment_class,
                    segment_type,
                    extra,
                ),
                _ => Seq::empty(),
            },
            idx: i as usize,
            len: t.children.len() as usize,
            code_idxs: code_places(t.children, t.children.len()),
        }
    }

    /// The raw segments of a tree, in order, where `at` of them came before.
    /// `path` leads to the tree, and its segments are numbered from `hash` on,
    /// each before those below it. What did not parse is no step of a path.
    pub open spec fn flat(
        t: Tree,
        path: Seq<StepView>,
        hash: nat,
        at: nat,
        extra: Inherited,
    ) -> Seq<FlatView>
        decreases t, t.children.len() + 1,
    {
        match t.kind {
            Kind::Raw { segment_type, raw, instance_types, class_types, .. } => seq![
                FlatView {
                    raw: RawView {
                        index: at as usize,
                        segment_type,
                        raw,
                        instance_types,
                        class_types,
                        marker: t.marker,
                        is_code: t.is_code(),
                        consumed_whitespace: None,
                    },
                    path,
                },
            ],
            Kind::Meta { meta, .. } => seq![
                FlatView {
                    raw: RawView {
                        index: at as usize,
                        segment_type: meta.name(),
                        raw: Seq::empty(),
                        instance_types: Seq::empty(),
                        class_types: Seq::empty(),
                        marker: t.marker,
                        is_code: false,
                        consumed_whitespace: consumed(meta),
                    },
                    path,
                },
            ],
            Kind::Empty => Seq::empty(),
            _ => FlatView::flat_below(t, t.children.len(), path, hash, at, extra),
        }
    }

    /// The raw segments of the first `n` children of a tree.
    pub open spec fn flat_below(
        t: Tree,
        n: nat,
        path: Seq<StepView>,
        hash: nat,
        at: nat,
        extra: Inherited,
    ) -> Seq<FlatView>
        decreases t, n,
    {
        if n == 0 || n > t.children.len() {
            Seq::empty()
        } else {
            let before = FlatView::flat_below(t, (n - 1) as nat, path, hash, at, extra);
            let below = FlatView::segments_below(t, (n - 1) as nat);
            before + (if t.kind is Segment {
                FlatView::flat(
                    t.children[n - 1],
                    path.push(FlatView::step(t, n - 1, hash, extra)),
                    hash + 1 + below,
                    at + before.len(),
                    extra,
                )
            } else {
                FlatView::flat(t.children[n - 1], path, hash + below, at + before.len(), extra)
            })
        }
    }

    /// The raw segments of a whole tree; its segments are numbered from `first` on.
    pub open spec fn all(t: Tree, first: u64, extra: Inherited) -> Seq<FlatView> {
        FlatView::flat(t, Seq::empty(), first as nat, 0, extra)
    }

    /// The text of raw segments.
    pub open spec fn text(list: Seq<FlatView>) -> Seq<char>
        decreases list.len(),
    {
        if list.len() == 0 {
            Seq::empty()
        } else {
            FlatView::text(list.drop_last()) + list.last().raw.raw
        }
    }
}

/// What stands above each raw segment.
#[derive(Debug)]
pub struct DepthMap {
    /// By the place of the raw segment in the list of all of them.
    pub depth_info: HashMap<usize, DepthInfo>,
}

/// Whether the map holds exactly the paths of the raw segments.
pub open spec fn maps(info: Map<usize, DepthInfo>, flats: Seq<FlatView>) -> bool {
    &&& forall|i: usize| #[trigger] info.contains_key(i) <==> i < flats.len()
    &&& forall|i: usize| #[trigger]
        info.contains_key(i) ==> info[i].wf() && info[i]@ == DepthView::of(flats[i as int].path)
}

/// Whether the references are those of the raw segments.
pub open spec fn refers<'a>(raws: Seq<RawRef<'a>>, flats: Seq<FlatView>) -> bool {
    &&& raws.len() == flats.len()
    &&& forall|i: int| 0 <= i < flats.len() ==> (#[trigger] raws[i])@ == flats[i].raw
}

/// Where the numbers of segments come from. Trees that share a counter share no
/// number, until all numbers were given.
#[derive(Debug)]
pub struct SegmentCounter {
    next: u64,
}

impl SegmentCounter {
    /// The number that is given next.
    pub closed spec fn view(self) -> u64 {
        self.next
    }

    /// A counter that starts at 1.
    pub fn new() -> (r: SegmentCounter)
        ensures
            r@ == 1,
    {
        SegmentCounter { next: 1 }
    }
}

impl Default for SegmentCounter {
    fn default() -> (r: SegmentCounter)
        ensures
            r@ == 1,
    {
        SegmentCounter::new()
    }
}

impl DepthMap {
    /// The depth map of a tree, and its raw segments in order. Each segment takes a
    /// number from the counter, before those below it do.
    pub fn from_node<'a>(root: &'a Node, config: &ReflowConfig, counter: &mut SegmentCounter) -> (r:
        (DepthMap, Vec<RawRef<'a>>))
        ensures
            maps(
                r.0.depth_info@,
                FlatView::all(root.tree(), old(counter)@, config@.inherited),
            ),
            refers(r.1@, FlatView::all(root.tree(), old(counter)@, config@.inherited)),
            final(counter)@ == wrapped(old(counter)@ as nat + FlatView::segments(root.tree())),
    {
        let mut depth_info: HashMap<usize, DepthInfo> = HashMap::new();
        let mut raws: Vec<RawRef<'a>> = Vec::new();
        let mut path: Vec<PathStep> = Vec::new();
        assert(PathStep::views(path@) =~= Seq::empty());
        let first: u64 = counter.next;
        let ghost flats = FlatView::all(root.tree(), first, config@.inherited);
        counter.next = walk(
            root,
            &mut path,
            &mut depth_info,
            &mut raws,
            first,
            &config.class_types_map,
            Ghost(first as nat),
            Ghost(Seq::empty()),
        );
        assert(Seq::<FlatView>::empty() + flats =~= flats);
        (DepthMap { depth_info }, raws)
    }

    /// What stands above the raw segment at a place.
    pub fn get_depth_info(&self, index: usize) -> (r: Option<&DepthInfo>)
        ensures
            match r {
                Some(info) => self.depth_info@.contains_key(index) && *info
                    == self.depth_info@[index],
                None => !self.depth_info@.contains_key(index),
            },
    {
        self.depth_info.get(&index)
    }
}

/// The places of the children that hold code.
fn code_indices(children: &Vec<Node>, Ghost(t): Ghost<Tree>) -> (r: Vec<usize>)
    requires
        t.children.len() == children@.len(),
        forall|i: int| 0 <= i < children@.len() ==> (#[trigger] t.children[i]) == children@[i].tree(),
    ensures
        r@ == code_places(t.children, t.children.len()),
{
    let mut out: Vec<usize> = Vec::new();
    for i in 0..children.len()
        invariant
            t.children.len() == children@.len(),
            forall|j: int|
                0 <= j < children@.len() ==> (#[trigger] t.children[j]) == children@[j].tree(),
            out@ == code_places(t.children, i as nat),
    {
        assert(t.children[i as int] == children@[i as int].tree());
        if children[i].is_code() {
            out.push(i);
        }
    }
    out
}

/// Adds a raw segment and what stands above it.
fn add_raw<'a>(
    raw: RawRef<'a>,
    path: &Vec<PathStep>,
    depth_info: &mut HashMap<usize, DepthInfo>,
    raws: &mut Vec<RawRef<'a>>,
    Ghost(flats): Ghost<Seq<FlatView>>,
)
    requires
        maps(old(depth_info)@, flats),
        refers(old(raws)@, flats),
        raw.index == old(raws)@.len(),
    ensures
        maps(
            final(depth_info)@,
            flats.push(FlatView { raw: raw@, path: PathStep::views(path@) }),
        ),
        refers(final(raws)@, flats.push(FlatView { raw: raw@, path: PathStep::views(path@) })),
{
    let info = DepthInfo::from_path_steps(path.as_slice());
    depth_info.insert(raw.index, info);
    raws.push(raw);
}

/// Lists the raw segments of a node.
fn walk<'a>(
    node: &'a Node,
    path: &mut Vec<PathStep>,
    depth_info: &mut HashMap<usize, DepthInfo>,
    raws: &mut Vec<RawRef<'a>>,
    hash: u64,
    extra: &TextMap<Vec<String>>,
    Ghost(number): Ghost<nat>,
    Ghost(flats): Ghost<Seq<FlatView>>,
) -> (r: u64)
    requires
        maps(old(depth_info)@, flats),
        refers(old(raws)@, flats),
        hash == wrapped(number),
    ensures
        r == wrapped(number + FlatView::segments(node.tree())),
        final(path)@ == old(path)@,
        maps(
            final(depth_info)@,
            flats + FlatView::flat(
                node.tree(),
                PathStep::views(old(path)@),
                number,
                flats.len(),
                lists_view(*extra),
            ),
        ),
        refers(
            final(raws)@,
            flats + FlatView::flat(
                node.tree(),
                PathStep::views(old(path)@),
                number,
                flats.len(),
                lists_view(*extra),
            ),
        ),
    decreases node,
{
    let ghost t = node.tree();
    let ghost steps = PathStep::views(path@);
    let ghost inherited = lists_view(*extra);
    match node {
        Node::Raw { segment_type, raw, instance_types, class_types, pos_marker, .. } => {
            let one = RawRef {
                index: raws.len(),
                segment_type: segment_type.as_str(),
                raw: raw.as_str(),
                instance_types: instance_types.as_slice(),
                class_types: class_types.as_slice(),
                pos_marker: pos_marker.as_ref(),
                is_code: node.is_code(),
                consumed_whitespace: None,
            };
            assert(flats.push(FlatView { raw: one@, path: steps }) =~= flats + FlatView::flat(
                t,
                steps,
                number,
                flats.len(),
                inherited,
            ));
            add_raw(one, path, depth_info, raws, Ghost(flats));
            hash
        },
        Node::Meta { meta_type, pos_marker, .. } => {
            let one = RawRef {
                index: raws.len(),
                segment_type: meta_type_str(meta_type),
                raw: "",
                instance_types: &[],
                class_types: &[],
                pos_marker: pos_marker.as_ref(),
                is_code: false,
                consumed_whitespace: consumed_by(meta_type),
            };
            proof {
                reveal_strlit("");
            }
            assert(one@ =~= FlatView::flat(
                t,
                steps,
                number,
                flats.len(),
                inherited,
            )[0].raw);
            assert(flats.push(FlatView { raw: one@, path: steps }) =~= flats + FlatView::flat(
                t,
                steps,
                number,
                flats.len(),
                inherited,
            ));
            add_raw(one, path, depth_info, raws, Ghost(flats));
            hash
        },
        Node::Segment { segment_class, segment_type, children, .. } => {
            let types = Arc::new(
                types_of_segment(segment_class.as_str(), segment_type, extra),
            );
            let code = Arc::new(code_indices(children, Ghost(t)));
            let ghost step = |i: int| FlatView::step(t, i, number, inherited);
            let mut next: u64 = hash.wrapping_add(1);
            let ghost mut at = number + 1;
            let ghost mut have = flats;
            assert(flats + FlatView::flat_below(t, 0, steps, number, flats.len(), inherited)
                =~= flats);
            for i in 0..children.len()
                invariant
                    *node is Segment,
                    children == node->Segment_children,
                    t == node.tree(),
                    t.kind is Segment,
                    t.children.len() == children@.len(),
                    steps == PathStep::views(path@),
                    path@ == old(path)@,
                    inherited == lists_view(*extra),
                    types@ == FlatView::step(t, 0, number, inherited).class_types,
                    code@ == code_places(t.children, t.children.len()),
                    hash == wrapped(number),
                    next == wrapped(at),
                    at == number + 1 + FlatView::segments_below(t, i as nat),
                    have == flats + FlatView::flat_below(
                        t,
                        i as nat,
                        steps,
                        number,
                        flats.len(),
                        inherited,
                    ),
                    maps(depth_info@, have),
                    refers(raws@, have),
            {
                assert(t.children[i as int] == children@[i as int].tree());
                let down = PathStep {
                    segment_hash: hash,
                    class_types: share(&types),
                    idx: i,
                    len: children.len(),
                    code_idxs: share(&code),
                };
                let ghost view = down@;
                assert(view == FlatView::step(t, i as int, number, inherited));
                path.push(down);
                assert(PathStep::views(path@) =~= steps.push(view));
                next = walk(
                    &children[i],
                    path,
                    depth_info,
                    raws,
                    next,
                    extra,
                    Ghost(at),
                    Ghost(have),
                );
                path.pop();
                assert(path@ =~= old(path)@);
                proof {
                    let more = FlatView::flat(
                        t.children[i as int],
                        steps.push(view),
                        at,
                        have.len(),
                        inherited,
                    );
                    assert(have + more =~= flats + FlatView::flat_below(
                        t,
                        (i + 1) as nat,
                        steps,
                        number,
                        flats.len(),
                        inherited,
                    ));
                    have = have + more;
                    at = at + FlatView::segments(t.children[i as int]);
                }
            }
            next
        },
        Node::Unparsable { children, .. } => {
            let mut next: u64 = hash;
            let ghost mut at = number;
            let ghost mut have = flats;
            assert(flats + FlatView::flat_below(t, 0, steps, number, flats.len(), inherited)
                =~= flats);
            for i in 0..children.len()
                invariant
                    *node is Unparsable,
                    children == node->Unparsable_children,
                    t == node.tree(),
                    t.kind is Unparsable,
                    t.children.len() == children@.len(),
                    steps == PathStep::views(path@),
                    path@ == old(path)@,
                    inherited == lists_view(*extra),
                    next == wrapped(at),
                    at == number + FlatView::segments_below(t, i as nat),
                    have == flats + FlatView::flat_below(
                        t,
                        i as nat,
                        steps,
                        number,
                        flats.len(),
                        inherited,
                    ),
                    maps(depth_info@, have),
                    refers(raws@, have),
            {
                assert(t.children[i as int] == children@[i as int].tree());
                next = walk(
                    &children[i],
                    path,
                    depth_info,
                    raws,
                    next,
                    extra,
                    Ghost(at),
                    Ghost(have),
                );
                proof {
                    let more = FlatView::flat(
                        t.children[i as int],
                        steps,
                        at,
                        have.len(),
                        inherited,
                    );
                    assert(have + more =~= flats + FlatView::flat_below(
                        t,
                        (i + 1) as nat,
                        steps,
                        number,
                        flats.len(),
                        inherited,
                    ));
                    have = have + more;
                    at = at + FlatView::segments(t.children[i as int]);
                }
            }
            next
        },
        Node::Empty => {
            assert(flats + Seq::<FlatView>::empty() =~= flats);
            hash
        },
    }
}

pub(crate) proof fn segments_grow(t: Tree, n: nat)
    requires
        n <= t.children.len(),
    ensures
        FlatView::segments_below(t, n) <= FlatView::segments_below(t, t.children.len()),
    decreases t.children.len() - n,
{
    if n < t.children.len() {
        segments_grow(t, n + 1);
    }
}

proof fn text_of_sum(a: Seq<FlatView>, b: Seq<FlatView>)
    ensures
        FlatView::text(a + b) == FlatView::text(a) + FlatView::text(b),
    decreases b.len(),
{
    if b.len() == 0 {
        assert(a + b =~= a);
        assert(FlatView::text(a) + Seq::<char>::empty() =~= FlatView::text(a));
    } else {
        text_of_sum(a, b.drop_last());
        assert((a + b).drop_last() =~= a + b.drop_last());
        assert(FlatView::text(a) + (FlatView::text(b.drop_last()) + b.last().raw.raw)
            =~= FlatView::text(a) + FlatView::text(b.drop_last()) + b.last().raw.raw);
    }
}

/// The text of the listed raw segments is the source text of the tree.
pub proof fn listed_text_is_the_source(
    t: Tree,
    path: Seq<StepView>,
    hash: nat,
    at: nat,
    extra: Inherited,
)
    ensures
        FlatView::text(FlatView::flat(t, path, hash, at, extra)) == t.raw(),
    decreases t, t.children.len() + 1,
{
    match t.kind {
        Kind::Empty => {},
        Kind::Raw { raw, .. } => {
            let list = FlatView::flat(t, path, hash, at, extra);
            assert(list.drop_last() =~= Seq::empty());
            assert(FlatView::text(list.drop_last()) =~= Seq::empty());
            assert(Seq::<char>::empty() + raw =~= raw);
        },
        Kind::Meta { .. } => {
            let list = FlatView::flat(t, path, hash, at, extra);
            assert(list.drop_last() =~= Seq::empty());
            assert(FlatView::text(list.drop_last()) =~= Seq::empty());
            assert(list.last().raw.raw =~= Seq::empty());
            assert(FlatView::text(list) =~= Seq::empty());
        },
        _ => {
            listed_row_text(t, t.children.len(), path, hash, at, extra);
            assert(t.children.take(t.children.len() as int) =~= t.children);
        },
    }
}

proof fn listed_row_text(
    t: Tree,
    n: nat,
    path: Seq<StepView>,
    hash: nat,
    at: nat,
    extra: Inherited,
)
    requires
        n <= t.children.len(),
    ensures
        FlatView::text(FlatView::flat_below(t, n, path, hash, at, extra)) == Tree::raws(
            t.children.take(n as int),
        ),
    decreases t, n,
{
    if n > 0 {
        listed_row_text(t, (n - 1) as nat, path, hash, at, extra);
        let before = FlatView::flat_below(t, (n - 1) as nat, path, hash, at, extra);
        let below = FlatView::segments_below(t, (n - 1) as nat);
        let more = if t.kind is Segment {
            FlatView::flat(
                t.children[n - 1],
                path.push(FlatView::step(t, n - 1, hash, extra)),
                hash + 1 + below,
                at + before.len(),
                extra,
            )
        } else {
            FlatView::flat(t.children[n - 1], path, hash + below, at + before.len(), extra)
        };
        text_of_sum(before, more);
        if t.kind is Segment {
            listed_text_is_the_source(
                t.children[n - 1],
                path.push(FlatView::step(t, n - 1, hash, extra)),
                hash + 1 + below,
                at + before.len(),
                extra,
            );
        } else {
            listed_text_is_the_source(
                t.children[n - 1],
                path,
                hash + below,
                at + before.len(),
                extra,
            );
        }
        assert(t.children.take(n as int).drop_last() =~= t.children.take(n - 1));
        assert(t.children.take(n as int).last() == t.children[n - 1]);
    }
}

} // verus!
