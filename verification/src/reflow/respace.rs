//! Respacing: what two neighbours want of the point between them, and what is
//! wrong with it.

use vstd::prelude::*;

use crate::reflow::depthmap::slice_contains;
use crate::reflow::elements::ReflowBlock;
use crate::text::{chars_of, contains_str, debug_text, matches_at, same_text, string_of};

#[allow(unused_imports)]
use crate::reflow::elements::BlockView;

verus! {

broadcast use vstd::std_specs::hash::group_hash_axioms;

/// A finding, and how to mend it.
#[derive(Debug)]
pub struct LintViolation {
    pub description: String,
    /// The line, from 1; 0 where it is not known.
    pub line_no: usize,
    /// The place in the line, from 1; 0 where it is not known.
    pub line_pos: usize,
    pub fix_type: FixType,
    /// The new text, where the fix has one.
    pub edit_text: Option<String>,
    /// The place of the anchor in the list of raw segments.
    pub anchor_idx: usize,
}

/// What a fix does at its anchor.
#[allow(inconsistent_fields)]
#[derive(Debug, PartialEq)]
pub enum FixType {
    /// The anchor goes.
    Delete,
    /// The anchor gets another text.
    Replace { new_text: String },
    /// A new segment comes before the anchor.
    CreateBefore { new_text: String },
    /// A new segment comes after the anchor.
    CreateAfter { new_text: String },
}

/// The mathematical form of [`FixType`].
#[allow(inconsistent_fields)]
pub enum FixTypeView {
    Delete,
    Replace { new_text: Seq<char> },
    CreateBefore { new_text: Seq<char> },
    CreateAfter { new_text: Seq<char> },
}

/// The mathematical form of [`LintViolation`].
pub struct LintView {
    pub description: Seq<char>,
    pub line_no: usize,
    pub line_pos: usize,
    pub fix_type: FixTypeView,
    pub edit_text: Option<Seq<char>>,
    pub anchor_idx: usize,
}

impl FixType {
    /// The mathematical form.
    pub open spec fn view(self) -> FixTypeView {
        match self {
            FixType::Delete => FixTypeView::Delete,
            FixType::Replace { new_text } => FixTypeView::Replace { new_text: new_text@ },
            FixType::CreateBefore { new_text } => FixTypeView::CreateBefore { new_text: new_text@ },
            FixType::CreateAfter { new_text } => FixTypeView::CreateAfter { new_text: new_text@ },
        }
    }
}

impl Clone for FixType {
    fn clone(&self) -> (r: FixType)
        ensures
            r@ == self@,
    {
        match self {
            FixType::Delete => FixType::Delete,
            FixType::Replace { new_text } => FixType::Replace { new_text: new_text.clone() },
            FixType::CreateBefore { new_text } => FixType::CreateBefore {
                new_text: new_text.clone(),
            },
            FixType::CreateAfter { new_text } => FixType::CreateAfter {
                new_text: new_text.clone(),
            },
        }
    }
}

impl LintView {
    /// A finding whose fix deletes its anchor.
    pub open spec fn delete(description: Seq<char>, anchor_idx: usize) -> LintView {
        LintView {
            description,
            line_no: 0,
            line_pos: 0,
            fix_type: FixTypeView::Delete,
            edit_text: None,
            anchor_idx,
        }
    }

    /// A finding whose fix puts one space somewhere.
    pub open spec fn one_space(
        description: Seq<char>,
        fix_type: FixTypeView,
        anchor_idx: usize,
    ) -> LintView {
        LintView {
            description,
            line_no: 0,
            line_pos: 0,
            fix_type,
            edit_text: Some(" "@),
            anchor_idx,
        }
    }
}

impl LintViolation {
    /// The mathematical form.
    pub open spec fn view(self) -> LintView {
        LintView {
            description: self.description@,
            line_no: self.line_no,
            line_pos: self.line_pos,
            fix_type: self.fix_type@,
            edit_text: crate::kind::opt_text(self.edit_text),
            anchor_idx: self.anchor_idx,
        }
    }

    /// The mathematical forms of a list.
    pub open spec fn views(list: Seq<LintViolation>) -> Seq<LintView> {
        Seq::new(list.len(), |i: int| list[i]@)
    }

    /// A finding whose fix deletes its anchor.
    fn deletion(description: &str, anchor_idx: usize) -> (r: LintViolation)
        ensures
            r@ == LintView::delete(description@, anchor_idx),
    {
        LintViolation {
            description: description.to_owned(),
            line_no: 0,
            line_pos: 0,
            fix_type: FixType::Delete,
            edit_text: None,
            anchor_idx,
        }
    }

    /// A finding whose fix puts one space somewhere.
    fn spacing(description: String, fix_type: FixType, anchor_idx: usize) -> (r: LintViolation)
        ensures
            r@ == LintView::one_space(description@, fix_type@, anchor_idx),
    {
        LintViolation {
            description,
            line_no: 0,
            line_pos: 0,
            fix_type,
            edit_text: Some(" ".to_owned()),
            anchor_idx,
        }
    }
}

impl Clone for LintViolation {
    fn clone(&self) -> (r: LintViolation)
        ensures
            r@ == self@,
    {
        LintViolation {
            description: self.description.clone(),
            line_no: self.line_no,
            line_pos: self.line_pos,
            fix_type: self.fix_type.clone(),
            edit_text: crate::kind::clone_opt_text(&self.edit_text),
            anchor_idx: self.anchor_idx,
        }
    }
}

/// What is wanted of the spacing between two blocks.
#[derive(Debug, PartialEq)]
pub enum Constraint {
    /// No space.
    Touch,
    /// One space.
    Single,
    /// Any whitespace will do.
    Any,
    /// Alignment, with its full text.
    Align(String),
}

/// The mathematical form of [`Constraint`].
pub enum ConstraintView {
    Touch,
    Single,
    Any,
    Align(Seq<char>),
}

impl Constraint {
    /// The mathematical form.
    pub open spec fn view(self) -> ConstraintView {
        match self {
            Constraint::Touch => ConstraintView::Touch,
            Constraint::Single => ConstraintView::Single,
            Constraint::Any => ConstraintView::Any,
            Constraint::Align(t) => ConstraintView::Align(t@),
        }
    }
}

impl Clone for Constraint {
    fn clone(&self) -> (r: Constraint)
        ensures
            r@ == self@,
    {
        match self {
            Constraint::Touch => Constraint::Touch,
            Constraint::Single => Constraint::Single,
            Constraint::Any => Constraint::Any,
            Constraint::Align(t) => Constraint::Align(t.clone()),
        }
    }
}

/// The place of the first `c` in the text, or its length where there is none.
pub open spec fn first_at(s: Seq<char>, c: char) -> int
    decreases s.len(),
{
    if s.len() == 0 || s[0] == c {
        0
    } else {
        1 + first_at(s.drop_first(), c)
    }
}

/// The constraint with the given name; one space is the default.
pub open spec fn constraint_named(base: Seq<char>) -> ConstraintView {
    if base == "touch"@ {
        ConstraintView::Touch
    } else if base == "any"@ {
        ConstraintView::Any
    } else {
        ConstraintView::Single
    }
}

/// What a constraint says: the name before the first colon, and whether newlines
/// go, which the modifier `inline` behind the colon asks for. `inline` alone is
/// `touch:inline`; what starts with `align` is kept in full.
pub open spec fn unpacked(text: Seq<char>, strip: bool) -> (ConstraintView, bool) {
    let c = if text == "inline"@ {
        "touch:inline"@
    } else {
        text
    };
    let colon = first_at(c, ':');
    if crate::text::infix_at(c, "align"@, 0) {
        (ConstraintView::Align(c), strip)
    } else if colon < c.len() {
        (constraint_named(c.take(colon)), strip || c.skip(colon + 1) == "inline"@)
    } else {
        (constraint_named(c), strip)
    }
}

/// The place of the first colon.
fn find_colon(chars: &Vec<char>) -> (r: usize)
    ensures
        r == first_at(chars@, ':'),
        r <= chars@.len(),
{
    let mut i: usize = 0;
    assert(chars@.skip(0) =~= chars@);
    while i < chars.len()
        invariant
            i <= chars@.len(),
            first_at(chars@, ':') == i + first_at(chars@.skip(i as int), ':'),
        decreases chars@.len() - i,
    {
        assert(chars@.skip(i as int)[0] == chars@[i as int]);
        assert(chars@.skip(i as int).drop_first() =~= chars@.skip(i + 1));
        if chars[i] == ':' {
            return i;
        }
        i += 1;
    }
    i
}

/// The constraint with the given name.
fn named_constraint(base: &str) -> (r: Constraint)
    ensures
        r@ == constraint_named(base@),
{
    if same_text(base, "touch") {
        Constraint::Touch
    } else if same_text(base, "any") {
        Constraint::Any
    } else {
        Constraint::Single
    }
}

/// What a constraint says.
pub fn unpack_constraint(constraint: &str, strip_newlines: bool) -> (r: (Constraint, bool))
    ensures
        (r.0@, r.1) == unpacked(constraint@, strip_newlines),
{
    let text = if same_text(constraint, "inline") {
        "touch:inline"
    } else {
        constraint
    };
    let chars = chars_of(text);
    let align = chars_of("align");
    if align.len() <= chars.len() && matches_at(&chars, &align, 0) {
        return (Constraint::Align(text.to_owned()), strip_newlines);
    }
    let colon: usize = find_colon(&chars);
    if colon < chars.len() {
        let base = string_of(&chars, 0, colon);
        let modifier = string_of(&chars, colon + 1, chars.len());
        assert(text@.take(colon as int) =~= base@);
        assert(text@.skip(colon + 1) =~= modifier@);
        let inline = same_text(modifier.as_str(), "inline");
        (named_constraint(base.as_str()), strip_newlines || inline)
    } else {
        (named_constraint(text), strip_newlines)
    }
}

/// What the innermost segment above both blocks wants between its parts.
pub open spec fn within_wish(prev: Option<BlockView>, next: Option<BlockView>) -> Option<
    Seq<char>,
> {
    match (prev, next) {
        (Some(p), Some(n)) => match p.depth.innermost_shared(n.depth) {
            Some(h) => if p.within.contains_key(h) {
                Some(p.within[h])
            } else {
                None
            },
            None => None,
        },
        _ => None,
    }
}

/// A wish, under what is wanted within the segment above: no space overrides all
/// but the wish for any, and any overrides everything.
pub open spec fn overridden(wish: ConstraintView, within: Option<ConstraintView>) -> ConstraintView {
    match within {
        Some(ConstraintView::Touch) => if wish is Any {
            wish
        } else {
            ConstraintView::Touch
        },
        Some(ConstraintView::Any) => ConstraintView::Any,
        _ => wish,
    }
}

/// What is wanted of the point between two blocks: from the one before, from the
/// one behind, and whether newlines go. The newline behind a comment stays.
pub open spec fn wanted(prev: Option<BlockView>, next: Option<BlockView>, strip: bool) -> (
    ConstraintView,
    ConstraintView,
    bool,
) {
    let (pre, strip1) = unpacked(
        match prev {
            Some(b) => b.spacing_after,
            None => "single"@,
        },
        strip,
    );
    let (post, strip2) = unpacked(
        match next {
            Some(b) => b.spacing_before,
            None => "single"@,
        },
        strip1,
    );
    let (within, strip3) = match within_wish(prev, next) {
        Some(w) => (Some(unpacked(w, strip2).0), unpacked(w, strip2).1),
        None => (None, strip2),
    };
    let after_comment = prev is Some && crate::text::has_infix(prev->0.segment_type, "comment"@);
    (overridden(pre, within), overridden(post, within), strip3 && !after_comment)
}

/// The view of an optional block.
pub open spec fn opt_block(b: Option<&ReflowBlock>) -> Option<BlockView> {
    match b {
        Some(x) => Some(x@),
        None => None,
    }
}

/// A wish, under what is wanted within the segment above.
fn override_wish(wish: Constraint, within: &Option<Constraint>) -> (r: Constraint)
    ensures
        r@ == overridden(
            wish@,
            match *within {
                Some(c) => Some(c@),
                None => None,
            },
        ),
{
    match within {
        Some(Constraint::Touch) => match wish {
            Constraint::Any => wish,
            _ => Constraint::Touch,
        },
        Some(Constraint::Any) => Constraint::Any,
        _ => wish,
    }
}

/// What is wanted of the point between two blocks: from the one before, from the
/// one behind, and whether newlines go.
pub fn determine_constraints(
    prev_block: Option<&ReflowBlock>,
    next_block: Option<&ReflowBlock>,
    strip_newlines: bool,
) -> (r: (Constraint, Constraint, bool))
    requires
        prev_block is Some ==> prev_block->0.wf(),
        next_block is Some ==> next_block->0.wf(),
    ensures
        (r.0@, r.1@, r.2) == wanted(opt_block(prev_block), opt_block(next_block), strip_newlines),
{
    let before = match prev_block {
        Some(b) => b.spacing_after.as_str(),
        None => "single",
    };
    let (pre, strip1) = unpack_constraint(before, strip_newlines);
    let behind = match next_block {
        Some(b) => b.spacing_before.as_str(),
        None => "single",
    };
    let (post, strip2) = unpack_constraint(behind, strip1);
    let mut strip = strip2;
    let mut within: Option<Constraint> = None;
    if let (Some(p), Some(n)) = (prev_block, next_block) {
        if let Some(h) = p.depth_info.last_common_hash(&n.depth_info) {
            if let Some(wish) = p.stack_spacing_configs.get(&h) {
                let (w, s) = unpack_constraint(wish.as_str(), strip);
                within = Some(w);
                strip = s;
            }
        }
    }
    let pre = override_wish(pre, &within);
    let post = override_wish(post, &within);
    if strip {
        if let Some(p) = prev_block {
            if contains_str(p.segment_type.as_str(), "comment") {
                strip = false;
            }
        }
    }
    (pre, post, strip)
}

/// The scan of a point: the whitespace since the last newline, what goes, and
/// what was found.
#[verifier::ext_equal]
pub struct SpacingScan {
    pub pending: Seq<int>,
    pub dropped: Set<int>,
    pub found: Seq<LintView>,
}

/// The anchor of the segment at a place of the point.
pub open spec fn anchor_of(indices: Seq<usize>, i: int) -> usize {
    if 0 <= i < indices.len() {
        indices[i]
    } else {
        0
    }
}

/// The findings that the segments at the places go.
pub open spec fn deletions(places: Seq<int>, indices: Seq<usize>, description: Seq<char>) -> Seq<
    LintView,
> {
    places.map_values(|i: int| LintView::delete(description, anchor_of(indices, i)))
}

impl SpacingScan {
    /// The scan of the first `n` segments. Whitespace before a newline or the end
    /// of the file goes; where the newline is not in the source, the whitespace
    /// before it stays. Newlines go where they are to be stripped, and then do
    /// not end the line.
    pub open spec fn of(
        types: Seq<Seq<char>>,
        indices: Seq<usize>,
        literals: Seq<bool>,
        strip: bool,
        n: nat,
    ) -> SpacingScan
        decreases n,
    {
        if n == 0 {
            SpacingScan { pending: Seq::empty(), dropped: Set::empty(), found: Seq::empty() }
        } else {
            let s = SpacingScan::of(types, indices, literals, strip, (n - 1) as nat);
            let i = n - 1;
            let literal = i < literals.len() ==> literals[i];
            if types[i] == "whitespace"@ {
                SpacingScan { pending: s.pending.push(i), ..s }
            } else if types[i] != "newline"@ && types[i] != "end_of_file"@ {
                s
            } else if !literal {
                SpacingScan { pending: Seq::empty(), ..s }
            } else if strip && types[i] == "newline"@ {
                SpacingScan {
                    dropped: s.dropped.insert(i),
                    found: s.found.push(
                        LintView::delete("Unexpected line break."@, anchor_of(indices, i)),
                    ),
                    ..s
                }
            } else {
                SpacingScan {
                    pending: Seq::empty(),
                    dropped: s.dropped.union(s.pending.to_set()),
                    found: s.found + deletions(
                        s.pending,
                        indices,
                        "Unnecessary trailing whitespace."@,
                    ),
                }
            }
        }
    }

    /// The scan of the whole point: of the whitespace behind the last newline
    /// only the first piece stays.
    pub open spec fn whole(
        types: Seq<Seq<char>>,
        indices: Seq<usize>,
        literals: Seq<bool>,
        strip: bool,
    ) -> SpacingScan {
        let s = SpacingScan::of(types, indices, literals, strip, types.len());
        if s.pending.len() >= 2 {
            SpacingScan {
                dropped: s.dropped.union(s.pending.skip(1).to_set()),
                found: s.found + deletions(
                    s.pending.skip(1),
                    indices,
                    "Removing duplicate whitespace."@,
                ),
                ..s
            }
        } else {
            s
        }
    }

    /// The places among the first `n` that stay.
    pub open spec fn kept(self, n: nat) -> Seq<int>
        decreases n,
    {
        if n == 0 {
            Seq::empty()
        } else if self.dropped.contains(n - 1) {
            self.kept((n - 1) as nat)
        } else {
            self.kept((n - 1) as nat).push(n - 1)
        }
    }
}

/// A point after the scan: what stays of it, the place of the last whitespace in
/// that, and what was found.
#[verifier::ext_equal]
pub struct CleanedView {
    pub segment_types: Seq<Seq<char>>,
    pub raws: Seq<Seq<char>>,
    pub raw_indices: Seq<usize>,
    pub last_space: Option<int>,
    pub found: Seq<LintView>,
}

/// The place of the last whitespace.
pub open spec fn last_space(types: Seq<Seq<char>>) -> Option<int>
    decreases types.len(),
{
    if types.len() == 0 {
        None
    } else if types.last() == "whitespace"@ {
        Some(types.len() - 1)
    } else {
        last_space(types.drop_last())
    }
}

impl CleanedView {
    /// The point after the scan.
    pub open spec fn of(
        types: Seq<Seq<char>>,
        raws: Seq<Seq<char>>,
        indices: Seq<usize>,
        literals: Seq<bool>,
        strip: bool,
    ) -> CleanedView {
        let s = SpacingScan::whole(types, indices, literals, strip);
        let n = if types.len() <= raws.len() {
            types.len()
        } else {
            raws.len()
        };
        let kept = s.kept(n);
        let kept_types = kept.map_values(|i: int| types[i]);
        CleanedView {
            segment_types: kept_types,
            raws: kept.map_values(|i: int| raws[i]),
            raw_indices: kept.map_values(|i: int| anchor_of(indices, i)),
            last_space: last_space(kept_types),
            found: s.found,
        }
    }
}

impl CleanedView {
    /// The parts of a point after the scan, taken together.
    pub open spec fn read(
        r: (Vec<String>, Vec<String>, Vec<usize>, Option<usize>, Vec<LintViolation>),
    ) -> CleanedView {
        CleanedView {
            segment_types: crate::text::texts(r.0@),
            raws: crate::text::texts(r.1@),
            raw_indices: r.2@,
            last_space: opt_place(r.3),
            found: LintViolation::views(r.4@),
        }
    }
}

/// An optional place as an integer.
pub open spec fn opt_place(p: Option<usize>) -> Option<int> {
    match p {
        Some(i) => Some(i as int),
        None => None,
    }
}

/// The anchor of the segment at a place of the point.
fn anchor_at(indices: &[usize], i: usize) -> (r: usize)
    ensures
        r == anchor_of(indices@, i as int),
{
    if i < indices.len() {
        indices[i]
    } else {
        0
    }
}

/// Marks the segments at the places from `from` on, and notes that they go.
fn drop_places(
    places: &Vec<usize>,
    from: usize,
    indices: &[usize],
    description: &str,
    flags: &mut Vec<bool>,
    found: &mut Vec<LintViolation>,
    Ghost(dropped): Ghost<Set<int>>,
)
    requires
        from <= places@.len(),
        forall|j: int| 0 <= j < places@.len() ==> (#[trigger] places@[j]) < old(flags)@.len(),
        forall|i: int| 0 <= i < old(flags)@.len() ==> (#[trigger] old(flags)@[i])
            == dropped.contains(i),
    ensures
        final(flags)@.len() == old(flags)@.len(),
        forall|i: int|
            0 <= i < final(flags)@.len() ==> (#[trigger] final(flags)@[i]) == dropped.union(
                as_places(places@).skip(from as int).to_set(),
            ).contains(i),
        LintViolation::views(final(found)@) == LintViolation::views(old(found)@) + deletions(
            as_places(places@).skip(from as int),
            indices@,
            description@,
        ),
{
    let ghost all = as_places(places@).skip(from as int);
    let ghost gone = deletions(all, indices@, description@);
    let ghost before = LintViolation::views(found@);
    let mut k: usize = from;
    assert(all.take(0).to_set() =~= Set::empty());
    assert(LintViolation::views(found@) =~= before + gone.take(0));
    while k < places.len()
        invariant
            from <= k <= places@.len(),
            all == as_places(places@).skip(from as int),
            gone == deletions(all, indices@, description@),
            flags@.len() == old(flags)@.len(),
            forall|j: int| 0 <= j < places@.len() ==> (#[trigger] places@[j]) < flags@.len(),
            forall|i: int|
                0 <= i < flags@.len() ==> (#[trigger] flags@[i]) == (dropped.contains(i)
                    || all.take(k - from).contains(i)),
            LintViolation::views(found@) == before + gone.take(k - from),
        decreases places@.len() - k,
    {
        let at: usize = places[k];
        let ghost was = flags@;
        flags[at] = true;
        let one = LintViolation::deletion(description, anchor_at(indices, at));
        let ghost view = one@;
        let ghost had = LintViolation::views(found@);
        found.push(one);
        assert(LintViolation::views(found@) =~= had.push(view));
        proof {
            let m = k - from;
            let less = all.take(m);
            let more = all.take(m + 1);
            assert(all[m] == at);
            assert(gone[m] == view);
            assert(gone.take(m + 1) =~= gone.take(m).push(view));
            assert(more =~= less.push(at as int));
            assert forall|i: int| 0 <= i < flags@.len() implies (#[trigger] flags@[i]) == (
            dropped.contains(i) || more.contains(i)) by {
                if i == at {
                    assert(more[m] == i);
                } else {
                    assert(flags@[i] == was[i]);
                    if less.contains(i) {
                        let q = choose|q: int| 0 <= q < less.len() && less[q] == i;
                        assert(more[q] == i);
                    }
                    if more.contains(i) {
                        let q = choose|q: int| 0 <= q < more.len() && more[q] == i;
                        assert(less[q] == i);
                    }
                }
            }
        }
        k += 1;
    }
    assert(all.take(all.len() as int) =~= all);
    assert(gone.take(gone.len() as int) =~= gone);
}

/// Places as integers.
pub open spec fn as_places(list: Seq<usize>) -> Seq<int> {
    list.map_values(|i: usize| i as int)
}

/// Prunes the segments of a point: the types, texts and places of what stays, the
/// place of the last whitespace in that, and what was found.
pub fn process_spacing(
    segment_types: &[String],
    raws: &[String],
    raw_indices: &[usize],
    is_literals: &[bool],
    strip_newlines: bool,
) -> (r: (Vec<String>, Vec<String>, Vec<usize>, Option<usize>, Vec<LintViolation>))
    ensures
        CleanedView::read(r) == CleanedView::of(
            crate::text::texts(segment_types@),
            crate::text::texts(raws@),
            raw_indices@,
            is_literals@,
            strip_newlines,
        ),
{
    let ghost types = crate::text::texts(segment_types@);
    let ghost indices = raw_indices@;
    let ghost literals = is_literals@;
    let n: usize = segment_types.len();
    let mut found: Vec<LintViolation> = Vec::new();
    let mut pending: Vec<usize> = Vec::new();
    let mut flags: Vec<bool> = Vec::new();
    let mut k: usize = 0;
    while k < n
        invariant
            k <= n,
            flags@.len() == k,
            forall|i: int| 0 <= i < k ==> !(#[trigger] flags@[i]),
        decreases n - k,
    {
        flags.push(false);
        k += 1;
    }
    let ghost mut scan = SpacingScan::of(types, indices, literals, strip_newlines, 0);
    assert(as_places(pending@) =~= scan.pending);
    assert(LintViolation::views(found@) =~= scan.found);
    for i in 0..n
        invariant
            n == segment_types@.len(),
            types == crate::text::texts(segment_types@),
            indices == raw_indices@,
            literals == is_literals@,
            flags@.len() == n,
            scan == SpacingScan::of(types, indices, literals, strip_newlines, i as nat),
            as_places(pending@) == scan.pending,
            LintViolation::views(found@) == scan.found,
            forall|j: int| 0 <= j < n ==> (#[trigger] flags@[j]) == scan.dropped.contains(j),
            forall|j: int| 0 <= j < pending@.len() ==> (#[trigger] pending@[j]) < n,
    {
        let t = segment_types[i].as_str();
        assert(types[i as int] == t@);
        let ghost next = SpacingScan::of(
            types,
            indices,
            literals,
            strip_newlines,
            (i + 1) as nat,
        );
        if same_text(t, "whitespace") {
            pending.push(i);
            assert(as_places(pending@) =~= next.pending);
        } else if same_text(t, "newline") || same_text(t, "end_of_file") {
            let literal = if i < is_literals.len() {
                is_literals[i]
            } else {
                true
            };
            if !literal {
                pending = Vec::new();
                assert(as_places(pending@) =~= next.pending);
            } else if strip_newlines && same_text(t, "newline") {
                flags[i] = true;
                let one = LintViolation::deletion(
                    "Unexpected line break.",
                    anchor_at(raw_indices, i),
                );
                let ghost view = one@;
                found.push(one);
                assert(LintViolation::views(found@) =~= scan.found.push(view));
            } else {
                drop_places(
                    &pending,
                    0,
                    raw_indices,
                    "Unnecessary trailing whitespace.",
                    &mut flags,
                    &mut found,
                    Ghost(scan.dropped),
                );
                assert(as_places(pending@).skip(0) =~= scan.pending);
                pending = Vec::new();
                assert(as_places(pending@) =~= next.pending);
            }
        }
        proof {
            scan = next;
        }
    }
    if pending.len() >= 2 {
        drop_places(
            &pending,
            1,
            raw_indices,
            "Removing duplicate whitespace.",
            &mut flags,
            &mut found,
            Ghost(scan.dropped),
        );
    }
    let ghost whole = SpacingScan::whole(types, indices, literals, strip_newlines);
    assert(LintViolation::views(found@) == whole.found);
    assert(forall|j: int| 0 <= j < n ==> (#[trigger] flags@[j]) == whole.dropped.contains(j));
    let m: usize = if n <= raws.len() {
        n
    } else {
        raws.len()
    };
    let mut out_types: Vec<String> = Vec::new();
    let mut out_raws: Vec<String> = Vec::new();
    let mut out_indices: Vec<usize> = Vec::new();
    let mut last: Option<usize> = None;
    let ghost texts = crate::text::texts(raws@);
    assert(crate::text::texts(out_types@) =~= whole.kept(0).map_values(|j: int| types[j]));
    assert(crate::text::texts(out_raws@) =~= whole.kept(0).map_values(|j: int| texts[j]));
    assert(out_indices@ =~= whole.kept(0).map_values(|j: int| anchor_of(indices, j)));
    for i in 0..m
        invariant
            n == segment_types@.len(),
            m <= n,
            m <= raws@.len(),
            types == crate::text::texts(segment_types@),
            texts == crate::text::texts(raws@),
            indices == raw_indices@,
            flags@.len() == n,
            forall|j: int| 0 <= j < n ==> (#[trigger] flags@[j]) == whole.dropped.contains(j),
            crate::text::texts(out_types@) == whole.kept(i as nat).map_values(|j: int| types[j]),
            crate::text::texts(out_raws@) == whole.kept(i as nat).map_values(|j: int| texts[j]),
            out_indices@ == whole.kept(i as nat).map_values(|j: int| anchor_of(indices, j)),
            opt_place(last) == last_space(crate::text::texts(out_types@)),
    {
        assert(flags@[i as int] == whole.dropped.contains(i as int));
        if !flags[i] {
            let at: usize = out_types.len();
            let ghost had = crate::text::texts(out_types@);
            let ghost had_raws = crate::text::texts(out_raws@);
            assert(types[i as int] == segment_types@[i as int]@);
            assert(texts[i as int] == raws@[i as int]@);
            let t = segment_types[i].clone();
            let space = same_text(t.as_str(), "whitespace");
            out_types.push(t);
            out_raws.push(raws[i].clone());
            out_indices.push(anchor_at(raw_indices, i));
            assert(crate::text::texts(out_types@) =~= had.push(types[i as int]));
            assert(had.push(types[i as int]).drop_last() =~= had);
            assert(crate::text::texts(out_raws@) =~= had_raws.push(texts[i as int]));
            assert(crate::text::texts(out_types@) =~= whole.kept((i + 1) as nat).map_values(
                |j: int| types[j],
            ));
            assert(crate::text::texts(out_raws@) =~= whole.kept((i + 1) as nat).map_values(
                |j: int| texts[j],
            ));
            assert(out_indices@ =~= whole.kept((i + 1) as nat).map_values(
                |j: int| anchor_of(indices, j),
            ));
            if space {
                last = Some(at);
            }
        }
    }
    (out_types, out_raws, out_indices, last, found)
}

/// The text with every underscore turned into a space.
pub open spec fn spaced(s: Seq<char>) -> Seq<char> {
    s.map_values(
        |c: char|
            if c == '_' {
                ' '
            } else {
                c
            },
    )
}

/// The text with a backslash before every backslash and single quote.
pub open spec fn escaped_quotes(s: Seq<char>) -> Seq<char>
    decreases s.len(),
{
    if s.len() == 0 {
        Seq::empty()
    } else {
        let before = escaped_quotes(s.drop_last());
        if s.last() == '\\' || s.last() == '\'' {
            before.push('\\').push(s.last())
        } else {
            before.push(s.last())
        }
    }
}

/// The text in single quotes.
pub open spec fn single_quoted(s: Seq<char>) -> Seq<char> {
    "'"@ + escaped_quotes(s) + "'"@
}

/// How a finding names a segment: a symbol by its type and text, a keyword by
/// its text, anything else by its type.
pub open spec fn pretty(
    segment_type: Seq<char>,
    raw: Seq<char>,
    class_types: Seq<Seq<char>>,
) -> Seq<char> {
    if crate::text::has_infix(segment_type, "symbol"@) || class_types.contains("symbol"@) {
        spaced(segment_type) + " "@ + single_quoted(raw)
    } else if crate::text::has_infix(segment_type, "keyword"@) || class_types.contains(
        "keyword"@,
    ) {
        single_quoted(raw) + " keyword"@
    } else {
        spaced(segment_type)
    }
}

/// The text with every underscore turned into a space.
fn spaced_text(s: &str) -> (r: String)
    ensures
        r@ == spaced(s@),
{
    let chars = chars_of(s);
    let mut out = String::new();
    for i in 0..chars.len()
        invariant
            chars@ == s@,
            out@ == spaced(s@.take(i as int)),
    {
        let c: char = chars[i];
        out.push(
            if c == '_' {
                ' '
            } else {
                c
            },
        );
        assert(out@ =~= spaced(s@.take(i + 1)));
    }
    assert(s@.take(s@.len() as int) =~= s@);
    out
}

/// The text in single quotes.
fn quoted_text(s: &str) -> (r: String)
    ensures
        r@ == single_quoted(s@),
{
    let chars = chars_of(s);
    let mut out = "'".to_owned();
    assert(out@ =~= "'"@ + escaped_quotes(s@.take(0)));
    for i in 0..chars.len()
        invariant
            chars@ == s@,
            out@ == "'"@ + escaped_quotes(s@.take(i as int)),
    {
        let c: char = chars[i];
        assert(s@.take(i + 1).drop_last() =~= s@.take(i as int));
        if c == '\\' || c == '\'' {
            out.push('\\');
        }
        out.push(c);
        assert(out@ =~= "'"@ + escaped_quotes(s@.take(i + 1)));
    }
    assert(s@.take(s@.len() as int) =~= s@);
    out.push_str("'");
    out
}

/// How a finding names a segment.
pub fn pretty_segment_name(segment_type: &str, raw: &str, class_types: &[String]) -> (r: String)
    ensures
        r@ == pretty(segment_type@, raw@, crate::text::texts(class_types@)),
{
    if contains_str(segment_type, "symbol") || slice_contains(class_types, "symbol") {
        let mut out = spaced_text(segment_type);
        out.push_str(" ");
        out.push_str(quoted_text(raw).as_str());
        out
    } else if contains_str(segment_type, "keyword") || slice_contains(class_types, "keyword") {
        let mut out = quoted_text(raw);
        out.push_str(" keyword");
        out
    } else {
        spaced_text(segment_type)
    }
}

impl BlockView {
    /// How a finding names the block.
    pub open spec fn name(self) -> Seq<char> {
        pretty(self.segment_type, self.raw, self.class_types)
    }
}

/// How a finding names the block.
fn block_name(b: &ReflowBlock) -> (r: String)
    ensures
        r@ == b@.name(),
{
    pretty_segment_name(b.segment_type.as_str(), b.raw.as_str(), b.class_types.as_slice())
}

/// The finding that whitespace is not one space; `shown` is its printed form.
pub open spec fn excess(next: Option<BlockView>, shown: Seq<char>, anchor_idx: usize) -> LintView {
    LintView::one_space(
        match next {
            Some(b) => "Expected only single space before "@ + b.name() + ". Found "@ + shown
                + "."@,
            None => "Expected only single space. Found "@ + shown + "."@,
        },
        FixTypeView::Replace { new_text: " "@ },
        anchor_idx,
    )
}

/// What is wrong with whitespace between two blocks on one line.
pub open spec fn wrong_with_space(
    pre: ConstraintView,
    post: ConstraintView,
    next: Option<BlockView>,
    whitespace: Seq<char>,
    anchor_idx: usize,
) -> Seq<LintView> {
    if pre is Any || post is Any {
        Seq::empty()
    } else if pre is Touch || post is Touch {
        seq![
            LintView::delete(
                match next {
                    Some(b) => "Unexpected whitespace before "@ + b.name() + "."@,
                    None => "Unexpected whitespace."@,
                },
                anchor_idx,
            ),
        ]
    } else if pre is Align || post is Align || whitespace == " "@ {
        Seq::empty()
    } else {
        seq![excess(next, crate::text::debug_form(whitespace), anchor_idx)]
    }
}

/// What is wrong with nothing between two blocks on one line.
pub open spec fn wrong_without_space(
    pre: ConstraintView,
    post: ConstraintView,
    prev: Option<BlockView>,
    next: Option<BlockView>,
) -> Seq<LintView> {
    if pre is Touch || pre is Any || post is Touch || post is Any {
        Seq::empty()
    } else {
        match (prev, next) {
            (Some(p), Some(n)) => seq![
                LintView::one_space(
                    "Expected single whitespace between "@ + p.name() + " and "@ + n.name() + "."@,
                    FixTypeView::CreateAfter { new_text: " "@ },
                    p.raw_idx,
                ),
            ],
            (Some(p), None) => seq![
                LintView::one_space(
                    "Expected single whitespace."@,
                    FixTypeView::CreateAfter { new_text: " "@ },
                    p.raw_idx,
                ),
            ],
            (None, Some(n)) => seq![
                LintView::one_space(
                    "Expected single whitespace."@,
                    FixTypeView::CreateBefore { new_text: " "@ },
                    n.raw_idx,
                ),
            ],
            (None, None) => Seq::empty(),
        }
    }
}

/// The finding that whitespace is not one space; `shown` is its printed form.
pub fn excess_violation(
    next_block: Option<&ReflowBlock>,
    shown: &str,
    anchor_idx: usize,
) -> (r: LintViolation)
    ensures
        r@ == excess(opt_block(next_block), shown@, anchor_idx),
{
    let description = match next_block {
        Some(b) => {
            let mut s = "Expected only single space before ".to_owned();
            s.push_str(block_name(b).as_str());
            s.push_str(". Found ");
            s.push_str(shown);
            s.push_str(".");
            s
        },
        None => {
            let mut s = "Expected only single space. Found ".to_owned();
            s.push_str(shown);
            s.push_str(".");
            s
        },
    };
    LintViolation::spacing(
        description,
        FixType::Replace { new_text: " ".to_owned() },
        anchor_idx,
    )
}

/// What is wrong with whitespace between two blocks on one line.
pub fn handle_inline_with_space(
    pre_constraint: &Constraint,
    post_constraint: &Constraint,
    next_block: Option<&ReflowBlock>,
    whitespace_raw: &str,
    whitespace_anchor_idx: usize,
) -> (r: Vec<LintViolation>)
    ensures
        LintViolation::views(r@) == wrong_with_space(
            pre_constraint@,
            post_constraint@,
            opt_block(next_block),
            whitespace_raw@,
            whitespace_anchor_idx,
        ),
{
    let mut out: Vec<LintViolation> = Vec::new();
    let ghost want = wrong_with_space(
        pre_constraint@,
        post_constraint@,
        opt_block(next_block),
        whitespace_raw@,
        whitespace_anchor_idx,
    );
    if matches!(pre_constraint, Constraint::Any) || matches!(post_constraint, Constraint::Any) {
        assert(LintViolation::views(out@) =~= want);
        return out;
    }
    if matches!(pre_constraint, Constraint::Touch) || matches!(post_constraint, Constraint::Touch) {
        let description = match next_block {
            Some(b) => {
                let mut s = "Unexpected whitespace before ".to_owned();
                s.push_str(block_name(b).as_str());
                s.push_str(".");
                s
            },
            None => "Unexpected whitespace.".to_owned(),
        };
        out.push(LintViolation::deletion(description.as_str(), whitespace_anchor_idx));
        assert(LintViolation::views(out@) =~= want);
        return out;
    }
    if matches!(pre_constraint, Constraint::Align(_)) || matches!(
        post_constraint,
        Constraint::Align(_)
    ) || same_text(whitespace_raw, " ") {
        assert(LintViolation::views(out@) =~= want);
        return out;
    }
    let shown = debug_text(whitespace_raw);
    out.push(excess_violation(next_block, shown.as_str(), whitespace_anchor_idx));
    assert(LintViolation::views(out@) =~= want);
    out
}

/// What is wrong with nothing between two blocks on one line.
pub fn handle_inline_without_space(
    pre_constraint: &Constraint,
    post_constraint: &Constraint,
    prev_block: Option<&ReflowBlock>,
    next_block: Option<&ReflowBlock>,
) -> (r: Vec<LintViolation>)
    ensures
        LintViolation::views(r@) == wrong_without_space(
            pre_constraint@,
            post_constraint@,
            opt_block(prev_block),
            opt_block(next_block),
        ),
{
    let mut out: Vec<LintViolation> = Vec::new();
    let ghost want = wrong_without_space(
        pre_constraint@,
        post_constraint@,
        opt_block(prev_block),
        opt_block(next_block),
    );
    if matches!(pre_constraint, Constraint::Touch | Constraint::Any) || matches!(
        post_constraint,
        Constraint::Touch | Constraint::Any
    ) {
        assert(LintViolation::views(out@) =~= want);
        return out;
    }
    let description = match (prev_block, next_block) {
        (Some(p), Some(n)) => {
            let mut s = "Expected single whitespace between ".to_owned();
            s.push_str(block_name(p).as_str());
            s.push_str(" and ");
            s.push_str(block_name(n).as_str());
            s.push_str(".");
            s
        },
        _ => "Expected single whitespace.".to_owned(),
    };
    match (prev_block, next_block) {
        (Some(p), _) => {
            let fix = FixType::CreateAfter { new_text: " ".to_owned() };
            out.push(LintViolation::spacing(description, fix, p.raw_idx));
        },
        (None, Some(n)) => {
            let fix = FixType::CreateBefore { new_text: " ".to_owned() };
            out.push(LintViolation::spacing(description, fix, n.raw_idx));
        },
        (None, None) => {},
    }
    assert(LintViolation::views(out@) =~= want);
    out
}

pub(crate) proof fn scan_facts(
    types: Seq<Seq<char>>,
    indices: Seq<usize>,
    literals: Seq<bool>,
    strip: bool,
    n: nat,
)
    requires
        n <= types.len(),
    ensures
        ({
            let s = SpacingScan::of(types, indices, literals, strip, n);
            &&& forall|k: int|
                0 <= k < s.pending.len() ==> 0 <= (#[trigger] s.pending[k]) < n
                    && types[s.pending[k]] == "whitespace"@ && !s.dropped.contains(s.pending[k])
            &&& forall|j: int, k: int|
                0 <= j < k < s.pending.len() ==> (#[trigger] s.pending[j]) < (
                #[trigger] s.pending[k])
            &&& forall|i: int| #[trigger]
                s.dropped.contains(i) ==> 0 <= i < n && goes_ok(types, literals, strip, i)
        }),
    decreases n,
{
    if n > 0 {
        scan_facts(types, indices, literals, strip, (n - 1) as nat);
        let q = SpacingScan::of(types, indices, literals, strip, (n - 1) as nat);
        let s = SpacingScan::of(types, indices, literals, strip, n);
        assert forall|i: int| #[trigger] s.dropped.contains(i) implies 0 <= i < n && goes_ok(
            types,
            literals,
            strip,
            i,
        ) by {
            if !q.dropped.contains(i) && i != n - 1 {
                assert(q.pending.contains(i));
                let k = choose|k: int| 0 <= k < q.pending.len() && q.pending[k] == i;
                assert(types[q.pending[k]] == "whitespace"@);
            }
        }
    }
}

/// Whether pruning may drop the segment: whitespace, or a newline that is to be
/// stripped and stands in the source.
pub open spec fn goes_ok(
    types: Seq<Seq<char>>,
    literals: Seq<bool>,
    strip: bool,
    i: int,
) -> bool {
    ||| types[i] == "whitespace"@
    ||| strip && types[i] == "newline"@ && (i < literals.len() ==> literals[i])
}

/// Pruning drops nothing but whitespace and, where newlines are to be stripped,
/// newlines that stand in the source.
pub proof fn only_spacing_goes(
    types: Seq<Seq<char>>,
    indices: Seq<usize>,
    literals: Seq<bool>,
    strip: bool,
    i: int,
)
    requires
        SpacingScan::whole(types, indices, literals, strip).dropped.contains(i),
    ensures
        0 <= i < types.len(),
        goes_ok(types, literals, strip, i),
{
    scan_facts(types, indices, literals, strip, types.len());
    let s = SpacingScan::of(types, indices, literals, strip, types.len());
    if !s.dropped.contains(i) {
        let rest = s.pending.skip(1);
        assert(rest.contains(i));
        let k = choose|k: int| 0 <= k < rest.len() && rest[k] == i;
        assert(s.pending[k + 1] == i);
    }
}

/// Whether a segment of the type ends a line.
pub open spec fn ends_line(t: Seq<char>) -> bool {
    t == "newline"@ || t == "end_of_file"@
}

proof fn drops_stay(
    types: Seq<Seq<char>>,
    indices: Seq<usize>,
    literals: Seq<bool>,
    strip: bool,
    n: nat,
    m: nat,
    i: int,
)
    requires
        n <= m,
        SpacingScan::of(types, indices, literals, strip, n).dropped.contains(i),
    ensures
        SpacingScan::of(types, indices, literals, strip, m).dropped.contains(i),
    decreases m,
{
    if n < m {
        drops_stay(types, indices, literals, strip, n, (m - 1) as nat, i);
    }
}

proof fn waits(
    types: Seq<Seq<char>>,
    indices: Seq<usize>,
    literals: Seq<bool>,
    strip: bool,
    i: int,
    n: nat,
)
    requires
        0 <= i < n <= types.len(),
        types[i] == "whitespace"@,
        forall|k: int| i < k < n ==> !ends_line(#[trigger] types[k]),
    ensures
        SpacingScan::of(types, indices, literals, strip, n).pending.contains(i),
    decreases n,
{
    let s = SpacingScan::of(types, indices, literals, strip, n);
    if n == i + 1 {
        assert(s.pending[s.pending.len() - 1] == i);
    } else {
        waits(types, indices, literals, strip, i, (n - 1) as nat);
        let q = SpacingScan::of(types, indices, literals, strip, (n - 1) as nat);
        let k = choose|k: int| 0 <= k < q.pending.len() && q.pending[k] == i;
        assert(!ends_line(types[n - 1]));
        assert(s.pending[k] == i);
    }
}

/// Trailing whitespace goes: whitespace that only a literal newline or the end of
/// the file ends, where newlines are not stripped.
pub proof fn trailing_whitespace_goes(
    types: Seq<Seq<char>>,
    indices: Seq<usize>,
    literals: Seq<bool>,
    i: int,
    end: int,
)
    requires
        0 <= i < end < types.len(),
        types[i] == "whitespace"@,
        ends_line(types[end]),
        end < literals.len() ==> literals[end],
        forall|k: int| i < k < end ==> !ends_line(#[trigger] types[k]),
    ensures
        SpacingScan::whole(types, indices, literals, false).dropped.contains(i),
{
    reveal_strlit("whitespace");
    reveal_strlit("newline");
    reveal_strlit("end_of_file");
    waits(types, indices, literals, false, i, end as nat);
    let s = SpacingScan::of(types, indices, literals, false, end as nat);
    assert("whitespace"@.len() != "newline"@.len());
    assert("whitespace"@.len() != "end_of_file"@.len());
    assert(s.pending.to_set().contains(i));
    assert(SpacingScan::of(types, indices, literals, false, (end + 1) as nat).dropped.contains(i));
    drops_stay(types, indices, literals, false, (end + 1) as nat, types.len(), i);
}

proof fn stays(
    types: Seq<Seq<char>>,
    indices: Seq<usize>,
    literals: Seq<bool>,
    strip: bool,
    i: int,
    n: nat,
    m: nat,
)
    requires
        0 <= i < n <= m <= types.len(),
        !SpacingScan::of(types, indices, literals, strip, n).dropped.contains(i),
        !SpacingScan::of(types, indices, literals, strip, n).pending.contains(i),
    ensures
        !SpacingScan::of(types, indices, literals, strip, m).dropped.contains(i),
        !SpacingScan::of(types, indices, literals, strip, m).pending.contains(i),
    decreases m,
{
    if n < m {
        stays(types, indices, literals, strip, i, n, (m - 1) as nat);
        let q = SpacingScan::of(types, indices, literals, strip, (m - 1) as nat);
        let s = SpacingScan::of(types, indices, literals, strip, m);
        if s.pending.contains(i) {
            let k = choose|k: int| 0 <= k < s.pending.len() && s.pending[k] == i;
            assert(k < q.pending.len());
            assert(q.pending[k] == i);
        }
    }
}

/// Whitespace before a newline that is not in the source stays: the source has
/// no trailing whitespace there.
pub proof fn rendered_whitespace_stays(
    types: Seq<Seq<char>>,
    indices: Seq<usize>,
    literals: Seq<bool>,
    strip: bool,
    i: int,
    end: int,
)
    requires
        0 <= i < end < types.len(),
        types[i] == "whitespace"@,
        ends_line(types[end]),
        end < literals.len() && !literals[end],
        forall|k: int| i < k < end ==> !ends_line(#[trigger] types[k]),
    ensures
        !SpacingScan::whole(types, indices, literals, strip).dropped.contains(i),
{
    reveal_strlit("whitespace");
    reveal_strlit("newline");
    reveal_strlit("end_of_file");
    assert("whitespace"@.len() != "newline"@.len());
    assert("whitespace"@.len() != "end_of_file"@.len());
    waits(types, indices, literals, strip, i, end as nat);
    scan_facts(types, indices, literals, strip, end as nat);
    let s = SpacingScan::of(types, indices, literals, strip, end as nat);
    let k = choose|k: int| 0 <= k < s.pending.len() && s.pending[k] == i;
    assert(!s.dropped.contains(s.pending[k]));
    stays(types, indices, literals, strip, i, (end + 1) as nat, types.len());
    let last = SpacingScan::of(types, indices, literals, strip, types.len());
    if last.pending.len() >= 2 && last.pending.skip(1).contains(i) {
        let j = choose|j: int|
            0 <= j < last.pending.skip(1).len() && last.pending.skip(1)[j] == i;
        assert(last.pending[j + 1] == i);
    }
}

/// Whether the segment stands in the source.
pub open spec fn in_source(literals: Seq<bool>, i: int) -> bool {
    i < literals.len() ==> literals[i]
}

/// Whether the segment is a newline that is to be stripped.
pub open spec fn stripped(
    types: Seq<Seq<char>>,
    literals: Seq<bool>,
    strip: bool,
    i: int,
) -> bool {
    strip && types[i] == "newline"@ && in_source(literals, i)
}

/// The first place from `i` on, below `n`, that ends a line and is not stripped;
/// `n` where there is none.
pub open spec fn line_end(
    types: Seq<Seq<char>>,
    literals: Seq<bool>,
    strip: bool,
    i: int,
    n: int,
) -> int
    decreases n - i,
{
    if i >= n {
        n
    } else if ends_line(types[i]) && !stripped(types, literals, strip, i) {
        i
    } else {
        line_end(types, literals, strip, i + 1, n)
    }
}

/// Whether the segment is whitespace that no line end follows, below `n`.
pub open spec fn open_space(
    types: Seq<Seq<char>>,
    literals: Seq<bool>,
    strip: bool,
    i: int,
    n: int,
) -> bool {
    0 <= i < n && types[i] == "whitespace"@ && line_end(types, literals, strip, i + 1, n) == n
}

/// Whether the segment is stripped, or whitespace before a line end in the source.
pub(crate) open(crate) spec fn ended(
    types: Seq<Seq<char>>,
    literals: Seq<bool>,
    strip: bool,
    i: int,
    n: int,
) -> bool {
    let e = line_end(types, literals, strip, i + 1, n);
    0 <= i < n && (stripped(types, literals, strip, i) || (types[i] == "whitespace"@ && e < n
        && in_source(literals, e)))
}

proof fn line_end_grows(
    types: Seq<Seq<char>>,
    literals: Seq<bool>,
    strip: bool,
    i: int,
    n: int,
)
    requires
        i <= n,
    ensures
        ({
            let e = line_end(types, literals, strip, i, n);
            let f = line_end(types, literals, strip, i, n + 1);
            &&& i <= e <= n
            &&& f == (if e < n {
                e
            } else if ends_line(types[n]) && !stripped(types, literals, strip, n) {
                n
            } else {
                n + 1
            })
        }),
    decreases n - i,
{
    if i < n {
        line_end_grows(types, literals, strip, i + 1, n);
    } else {
        assert(line_end(types, literals, strip, n + 1, n + 1) == n + 1);
    }
}

/// The scan holds back the whitespace that no line end follows yet, and has dropped
/// the rest of what goes.
pub(crate) proof fn scan_is(
    types: Seq<Seq<char>>,
    indices: Seq<usize>,
    literals: Seq<bool>,
    strip: bool,
    n: nat,
)
    requires
        n <= types.len(),
    ensures
        ({
            let s = SpacingScan::of(types, indices, literals, strip, n);
            &&& forall|i: int| #[trigger]
                s.pending.contains(i) <==> open_space(types, literals, strip, i, n as int)
            &&& forall|i: int| #[trigger]
                s.dropped.contains(i) <==> ended(types, literals, strip, i, n as int)
        }),
    decreases n,
{
    reveal_strlit("whitespace");
    reveal_strlit("newline");
    reveal_strlit("end_of_file");
    assert("whitespace"@.len() != "newline"@.len());
    assert("whitespace"@.len() != "end_of_file"@.len());
    assert("newline"@.len() != "end_of_file"@.len());
    let s = SpacingScan::of(types, indices, literals, strip, n);
    if n > 0 {
        scan_is(types, indices, literals, strip, (n - 1) as nat);
        let q = SpacingScan::of(types, indices, literals, strip, (n - 1) as nat);
        let last = n - 1;
        assert forall|i: int| #[trigger] s.pending.contains(i) <==> open_space(
            types,
            literals,
            strip,
            i,
            n as int,
        ) by {
            if 0 <= i < last {
                line_end_grows(types, literals, strip, i + 1, last);
            }
            if types[last] == "whitespace"@ {
                assert(s.pending == q.pending.push(last));
                if q.pending.contains(i) {
                    let k = choose|k: int| 0 <= k < q.pending.len() && q.pending[k] == i;
                    assert(s.pending[k] == i);
                }
                assert(s.pending[s.pending.len() - 1] == last);
            }
            assert(q.pending.contains(i) <==> open_space(types, literals, strip, i, last));
        }
        assert forall|i: int| #[trigger] s.dropped.contains(i) <==> ended(
            types,
            literals,
            strip,
            i,
            n as int,
        ) by {
            if 0 <= i < last {
                line_end_grows(types, literals, strip, i + 1, last);
            }
            assert(q.dropped.contains(i) <==> ended(types, literals, strip, i, last));
            assert(q.pending.contains(i) <==> open_space(types, literals, strip, i, last));
            assert(q.pending.to_set().contains(i) == q.pending.contains(i));
        }
    }
}

/// What goes from a point, in full: newlines that are to be stripped; whitespace
/// whose line ends in the source; and, of the whitespace that no line end follows,
/// all but the first piece.
pub proof fn what_goes(
    types: Seq<Seq<char>>,
    indices: Seq<usize>,
    literals: Seq<bool>,
    strip: bool,
    i: int,
)
    requires
        0 <= i < types.len(),
    ensures
        ({
            let n = types.len() as int;
            let e = line_end(types, literals, strip, i + 1, n);
            SpacingScan::whole(types, indices, literals, strip).dropped.contains(i) <==> {
                ||| stripped(types, literals, strip, i)
                ||| types[i] == "whitespace"@ && e < n && in_source(literals, e)
                ||| types[i] == "whitespace"@ && e == n && exists|h: int|
                    h < i && #[trigger] open_space(types, literals, strip, h, n)
            }
        }),
{
    let n = types.len();
    let s = SpacingScan::of(types, indices, literals, strip, n);
    let w = SpacingScan::whole(types, indices, literals, strip);
    scan_is(types, indices, literals, strip, n);
    scan_facts(types, indices, literals, strip, n);
    line_end_grows(types, literals, strip, i + 1, n as int);
    assert(s.dropped.contains(i) <==> ended(types, literals, strip, i, n as int));
    assert(s.pending.contains(i) <==> open_space(types, literals, strip, i, n as int));
    let rest = s.pending.skip(1);
    if s.pending.len() >= 2 && rest.contains(i) {
        let k = choose|k: int| 0 <= k < rest.len() && rest[k] == i;
        assert(s.pending[k + 1] == i);
        assert(s.pending.contains(s.pending[0]));
        assert(s.pending[0] < s.pending[k + 1]);
        assert(open_space(types, literals, strip, s.pending[0], n as int));
    }
    if s.pending.contains(i) && exists|h: int|
        h < i && #[trigger] open_space(types, literals, strip, h, n as int) {
        let h = choose|h: int| h < i && #[trigger] open_space(types, literals, strip, h, n as int);
        assert(s.pending.contains(h));
        let a = choose|a: int| 0 <= a < s.pending.len() && s.pending[a] == h;
        let b = choose|b: int| 0 <= b < s.pending.len() && s.pending[b] == i;
        if b < a {
            assert(s.pending[b] < s.pending[a]);
        }
        assert(rest[b - 1] == i);
        assert(rest.to_set().contains(i));
    }
    if s.pending.len() >= 2 {
        assert(rest.to_set().contains(i) == rest.contains(i));
    }
}

} // verus!
