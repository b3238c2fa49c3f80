//! What respacing is for: laws that relate what two neighbours want and what
//! stands between them to what is found.

use vstd::prelude::*;

#[allow(unused_imports)]
use crate::reflow::elements::{BlockView, ElementView, PointView};
#[allow(unused_imports)]
use crate::reflow::respace::{
    anchor_of, ends_line, escaped_quotes, line_end, open_space, pretty, single_quoted, spaced,
    stripped, unpacked, wanted, wrong_with_space, wrong_without_space, CleanedView,
    ConstraintView, FixTypeView, LintView, SpacingScan,
};
#[allow(unused_imports)]
use crate::reflow::sequence::{all_findings, findings};

verus! {

impl LintView {
    /// Whether the finding asks to delete the segment at a place, and says nothing
    /// else of it.
    pub open spec fn deletes(self, at: usize) -> bool {
        &&& self.fix_type == FixTypeView::Delete
        &&& self.anchor_idx == at
        &&& self.edit_text is None
        &&& self.line_no == 0
        &&& self.line_pos == 0
    }

    /// Whether the finding asks for one space, by the given fix at a place.
    pub open spec fn asks_space(self, fix: FixTypeView, at: usize) -> bool {
        &&& self.fix_type == fix
        &&& self.anchor_idx == at
        &&& self.edit_text == Some(" "@)
        &&& self.line_no == 0
        &&& self.line_pos == 0
    }
}

/// Whitespace between two blocks on one line. Where one of them takes any spacing,
/// nothing is wrong. Else, where one of them wants to touch, the whitespace goes.
/// Else, where one of them is aligned, nothing is wrong; and where neither is, the
/// whitespace has to be one space, and is replaced by one if it is not.
pub proof fn space_between_blocks(
    pre: ConstraintView,
    post: ConstraintView,
    next: Option<BlockView>,
    whitespace: Seq<char>,
    at: usize,
)
    ensures
        ({
            let found = wrong_with_space(pre, post, next, whitespace, at);
            let any = pre is Any || post is Any;
            let touch = pre is Touch || post is Touch;
            let align = pre is Align || post is Align;
            &&& any ==> found.len() == 0
            &&& !any && touch ==> found.len() == 1 && found[0].deletes(at)
            &&& !any && !touch && align ==> found.len() == 0
            &&& !any && !touch && !align ==> {
                &&& whitespace == " "@ ==> found.len() == 0
                &&& whitespace != " "@ ==> found.len() == 1 && found[0].asks_space(
                    FixTypeView::Replace { new_text: " "@ },
                    at,
                )
            }
            &&& found.len() == 1 && touch ==> found[0].description == (match next {
                Some(b) => "Unexpected whitespace before "@ + b.name() + "."@,
                None => "Unexpected whitespace."@,
            })
            &&& found.len() == 1 && !touch ==> found[0].description == (match next {
                Some(b) => "Expected only single space before "@ + b.name() + ". Found "@
                    + crate::text::debug_form(whitespace) + "."@,
                None => "Expected only single space. Found "@ + crate::text::debug_form(
                    whitespace,
                ) + "."@,
            })
        }),
{
}

/// Nothing between two blocks on one line. Something is wrong only where neither
/// takes any spacing nor wants to touch: then one space is created, behind the block
/// before the point, or before the other where there is none.
pub proof fn nothing_between_blocks(
    pre: ConstraintView,
    post: ConstraintView,
    prev: Option<BlockView>,
    next: Option<BlockView>,
)
    ensures
        ({
            let found = wrong_without_space(pre, post, prev, next);
            let fine = pre is Any || post is Any || pre is Touch || post is Touch;
            &&& fine || (prev is None && next is None) ==> found.len() == 0
            &&& !fine && prev is Some ==> found.len() == 1 && found[0].asks_space(
                FixTypeView::CreateAfter { new_text: " "@ },
                prev->0.raw_idx,
            )
            &&& !fine && prev is None && next is Some ==> found.len() == 1
                && found[0].asks_space(
                FixTypeView::CreateBefore { new_text: " "@ },
                next->0.raw_idx,
            )
            &&& found.len() == 1 && prev is Some && next is Some ==> found[0].description
                == "Expected single whitespace between "@ + prev->0.name() + " and "@
                + next->0.name() + "."@
            &&& found.len() == 1 && (prev is None || next is None) ==> found[0].description
                == "Expected single whitespace."@
        }),
{
}

/// Whether a text has no colon.
pub open spec fn plain(s: Seq<char>) -> bool {
    forall|i: int| 0 <= i < s.len() ==> #[trigger] s[i] != ':'
}

/// Whether a text starts with `align`.
pub open spec fn aligned(s: Seq<char>) -> bool {
    s.len() >= 5 && s[0] == 'a' && s[1] == 'l' && s[2] == 'i' && s[3] == 'g' && s[4] == 'n'
}

proof fn colon_behind(base: Seq<char>, rest: Seq<char>)
    requires
        plain(base),
    ensures
        crate::reflow::respace::first_at(base, ':') == base.len(),
        crate::reflow::respace::first_at(base + seq![':'] + rest, ':') == base.len(),
    decreases base.len(),
{
    let all = base + seq![':'] + rest;
    if base.len() > 0 {
        let tail = base.drop_first();
        assert forall|i: int| 0 <= i < tail.len() implies #[trigger] tail[i] != ':' by {
            assert(base[i + 1] != ':');
        }
        colon_behind(tail, rest);
        assert(all.drop_first() =~= tail + seq![':'] + rest);
        assert(all[0] == base[0]);
    } else {
        assert(all[0] == ':');
    }
}

proof fn align_is_a_prefix(s: Seq<char>)
    ensures
        crate::text::infix_at(s, "align"@, 0) == aligned(s),
{
    reveal_strlit("align");
    if aligned(s) {
        assert(s.subrange(0, 5) =~= "align"@);
    }
    if crate::text::infix_at(s, "align"@, 0) {
        let p = s.subrange(0, 5);
        assert(p == "align"@);
        assert(p[0] == s[0] && p[1] == s[1] && p[2] == s[2] && p[3] == s[3] && p[4] == s[4]);
    }
}

/// What a name asks for, without a colon in it: `touch` and `any` say so, anything
/// else is one space; line breaks stay as they were to. `inline` is to touch, and
/// line breaks go.
pub proof fn plain_constraint(text: Seq<char>, strip: bool)
    requires
        plain(text),
        !aligned(text),
    ensures
        ({
            let (c, s) = unpacked(text, strip);
            &&& (c is Touch) == (text == "touch"@ || text == "inline"@)
            &&& (c is Any) == (text == "any"@)
            &&& (c is Single) == (text != "touch"@ && text != "inline"@ && text != "any"@)
            &&& s == (strip || text == "inline"@)
        }),
{
    reveal_strlit("touch");
    reveal_strlit("any");
    reveal_strlit("inline");
    reveal_strlit("touch:inline");
    align_is_a_prefix(text);
    colon_behind(text, Seq::empty());
    if text == "inline"@ {
        let base = "touch"@;
        let whole = "touch:inline"@;
        assert(plain(base));
        assert(whole =~= base + seq![':'] + "inline"@);
        colon_behind(base, "inline"@);
        align_is_a_prefix(whole);
        assert(whole.take(5) =~= base);
        assert(whole.skip(6) =~= "inline"@);
        assert("touch"@.len() != "any"@.len());
        assert("touch"@.len() != "inline"@.len());
    }
    assert("touch"@.len() != "any"@.len());
}

/// What a name with a modifier asks for: the name before the first colon counts,
/// and line breaks go where the modifier is `inline`.
pub proof fn modified_constraint(base: Seq<char>, modifier: Seq<char>, strip: bool)
    requires
        plain(base),
        !aligned(base),
    ensures
        ({
            let (c, s) = unpacked(base + seq![':'] + modifier, strip);
            &&& (c is Touch) == (base == "touch"@)
            &&& (c is Any) == (base == "any"@)
            &&& (c is Single) == (base != "touch"@ && base != "any"@)
            &&& s == (strip || modifier == "inline"@)
        }),
{
    reveal_strlit("touch");
    reveal_strlit("any");
    reveal_strlit("inline");
    let all = base + seq![':'] + modifier;
    colon_behind(base, modifier);
    align_is_a_prefix(all);
    assert(!aligned(all)) by {
        if aligned(all) {
            assert(all[0] != ':' && all[1] != ':' && all[2] != ':' && all[3] != ':' && all[4]
                != ':');
            assert(all[base.len() as int] == ':');
            assert(base.len() >= 5);
            assert(base[0] == all[0] && base[1] == all[1] && base[2] == all[2] && base[3]
                == all[3] && base[4] == all[4]);
        }
    }
    assert(all[base.len() as int] == ':');
    if all == "inline"@ {
        assert("inline"@[base.len() as int] != ':');
    }
    assert(all.take(base.len() as int) =~= base);
    assert(all.skip(base.len() as int + 1) =~= modifier);
    assert("touch"@.len() != "any"@.len());
}

/// An alignment is kept in full, and leaves line breaks as they were to.
pub proof fn aligned_constraint(text: Seq<char>, strip: bool)
    requires
        aligned(text),
    ensures
        unpacked(text, strip) == (ConstraintView::Align(text), strip),
{
    reveal_strlit("inline");
    align_is_a_prefix(text);
    if text == "inline"@ {
        assert(text[0] == 'i');
    }
}

/// What is asked of the point between two blocks where nothing is wanted within the
/// segment above both: each side has what its own block wants toward the point, and
/// one space where there is no block.
pub proof fn own_wishes(prev: Option<BlockView>, next: Option<BlockView>, strip: bool)
    requires
        crate::reflow::respace::within_wish(prev, next) is None,
    ensures
        prev is Some ==> wanted(prev, next, strip).0 == unpacked(prev->0.spacing_after, strip).0,
        prev is None ==> wanted(prev, next, strip).0 is Single,
        next is Some ==> wanted(prev, next, strip).1 == unpacked(next->0.spacing_before, strip).0,
        next is None ==> wanted(prev, next, strip).1 is Single,
{
    reveal_strlit("single");
    reveal_strlit("touch");
    reveal_strlit("any");
    reveal_strlit("inline");
    single_is_plain();
    plain_constraint("single"@, strip);
    let strip1 = unpacked(
        match prev {
            Some(b) => b.spacing_after,
            None => "single"@,
        },
        strip,
    ).1;
    plain_constraint("single"@, strip1);
}

proof fn single_is_plain()
    ensures
        plain("single"@),
        !aligned("single"@),
        "single"@ != "touch"@,
        "single"@ != "any"@,
        "single"@ != "inline"@,
{
    reveal_strlit("single");
    reveal_strlit("touch");
    reveal_strlit("any");
    reveal_strlit("inline");
    assert("single"@.len() != "touch"@.len());
    assert("single"@.len() != "any"@.len());
    assert("single"@[0] != "inline"@[0]);
}

/// What is wanted within the segment above both blocks: any spacing overrides both
/// sides; to touch overrides a side unless that takes any spacing; anything else
/// leaves the sides alone.
pub proof fn wishes_from_above(prev: BlockView, next: BlockView, strip: bool)
    requires
        crate::reflow::respace::within_wish(Some(prev), Some(next)) is Some,
    ensures
        ({
            let (a, b, _) = wanted(Some(prev), Some(next), strip);
            let own_a = unpacked(prev.spacing_after, strip).0;
            let own_b = unpacked(next.spacing_before, strip).0;
            let above = unpacked(
                crate::reflow::respace::within_wish(Some(prev), Some(next))->0,
                strip,
            ).0;
            &&& above is Any ==> a is Any && b is Any
            &&& above is Touch ==> (a is Any) == (own_a is Any) && (a is Touch) == !(
            own_a is Any)
            &&& above is Touch ==> (b is Any) == (own_b is Any) && (b is Touch) == !(
            own_b is Any)
            &&& above is Single || above is Align ==> a == own_a && b == own_b
        }),
{
}

/// A side that takes any spacing does so whatever is wanted above.
pub proof fn any_is_never_overridden(
    prev: Option<BlockView>,
    next: Option<BlockView>,
    strip: bool,
)
    ensures
        prev is Some && prev->0.spacing_after == "any"@ ==> wanted(prev, next, strip).0 is Any,
        next is Some && next->0.spacing_before == "any"@ ==> wanted(prev, next, strip).1 is Any,
{
    reveal_strlit("any");
    assert(plain("any"@));
    let strip1 = unpacked(
        match prev {
            Some(b) => b.spacing_after,
            None => "single"@,
        },
        strip,
    ).1;
    plain_constraint("any"@, strip);
    plain_constraint("any"@, strip1);
}

/// Line breaks go only where they were to, or where one of the two blocks, or the
/// segment above both, asks for it; never behind a comment.
pub proof fn line_breaks_go(prev: Option<BlockView>, next: Option<BlockView>, strip: bool)
    ensures
        ({
            let above = crate::reflow::respace::within_wish(prev, next);
            let asked = {
                ||| strip
                ||| prev is Some && unpacked(prev->0.spacing_after, false).1
                ||| next is Some && unpacked(next->0.spacing_before, false).1
                ||| above is Some && unpacked(above->0, false).1
            };
            let comment = prev is Some && crate::text::has_infix(
                prev->0.segment_type,
                "comment"@,
            );
            wanted(prev, next, strip).2 == (asked && !comment)
        }),
{
    single_is_plain();
    plain_constraint("single"@, strip);
    let strip1 = unpacked(
        match prev {
            Some(b) => b.spacing_after,
            None => "single"@,
        },
        strip,
    ).1;
    plain_constraint("single"@, strip1);
}

/// The last whitespace of a list is whitespace, and none follows.
pub proof fn last_space_is_last(types: Seq<Seq<char>>)
    ensures
        ({
            match crate::reflow::respace::last_space(types) {
                Some(w) => 0 <= w < types.len() && types[w] == "whitespace"@ && forall|k: int|
                    w < k < types.len() ==> #[trigger] types[k] != "whitespace"@,
                None => !types.contains("whitespace"@),
            }
        }),
    decreases types.len(),
{
    if types.len() > 0 && types.last() != "whitespace"@ {
        let rest = types.drop_last();
        last_space_is_last(rest);
        match crate::reflow::respace::last_space(rest) {
            Some(w) => {
                assert forall|k: int| w < k < types.len() implies #[trigger] types[k]
                    != "whitespace"@ by {
                    if k < rest.len() {
                        assert(rest[k] == types[k]);
                    }
                }
            },
            None => {
                if types.contains("whitespace"@) {
                    let k = choose|k: int| 0 <= k < types.len() && types[k] == "whitespace"@;
                    assert(rest[k] == "whitespace"@);
                }
            },
        }
    }
}

/// What stays of a point: the segments that are not dropped, each with its text and
/// its place, in order.
pub proof fn what_stays(
    types: Seq<Seq<char>>,
    raws: Seq<Seq<char>>,
    indices: Seq<usize>,
    literals: Seq<bool>,
    strip: bool,
)
    requires
        types.len() == raws.len(),
    ensures
        ({
            let c = CleanedView::of(types, raws, indices, literals, strip);
            let gone = SpacingScan::whole(types, indices, literals, strip).dropped;
            exists|order: Seq<int>|
                #![trigger order.len()]
                {
                    &&& order.len() == c.segment_types.len()
                    &&& order.len() == c.raws.len()
                    &&& order.len() == c.raw_indices.len()
                    &&& forall|a: int, b: int|
                        0 <= a < b < order.len() ==> (#[trigger] order[a]) < (#[trigger] order[b])
                    &&& forall|i: int|
                        order.contains(i) <==> 0 <= i < types.len() && !gone.contains(i)
                    &&& forall|k: int|
                        0 <= k < order.len() ==> {
                            &&& c.segment_types[k] == types[#[trigger] order[k]]
                            &&& c.raws[k] == raws[order[k]]
                            &&& c.raw_indices[k] == anchor_of(indices, order[k])
                        }
                }
        }),
{
    let s = SpacingScan::whole(types, indices, literals, strip);
    let order = s.kept(types.len());
    kept_facts(s, types.len());
    let c = CleanedView::of(types, raws, indices, literals, strip);
    assert(order.len() == c.segment_types.len());
}

proof fn kept_facts(s: SpacingScan, n: nat)
    ensures
        forall|a: int, b: int|
            0 <= a < b < s.kept(n).len() ==> (#[trigger] s.kept(n)[a]) < (
            #[trigger] s.kept(n)[b]),
        forall|i: int| #[trigger]
            s.kept(n).contains(i) <==> 0 <= i < n && !s.dropped.contains(i),
    decreases n,
{
    if n > 0 {
        let q = s.kept((n - 1) as nat);
        kept_facts(s, (n - 1) as nat);
        assert forall|i: int| #[trigger] s.kept(n).contains(i) <==> 0 <= i < n
            && !s.dropped.contains(i) by {
            if q.contains(i) {
                let k = choose|k: int| 0 <= k < q.len() && q[k] == i;
                assert(s.kept(n)[k] == i);
            }
            if i == n - 1 && !s.dropped.contains(i) {
                assert(s.kept(n)[q.len() as int] == i);
            }
            if s.kept(n).contains(i) {
                let k = choose|k: int| 0 <= k < s.kept(n).len() && s.kept(n)[k] == i;
                if k < q.len() {
                    assert(q[k] == i);
                    assert(q.contains(i));
                }
            }
        }
        assert forall|a: int, b: int| 0 <= a < b < s.kept(n).len() implies (
        #[trigger] s.kept(n)[a]) < (#[trigger] s.kept(n)[b]) by {
            if b < q.len() {
                assert(q[a] < q[b]);
            } else {
                assert(q.contains(q[a]));
            }
        }
    }
}

/// What pruning tells: one deletion for each segment that it drops, at its place,
/// and nothing else. Whitespace before a line end is told as trailing, other whitespace
/// as a duplicate.
pub proof fn each_drop_is_told(
    types: Seq<Seq<char>>,
    indices: Seq<usize>,
    literals: Seq<bool>,
    strip: bool,
)
    ensures
        ({
            let w = SpacingScan::whole(types, indices, literals, strip);
            exists|order: Seq<int>| #[trigger] told_in(order, w, types, indices, literals, strip)
        }),
{
    let w = SpacingScan::whole(types, indices, literals, strip);
    let s = SpacingScan::of(types, indices, literals, strip, types.len());
    let order = scan_told(types, indices, literals, strip, types.len());
    if s.pending.len() >= 2 {
        let more = s.pending.skip(1);
        crate::reflow::respace::scan_facts(types, indices, literals, strip, types.len());
        assert forall|a: int, b: int| 0 <= a < b < s.pending.len() implies s.pending[a]
            != s.pending[b] by {
            assert(s.pending[a] < s.pending[b]);
        }
        crate::reflow::respace::scan_is(types, indices, literals, strip, types.len());
        assert forall|k: int| 0 <= k < more.len() implies line_end(
            types,
            literals,
            strip,
            (#[trigger] more[k]) + 1,
            types.len() as int,
        ) == types.len() by {
            assert(s.pending[k + 1] == more[k]);
            assert(s.pending.contains(s.pending[k + 1]));
            assert(open_space(types, literals, strip, more[k], types.len() as int));
        }
        told_more(
            order,
            s,
            w,
            types,
            indices,
            literals,
            strip,
            more,
            "Removing duplicate whitespace."@,
        );
    }
}

/// Whether the findings of a scan are deletions of what it drops, in the order given.
pub open spec fn told_in(
    order: Seq<int>,
    w: SpacingScan,
    types: Seq<Seq<char>>,
    indices: Seq<usize>,
    literals: Seq<bool>,
    strip: bool,
) -> bool {
    &&& order.no_duplicates()
    &&& forall|i: int| #[trigger] order.contains(i) <==> w.dropped.contains(i)
    &&& w.found.len() == order.len()
    &&& forall|k: int|
        0 <= k < order.len() ==> {
            &&& (#[trigger] w.found[k]).deletes(anchor_of(indices, order[k]))
            &&& 0 <= order[k] < types.len()
            &&& types[order[k]] == "newline"@ ==> w.found[k].description
                == "Unexpected line break."@
            &&& types[order[k]] == "whitespace"@ ==> w.found[k].description == (if line_end(
                types,
                literals,
                strip,
                order[k] + 1,
                types.len() as int,
            ) < types.len() {
                "Unnecessary trailing whitespace."@
            } else {
                "Removing duplicate whitespace."@
            })
        }
}

/// A line end that comes first from a place on stays the first however far one looks.
proof fn first_line_end(
    types: Seq<Seq<char>>,
    literals: Seq<bool>,
    strip: bool,
    i: int,
    m: int,
    n: int,
)
    requires
        i <= m < n,
        line_end(types, literals, strip, i, m) == m,
        ends_line(types[m]),
        !stripped(types, literals, strip, m),
    ensures
        line_end(types, literals, strip, i, n) == m,
    decreases m - i,
{
    if i < m {
        if ends_line(types[i]) && !stripped(types, literals, strip, i) {
            assert(line_end(types, literals, strip, i, m) == i);
        } else {
            first_line_end(types, literals, strip, i + 1, m, n);
        }
    }
}

proof fn told_more(
    order: Seq<int>,
    s: SpacingScan,
    w: SpacingScan,
    types: Seq<Seq<char>>,
    indices: Seq<usize>,
    literals: Seq<bool>,
    strip: bool,
    more: Seq<int>,
    description: Seq<char>,
)
    requires
        told_in(order, s, types, indices, literals, strip),
        more.no_duplicates(),
        forall|k: int|
            0 <= k < more.len() ==> 0 <= (#[trigger] more[k]) < types.len() && !s.dropped.contains(
                more[k],
            ) && types[more[k]] == "whitespace"@,
        w.dropped == s.dropped.union(more.to_set()),
        w.found == s.found + crate::reflow::respace::deletions(more, indices, description),
        forall|k: int|
            0 <= k < more.len() ==> description == (if line_end(
                types,
                literals,
                strip,
                (#[trigger] more[k]) + 1,
                types.len() as int,
            ) < types.len() {
                "Unnecessary trailing whitespace."@
            } else {
                "Removing duplicate whitespace."@
            }),
    ensures
        told_in(order + more, w, types, indices, literals, strip),
{
    reveal_strlit("whitespace");
    reveal_strlit("newline");
    assert("whitespace"@.len() != "newline"@.len());
    let all = order + more;
    assert forall|a: int, b: int| 0 <= a < all.len() && 0 <= b < all.len() && a != b implies all[a]
        != all[b] by {
        if a < order.len() && b >= order.len() {
            assert(order.contains(order[a]));
            assert(!s.dropped.contains(more[b - order.len()]));
        } else if b < order.len() && a >= order.len() {
            assert(order.contains(order[b]));
            assert(!s.dropped.contains(more[a - order.len()]));
        }
    }
    assert forall|i: int| #[trigger] all.contains(i) <==> w.dropped.contains(i) by {
        if all.contains(i) {
            let k = choose|k: int| 0 <= k < all.len() && all[k] == i;
            if k < order.len() {
                assert(order[k] == i);
                assert(order.contains(i));
            } else {
                assert(more[k - order.len()] == i);
                assert(more.contains(i));
            }
        }
        if order.contains(i) {
            let k = choose|k: int| 0 <= k < order.len() && order[k] == i;
            assert(all[k] == i);
        }
        if more.contains(i) {
            let k = choose|k: int| 0 <= k < more.len() && more[k] == i;
            assert(all[order.len() + k] == i);
        }
        assert(s.dropped.contains(i) <==> order.contains(i));
    }
    assert forall|k: int| 0 <= k < all.len() implies {
        &&& (#[trigger] w.found[k]).deletes(anchor_of(indices, all[k]))
        &&& 0 <= all[k] < types.len()
        &&& types[all[k]] == "newline"@ ==> w.found[k].description == "Unexpected line break."@
        &&& types[all[k]] == "whitespace"@ ==> w.found[k].description == (if line_end(
            types,
            literals,
            strip,
            all[k] + 1,
            types.len() as int,
        ) < types.len() {
            "Unnecessary trailing whitespace."@
        } else {
            "Removing duplicate whitespace."@
        })
    } by {
        if k < order.len() {
            assert(w.found[k] == s.found[k]);
        } else {
            assert(more[k - order.len()] == all[k]);
        }
    }
}

proof fn scan_told(
    types: Seq<Seq<char>>,
    indices: Seq<usize>,
    literals: Seq<bool>,
    strip: bool,
    n: nat,
) -> (order: Seq<int>)
    requires
        n <= types.len(),
    ensures
        told_in(
            order,
            SpacingScan::of(types, indices, literals, strip, n),
            types,
            indices,
            literals,
            strip,
        ),
    decreases n,
{
    reveal_strlit("whitespace");
    reveal_strlit("newline");
    reveal_strlit("end_of_file");
    assert("whitespace"@.len() != "newline"@.len());
    let s = SpacingScan::of(types, indices, literals, strip, n);
    if n == 0 {
        Seq::empty()
    } else {
        let q = SpacingScan::of(types, indices, literals, strip, (n - 1) as nat);
        let order = scan_told(types, indices, literals, strip, (n - 1) as nat);
        crate::reflow::respace::scan_facts(types, indices, literals, strip, (n - 1) as nat);
        let i = n - 1;
        let literal = i < literals.len() ==> literals[i];
        if types[i] == "whitespace"@ || (types[i] != "newline"@ && types[i] != "end_of_file"@)
            || !literal {
            order
        } else if strip && types[i] == "newline"@ {
            let all = order.push(i);
            assert(!order.contains(i)) by {
                if order.contains(i) {
                    assert(q.dropped.contains(i));
                }
            }
            assert forall|m: int| #[trigger] all.contains(m) <==> s.dropped.contains(m) by {
                assert(order.contains(m) <==> q.dropped.contains(m));
                if order.contains(m) {
                    let k = choose|k: int| 0 <= k < order.len() && order[k] == m;
                    assert(all[k] == m);
                }
                if m == i {
                    assert(all[order.len() as int] == i);
                }
                if all.contains(m) {
                    let k = choose|k: int| 0 <= k < all.len() && all[k] == m;
                    if k < order.len() {
                        assert(order[k] == m);
                    }
                }
            }
            assert forall|a: int, b: int|
                0 <= a < all.len() && 0 <= b < all.len() && a != b implies all[a] != all[b] by {
                if a < order.len() && b == order.len() {
                    assert(order.contains(order[a]));
                } else if b < order.len() && a == order.len() {
                    assert(order.contains(order[b]));
                }
            }
            assert forall|k: int| 0 <= k < all.len() implies {
                &&& (#[trigger] s.found[k]).deletes(anchor_of(indices, all[k]))
                &&& 0 <= all[k] < types.len()
                &&& types[all[k]] == "newline"@ ==> s.found[k].description
                    == "Unexpected line break."@
                &&& types[all[k]] == "whitespace"@ ==> s.found[k].description == (if line_end(
                    types,
                    literals,
                    strip,
                    all[k] + 1,
                    types.len() as int,
                ) < types.len() {
                    "Unnecessary trailing whitespace."@
                } else {
                    "Removing duplicate whitespace."@
                })
            } by {
                if k < order.len() {
                    assert(s.found[k] == q.found[k]);
                }
            }
            all
        } else {
            assert forall|a: int, b: int| 0 <= a < b < q.pending.len() implies q.pending[a]
                != q.pending[b] by {
                assert(q.pending[a] < q.pending[b]);
            }
            crate::reflow::respace::scan_is(types, indices, literals, strip, (n - 1) as nat);
            assert forall|k: int| 0 <= k < q.pending.len() implies line_end(
                types,
                literals,
                strip,
                (#[trigger] q.pending[k]) + 1,
                types.len() as int,
            ) < types.len() by {
                assert(q.pending.contains(q.pending[k]));
                assert(open_space(types, literals, strip, q.pending[k], n - 1));
                first_line_end(
                    types,
                    literals,
                    strip,
                    q.pending[k] + 1,
                    n - 1,
                    types.len() as int,
                );
            }
            told_more(
                order,
                q,
                s,
                types,
                indices,
                literals,
                strip,
                q.pending,
                "Unnecessary trailing whitespace."@,
            );
            order + q.pending
        }
    }
}

/// What is found about a point. What pruning found comes first. A point that keeps a
/// line break, and does not end the file, has no more. At the end of the file the
/// whitespace that is left goes, and that is all. On one line, where a block takes
/// any spacing toward the point, there is no more either.
pub proof fn point_findings(prev: Option<BlockView>, p: PointView, next: Option<BlockView>)
    ensures
        ({
            let (pre, post, strip) = wanted(prev, next, false);
            let c = CleanedView::of(p.segment_types, p.raws, p.raw_indices, p.is_literals, strip);
            let found = findings(prev, p, next);
            let n = c.found.len();
            let eof = next is Some && next->0.class_types.contains("end_of_file"@);
            let broken = c.segment_types.contains("newline"@) && !strip;
            let takes_any = {
                ||| prev is Some && prev->0.spacing_after == "any"@
                ||| next is Some && next->0.spacing_before == "any"@
            };
            &&& n <= found.len() <= n + 1
            &&& found.take(n as int) == c.found
            &&& !eof && broken ==> found.len() == n
            &&& eof ==> (found.len() == n + 1) == c.segment_types.contains("whitespace"@)
            &&& eof && found.len() == n + 1 ==> c.last_space is Some && found[n as int].deletes(
                c.raw_indices[c.last_space->0],
            )
            &&& !eof && takes_any ==> found.len() == n
            &&& !eof && !broken && !takes_any && c.last_space is Some ==> found.skip(n as int)
                == wrong_with_space(
                pre,
                post,
                next,
                c.raws[c.last_space->0],
                c.raw_indices[c.last_space->0],
            )
            &&& !eof && !broken && !takes_any && c.last_space is None ==> found.skip(n as int)
                == wrong_without_space(pre, post, prev, next)
        }),
{
    let (pre, post, strip) = wanted(prev, next, false);
    let c = CleanedView::of(p.segment_types, p.raws, p.raw_indices, p.is_literals, strip);
    let found = findings(prev, p, next);
    any_is_never_overridden(prev, next, false);
    last_space_is_last(c.segment_types);
    if let Some(w) = c.last_space {
        assert(c.segment_types[w] == "whitespace"@);
        space_between_blocks(pre, post, next, c.raws[w], c.raw_indices[w]);
    }
    nothing_between_blocks(pre, post, prev, next);
    assert(found.take(c.found.len() as int) =~= c.found);
    let eof = next is Some && next->0.class_types.contains("end_of_file"@);
    let broken = c.segment_types.contains("newline"@) && !strip;
    if !eof && !broken {
        if let Some(w) = c.last_space {
            assert(found.skip(c.found.len() as int) =~= wrong_with_space(
                pre,
                post,
                next,
                c.raws[w],
                c.raw_indices[w],
            ));
        } else {
            assert(found.skip(c.found.len() as int) =~= wrong_without_space(
                pre,
                post,
                prev,
                next,
            ));
        }
    }
}

/// What is found about the element at a place: nothing about a block, and about a
/// point what is found between the elements beside it.
pub open spec fn found_at(list: Seq<ElementView>, i: int) -> Seq<LintView> {
    match list[i] {
        ElementView::Block(_) => Seq::empty(),
        ElementView::Point(p) => findings(
            if i > 0 && list[i - 1] is Block {
                Some(list[i - 1]->Block_0)
            } else {
                None
            },
            p,
            if i + 1 < list.len() && list[i + 1] is Block {
                Some(list[i + 1]->Block_0)
            } else {
                None
            },
        ),
    }
}

/// All that is found is what is found about each element, in order.
pub proof fn findings_in_order(list: Seq<ElementView>)
    ensures
        all_findings(list) == Seq::new(list.len(), |i: int| found_at(list, i)).flatten(),
{
    let each = Seq::new(list.len(), |i: int| found_at(list, i));
    findings_of_first(list, list.len());
    assert(each.take(list.len() as int) =~= each);
}

proof fn findings_of_first(list: Seq<ElementView>, n: nat)
    requires
        n <= list.len(),
    ensures
        crate::reflow::sequence::findings_at(
            list,
            crate::reflow::sequence::point_places(list, n),
        ) == Seq::new(list.len(), |i: int| found_at(list, i)).take(n as int).flatten(),
    decreases n,
{
    let each = Seq::new(list.len(), |i: int| found_at(list, i));
    if n == 0 {
        assert(each.take(0) =~= Seq::empty());
    } else {
        findings_of_first(list, (n - 1) as nat);
        let before = each.take(n - 1);
        assert(each.take(n as int) =~= before.push(each[n - 1]));
        before.lemma_flatten_push(each[n - 1]);
        let places = crate::reflow::sequence::point_places(list, n);
        if list[n - 1] is Point {
            assert(places.drop_last() =~= crate::reflow::sequence::point_places(
                list,
                (n - 1) as nat,
            ));
        } else {
            assert(before.flatten() + Seq::<LintView>::empty() =~= before.flatten());
        }
    }
}

/// Quoting: a text without quotes and backslashes is quoted as it is; a quote or a
/// backslash gets a backslash before it; and two texts in a row are quoted in turn.
pub proof fn quoting(a: Seq<char>, b: Seq<char>, c: char)
    ensures
        !a.contains('\'') && !a.contains('\\') ==> single_quoted(a) == "'"@ + a + "'"@,
        escaped_quotes(a + b) == escaped_quotes(a) + escaped_quotes(b),
        c == '\'' || c == '\\' ==> single_quoted(seq![c]) == "'"@ + seq!['\\', c] + "'"@,
{
    escaped_sum(a, b);
    if !a.contains('\'') && !a.contains('\\') {
        escaped_plain(a);
    }
    assert(seq![c].drop_last() =~= Seq::empty());
    assert(escaped_quotes(seq![c].drop_last()) =~= Seq::empty());
    if c == '\'' || c == '\\' {
        assert(escaped_quotes(seq![c]) =~= seq!['\\', c]);
    }
}

proof fn escaped_sum(a: Seq<char>, b: Seq<char>)
    ensures
        escaped_quotes(a + b) == escaped_quotes(a) + escaped_quotes(b),
    decreases b.len(),
{
    if b.len() == 0 {
        assert(a + b =~= a);
        assert(escaped_quotes(a) + escaped_quotes(b) =~= escaped_quotes(a));
    } else {
        assert((a + b).drop_last() =~= a + b.drop_last());
        escaped_sum(a, b.drop_last());
        assert(escaped_quotes(a + b) =~= escaped_quotes(a) + escaped_quotes(b));
    }
}

proof fn escaped_plain(a: Seq<char>)
    requires
        !a.contains('\''),
        !a.contains('\\'),
    ensures
        escaped_quotes(a) == a,
    decreases a.len(),
{
    if a.len() > 0 {
        let rest = a.drop_last();
        assert(a[a.len() - 1] == a.last());
        assert(a.contains(a.last()));
        assert(!rest.contains('\'')) by {
            if rest.contains('\'') {
                let i = choose|i: int| 0 <= i < rest.len() && rest[i] == '\'';
                assert(a[i] == '\'');
            }
        }
        assert(!rest.contains('\\')) by {
            if rest.contains('\\') {
                let i = choose|i: int| 0 <= i < rest.len() && rest[i] == '\\';
                assert(a[i] == '\\');
            }
        }
        escaped_plain(rest);
        assert(rest.push(a.last()) =~= a);
    } else {
        assert(escaped_quotes(a) =~= a);
    }
}

/// How a segment is named: by its type with spaces in place of underscores; a symbol
/// with its text behind that, and a keyword by its text, both in quotes. What is a
/// symbol is named as one even where it is a keyword too.
pub proof fn names_of_segments(t: Seq<char>, raw: Seq<char>, types: Seq<Seq<char>>, i: int)
    ensures
        ({
            let symbol = crate::text::has_infix(t, "symbol"@) || types.contains("symbol"@);
            let keyword = crate::text::has_infix(t, "keyword"@) || types.contains("keyword"@);
            let quoted = "'"@ + escaped_quotes(raw) + "'"@;
            let got = pretty(t, raw, types);
            &&& symbol ==> got == spaced(t) + " "@ + quoted
            &&& !symbol && keyword ==> got == quoted + " keyword"@
            &&& !symbol && !keyword ==> got == spaced(t)
        }),
        spaced(t).len() == t.len(),
        0 <= i < t.len() ==> spaced(t)[i] == (if t[i] == '_' {
            ' '
        } else {
            t[i]
        }),
{
}

/// What is wanted within comes from the innermost segment above both blocks: where just
/// the first `k` segments above the one block are also above the other, from the last of
/// these, and where there is none, from nowhere.
pub proof fn wish_of_the_innermost(prev: BlockView, next: BlockView, k: int)
    requires
        0 <= k <= prev.depth.hashes.len(),
        forall|m: int|
            0 <= m < k ==> next.depth.hashes.contains(#[trigger] prev.depth.hashes[m]),
        k < prev.depth.hashes.len() ==> !next.depth.hashes.contains(prev.depth.hashes[k]),
    ensures
        ({
            let wish = crate::reflow::respace::within_wish(Some(prev), Some(next));
            &&& k == 0 ==> wish is None
            &&& k > 0 && prev.within.contains_key(prev.depth.hashes[k - 1]) ==> wish == Some(
                prev.within[prev.depth.hashes[k - 1]],
            )
            &&& k > 0 && !prev.within.contains_key(prev.depth.hashes[k - 1]) ==> wish is None
        }),
{
    let mine = prev.depth.hashes;
    let theirs = next.depth.hashes;
    crate::reflow::depthmap::shared_lead_is_longest(mine, theirs);
    let n = crate::reflow::depthmap::shared_lead(mine, theirs);
    if n < k {
        assert(theirs.contains(mine[n as int]));
    } else if n > k {
        assert(theirs.contains(mine[k]));
    }
}

/// Without a block on one side, nothing is wanted within.
pub proof fn no_wish_at_the_ends(prev: Option<BlockView>, next: Option<BlockView>)
    requires
        prev is None || next is None,
    ensures
        crate::reflow::respace::within_wish(prev, next) is None,
{
}

} // verus!
