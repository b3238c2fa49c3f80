//! What the nesting of a leaf says: laws on the steps down to it.

use vstd::prelude::*;

#[allow(unused_imports)]
use crate::arena::search::{
    first_code, last_code, lists_code, names_place, no_code, one_code, places_count, places_ends,
};
#[allow(unused_imports)]
use crate::kind::Kind;
#[allow(unused_imports)]
use crate::reflow::depthmap::{
    code_places, segment_types, snake, snaked, DepthView, FlatView, Inherited, PositionView, RawView,
    StepView,
};
#[allow(unused_imports)]
use crate::reflow::config::ConfigView;
#[allow(unused_imports)]
use crate::reflow::elements::BlockView;
#[allow(unused_imports)]
use crate::tree::Tree;

verus! {

proof fn place_names_differ()
    ensures
        "solo"@ != "start"@,
        "solo"@ != "end"@,
        "start"@ != "end"@,
        "solo"@ != ""@,
        "start"@ != ""@,
        "end"@ != ""@,
{
    reveal_strlit("");
    reveal_strlit("solo");
    reveal_strlit("start");
    reveal_strlit("end");
    assert("solo"@.len() == 4 && "start"@.len() == 5 && "end"@.len() == 3 && ""@.len() == 0);
}

/// The place of a step among the children that hold code, whatever these are. It is
/// at the start where it is one of them and no other comes before it, and at the end
/// where it is one of them and no other comes behind it.
pub proof fn place_among_code(s: StepView)
    requires
        forall|a: int, b: int|
            0 <= a < b < s.code_idxs.len() ==> (#[trigger] s.code_idxs[a]) < (
            #[trigger] s.code_idxs[b]),
    ensures
        s.position().idx == s.idx,
        s.position().len == s.len,
        ({
            let place = s.position().pos_type;
            let code = s.code_idxs;
            let here = code.contains(s.idx);
            &&& code.len() == 0 ==> place == ""@
            &&& code.len() == 1 ==> place == "solo"@
            &&& code.len() >= 2 ==> {
                &&& place == "start"@ <==> here && forall|k: usize| #[trigger]
                    code.contains(k) ==> s.idx <= k
                &&& place == "end"@ <==> here && forall|k: usize| #[trigger]
                    code.contains(k) ==> k <= s.idx
                &&& place == "start"@ || place == "end"@ || place == ""@
            }
        }),
{
    place_names_differ();
    let code = s.code_idxs;
    if code.len() >= 2 {
        let lo = code[0];
        let hi = code[code.len() - 1];
        assert(lo < hi);
        assert(code.contains(lo) && code.contains(hi));
        assert forall|k: usize| #[trigger] code.contains(k) implies lo <= k <= hi by {
            let a = choose|a: int| 0 <= a < code.len() && code[a] == k;
            if a > 0 {
                assert(code[0] < code[a]);
            }
            if a < code.len() - 1 {
                assert(code[a] < code[code.len() - 1]);
            }
        }
    }
}

/// The places of the first trees of a row that are code.
proof fn code_places_are(row: Seq<Tree>, n: nat)
    requires
        n <= row.len() <= usize::MAX,
    ensures
        lists_code(row.take(n as int), code_places(row, n)),
    decreases n,
{
    let all = code_places(row, n);
    let first = row.take(n as int);
    if n > 0 {
        let m = (n - 1) as nat;
        code_places_are(row, m);
        let before = code_places(row, m);
        let fewer = row.take(m as int);
        let last = m as usize;
        assert forall|i: usize| #[trigger] all.contains(i) <==> i < first.len()
            && first[i as int].is_code() by {
            assert(before.contains(i) <==> i < fewer.len() && fewer[i as int].is_code());
            if row[m as int].is_code() {
                assert(all == before.push(last));
                if before.contains(i) {
                    let j = choose|j: int| 0 <= j < before.len() && before[j] == i;
                    assert(all[j] == i);
                }
                if i == last {
                    assert(all[before.len() as int] == i);
                }
                if all.contains(i) && i != last {
                    let j = choose|j: int| 0 <= j < all.len() && all[j] == i;
                    assert(before[j] == i);
                }
            }
        }
        assert forall|a: int, b: int| 0 <= a < b < all.len() implies (#[trigger] all[a]) < (
        #[trigger] all[b]) by {
            if b < before.len() {
                assert(before[a] < before[b]);
            } else {
                assert(before.contains(before[a]));
            }
        }
    }
}

/// A step down a tree names the place that it takes among the code of the row: `solo`
/// where just one child is code; else `start` at the first that is code, `end` at the
/// last, and nothing anywhere else.
pub proof fn step_names_place(t: Tree, i: int, hash: nat, extra: Inherited)
    requires
        t.children.len() <= usize::MAX,
        0 <= i < t.children.len(),
    ensures
        FlatView::step(t, i, hash, extra).position().idx == i,
        FlatView::step(t, i, hash, extra).position().len == t.children.len(),
        names_place(t.children, i, FlatView::step(t, i, hash, extra).position().pos_type),
{
    place_names_differ();
    let row = t.children;
    code_places_are(row, row.len());
    assert(row.take(row.len() as int) =~= row);
    let code = code_places(row, row.len());
    places_count(row, code);
    if code.len() >= 2 {
        places_ends(row, code, i);
    }
}

/// The places along a path are those of its steps: each is found under the number of
/// the segment that the step leaves.
pub proof fn places_of_path(steps: Seq<StepView>, k: int)
    requires
        0 <= k < steps.len(),
        forall|j: int| k < j < steps.len() ==> (#[trigger] steps[j]).hash != steps[k].hash,
    ensures
        DepthView::of(steps).hashes.len() == steps.len(),
        DepthView::of(steps).hashes[k] == steps[k].hash,
        DepthView::of(steps).class_types.len() == steps.len(),
        DepthView::of(steps).class_types[k] == steps[k].class_types,
        DepthView::of(steps).positions.contains_key(steps[k].hash),
        DepthView::of(steps).positions[steps[k].hash] == steps[k].position(),
    decreases steps.len(),
{
    if k < steps.len() - 1 {
        let rest = steps.drop_last();
        assert forall|j: int| k < j < rest.len() implies (#[trigger] rest[j]).hash
            != rest[k].hash by {
            assert(rest[j] == steps[j]);
        }
        places_of_path(rest, k);
        assert(steps[steps.len() - 1].hash != steps[k].hash);
    }
}

/// Whether steps lead from a tree down to a leaf with a text: every step goes to the
/// child at the place it names, and names its place among the code. A part that is no
/// segment of its own takes no step.
pub open spec fn leads(t: Tree, steps: Seq<StepView>, raw: RawView) -> bool
    decreases t,
{
    match t.kind {
        Kind::Raw { raw: text, segment_type, instance_types, class_types, .. } => {
            &&& steps.len() == 0
            &&& raw.raw == text
            &&& raw.segment_type == segment_type
            &&& raw.instance_types == instance_types
            &&& raw.class_types == class_types
            &&& raw.is_code == t.is_code()
            &&& raw.marker == t.marker
        },
        Kind::Meta { meta, .. } => {
            &&& steps.len() == 0
            &&& raw.raw.len() == 0
            &&& raw.segment_type == meta.name()
            &&& !raw.is_code
            &&& raw.marker == t.marker
        },
        Kind::Empty => false,
        Kind::Segment { .. } => {
            &&& steps.len() > 0
            &&& steps[0].idx < t.children.len()
            &&& steps[0].len == t.children.len()
            &&& names_place(t.children, steps[0].idx as int, steps[0].position().pos_type)
            &&& leads(t.children[steps[0].idx as int], steps.drop_first(), raw)
        },
        Kind::Unparsable { .. } => exists|i: int|
            0 <= i < t.children.len() && leads(#[trigger] t.children[i], steps, raw),
    }
}

/// Whether no row of a tree is longer than memory can hold.
pub open spec fn rows_fit(t: Tree) -> bool
    decreases t,
{
    t.children.len() <= usize::MAX && forall|i: int|
        0 <= i < t.children.len() ==> rows_fit(#[trigger] t.children[i])
}

/// Every leaf is listed with the steps that lead down to it.
pub proof fn steps_lead_down(t: Tree, first: u64, extra: Inherited, k: int)
    requires
        rows_fit(t),
        0 <= k < FlatView::all(t, first, extra).len(),
    ensures
        leads(t, FlatView::all(t, first, extra)[k].path, FlatView::all(t, first, extra)[k].raw),
{
    flat_leads(t, Seq::empty(), first as nat, 0, extra, k);
    let path = FlatView::all(t, first, extra)[k].path;
    assert(path.skip(0) =~= path);
}

proof fn flat_leads(
    t: Tree,
    path: Seq<StepView>,
    hash: nat,
    at: nat,
    extra: Inherited,
    k: int,
)
    requires
        rows_fit(t),
        0 <= k < FlatView::flat(t, path, hash, at, extra).len(),
    ensures
        ({
            let f = FlatView::flat(t, path, hash, at, extra)[k];
            &&& f.path.len() >= path.len()
            &&& f.path.take(path.len() as int) == path
            &&& leads(t, f.path.skip(path.len() as int), f.raw)
        }),
    decreases t, t.children.len() + 1,
{
    match t.kind {
        Kind::Raw { .. } | Kind::Meta { .. } => {
            assert(path.take(path.len() as int) =~= path);
            assert(path.skip(path.len() as int).len() == 0);
        },
        Kind::Empty => {},
        _ => {
            below_leads(t, t.children.len(), path, hash, at, extra, k);
        },
    }
}

proof fn below_leads(
    t: Tree,
    n: nat,
    path: Seq<StepView>,
    hash: nat,
    at: nat,
    extra: Inherited,
    k: int,
)
    requires
        rows_fit(t),
        t.kind is Segment || t.kind is Unparsable,
        n <= t.children.len(),
        0 <= k < FlatView::flat_below(t, n, path, hash, at, extra).len(),
    ensures
        ({
            let f = FlatView::flat_below(t, n, path, hash, at, extra)[k];
            &&& f.path.len() >= path.len()
            &&& f.path.take(path.len() as int) == path
            &&& leads(t, f.path.skip(path.len() as int), f.raw)
        }),
    decreases t, n,
{
    if n > 0 {
        let m = (n - 1) as nat;
        let before = FlatView::flat_below(t, m, path, hash, at, extra);
        let below = FlatView::segments_below(t, m);
        let kid = t.children[m as int];
        assert(rows_fit(kid));
        if k < before.len() {
            below_leads(t, m, path, hash, at, extra, k);
        } else if t.kind is Segment {
            let step = FlatView::step(t, m as int, hash, extra);
            let down = path.push(step);
            let more = FlatView::flat(kid, down, hash + 1 + below, at + before.len(), extra);
            flat_leads(kid, down, hash + 1 + below, at + before.len(), extra, k - before.len());
            let f = more[k - before.len()];
            assert(f == FlatView::flat_below(t, n, path, hash, at, extra)[k]);
            step_names_place(t, m as int, hash, extra);
            let steps = f.path.skip(path.len() as int);
            assert(f.path.take(path.len() as int) =~= f.path.take(down.len() as int).drop_last());
            assert(f.path.take(path.len() as int) =~= path);
            assert(steps[0] == f.path.take(down.len() as int)[path.len() as int]);
            assert(steps[0] == step);
            assert(steps.drop_first() =~= f.path.skip(down.len() as int));
        } else {
            let more = FlatView::flat(kid, path, hash + below, at + before.len(), extra);
            flat_leads(kid, path, hash + below, at + before.len(), extra, k - before.len());
            let f = more[k - before.len()];
            assert(f == FlatView::flat_below(t, n, path, hash, at, extra)[k]);
            assert(leads(t.children[m as int], f.path.skip(path.len() as int), f.raw));
        }
    }
}

/// A name without upper-case letters stays as it is.
proof fn plain_name(s: Seq<char>)
    requires
        forall|i: int| 0 <= i < s.len() ==> !crate::text::uppercase_char(#[trigger] s[i]),
    ensures
        snaked(s) == s,
    decreases s.len(),
{
    if s.len() > 0 {
        let rest = s.drop_last();
        assert forall|i: int| 0 <= i < rest.len() implies !crate::text::uppercase_char(
            #[trigger] rest[i],
        ) by {
            assert(rest[i] == s[i]);
        }
        plain_name(rest);
        assert(s[s.len() - 1] == s.last());
        assert(rest.push(s.last()) =~= s);
    } else {
        assert(snaked(s) =~= s);
    }
}

/// A plain word behind a name is added as it is.
proof fn plain_word_behind(s: Seq<char>, word: Seq<char>)
    requires
        s.len() > 0,
        forall|i: int| 0 <= i < word.len() ==> !crate::text::uppercase_char(#[trigger] word[i]),
    ensures
        snaked(s + word) == snaked(s) + word,
    decreases word.len(),
{
    if word.len() > 0 {
        let rest = word.drop_last();
        assert forall|i: int| 0 <= i < rest.len() implies !crate::text::uppercase_char(
            #[trigger] rest[i],
        ) by {
            assert(rest[i] == word[i]);
        }
        plain_word_behind(s, rest);
        assert(word[word.len() - 1] == word.last());
        assert((s + word).drop_last() =~= s + rest);
        assert(snaked(s) + word =~= (snaked(s) + rest).push(word.last()));
    } else {
        assert(s + word =~= s);
        assert(snaked(s) + word =~= snaked(s));
    }
}

/// The words of a class name are parted by underscores and set in lower case: a name
/// goes on behind the words before it with an underscore, unless it comes first, and
/// the `Segment` at the end is dropped.
pub proof fn class_name_in_words(before: Seq<char>, first: char, word: Seq<char>)
    requires
        crate::text::uppercase_char(first),
        forall|i: int| 0 <= i < word.len() ==> !crate::text::uppercase_char(#[trigger] word[i]),
    ensures
        snaked(before + seq![first] + word) == (if before.len() == 0 {
            seq![crate::text::lowercase_char(first)] + word
        } else {
            snaked(before) + "_"@ + seq![crate::text::lowercase_char(first)] + word
        }),
        snaked(word) == word,
        snake(before + "Segment"@) == snaked(before),
        before.len() < "Segment"@.len() ==> snake(before) == snaked(before),
{
    plain_name(word);
    reveal_strlit("_");
    let head = before + seq![first];
    assert(head.drop_last() =~= before);
    assert(head.last() == first);
    plain_word_behind(head, word);
    let low = crate::text::lowercase_char(first);
    if before.len() == 0 {
        assert(snaked(before) =~= Seq::empty());
        assert(snaked(head) =~= seq![low]);
    } else {
        assert("_"@ =~= seq!['_']);
        assert(snaked(head) =~= snaked(before) + "_"@ + seq![low]);
    }
    let whole = before + "Segment"@;
    assert(whole.subrange(
        before.len() as int,
        before.len() as int + "Segment"@.len(),
    ) =~= "Segment"@);
    assert(whole.take(before.len() as int) =~= before);
}

/// The types of a segment are those that its type inherits, its type, and its class
/// name in words.
pub proof fn segment_types_are(
    class: Seq<char>,
    semantic: Option<Seq<char>>,
    extra: Map<Seq<char>, Seq<Seq<char>>>,
    t: Seq<char>,
)
    ensures
        segment_types(class, semantic, extra).contains(t) <==> {
            ||| t == snake(class)
            ||| semantic == Some(t)
            ||| semantic matches Some(own) && extra.contains_key(own) && extra[own].contains(t)
        },
{
    match semantic {
        None => {
            one_more(Seq::empty(), snake(class), t);
        },
        Some(own) => {
            let from = if extra.contains_key(own) {
                crate::reflow::depthmap::unique_all_holds(Seq::empty(), extra[own]);
                crate::reflow::depthmap::unique_all(Seq::empty(), extra[own])
            } else {
                Seq::empty()
            };
            assert(from.contains(t) <==> extra.contains_key(own) && extra[own].contains(t));
            one_more(from, own, t);
            one_more(crate::text::with_unique(from, own), snake(class), t);
        },
    }
}

proof fn one_more(list: Seq<Seq<char>>, more: Seq<char>, t: Seq<char>)
    ensures
        crate::text::with_unique(list, more).contains(t) <==> list.contains(t) || t == more,
{
    let all = list.push(more);
    assert(all[list.len() as int] == more);
    if list.contains(t) {
        let i = choose|i: int| 0 <= i < list.len() && list[i] == t;
        assert(all[i] == t);
    }
    if all.contains(t) && t != more {
        let i = choose|i: int| 0 <= i < all.len() && all[i] == t;
        assert(list[i] == t);
    }
}

/// The types of a block are its declared ones; where it declares none, its instance
/// types, its own type, and what that inherits.
pub proof fn block_types_are(
    segment_type: Seq<char>,
    instance_types: Seq<Seq<char>>,
    declared: Seq<Seq<char>>,
    config: ConfigView,
    t: Seq<char>,
)
    ensures
        ({
            let types = BlockView::types_of(segment_type, instance_types, declared, config);
            &&& declared.len() > 0 ==> types == declared
            &&& declared.len() == 0 ==> (types.contains(t) <==> {
                ||| instance_types.contains(t)
                ||| t == segment_type
                ||| config.inherited.contains_key(segment_type)
                    && config.inherited[segment_type].contains(t)
            })
        }),
{
    if declared.len() == 0 {
        let own = crate::text::with_unique(instance_types, segment_type);
        one_more(instance_types, segment_type, t);
        crate::reflow::depthmap::unique_all_holds(own, config.inherits(segment_type));
    }
}

} // verus!
