//! What two raw segments of one tree share above them.

use vstd::prelude::*;

#[allow(unused_imports)]
use crate::kind::Kind;
#[allow(unused_imports)]
use crate::reflow::depthmap::{wrapped, DepthView, FlatView, Inherited, StepView};
#[allow(unused_imports)]
use crate::tree::Tree;

verus! {

/// How many numbers there are.
pub const NUMBERS: u128 = 0x1_0000_0000_0000_0000;

/// Whether a number stands for one from `lo` on and below `hi`.
spec fn within(hash: u64, lo: nat, hi: nat) -> bool {
    exists|n: nat| lo <= n < hi && #[trigger] wrapped(n) == hash
}

/// The numbers before and behind `mid` differ, where the whole range has no more
/// than there are.
proof fn apart(x: u64, y: u64, lo: nat, mid: nat, hi: nat)
    requires
        hi - lo <= NUMBERS,
        within(x, lo, mid),
        within(y, mid, hi),
    ensures
        x != y,
{
    let n = choose|n: nat| lo <= n < mid && #[trigger] wrapped(n) == x;
    let m = choose|m: nat| mid <= m < hi && #[trigger] wrapped(m) == y;
    assert(n % NUMBERS as nat != m % NUMBERS as nat) by (nonlinear_arith)
        requires
            n < m < n + NUMBERS,
            NUMBERS == 0x1_0000_0000_0000_0000,
    ;
}

/// A wider range has the numbers of a narrower one.
proof fn within_wider(x: u64, lo: nat, hi: nat, from: nat, to: nat)
    requires
        within(x, lo, hi),
        from <= lo,
        hi <= to,
    ensures
        within(x, from, to),
{
    let n = choose|n: nat| lo <= n < hi && #[trigger] wrapped(n) == x;
}

/// Whether the path begins with `path` and numbers what follows within the range.
spec fn numbered(e: FlatView, path: Seq<StepView>, lo: nat, hi: nat) -> bool {
    &&& path.len() <= e.path.len()
    &&& e.path.take(path.len() as int) == path
    &&& forall|k: int| path.len() <= k < e.path.len() ==> within(
        (#[trigger] e.path[k]).hash,
        lo,
        hi,
    )
}

/// Whether two paths that share a number behind their first `n` steps are the
/// same up to there.
spec fn meet(e: FlatView, f: FlatView, n: nat) -> bool {
    forall|a: int, b: int|
        n <= a < e.path.len() && n <= b < f.path.len() && (#[trigger] e.path[a]).hash == (
        #[trigger] f.path[b]).hash ==> a == b && same_hashes(e.path, f.path, a)
}

/// Whether two paths have the same numbers up to a place.
spec fn same_hashes(p: Seq<StepView>, q: Seq<StepView>, a: int) -> bool {
    forall|c: int| 0 <= c <= a ==> (#[trigger] p[c]).hash == q[c].hash
}

/// Whether all entries are numbered in the range, and any two of them meet.
spec fn orderly(list: Seq<FlatView>, path: Seq<StepView>, lo: nat, hi: nat) -> bool {
    &&& forall|i: int| 0 <= i < list.len() ==> numbered(#[trigger] list[i], path, lo, hi)
    &&& forall|i: int, j: int|
        0 <= i < list.len() && 0 <= j < list.len() ==> meet(
            #[trigger] list[i],
            #[trigger] list[j],
            path.len(),
        )
}

proof fn flat_is_orderly(t: Tree, path: Seq<StepView>, hash: nat, at: nat, extra: Inherited)
    requires
        FlatView::segments(t) <= NUMBERS,
    ensures
        orderly(
            FlatView::flat(t, path, hash, at, extra),
            path,
            hash,
            hash + FlatView::segments(t),
        ),
    decreases t, t.children.len() + 1,
{
    let list = FlatView::flat(t, path, hash, at, extra);
    match t.kind {
        Kind::Segment { .. } => {
            below_is_orderly(t, t.children.len(), path, hash, at, extra);
            segment_is_orderly(t, path, hash, at, extra);
        },
        Kind::Unparsable { .. } => {
            below_is_orderly(t, t.children.len(), path, hash, at, extra);
        },
        _ => {
            assert forall|i: int| 0 <= i < list.len() implies numbered(
                #[trigger] list[i],
                path,
                hash,
                hash + FlatView::segments(t),
            ) by {
                assert(list[i].path.take(path.len() as int) =~= path);
            }
        },
    }
}

/// The entries below a segment all pass through it.
spec fn passes(list: Seq<FlatView>, path: Seq<StepView>, hash: nat, lo: nat, hi: nat) -> bool {
    &&& forall|i: int|
        0 <= i < list.len() ==> {
            &&& path.len() < (#[trigger] list[i]).path.len()
            &&& list[i].path.take(path.len() as int) == path
            &&& list[i].path[path.len() as int].hash == wrapped(hash)
            &&& forall|k: int|
                path.len() < k < list[i].path.len() ==> within(
                    (#[trigger] list[i].path[k]).hash,
                    lo,
                    hi,
                )
        }
    &&& forall|i: int, j: int|
        0 <= i < list.len() && 0 <= j < list.len() ==> meet(
            #[trigger] list[i],
            #[trigger] list[j],
            path.len() + 1,
        )
}

proof fn segment_is_orderly(t: Tree, path: Seq<StepView>, hash: nat, at: nat, extra: Inherited)
    requires
        t.kind is Segment,
        FlatView::segments(t) <= NUMBERS,
        passes(
            FlatView::flat_below(t, t.children.len(), path, hash, at, extra),
            path,
            hash,
            hash + 1,
            hash + FlatView::segments(t),
        ),
    ensures
        orderly(
            FlatView::flat_below(t, t.children.len(), path, hash, at, extra),
            path,
            hash,
            hash + FlatView::segments(t),
        ),
{
    let list = FlatView::flat_below(t, t.children.len(), path, hash, at, extra);
    assert forall|i: int| 0 <= i < list.len() implies numbered(
        #[trigger] list[i],
        path,
        hash,
        hash + FlatView::segments(t),
    ) by {
        let hi = hash + FlatView::segments(t);
        let e = list[i];
        assert forall|k: int| path.len() <= k < e.path.len() implies within(
            (#[trigger] e.path[k]).hash,
            hash,
            hi,
        ) by {
            if k == path.len() {
                assert(wrapped(hash) == e.path[k].hash);
            } else {
                within_wider(e.path[k].hash, hash + 1, hi, hash, hi);
            }
        }
    }
    assert forall|i: int, j: int| 0 <= i < list.len() && 0 <= j < list.len() implies meet(
        #[trigger] list[i],
        #[trigger] list[j],
        path.len(),
    ) by {
        let e = list[i];
        let f = list[j];
        assert(meet(e, f, path.len() + 1));
        assert forall|a: int, b: int|
            path.len() <= a < e.path.len() && path.len() <= b < f.path.len() && (
            #[trigger] e.path[a]).hash == (#[trigger] f.path[b]).hash implies a == b
            && same_hashes(e.path, f.path, a) by {
            let hi = hash + FlatView::segments(t);
            assert(within(wrapped(hash), hash, hash + 1));
            if a == path.len() && b > path.len() {
                apart(e.path[a].hash, f.path[b].hash, hash, hash + 1, hi);
            }
            if b == path.len() && a > path.len() {
                apart(f.path[b].hash, e.path[a].hash, hash, hash + 1, hi);
            }
            if a == path.len() {
                assert forall|c: int| 0 <= c <= a implies (#[trigger] e.path[c]).hash
                    == f.path[c].hash by {
                    if c < a {
                        assert(e.path.take(path.len() as int)[c] == e.path[c]);
                        assert(f.path.take(path.len() as int)[c] == f.path[c]);
                    }
                }
            }
        }
    }
}

proof fn below_is_orderly(
    t: Tree,
    n: nat,
    path: Seq<StepView>,
    hash: nat,
    at: nat,
    extra: Inherited,
)
    requires
        n <= t.children.len(),
        t.kind is Segment || t.kind is Unparsable,
        FlatView::segments(t) <= NUMBERS,
    ensures
        ({
            let list = FlatView::flat_below(t, n, path, hash, at, extra);
            let below = FlatView::segments_below(t, n);
            if t.kind is Segment {
                passes(list, path, hash, hash + 1, hash + 1 + below)
            } else {
                orderly(list, path, hash, hash + below)
            }
        }),
    decreases t, n,
{
    if n > 0 {
        below_is_orderly(t, (n - 1) as nat, path, hash, at, extra);
        crate::reflow::depthmap::segments_grow(t, n);
        let list = FlatView::flat_below(t, n, path, hash, at, extra);
        let before = FlatView::flat_below(t, (n - 1) as nat, path, hash, at, extra);
        let below = FlatView::segments_below(t, (n - 1) as nat);
        let child = t.children[n - 1];
        if t.kind is Segment {
            let down = path.push(FlatView::step(t, n - 1, hash, extra));
            let lo = hash + 1 + below;
            flat_is_orderly(child, down, lo, at + before.len(), extra);
            let more = FlatView::flat(child, down, lo, at + before.len(), extra);
            assert(list == before + more);
            assert forall|i: int| 0 <= i < more.len() implies {
                &&& path.len() < (#[trigger] more[i]).path.len()
                &&& more[i].path.take(path.len() as int) == path
                &&& more[i].path[path.len() as int].hash == wrapped(hash)
            } by {
                assert(numbered(more[i], down, lo, lo + FlatView::segments(child)));
                assert(more[i].path.take(down.len() as int)[path.len() as int] == down.last());
                assert(more[i].path.take(path.len() as int) =~= path) by {
                    assert forall|c: int| 0 <= c < path.len() implies more[i].path[c]
                        == path[c] by {
                        assert(more[i].path.take(down.len() as int)[c] == down[c]);
                    }
                }
            }
            joined_segment(before, more, path, hash, lo, lo + FlatView::segments(child));
        } else {
            let lo = hash + below;
            flat_is_orderly(child, path, lo, at + before.len(), extra);
            let more = FlatView::flat(child, path, lo, at + before.len(), extra);
            assert(list == before + more);
            joined_plain(before, more, path, hash, lo, lo + FlatView::segments(child));
        }
    }
}

proof fn joined_segment(
    before: Seq<FlatView>,
    more: Seq<FlatView>,
    path: Seq<StepView>,
    hash: nat,
    mid: nat,
    hi: nat,
)
    requires
        hash + 1 <= mid <= hi,
        hi - hash <= NUMBERS,
        passes(before, path, hash, hash + 1, mid),
        passes(more, path, hash, mid, hi),
    ensures
        passes(before + more, path, hash, hash + 1, hi),
{
    let list = before + more;
    let n = path.len() + 1;
    assert forall|i: int| 0 <= i < list.len() implies {
        &&& path.len() < (#[trigger] list[i]).path.len()
        &&& list[i].path.take(path.len() as int) == path
        &&& list[i].path[path.len() as int].hash == wrapped(hash)
        &&& forall|k: int|
            path.len() < k < list[i].path.len() ==> within(
                (#[trigger] list[i].path[k]).hash,
                hash + 1,
                hi,
            )
    } by {
        let e = if i < before.len() {
            before[i]
        } else {
            more[i - before.len()]
        };
        assert(list[i] == e);
        assert forall|k: int| path.len() < k < e.path.len() implies within(
            (#[trigger] e.path[k]).hash,
            hash + 1,
            hi,
        ) by {
            if i < before.len() {
                within_wider(e.path[k].hash, hash + 1, mid, hash + 1, hi);
            } else {
                within_wider(e.path[k].hash, mid, hi, hash + 1, hi);
            }
        }
    }
    assert forall|i: int, j: int| 0 <= i < list.len() && 0 <= j < list.len() implies meet(
        #[trigger] list[i],
        #[trigger] list[j],
        n,
    ) by {
        if i < before.len() && j < before.len() {
            assert(meet(before[i], before[j], n));
        } else if i >= before.len() && j >= before.len() {
            assert(meet(more[i - before.len()], more[j - before.len()], n));
        } else if i < before.len() {
            ranges_apart(before[i], more[j - before.len()], n, hash + 1, mid, hi);
        } else {
            ranges_apart(before[j], more[i - before.len()], n, hash + 1, mid, hi);
        }
    }
}

/// Paths numbered in ranges that follow one another share no number.
proof fn ranges_apart(e: FlatView, f: FlatView, n: nat, lo: nat, mid: nat, hi: nat)
    requires
        hi - lo <= NUMBERS,
        forall|k: int| n <= k < e.path.len() ==> within((#[trigger] e.path[k]).hash, lo, mid),
        forall|k: int| n <= k < f.path.len() ==> within((#[trigger] f.path[k]).hash, mid, hi),
    ensures
        meet(e, f, n),
        meet(f, e, n),
{
    assert forall|a: int, b: int|
        n <= a < e.path.len() && n <= b < f.path.len() implies (#[trigger] e.path[a]).hash != (
    #[trigger] f.path[b]).hash by {
        apart(e.path[a].hash, f.path[b].hash, lo, mid, hi);
    }
}

proof fn joined_plain(
    before: Seq<FlatView>,
    more: Seq<FlatView>,
    path: Seq<StepView>,
    lo: nat,
    mid: nat,
    hi: nat,
)
    requires
        lo <= mid <= hi,
        hi - lo <= NUMBERS,
        orderly(before, path, lo, mid),
        orderly(more, path, mid, hi),
    ensures
        orderly(before + more, path, lo, hi),
{
    let list = before + more;
    assert forall|i: int| 0 <= i < list.len() implies numbered(#[trigger] list[i], path, lo, hi) by {
        let e = if i < before.len() {
            before[i]
        } else {
            more[i - before.len()]
        };
        assert(list[i] == e);
        if i < before.len() {
            assert(numbered(e, path, lo, mid));
        } else {
            assert(numbered(e, path, mid, hi));
        }
        assert forall|k: int| path.len() <= k < e.path.len() implies within(
            (#[trigger] e.path[k]).hash,
            lo,
            hi,
        ) by {
            if i < before.len() {
                within_wider(e.path[k].hash, lo, mid, lo, hi);
            } else {
                within_wider(e.path[k].hash, mid, hi, lo, hi);
            }
        }
    }
    assert forall|i: int, j: int| 0 <= i < list.len() && 0 <= j < list.len() implies meet(
        #[trigger] list[i],
        #[trigger] list[j],
        path.len(),
    ) by {
        if i < before.len() && j < before.len() {
            assert(meet(before[i], before[j], path.len()));
        } else if i >= before.len() && j >= before.len() {
            assert(meet(more[i - before.len()], more[j - before.len()], path.len()));
        } else if i < before.len() {
            assert(numbered(before[i], path, lo, mid));
            assert(numbered(more[j - before.len()], path, mid, hi));
            ranges_apart(before[i], more[j - before.len()], path.len(), lo, mid, hi);
        } else {
            assert(numbered(before[j], path, lo, mid));
            assert(numbered(more[i - before.len()], path, mid, hi));
            ranges_apart(before[j], more[i - before.len()], path.len(), lo, mid, hi);
        }
    }
}

/// Only the number counts that stands for a segment.
proof fn flat_by_number(t: Tree, path: Seq<StepView>, a: nat, b: nat, at: nat, extra: Inherited)
    requires
        wrapped(a) == wrapped(b),
    ensures
        FlatView::flat(t, path, a, at, extra) == FlatView::flat(t, path, b, at, extra),
    decreases t, t.children.len() + 1,
{
    if t.kind is Segment || t.kind is Unparsable {
        flat_below_by_number(t, t.children.len(), path, a, b, at, extra);
    }
}

proof fn flat_below_by_number(
    t: Tree,
    n: nat,
    path: Seq<StepView>,
    a: nat,
    b: nat,
    at: nat,
    extra: Inherited,
)
    requires
        n <= t.children.len(),
        wrapped(a) == wrapped(b),
    ensures
        FlatView::flat_below(t, n, path, a, at, extra) == FlatView::flat_below(
            t,
            n,
            path,
            b,
            at,
            extra,
        ),
    decreases t, n,
{
    if n > 0 {
        flat_below_by_number(t, (n - 1) as nat, path, a, b, at, extra);
        let before = FlatView::flat_below(t, (n - 1) as nat, path, a, at, extra);
        let below = FlatView::segments_below(t, (n - 1) as nat);
        let child = t.children[n - 1];
        if t.kind is Segment {
            let down = path.push(FlatView::step(t, n - 1, a, extra));
            same_further(a, b, 1 + below);
            flat_by_number(child, down, a + 1 + below, b + 1 + below, at + before.len(), extra);
        } else {
            same_further(a, b, below);
            flat_by_number(child, path, a + below, b + below, at + before.len(), extra);
        }
    }
}

/// Numbers that are the same are so further on.
proof fn same_further(a: nat, b: nat, more: nat)
    requires
        wrapped(a) == wrapped(b),
    ensures
        wrapped(a + more) == wrapped(b + more),
{
    let m = NUMBERS as int;
    assert(a % 0x1_0000_0000_0000_0000 == b % 0x1_0000_0000_0000_0000);
    vstd::arithmetic::div_mod::lemma_add_mod_noop(a as int, more as int, m);
    vstd::arithmetic::div_mod::lemma_add_mod_noop(b as int, more as int, m);
}

/// What two raw segments of one tree share above them is the common beginning of
/// their stacks, and the longest one.
pub proof fn shared_is_the_common_prefix(
    t: Tree,
    first: u64,
    extra: Inherited,
    i: int,
    j: int,
)
    requires
        FlatView::segments(t) <= NUMBERS,
        0 <= i < FlatView::all(t, first, extra).len(),
        0 <= j < FlatView::all(t, first, extra).len(),
    ensures
        ({
            let mine = DepthView::of(FlatView::all(t, first, extra)[i].path);
            let theirs = DepthView::of(FlatView::all(t, first, extra)[j].path);
            let n = mine.shared(theirs);
            &&& n <= mine.hashes.len()
            &&& n <= theirs.hashes.len()
            &&& mine.hashes.take(n as int) == theirs.hashes.take(n as int)
            &&& n < mine.hashes.len() && n < theirs.hashes.len() ==> mine.hashes[n as int]
                != theirs.hashes[n as int]
        }),
{
    let list = FlatView::all(t, first, extra);
    flat_is_orderly(t, Seq::empty(), first as nat, 0, extra);
    let e = list[i];
    let f = list[j];
    assert(meet(e, f, 0));
    let mine = DepthView::of(e.path).hashes;
    let theirs = DepthView::of(f.path).hashes;
    crate::reflow::depthmap::shared_lead_is_longest(mine, theirs);
    let n = crate::reflow::depthmap::shared_lead(mine, theirs);
    assert forall|k: int| 0 <= k < n implies k < theirs.len() && (#[trigger] mine[k])
        == theirs[k] by {
        assert(theirs.contains(mine[k]));
        let b = choose|b: int| 0 <= b < theirs.len() && theirs[b] == mine[k];
        assert(e.path[k].hash == f.path[b].hash);
    }
    if n > 0 {
        assert(mine[n - 1] == theirs[n - 1]);
    }
    assert(mine.take(n as int) =~= theirs.take(n as int));
    if n < mine.len() && n < theirs.len() && mine[n as int] == theirs[n as int] {
        assert(theirs.contains(theirs[n as int]));
    }
}

/// What two raw segments share does not depend on which of them is asked, and a
/// raw segment shares its whole stack with itself.
pub proof fn sharing_is_mutual(t: Tree, first: u64, extra: Inherited, i: int, j: int)
    requires
        FlatView::segments(t) <= NUMBERS,
        0 <= i < FlatView::all(t, first, extra).len(),
        0 <= j < FlatView::all(t, first, extra).len(),
    ensures
        ({
            let mine = DepthView::of(FlatView::all(t, first, extra)[i].path);
            let theirs = DepthView::of(FlatView::all(t, first, extra)[j].path);
            &&& mine.shared(theirs) == theirs.shared(mine)
            &&& mine.hashes.take(mine.shared(theirs) as int) == theirs.hashes.take(
                theirs.shared(mine) as int,
            )
            &&& mine.shared(mine) == mine.hashes.len()
        }),
{
    shared_is_the_common_prefix(t, first, extra, i, j);
    shared_is_the_common_prefix(t, first, extra, j, i);
    shared_is_the_common_prefix(t, first, extra, i, i);
    let mine = DepthView::of(FlatView::all(t, first, extra)[i].path);
    let theirs = DepthView::of(FlatView::all(t, first, extra)[j].path);
    let n = mine.shared(theirs) as int;
    let m = theirs.shared(mine) as int;
    if n < m {
        assert(theirs.hashes.take(m)[n] == mine.hashes.take(m)[n]);
    } else if m < n {
        assert(mine.hashes.take(n)[m] == theirs.hashes.take(n)[m]);
    }
}

/// Trees that take their numbers from one counter share none of them: whatever
/// `gap` lies between their first numbers, it is at least what the first tree
/// took, and all of it fits the numbers that there are.
pub proof fn trees_share_no_number(
    t: Tree,
    u: Tree,
    first: u64,
    gap: nat,
    extra: Inherited,
    i: int,
    j: int,
    a: int,
    b: int,
)
    requires
        FlatView::segments(t) <= gap,
        gap + FlatView::segments(u) <= NUMBERS,
        0 <= i < FlatView::all(t, first, extra).len(),
        0 <= j < FlatView::all(u, wrapped(first as nat + gap), extra).len(),
        0 <= a < FlatView::all(t, first, extra)[i].path.len(),
        0 <= b < FlatView::all(u, wrapped(first as nat + gap), extra)[j].path.len(),
    ensures
        FlatView::all(t, first, extra)[i].path[a].hash != FlatView::all(
            u,
            wrapped(first as nat + gap),
            extra,
        )[j].path[b].hash,
{
    let lo = first as nat;
    let mid = lo + gap;
    let hi = mid + FlatView::segments(u);
    let low = wrapped(mid) as nat;
    assert(wrapped(low) == wrapped(mid));
    flat_by_number(u, Seq::empty(), low, mid, 0, extra);
    flat_is_orderly(t, Seq::empty(), lo, 0, extra);
    flat_is_orderly(u, Seq::empty(), mid, 0, extra);
    let e = FlatView::all(t, first, extra)[i];
    let f = FlatView::all(u, wrapped(mid), extra)[j];
    assert(numbered(e, Seq::empty(), lo, lo + FlatView::segments(t)));
    assert(numbered(f, Seq::empty(), mid, hi));
    within_wider(e.path[a].hash, lo, lo + FlatView::segments(t), lo, mid);
    apart(e.path[a].hash, f.path[b].hash, lo, mid, hi);
}

} // verus!
