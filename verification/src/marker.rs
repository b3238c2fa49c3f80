//! Positions of tree nodes in the source and in the templated text.

use std::sync::Arc;
use vstd::prelude::*;

verus! {

/// A half-open range of character positions.
#[derive(Clone, Copy, Debug, PartialEq, Eq, Structural)]
pub struct Slice {
    pub start: usize,
    pub stop: usize,
}

impl Slice {
    /// Whether the range covers nothing.
    pub fn is_empty(&self) -> (r: bool)
        ensures
            r == (self.start == self.stop),
    {
        self.start == self.stop
    }

    /// The empty range at `at`.
    pub open spec fn point(at: usize) -> Slice {
        Slice { start: at, stop: at }
    }

    /// How the range prints: `slice(start, stop, None)`.
    pub open spec fn text(self) -> Seq<char> {
        "slice("@ + crate::text::decimal(self.start as nat) + ", "@ + crate::text::decimal(
            self.stop as nat,
        ) + ", None)"@
    }

    /// The printed form of the range.
    pub fn to_text(&self) -> (r: String)
        ensures
            r@ == self.text(),
    {
        let mut s = String::new();
        s.push_str("slice(");
        let a = crate::text::decimal_text(self.start);
        s.push_str(a.as_str());
        s.push_str(", ");
        let b = crate::text::decimal_text(self.stop);
        s.push_str(b.as_str());
        s.push_str(", None)");
        assert(s@ =~= self.text());
        s
    }
}

/// One piece of the source file: where it starts, and whether the templater
/// passed it through unchanged.
#[derive(Clone, Copy, Debug, PartialEq, Eq, Structural)]
pub struct RawSlice {
    pub source_idx: usize,
    pub is_literal: bool,
}

/// What positions read of the file behind a tree: where the lines of the
/// templated text end, and the pieces of the source in order.
#[derive(Debug)]
pub struct TemplatedFile {
    /// Character positions of the newlines of the templated text.
    pub templated_newlines: Vec<usize>,
    /// The pieces of the source; empty when nothing was templated.
    pub raw_slices: Vec<RawSlice>,
}

/// The larger machine word of `a + b` and the machine limit.
pub open spec fn clamped_sum(a: int, b: int) -> usize {
    if a + b > usize::MAX {
        usize::MAX
    } else {
        (a + b) as usize
    }
}

pub(crate) fn clamped_add(a: usize, b: usize) -> (r: usize)
    ensures
        r == clamped_sum(a as int, b as int),
{
    if a > usize::MAX - b {
        usize::MAX
    } else {
        a + b
    }
}

/// The positions of the newlines of a text.
pub open spec fn newline_positions(text: Seq<char>) -> Seq<int>
    decreases text.len(),
{
    if text.len() == 0 {
        Seq::empty()
    } else if text.last() == '\n' {
        newline_positions(text.drop_last()).push(text.len() - 1)
    } else {
        newline_positions(text.drop_last())
    }
}

/// How many of the newlines lie before `pos`, counting up to the first that
/// does not.
pub open spec fn newlines_before(newlines: Seq<usize>, pos: usize) -> int
    decreases newlines.len(),
{
    if newlines.len() == 0 || newlines[0] >= pos {
        0
    } else {
        1 + newlines_before(newlines.drop_first(), pos)
    }
}

impl TemplatedFile {
    /// A file that was not templated.
    pub fn from_string(text: &str) -> (r: TemplatedFile)
        ensures
            r.raw_slices@.len() == 0,
            r.templated_newlines@.map_values(|p: usize| p as int) == newline_positions(text@),
    {
        let chars = crate::text::chars_of(text);
        let mut newlines: Vec<usize> = Vec::new();
        for i in 0..chars.len()
            invariant
                chars@ == text@,
                newlines@.map_values(|p: usize| p as int) == newline_positions(
                    text@.take(i as int),
                ),
        {
            assert(text@.take(i + 1).drop_last() =~= text@.take(i as int));
            if chars[i] == '\n' {
                let ghost before = newlines@;
                newlines.push(i);
                assert(newlines@.map_values(|p: usize| p as int) =~= before.map_values(
                    |p: usize| p as int,
                ).push(i as int));
            }
        }
        assert(text@.take(text@.len() as int) =~= text@);
        TemplatedFile { templated_newlines: newlines, raw_slices: Vec::new() }
    }

    /// The line (from 1) and the place in it (from 1) of a character of the
    /// templated text.
    pub open spec fn line_pos(self, pos: usize) -> (usize, usize) {
        let n = newlines_before(self.templated_newlines@, pos);
        if n > 0 {
            (clamped_sum(n, 1), (pos - self.templated_newlines@[n - 1]) as usize)
        } else {
            (1, clamped_sum(pos as int, 1))
        }
    }

    /// Line and place of a character of the templated text.
    pub fn get_line_pos_of_char_pos(&self, pos: usize) -> (r: (usize, usize))
        ensures
            r == self.line_pos(pos),
    {
        let newlines = &self.templated_newlines;
        let mut n: usize = 0;
        assert(newlines@.skip(0) =~= newlines@);
        while n < newlines.len() && newlines[n] < pos
            invariant
                n <= newlines@.len(),
                newlines == self.templated_newlines,
                newlines_before(newlines@, pos) == n + newlines_before(newlines@.skip(n as int), pos),
                n > 0 ==> newlines@[n - 1] < pos,
            decreases newlines@.len() - n,
        {
            assert(newlines@.skip(n as int).drop_first() =~= newlines@.skip(n + 1));
            n += 1;
        }
        if n > 0 {
            (clamped_add(n, 1), pos - newlines[n - 1])
        } else {
            (1, clamped_add(pos, 1))
        }
    }

    /// Whether the pieces from the `from`-th on leave the range literal, when
    /// `so_far` holds of those before it.
    pub open spec fn literal_from(self, range: Slice, from: int, so_far: bool) -> bool
        decreases self.raw_slices@.len() - from,
    {
        if from < 0 || from >= self.raw_slices@.len() {
            so_far
        } else {
            let piece = self.raw_slices@[from];
            if piece.source_idx <= range.start {
                self.literal_from(range, from + 1, piece.is_literal)
            } else if piece.source_idx >= range.stop {
                so_far
            } else {
                self.literal_from(range, from + 1, so_far && piece.is_literal)
            }
        }
    }

    /// Whether a range of the source holds only what the templater passed
    /// through: nothing was templated, the range is empty, or every piece that
    /// it touches is literal.
    pub open spec fn literal(self, range: Slice) -> bool {
        self.raw_slices@.len() == 0 || range.start == range.stop || self.literal_from(
            range,
            0,
            true,
        )
    }

    /// Whether a range of the source is literal.
    pub fn is_source_slice_literal(&self, range: Slice) -> (r: bool)
        ensures
            r == self.literal(range),
    {
        if self.raw_slices.len() == 0 || range.start == range.stop {
            return true;
        }
        let mut so_far = true;
        let mut i: usize = 0;
        while i < self.raw_slices.len()
            invariant
                i <= self.raw_slices@.len(),
                self.raw_slices@.len() > 0,
                range.start != range.stop,
                self.literal_from(range, 0, true) == self.literal_from(range, i as int, so_far),
            decreases self.raw_slices@.len() - i,
        {
            let piece = self.raw_slices[i];
            if piece.source_idx <= range.start {
                so_far = piece.is_literal;
            } else if piece.source_idx >= range.stop {
                return so_far;
            } else if !piece.is_literal {
                so_far = false;
            }
            i += 1;
        }
        so_far
    }
}

/// `Arc::clone` hands out another handle on the same value.
#[verifier::external_body]
pub(crate) fn share<T>(value: &Arc<T>) -> (r: Arc<T>)
    ensures
        r == *value,
{
    Arc::clone(value)
}

/// Where a segment stands: its range in the source and in the templated text,
/// and its working line and place while edits are applied.
#[derive(Debug)]
pub struct PositionMarker {
    pub source_slice: Slice,
    pub templated_slice: Slice,
    pub templated_file: Arc<TemplatedFile>,
    pub working_line_no: usize,
    pub working_line_pos: usize,
}

impl Clone for PositionMarker {
    fn clone(&self) -> (r: PositionMarker)
        ensures
            r == *self,
    {
        PositionMarker {
            source_slice: self.source_slice,
            templated_slice: self.templated_slice,
            templated_file: share(&self.templated_file),
            working_line_no: self.working_line_no,
            working_line_pos: self.working_line_pos,
        }
    }
}

/// The working position after `raw`, which starts at line `line_no`, place
/// `line_pos`: a newline starts the next line, anything else moves one place on.
pub open spec fn advance(line_no: usize, line_pos: usize, raw: Seq<char>) -> (usize, usize)
    decreases raw.len(),
{
    if raw.len() == 0 {
        (line_no, line_pos)
    } else {
        let before = advance(line_no, line_pos, raw.drop_last());
        if raw.last() == '\n' {
            (clamped_sum(before.0 as int, 1), 1)
        } else {
            (before.0, clamped_sum(before.1 as int, 1))
        }
    }
}

/// Advancing over two texts in turn is advancing over both at once.
pub proof fn advance_over_concat(line_no: usize, line_pos: usize, a: Seq<char>, b: Seq<char>)
    ensures
        advance(line_no, line_pos, a + b) == advance(
            advance(line_no, line_pos, a).0,
            advance(line_no, line_pos, a).1,
            b,
        ),
    decreases b.len(),
{
    if b.len() == 0 {
        assert(a + b =~= a);
    } else {
        assert((a + b).drop_last() =~= a + b.drop_last());
        advance_over_concat(line_no, line_pos, a, b.drop_last());
    }
}

impl PositionMarker {
    /// A marker with the given ranges; without both working coordinates they
    /// are those of the start of the templated range.
    pub open spec fn made(
        source_slice: Slice,
        templated_slice: Slice,
        templated_file: Arc<TemplatedFile>,
        working_line_no: Option<usize>,
        working_line_pos: Option<usize>,
    ) -> PositionMarker {
        let derived = templated_file.line_pos(templated_slice.start);
        let given = working_line_no is Some && working_line_pos is Some;
        PositionMarker {
            source_slice,
            templated_slice,
            templated_file,
            working_line_no: if given {
                working_line_no->0
            } else {
                derived.0
            },
            working_line_pos: if given {
                working_line_pos->0
            } else {
                derived.1
            },
        }
    }

    /// A marker with the given ranges.
    pub fn new(
        source_slice: Slice,
        templated_slice: Slice,
        templated_file: &Arc<TemplatedFile>,
        working_line_no: Option<usize>,
        working_line_pos: Option<usize>,
    ) -> (r: PositionMarker)
        ensures
            r == PositionMarker::made(
                source_slice,
                templated_slice,
                *templated_file,
                working_line_no,
                working_line_pos,
            ),
    {
        let (line_no, line_pos) = match (working_line_no, working_line_pos) {
            (Some(n), Some(p)) => (n, p),
            _ => templated_file.get_line_pos_of_char_pos(templated_slice.start),
        };
        PositionMarker {
            source_slice,
            templated_slice,
            templated_file: share(templated_file),
            working_line_no: line_no,
            working_line_pos: line_pos,
        }
    }

    /// The marker from the start of `start` to the end of `end`, at the working
    /// position of `start`.
    pub open spec fn joined(start: PositionMarker, end: PositionMarker) -> PositionMarker {
        PositionMarker {
            source_slice: Slice { start: start.source_slice.start, stop: end.source_slice.stop },
            templated_slice: Slice {
                start: start.templated_slice.start,
                stop: end.templated_slice.stop,
            },
            templated_file: start.templated_file,
            working_line_no: start.working_line_no,
            working_line_pos: start.working_line_pos,
        }
    }

    /// The marker that spans two points.
    pub fn from_points(start: &PositionMarker, end: &PositionMarker) -> (r: PositionMarker)
        ensures
            r == PositionMarker::joined(*start, *end),
    {
        PositionMarker {
            source_slice: Slice { start: start.source_slice.start, stop: end.source_slice.stop },
            templated_slice: Slice {
                start: start.templated_slice.start,
                stop: end.templated_slice.stop,
            },
            templated_file: share(&start.templated_file),
            working_line_no: start.working_line_no,
            working_line_pos: start.working_line_pos,
        }
    }

    /// The point at the marker's start, at the marker's working position.
    pub open spec fn start_point(self) -> PositionMarker {
        PositionMarker {
            source_slice: Slice::point(self.source_slice.start),
            templated_slice: Slice::point(self.templated_slice.start),
            ..self
        }
    }

    /// The point at the marker's start.
    pub fn start_point_marker(&self) -> (r: PositionMarker)
        ensures
            r == self.start_point(),
    {
        let mut r = self.clone();
        r.source_slice = Slice { start: self.source_slice.start, stop: self.source_slice.start };
        r.templated_slice =
            Slice { start: self.templated_slice.start, stop: self.templated_slice.start };
        r
    }

    /// The point at the marker's end, at the working position of that place in
    /// the templated text.
    pub open spec fn end_point(self) -> PositionMarker {
        PositionMarker::made(
            Slice::point(self.source_slice.stop),
            Slice::point(self.templated_slice.stop),
            self.templated_file,
            None,
            None,
        )
    }

    /// The point at the marker's end.
    pub fn end_point_marker(&self) -> (r: PositionMarker)
        ensures
            r == self.end_point(),
    {
        PositionMarker::new(
            Slice { start: self.source_slice.stop, stop: self.source_slice.stop },
            Slice { start: self.templated_slice.stop, stop: self.templated_slice.stop },
            &self.templated_file,
            None,
            None,
        )
    }

    /// Whether both are at the same working position, which is all that tells
    /// positions apart.
    pub open spec fn same_place(self, other: PositionMarker) -> bool {
        self.working_line_no == other.working_line_no && self.working_line_pos
            == other.working_line_pos
    }

    /// The marker at another working position.
    pub open spec fn at_working(self, line_no: usize, line_pos: usize) -> PositionMarker {
        PositionMarker { working_line_no: line_no, working_line_pos: line_pos, ..self }
    }

    /// The marker at another working position.
    pub fn with_working_position(&self, line_no: usize, line_pos: usize) -> (r: PositionMarker)
        ensures
            r == self.at_working(line_no, line_pos),
    {
        let mut r = self.clone();
        r.working_line_no = line_no;
        r.working_line_pos = line_pos;
        r
    }

    /// The working position after a text that starts at the given one.
    pub fn infer_next_position(&self, raw: &str, line_no: usize, line_pos: usize) -> (r: (
        usize,
        usize,
    ))
        ensures
            r == advance(line_no, line_pos, raw@),
    {
        let mut at_line = line_no;
        let mut at_pos = line_pos;
        for c in it: raw.chars()
            invariant
                it.seq() == raw@,
                (at_line, at_pos) == advance(line_no, line_pos, raw@.take(it.index())),
        {
            assert(raw@.take(it.index() + 1).drop_last() =~= raw@.take(it.index()));
            if c == '\n' {
                at_line = clamped_add(at_line, 1);
                at_pos = 1;
            } else {
                at_pos = clamped_add(at_pos, 1);
            }
        }
        assert(raw@.take(raw@.len() as int) =~= raw@);
        (at_line, at_pos)
    }

    /// The working line and place.
    pub fn working_loc(&self) -> (r: (usize, usize))
        ensures
            r == (self.working_line_no, self.working_line_pos),
    {
        (self.working_line_no, self.working_line_pos)
    }

    /// Whether the marker covers nothing, neither source nor templated text.
    pub open spec fn point(self) -> bool {
        self.source_slice.start == self.source_slice.stop && self.templated_slice.start
            == self.templated_slice.stop
    }

    /// Whether the marker covers nothing.
    pub fn is_point(&self) -> (r: bool)
        ensures
            r == self.point(),
    {
        self.source_slice.is_empty() && self.templated_slice.is_empty()
    }

    /// Whether the marker covers only source that was not templated.
    pub open spec fn literal(self) -> bool {
        self.templated_file.literal(self.source_slice)
    }

    /// Whether the marker covers only source that was not templated.
    pub fn is_literal(&self) -> (r: bool)
        ensures
            r == self.literal(),
    {
        self.templated_file.is_source_slice_literal(self.source_slice)
    }
}

/// The newlines of a text are listed in order, each once.
pub proof fn newlines_are(text: Seq<char>)
    ensures
        forall|i: int| #[trigger]
            newline_positions(text).contains(i) <==> 0 <= i < text.len() && text[i] == '\n',
        forall|a: int, b: int|
            0 <= a < b < newline_positions(text).len() ==> (#[trigger] newline_positions(text)[a])
                < (#[trigger] newline_positions(text)[b]),
    decreases text.len(),
{
    let all = newline_positions(text);
    if text.len() > 0 {
        let rest = text.drop_last();
        newlines_are(rest);
        let before = newline_positions(rest);
        assert forall|i: int| #[trigger] all.contains(i) <==> 0 <= i < text.len() && text[i]
            == '\n' by {
            assert(before.contains(i) <==> 0 <= i < rest.len() && rest[i] == '\n');
            if before.contains(i) {
                let j = choose|j: int| 0 <= j < before.len() && before[j] == i;
                assert(all[j] == i);
            }
            if text.last() == '\n' {
                assert(all[before.len() as int] == text.len() - 1);
                if all.contains(i) && i != text.len() - 1 {
                    let j = choose|j: int| 0 <= j < all.len() && all[j] == i;
                    assert(before[j] == i);
                }
            }
        }
        assert forall|a: int, b: int| 0 <= a < b < all.len() implies (#[trigger] all[a]) < (
        #[trigger] all[b]) by {
            if b < before.len() {
                assert(before[a] < before[b]);
            } else {
                assert(before.contains(before[a]));
            }
        }
    }
}

/// A text without a newline moves on in its line; a newline starts the next line.
pub proof fn advance_moves_on(line_no: usize, line_pos: usize, raw: Seq<char>)
    requires
        line_no < usize::MAX,
        line_pos + raw.len() <= usize::MAX,
    ensures
        !raw.contains('\n') ==> advance(line_no, line_pos, raw) == (
            line_no,
            (line_pos + raw.len()) as usize,
        ),
        raw.len() > 0 && raw.last() == '\n' && !raw.drop_last().contains('\n') ==> advance(
            line_no,
            line_pos,
            raw,
        ) == ((line_no + 1) as usize, 1usize),
    decreases raw.len(),
{
    if raw.len() > 0 {
        let rest = raw.drop_last();
        advance_moves_on(line_no, line_pos, rest);
        if !raw.contains('\n') {
            assert(raw[raw.len() - 1] != '\n');
            if rest.contains('\n') {
                let i = choose|i: int| 0 <= i < rest.len() && rest[i] == '\n';
                assert(raw[i] == '\n');
            }
        }
    }
}

/// The working position of a character of a file is where one gets from the start over
/// the text before it.
pub proof fn position_is_past_the_text(file: TemplatedFile, text: Seq<char>, pos: usize)
    requires
        file.templated_newlines@.map_values(|p: usize| p as int) == newline_positions(text),
        pos <= text.len() < usize::MAX,
    ensures
        file.line_pos(pos) == advance(1, 1, text.take(pos as int)),
    decreases pos,
{
    newlines_are(text);
    let list = file.templated_newlines@;
    let all = newline_positions(text);
    assert forall|a: int| 0 <= a < list.len() implies #[trigger] list[a] == all[a] by {
        assert(list.map_values(|p: usize| p as int)[a] == all[a]);
    }
    assert(list.len() == all.len());
    assert forall|a: int, b: int| 0 <= a < b < list.len() implies (#[trigger] list[a]) < (
    #[trigger] list[b]) by {
        assert(all[a] < all[b]);
    }
    newlines_before_is(list, pos);
    let n = newlines_before(list, pos);
    if pos == 0 {
        assert(text.take(0).len() == 0);
    } else {
        let m = (pos - 1) as usize;
        position_is_past_the_text(file, text, m);
        newlines_before_is(list, m);
        let k = newlines_before(list, m);
        let here = text.take(pos as int);
        assert(here.drop_last() =~= text.take(m as int));
        assert(here.last() == text[m as int]);
        assert forall|a: int| 0 <= a < all.len() implies 0 <= #[trigger] all[a] < text.len() by {
            assert(all.contains(all[a]));
        }
        count_bound(all, text.len() as int);
        if text[m as int] == '\n' {
            assert(all.contains(m as int));
            let a = choose|a: int| 0 <= a < all.len() && all[a] == m;
            assert(list[a] == m);
            assert(a >= k);
            if a > k {
                assert(list[k] < list[a]);
            }
            assert(a == k);
            assert(n == k + 1) by {
                if n > k + 1 {
                    assert(list[k] < list[k + 1]);
                }
            }
        } else {
            assert(n == k) by {
                if k < list.len() {
                    assert(all.contains(all[k]));
                    assert(list[k] != m);
                }
                if n > k {
                    assert(list[n - 1] < pos);
                    if n - 1 > k {
                        assert(list[k] < list[n - 1]);
                    }
                }
            }
        }
    }
}

/// A list of places in order is no longer than the last place allows.
proof fn count_bound(list: Seq<int>, bound: int)
    requires
        forall|a: int| 0 <= a < list.len() ==> 0 <= #[trigger] list[a] < bound,
        forall|a: int, b: int|
            0 <= a < b < list.len() ==> (#[trigger] list[a]) < (#[trigger] list[b]),
        bound >= 0,
    ensures
        list.len() <= bound,
    decreases list.len(),
{
    if list.len() > 0 {
        let rest = list.drop_last();
        let top = list[list.len() - 1];
        assert forall|a: int| 0 <= a < rest.len() implies 0 <= #[trigger] rest[a] < top by {
            assert(list[a] < list[list.len() - 1]);
        }
        count_bound(rest, top);
    }
}

proof fn newlines_before_is(list: Seq<usize>, pos: usize)
    requires
        forall|a: int, b: int|
            0 <= a < b < list.len() ==> (#[trigger] list[a]) < (#[trigger] list[b]),
    ensures
        ({
            let n = newlines_before(list, pos);
            &&& 0 <= n <= list.len()
            &&& forall|a: int| 0 <= a < n ==> (#[trigger] list[a]) < pos
            &&& n < list.len() ==> list[n] >= pos
        }),
    decreases list.len(),
{
    if list.len() > 0 && list[0] < pos {
        let rest = list.drop_first();
        assert forall|a: int, b: int| 0 <= a < b < rest.len() implies (#[trigger] rest[a]) < (
        #[trigger] rest[b]) by {
            assert(list[a + 1] < list[b + 1]);
        }
        newlines_before_is(rest, pos);
        let n = newlines_before(list, pos);
        assert forall|a: int| 0 <= a < n implies (#[trigger] list[a]) < pos by {
            if a > 0 {
                assert(rest[a - 1] < pos);
            }
        }
        if n < list.len() {
            assert(rest[n - 1] == list[n]);
        }
    }
}

/// Whether the `i`-th piece of the source reaches into a range: it starts before the
/// range ends, and the next piece, if any, starts behind the start of the range.
pub open spec fn reaches_into(pieces: Seq<RawSlice>, i: int, range: Slice) -> bool {
    &&& pieces[i].source_idx < range.stop
    &&& i + 1 < pieces.len() ==> range.start < pieces[i + 1].source_idx
}

/// A range of the source is literal just where every piece that reaches into it is.
pub proof fn literal_pieces(file: TemplatedFile, range: Slice)
    requires
        range.start < range.stop,
        file.raw_slices@.len() > 0,
        forall|a: int, b: int|
            0 <= a < b < file.raw_slices@.len() ==> (#[trigger] file.raw_slices@[a]).source_idx <= (
            #[trigger] file.raw_slices@[b]).source_idx,
    ensures
        file.literal(range) <==> forall|i: int|
            0 <= i < file.raw_slices@.len() && reaches_into(file.raw_slices@, i, range)
                ==> (#[trigger] file.raw_slices@[i]).is_literal,
{
    literal_from_here(file, range, 0, true);
}

proof fn literal_from_here(file: TemplatedFile, range: Slice, from: int, so_far: bool)
    requires
        range.start < range.stop,
        0 <= from <= file.raw_slices@.len(),
        forall|a: int, b: int|
            0 <= a < b < file.raw_slices@.len() ==> (#[trigger] file.raw_slices@[a]).source_idx <= (
            #[trigger] file.raw_slices@[b]).source_idx,
    ensures
        file.literal_from(range, from, so_far) <==> (so_far || (from < file.raw_slices@.len()
            && file.raw_slices@[from].source_idx <= range.start)) && forall|i: int|
            from <= i < file.raw_slices@.len() && reaches_into(file.raw_slices@, i, range)
                ==> (#[trigger] file.raw_slices@[i]).is_literal,
    decreases file.raw_slices@.len() - from,
{
    let pieces = file.raw_slices@;
    if from < pieces.len() {
        let piece = pieces[from];
        if piece.source_idx <= range.start {
            literal_from_here(file, range, from + 1, piece.is_literal);
            if from + 1 < pieces.len() && pieces[from + 1].source_idx <= range.start {
                assert(!reaches_into(pieces, from, range));
            } else {
                assert(reaches_into(pieces, from, range));
            }
        } else if piece.source_idx >= range.stop {
            assert forall|i: int| from <= i < pieces.len() implies !reaches_into(
                pieces,
                i,
                range,
            ) by {
                if i > from {
                    assert(pieces[from].source_idx <= pieces[i].source_idx);
                }
            }
        } else {
            literal_from_here(file, range, from + 1, so_far && piece.is_literal);
            if from + 1 < pieces.len() {
                assert(pieces[from].source_idx <= pieces[from + 1].source_idx);
            }
            assert(reaches_into(pieces, from, range));
        }
    }
}

} // verus!
