//! Colour ranges over a text: byte ranges, each with the style the renderer
//! draws it in. The style itself is the renderer's business, so everything
//! here is generic over it; what is decided here is which ranges survive a
//! cut, and how a file's colours are lent, line by line, to a diff.

use vstd::prelude::*;
use crate::text::string_of;
use crate::text::chars_of;
use vstd::string::StringSliceAdditionalSpecFns;
use vstd::utf8::encode_utf8;
use crate::diff::{opt_view, Diff, Hunk, Line, LineKind};
use crate::preview::{Body, Preview};

verus! {

/// Where a scan from `i` for the `left`-th further occurrence of `x` (0 for
/// the next one) stops: that occurrence's index, or the end.
pub open spec fn nth_cut<T>(s: Seq<T>, x: T, left: nat, i: int) -> int
    decreases s.len() - i,
{
    if i >= s.len() {
        s.len() as int
    } else if s[i] == x {
        if left == 0 {
            i
        } else {
            nth_cut(s, x, (left - 1) as nat, i + 1)
        }
    } else {
        nth_cut(s, x, left, i + 1)
    }
}

proof fn lemma_nth_cut_bounds<T>(s: Seq<T>, x: T, left: nat, i: int)
    requires
        0 <= i <= s.len(),
    ensures
        i <= nth_cut(s, x, left, i) <= s.len(),
    decreases s.len() - i,
{
    if i < s.len() {
        if s[i] == x {
            if left > 0 {
                lemma_nth_cut_bounds(s, x, (left - 1) as nat, i + 1);
            }
        } else {
            lemma_nth_cut_bounds(s, x, left, i + 1);
        }
    }
}

/// The index of the `n`-th (from 1) newline byte in `s`, or its length.
fn nth_newline_byte(s: &[u8], n: usize) -> (r: usize)
    requires
        n >= 1,
    ensures
        r == nth_cut(s@, 10u8, (n - 1) as nat, 0),
{
    let mut left: usize = n - 1;
    let mut i: usize = 0;
    while i < s.len()
        invariant
            i <= s@.len(),
            nth_cut(s@, 10u8, (n - 1) as nat, 0) == nth_cut(s@, 10u8, left as nat, i as int),
        decreases s@.len() - i,
    {
        if s[i] == 10u8 {
            if left == 0 {
                return i;
            }
            left -= 1;
        }
        i += 1;
    }
    i
}

/// The index of the `n`-th (from 1) `\n` in `s`, or its length.
fn nth_newline_char(s: &Vec<char>, n: usize) -> (r: usize)
    requires
        n >= 1,
    ensures
        r == nth_cut(s@, '\n', (n - 1) as nat, 0),
{
    let mut left: usize = n - 1;
    let mut i: usize = 0;
    while i < s.len()
        invariant
            i <= s@.len(),
            nth_cut(s@, '\n', (n - 1) as nat, 0) == nth_cut(s@, '\n', left as nat, i as int),
        decreases s@.len() - i,
    {
        if s[i] == '\n' {
            if left == 0 {
                return i;
            }
            left -= 1;
        }
        i += 1;
    }
    i
}

/// The ranges that survive a cut at byte `end`: the leading ones that start
/// before it, each shortened to end there at the latest, empty ones dropped.
pub open spec fn clip_ranges<S>(hs: Seq<((usize, usize), S)>, end: int) -> Seq<((usize, usize), S)>
    decreases hs.len(),
{
    if hs.len() == 0 || hs[0].0.0 >= end {
        Seq::empty()
    } else {
        let e = if hs[0].0.1 <= end { hs[0].0.1 as int } else { end };
        let rest = clip_ranges(hs.skip(1), end);
        if hs[0].0.0 < e {
            seq![((hs[0].0.0, e as usize), hs[0].1)] + rest
        } else {
            rest
        }
    }
}

/// The first `lines` lines of `text` — up to, not including, its
/// `lines`-th newline — with the highlight ranges cut to match, so that no
/// range reaches past the end of the string it styles.
pub fn clip_to_lines<S: Copy>(text: &str, highlights: &Vec<((usize, usize), S)>, lines: usize) -> (r: (
    String,
    Vec<((usize, usize), S)>,
))
    requires
        lines >= 1,
    ensures
        r.0@ == text@.take(nth_cut(text@, '\n', (lines - 1) as nat, 0)),
        r.1@ == clip_ranges(highlights@, nth_cut(text.spec_bytes(), 10u8, (lines - 1) as nat, 0)),
{
    let bytes = text.as_bytes();
    let end = nth_newline_byte(bytes, lines);
    let cs = chars_of(text);
    let cut = nth_newline_char(&cs, lines);
    proof {
        lemma_nth_cut_bounds(cs@, '\n', (lines - 1) as nat, 0);
    }
    let clipped_text = string_of(&cs, 0, cut);
    let mut out: Vec<((usize, usize), S)> = Vec::new();
    let mut i: usize = 0;
    let ghost all = highlights@;
    assert(all.skip(0) =~= all);
    while i < highlights.len()
        invariant_except_break
            i <= all.len(),
            all == highlights@,
            clip_ranges(all, end as int) == out@ + clip_ranges(all.skip(i as int), end as int),
        ensures
            clip_ranges(all, end as int) == out@,
        decreases all.len() - i,
    {
        let ((start, stop), style) = highlights[i];
        let ghost rest = all.skip(i as int);
        assert(rest[0] == all[i as int]);
        assert(rest.skip(1) =~= all.skip(i + 1));
        if start >= end {
            assert(clip_ranges(rest, end as int) =~= Seq::<((usize, usize), S)>::empty());
            assert(clip_ranges(all, end as int) =~= out@);
            break;
        }
        let e = if stop <= end { stop } else { end };
        if start < e {
            out.push(((start, e), style));
        }
        i += 1;
        proof {
            if start < e {
                assert(out@ =~= out@.drop_last() + seq![((start, e), style)]);
            }
        }
        assert(clip_ranges(all, end as int) =~= out@ + clip_ranges(all.skip(i as int), end as int));
    }
    proof {
        if i == all.len() {
            assert(all.skip(i as int) =~= Seq::<((usize, usize), S)>::empty());
        }
    }
    assert(clip_ranges(all, end as int) =~= out@);
    (clipped_text, out)
}

/// The byte ranges of a text's lines from `i` on, a line starting at
/// `start`: each line without its newline, and a last line only when text
/// follows the final newline.
pub open spec fn ranges_from(b: Seq<u8>, start: int, i: int) -> Seq<(usize, usize)>
    decreases b.len() - i,
{
    if i >= b.len() {
        if start < b.len() {
            seq![(start as usize, b.len() as usize)]
        } else {
            Seq::empty()
        }
    } else if b[i] == 10u8 {
        seq![(start as usize, i as usize)] + ranges_from(b, i + 1, i + 1)
    } else {
        ranges_from(b, start, i + 1)
    }
}

/// The byte range of every line of a text.
pub open spec fn line_ranges(b: Seq<u8>) -> Seq<(usize, usize)> {
    ranges_from(b, 0, 0)
}

/// Ranges ordered by where they end, as a highlighter hands them out.
pub open spec fn sorted_by_end<S>(hs: Seq<((usize, usize), S)>) -> bool {
    forall|i: int, j: int| 0 <= i <= j < hs.len() ==> #[trigger] hs[i].0.1 <= #[trigger] hs[j].0.1
}

/// Where a scan from `k` for the first range ending past `pos` stops.
pub open spec fn leading_from<S>(hs: Seq<((usize, usize), S)>, pos: int, k: int) -> int
    decreases hs.len() - k,
{
    if k >= hs.len() {
        hs.len() as int
    } else if hs[k].0.1 <= pos {
        leading_from(hs, pos, k + 1)
    } else {
        k
    }
}

/// The ranges from the front of `hs` that start before `e`, moved onto the
/// line `a..e`: clamped to it, counted from its start, empty ones dropped.
pub open spec fn rebased<S>(hs: Seq<((usize, usize), S)>, a: int, e: int) -> Seq<((usize, usize), S)>
    decreases hs.len(),
{
    if hs.len() == 0 || hs[0].0.0 >= e {
        Seq::empty()
    } else {
        let s = (if hs[0].0.0 >= a { hs[0].0.0 as int } else { a }) - a;
        let t = (if hs[0].0.1 <= e { hs[0].0.1 as int } else { e }) - a;
        let rest = rebased(hs.skip(1), a, e);
        if s < t {
            seq![((s as usize, t as usize), hs[0].1)] + rest
        } else {
            rest
        }
    }
}

/// The colours of the 1-based line `number`, rebased onto the line itself,
/// when the line is there and is `expected_len` bytes long; else none.
pub open spec fn line_colours<S>(
    lines: Seq<(usize, usize)>,
    hs: Seq<((usize, usize), S)>,
    number: int,
    expected_len: int,
) -> Seq<((usize, usize), S)> {
    if number < 1 || number > lines.len() {
        Seq::empty()
    } else {
        let (a, e) = lines[number - 1];
        if e - a != expected_len {
            Seq::empty()
        } else {
            rebased(hs.skip(leading_from(hs, a as int, 0)), a as int, e as int)
        }
    }
}

proof fn lemma_leading_is<S>(hs: Seq<((usize, usize), S)>, pos: int, k: int, j: int)
    requires
        0 <= j <= k <= hs.len(),
        forall|m: int| 0 <= m < k ==> #[trigger] hs[m].0.1 <= pos,
        k < hs.len() ==> hs[k].0.1 > pos,
    ensures
        leading_from(hs, pos, j) == k,
    decreases k - j,
{
    if j < k {
        lemma_leading_is(hs, pos, k, j + 1);
    }
}

/// A file, indexed by line, so that a diff row can borrow that line's
/// colours: the colours come from the whole file, parsed with its own
/// grammar, rather than from a few lines out of context.
pub struct Side<S> {
    lines: Vec<(usize, usize)>,
    highlights: Vec<((usize, usize), S)>,
}

impl<S> Side<S> {
    /// Each line's byte range in the file.
    pub closed spec fn line_spans(&self) -> Seq<(usize, usize)> {
        self.lines@
    }

    /// The file's colours.
    pub closed spec fn spans(&self) -> Seq<((usize, usize), S)> {
        self.highlights@
    }

    pub closed spec fn wf(&self) -> bool {
        &&& sorted_by_end(self.highlights@)
        &&& forall|i: int| 0 <= i < self.lines@.len() ==> #[trigger] self.lines@[i].0 <= self.lines@[i].1
    }

    /// The side of a diff whose file reads `text` and is coloured by
    /// `highlights`.
    pub fn new(text: &str, highlights: Vec<((usize, usize), S)>) -> (side: Self)
        requires
            sorted_by_end(highlights@),
        ensures
            side.wf(),
            side.line_spans() == line_ranges(text.spec_bytes()),
            side.spans() == highlights@,
    {
        let b = text.as_bytes();
        let mut lines: Vec<(usize, usize)> = Vec::new();
        let mut start: usize = 0;
        let mut i: usize = 0;
        while i < b.len()
            invariant
                start <= i <= b@.len(),
                lines@ + ranges_from(b@, start as int, i as int) == line_ranges(b@),
                forall|k: int| 0 <= k < lines@.len() ==> #[trigger] lines@[k].0 <= lines@[k].1,
            decreases b@.len() - i,
        {
            if b[i] == 10u8 {
                lines.push((start, i));
                assert(lines@ + ranges_from(b@, (i + 1) as int, (i + 1) as int) =~= lines@.drop_last()
                    + ranges_from(b@, start as int, i as int));
                start = i + 1;
            }
            i += 1;
        }
        if start < b.len() {
            lines.push((start, b.len()));
            assert(lines@ =~= lines@.drop_last() + ranges_from(b@, start as int, i as int));
        } else {
            assert(lines@ =~= lines@ + ranges_from(b@, start as int, i as int));
        }
        Side { lines, highlights }
    }

    /// The first range that ends past `pos`: the ranges are ordered by
    /// their ends, so this is a binary search.
    fn first_past(&self, pos: usize) -> (k: usize)
        requires
            self.wf(),
        ensures
            k == leading_from(self.highlights@, pos as int, 0),
            k <= self.highlights@.len(),
            forall|m: int| 0 <= m < k ==> #[trigger] self.highlights@[m].0.1 <= pos,
            forall|m: int| k <= m < self.highlights@.len() ==> #[trigger] self.highlights@[m].0.1 > pos,
    {
        let ghost hs = self.highlights@;
        let mut lo: usize = 0;
        let mut hi: usize = self.highlights.len();
        while lo < hi
            invariant
                lo <= hi <= hs.len(),
                hs == self.highlights@,
                sorted_by_end(hs),
                forall|m: int| 0 <= m < lo ==> #[trigger] hs[m].0.1 <= pos,
                forall|m: int| hi <= m < hs.len() ==> #[trigger] hs[m].0.1 > pos,
            decreases hi - lo,
        {
            let mid = lo + (hi - lo) / 2;
            if self.highlights[mid].0.1 <= pos {
                assert forall|m: int| 0 <= m < mid + 1 implies #[trigger] hs[m].0.1 <= pos by {
                    assert(hs[m].0.1 <= hs[mid as int].0.1);
                }
                lo = mid + 1;
            } else {
                assert forall|m: int| mid <= m < hs.len() implies #[trigger] hs[m].0.1 > pos by {
                    assert(hs[mid as int].0.1 <= hs[m].0.1);
                }
                hi = mid;
            }
        }
        proof {
            lemma_leading_is(hs, pos as int, lo as int, 0);
        }
        lo
    }

    /// The colours for one 1-based line, rebased onto that line's own text.
    /// `expected` guards the mapping: the diff carries the text and the file
    /// carries the colours, and when the two disagree about a line's length
    /// — a file rewritten since, a preview cut short — the line stays plain.
    pub fn line(&self, number: u32, expected: &str) -> (r: Vec<((usize, usize), S)>)
        where S: Copy
        requires
            self.wf(),
        ensures
            r@ == line_colours(self.line_spans(), self.spans(), number as int, expected.len() as int),
    {
        let ghost hs = self.highlights@;
        if number == 0 || (number - 1) as usize >= self.lines.len() {
            return Vec::new();
        }
        let (a, e) = self.lines[(number - 1) as usize];
        assert(a <= e);
        if e - a != expected.len() {
            return Vec::new();
        }
        let first = self.first_past(a);
        let mut out: Vec<((usize, usize), S)> = Vec::new();
        let mut j: usize = first;
        while j < self.highlights.len()
            invariant_except_break
                first <= j <= hs.len(),
                hs == self.highlights@,
                a <= e,
                forall|m: int| first <= m < hs.len() ==> #[trigger] hs[m].0.1 > a,
                rebased(hs.skip(first as int), a as int, e as int) == out@ + rebased(hs.skip(j as int), a as int, e as int),
            ensures
                rebased(hs.skip(first as int), a as int, e as int) == out@,
            decreases hs.len() - j,
        {
            let ((start, stop), style) = self.highlights[j];
            let ghost rest = hs.skip(j as int);
            assert(rest[0] == hs[j as int]);
            assert(rest.skip(1) =~= hs.skip(j + 1));
            if start >= e {
                assert(rebased(rest, a as int, e as int) =~= Seq::<((usize, usize), S)>::empty());
                assert(out@ =~= out@ + rebased(rest, a as int, e as int));
                break;
            }
            let s = (if start >= a { start } else { a }) - a;
            let t = (if stop <= e { stop } else { e }) - a;
            if s < t {
                out.push(((s, t), style));
            }
            j += 1;
            proof {
                if s < t {
                    assert(out@ =~= out@.drop_last() + seq![((s, t), style)]);
                }
            }
            assert(rebased(hs.skip(first as int), a as int, e as int) =~= out@ + rebased(hs.skip(j as int), a as int,
                e as int));
            proof {
                if j == hs.len() {
                    assert(hs.skip(j as int) =~= Seq::<((usize, usize), S)>::empty());
                    assert(out@ =~= out@ + rebased(hs.skip(j as int), a as int, e as int));
                }
            }
        }
        assert(self.line_spans()[number - 1] == (a, e));
        assert(out@ == rebased(hs.skip(first as int), a as int, e as int));
        out
    }
}

/// One row of a diff as it is drawn: a gap between hunks (with the
/// section heading of the hunk that follows), or a line of a file.
#[derive(Debug)]
pub enum DiffRow<S> {
    Skip(Option<String>),
    Code {
        kind: LineKind,
        /// The gutter number: none for a removed line, which has no place
        /// in the file as it is now.
        number: Option<u32>,
        /// The line's colours, borrowed from its own side of the change.
        highlights: Vec<((usize, usize), S)>,
        text: String,
    },
}

/// What a row holds, as values.
pub enum RowView<S> {
    Skip(Option<Seq<char>>),
    Code(LineKind, Option<u32>, Seq<((usize, usize), S)>, Seq<char>),
}

pub open spec fn row_view<S>(r: DiffRow<S>) -> RowView<S> {
    match r {
        DiffRow::Skip(h) => RowView::Skip(opt_view(h)),
        DiffRow::Code { kind, number, highlights, text } => RowView::Code(kind, number, highlights@, text@),
    }
}

pub open spec fn rows_view<S>(rs: Seq<DiffRow<S>>) -> Seq<RowView<S>> {
    Seq::new(rs.len(), |i: int| row_view(rs[i]))
}

/// The row for one line of a hunk: a removed line takes its colours from
/// the old file and shows no number; the others from the new file.
pub open spec fn code_row<S>(
    l: Line,
    new_lines: Seq<(usize, usize)>,
    new_spans: Seq<((usize, usize), S)>,
    old_lines: Seq<(usize, usize)>,
    old_spans: Seq<((usize, usize), S)>,
) -> RowView<S> {
    let removed = l.kind == LineKind::Removed;
    let lines = if removed { old_lines } else { new_lines };
    let spans = if removed { old_spans } else { new_spans };
    RowView::Code(
        l.kind,
        if removed { None } else { Some(l.number) },
        line_colours(lines, spans, l.number as int, (encode_utf8(l.text@).len() as usize) as int),
        l.text@,
    )
}

/// The rows of the hunk at `index`: a gap mark first, except before a
/// first hunk that starts at line 1, then a row per line.
pub open spec fn hunk_rows<S>(
    h: Hunk,
    index: int,
    new_lines: Seq<(usize, usize)>,
    new_spans: Seq<((usize, usize), S)>,
    old_lines: Seq<(usize, usize)>,
    old_spans: Seq<((usize, usize), S)>,
) -> Seq<RowView<S>> {
    let gap = index > 0 || (h.lines@.len() > 0 && h.lines@[0].number > 1);
    (if gap { seq![RowView::Skip(opt_view(h.heading))] } else { Seq::empty() }) + Seq::new(
        h.lines@.len(),
        |k: int| code_row(h.lines@[k], new_lines, new_spans, old_lines, old_spans),
    )
}

pub open spec fn rows_of<S>(
    hunks: Seq<Hunk>,
    new_lines: Seq<(usize, usize)>,
    new_spans: Seq<((usize, usize), S)>,
    old_lines: Seq<(usize, usize)>,
    old_spans: Seq<((usize, usize), S)>,
) -> Seq<RowView<S>>
    decreases hunks.len(),
{
    if hunks.len() == 0 {
        Seq::empty()
    } else {
        rows_of(hunks.drop_last(), new_lines, new_spans, old_lines, old_spans) + hunk_rows(
            hunks.last(),
            hunks.len() - 1,
            new_lines,
            new_spans,
            old_lines,
            old_spans,
        )
    }
}

fn copy_text(s: &String) -> (r: String)
    ensures
        r@ == s@,
{
    String::from_str(s.as_str())
}

/// A diff as rows of the file: each line coloured by the side it belongs
/// to, a gap mark between hunks.
pub fn diff_rows<S: Copy>(diff: &Diff, now: &Side<S>, was: &Side<S>) -> (rows: Vec<DiffRow<S>>)
    requires
        now.wf(),
        was.wf(),
    ensures
        rows_view(rows@) == rows_of(diff.hunks@, now.line_spans(), now.spans(), was.line_spans(), was.spans()),
{
    let ghost (nl, ns, ol, os) = (now.line_spans(), now.spans(), was.line_spans(), was.spans());
    let mut rows: Vec<DiffRow<S>> = Vec::new();
    let mut index: usize = 0;
    while index < diff.hunks.len()
        invariant
            index <= diff.hunks@.len(),
            now.wf(),
            was.wf(),
            nl == now.line_spans() && ns == now.spans() && ol == was.line_spans() && os == was.spans(),
            rows_view(rows@) == rows_of(diff.hunks@.take(index as int), nl, ns, ol, os),
        decreases diff.hunks@.len() - index,
    {
        let hunk = &diff.hunks[index];
        let ghost before = rows_view(rows@);
        let gap = index > 0 || (hunk.lines.len() > 0 && hunk.lines[0].number > 1);
        if gap {
            let heading = match &hunk.heading {
                Some(h) => Some(copy_text(h)),
                None => None,
            };
            let ghost prev = rows@;
            let row = DiffRow::Skip(heading);
            let ghost rv = row_view(row);
            rows.push(row);
            assert(rows_view(rows@) =~= rows_view(prev).push(rv));
        }
        let ghost mid = rows_view(rows@);
        assert(mid == before + (if gap { seq![RowView::Skip(opt_view(hunk.heading))] } else { Seq::<RowView<S>>::empty() }));
        let mut k: usize = 0;
        while k < hunk.lines.len()
            invariant
                k <= hunk.lines@.len(),
                now.wf(),
                was.wf(),
                nl == now.line_spans() && ns == now.spans() && ol == was.line_spans() && os == was.spans(),
                rows_view(rows@) == mid + Seq::new(k as nat, |j: int| code_row(hunk.lines@[j], nl, ns, ol, os)),
            decreases hunk.lines@.len() - k,
        {
            let line = &hunk.lines[k];
            let removed = match line.kind {
                LineKind::Removed => true,
                _ => false,
            };
            let highlights = if removed {
                was.line(line.number, line.text.as_str())
            } else {
                now.line(line.number, line.text.as_str())
            };
            let number = if removed { None } else { Some(line.number) };
            let row = DiffRow::Code { kind: line.kind, number, highlights, text: copy_text(&line.text) };
            assert(row_view(row) == code_row(hunk.lines@[k as int], nl, ns, ol, os));
            let ghost prev = rows@;
            let ghost rv = row_view(row);
            rows.push(row);
            assert(rows_view(rows@) =~= rows_view(prev).push(rv));
            k += 1;
            assert(rows_view(rows@) =~= mid + Seq::new(k as nat, |j: int| code_row(hunk.lines@[j], nl, ns, ol, os)));
        }
        proof {
            let t = diff.hunks@.take(index + 1);
            assert(t.drop_last() =~= diff.hunks@.take(index as int));
            assert(t.last() == *hunk);
            assert(rows_view(rows@) =~= rows_of(t, nl, ns, ol, os));
        }
        index += 1;
    }
    assert(diff.hunks@.take(diff.hunks@.len() as int) =~= diff.hunks@);
    rows
}

/// The grammar a diff's rows are coloured by: the one the text preview
/// already carries, `markdown` for markup; `None` for a body that is not
/// text — a changed picture is better shown than diffed.
pub fn diff_language(body: &Body) -> (r: Option<Option<&'static str>>)
    ensures
        match *body {
            Body::Text { language, .. } => r == Some(language),
            Body::Markdown(_) => r == Some(Some("markdown")),
            _ => r is None,
        },
{
    match body {
        Body::Text { language, .. } => Some(*language),
        Body::Markdown(_) => Some(Some("markdown")),
        _ => None,
    }
}

/// Show a changed file's diff in place of its contents: a text or markup
/// preview becomes the diff, and the rows to draw come back, coloured from
/// the file as it is (`now`) and as `HEAD` has it (`was`). Any other
/// preview is left as it is, with no rows.
pub fn with_diff<S: Copy>(preview: &mut Preview, diff: Diff, now: &Side<S>, was: &Side<S>) -> (rows: Vec<DiffRow<S>>)
    requires
        now.wf(),
        was.wf(),
    ensures
        (old(preview).body is Text || old(preview).body is Markdown) ==> {
            &&& final(preview).body == Body::Diff(diff)
            &&& rows_view(rows@) == rows_of(diff.hunks@, now.line_spans(), now.spans(), was.line_spans(), was.spans())
            &&& final(preview).key == old(preview).key
            &&& final(preview).name == old(preview).name
            &&& final(preview).size == old(preview).size
            &&& final(preview).is_symlink == old(preview).is_symlink
        },
        !(old(preview).body is Text || old(preview).body is Markdown) ==> *final(preview) == *old(preview) && rows@.len() == 0,
{
    let textual = match &preview.body {
        Body::Text { .. } | Body::Markdown(_) => true,
        _ => false,
    };
    if !textual {
        return Vec::new();
    }
    let rows = diff_rows(&diff, now, was);
    preview.body = Body::Diff(diff);
    rows
}

/// Clipping never leaves a range reaching past the cut, nor an empty one:
/// a range past the end of the string it styles would break the renderer.
pub proof fn lemma_clipped_ranges_end_at_the_cut<S>(hs: Seq<((usize, usize), S)>, end: int)
    ensures
        forall|k: int| 0 <= k < clip_ranges(hs, end).len() ==> {
            let r = #[trigger] clip_ranges(hs, end)[k];
            r.0.0 < r.0.1 && r.0.1 <= end
        },
    decreases hs.len(),
{
    if hs.len() > 0 && hs[0].0.0 < end {
        lemma_clipped_ranges_end_at_the_cut(hs.skip(1), end);
        let e = if hs[0].0.1 <= end { hs[0].0.1 as int } else { end };
        let rest = clip_ranges(hs.skip(1), end);
        if hs[0].0.0 < e {
            assert forall|k: int| 1 <= k < clip_ranges(hs, end).len() implies clip_ranges(hs, end)[k] == rest[k - 1] by {}
        }
    }
}

/// A line's borrowed colours lie inside the line: every range is
/// non-empty and ends within the line's own length.
pub proof fn lemma_line_colours_stay_on_the_line<S>(
    lines: Seq<(usize, usize)>,
    hs: Seq<((usize, usize), S)>,
    number: int,
    expected_len: int,
)
    requires
        forall|i: int| 0 <= i < lines.len() ==> #[trigger] lines[i].0 <= lines[i].1,
    ensures
        forall|k: int| 0 <= k < line_colours(lines, hs, number, expected_len).len() ==> {
            let r = #[trigger] line_colours(lines, hs, number, expected_len)[k];
            r.0.0 < r.0.1 && r.0.1 <= expected_len
        },
{
    if 1 <= number <= lines.len() {
        let (a, e) = lines[number - 1];
        if e - a == expected_len {
            lemma_rebased_inside(hs.skip(leading_from(hs, a as int, 0)), a as int, e as int);
        }
    }
}

proof fn lemma_rebased_inside<S>(hs: Seq<((usize, usize), S)>, a: int, e: int)
    requires
        0 <= a <= e <= usize::MAX,
    ensures
        forall|k: int| 0 <= k < rebased(hs, a, e).len() ==> {
            let r = #[trigger] rebased(hs, a, e)[k];
            r.0.0 < r.0.1 && r.0.1 <= e - a
        },
    decreases hs.len(),
{
    if hs.len() > 0 && hs[0].0.0 < e {
        lemma_rebased_inside(hs.skip(1), a, e);
        let rest = rebased(hs.skip(1), a, e);
        let s = (if hs[0].0.0 >= a { hs[0].0.0 as int } else { a }) - a;
        let t = (if hs[0].0.1 <= e { hs[0].0.1 as int } else { e }) - a;
        if s < t {
            assert(rebased(hs, a, e)[0] == ((s as usize, t as usize), hs[0].1));
            assert forall|k: int| 1 <= k < rebased(hs, a, e).len() implies rebased(hs, a, e)[k] == rest[k - 1] by {}
        }
    }
}

} // verus!
