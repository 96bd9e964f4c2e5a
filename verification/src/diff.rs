//! `git diff`'s unified output, parsed into hunks of numbered rows.
//!
//! The raw text is deliberately not kept: a diff is rendered as rows of the
//! file, each tagged with its kind and its line number on its own side.

use vstd::prelude::*;
use crate::split::{first_index, lemma_first_index_at, lines_of, split_lines, views};
use crate::text::{chars_of, has_at, matches_at, string_of};

verus! {

#[derive(Debug, Clone, Copy, PartialEq, Eq, Structural)]
pub enum LineKind {
    Context,
    Added,
    Removed,
}

#[derive(Debug, Clone, PartialEq, Eq)]
pub struct Line {
    pub kind: LineKind,
    /// The line's number on the side it belongs to — the new file for
    /// context and additions, the old one for removals.
    pub number: u32,
    /// The content, with the `+`/`-`/space prefix already off.
    pub text: String,
}

/// One run of changed lines with its surrounding context.
#[derive(Debug, Clone, PartialEq, Eq)]
pub struct Hunk {
    /// What git guessed this hunk is inside — the section name after the
    /// second `@@`.
    pub heading: Option<String>,
    pub lines: Vec<Line>,
}

/// A parsed unified diff: hunks of tagged lines, with real line numbers.
#[derive(Debug, Clone, Default, PartialEq, Eq)]
pub struct Diff {
    pub hunks: Vec<Hunk>,
    /// True when the line limit cut it short.
    pub truncated: bool,
    pub added: usize,
    pub removed: usize,
}

pub type LineModel = (LineKind, int, Seq<char>);

pub type HunkModel = (Option<Seq<char>>, Seq<LineModel>);

pub open spec fn opt_view(o: Option<String>) -> Option<Seq<char>> {
    match o {
        Some(s) => Some(s@),
        None => None,
    }
}

pub open spec fn line_view(l: Line) -> LineModel {
    (l.kind, l.number as int, l.text@)
}

pub open spec fn hunk_view(h: Hunk) -> HunkModel {
    (opt_view(h.heading), Seq::new(h.lines@.len(), |i: int| line_view(h.lines@[i])))
}

pub open spec fn hunks_view(hs: Seq<Hunk>) -> Seq<HunkModel> {
    Seq::new(hs.len(), |i: int| hunk_view(hs[i]))
}

/// `char::is_whitespace`: Unicode's White_Space property.
pub open spec fn is_ws(c: char) -> bool {
    ('\u{9}' <= c && c <= '\u{d}') || c == ' ' || c == '\u{85}' || c == '\u{a0}' || c == '\u{1680}'
        || ('\u{2000}' <= c && c <= '\u{200a}') || c == '\u{2028}' || c == '\u{2029}'
        || c == '\u{202f}' || c == '\u{205f}' || c == '\u{3000}'
}

pub fn ws(c: char) -> (r: bool)
    ensures
        r == is_ws(c),
{
    ('\u{9}' <= c && c <= '\u{d}') || c == ' ' || c == '\u{85}' || c == '\u{a0}' || c == '\u{1680}'
        || ('\u{2000}' <= c && c <= '\u{200a}') || c == '\u{2028}' || c == '\u{2029}'
        || c == '\u{202f}' || c == '\u{205f}' || c == '\u{3000}'
}

/// How many whitespace characters `s` starts with.
pub open spec fn lead_ws(s: Seq<char>) -> nat
    decreases s.len(),
{
    if s.len() > 0 && is_ws(s[0]) {
        1 + lead_ws(s.skip(1))
    } else {
        0
    }
}

/// How many non-whitespace characters `s` starts with.
pub open spec fn lead_word(s: Seq<char>) -> nat
    decreases s.len(),
{
    if s.len() > 0 && !is_ws(s[0]) {
        1 + lead_word(s.skip(1))
    } else {
        0
    }
}

pub proof fn lemma_lead_bounds(s: Seq<char>)
    ensures
        lead_ws(s) <= s.len(),
        lead_word(s) <= s.len(),
    decreases s.len(),
{
    if s.len() > 0 {
        lemma_lead_bounds(s.skip(1));
    }
}

/// `str::split_whitespace`.
pub open spec fn words(s: Seq<char>) -> Seq<Seq<char>>
    decreases s.len(),
{
    let t = s.skip(lead_ws(s) as int);
    let n = lead_word(t);
    if lead_ws(s) >= s.len() {
        Seq::empty()
    } else {
        proof { lemma_lead_bounds(s); lemma_lead_bounds(t); }
        seq![t.take(n as int)] + words(t.skip(n as int))
    }
}

/// The decimal value of a run of digits.
pub open spec fn digits_value(d: Seq<char>) -> int
    decreases d.len(),
{
    if d.len() == 0 {
        0
    } else {
        digits_value(d.drop_last()) * 10 + (d.last() as int - '0' as int)
    }
}

pub open spec fn all_digits(d: Seq<char>) -> bool {
    forall|i: int| 0 <= i < d.len() ==> '0' <= #[trigger] d[i] && d[i] <= '9'
}

/// `str::parse::<u32>`: an optional `+`, then at least one digit, and a
/// value that fits.
pub open spec fn parse_u32(s: Seq<char>) -> Option<int> {
    let d = if s.len() > 0 && s[0] == '+' { s.skip(1) } else { s };
    if d.len() > 0 && all_digits(d) && digits_value(d) <= u32::MAX {
        Some(digits_value(d))
    } else {
        None
    }
}

/// A hunk range's start: `-12,7` with sign `-` gives 12.
pub open spec fn range_start(field: Seq<char>, sign: char) -> Option<int> {
    if field.len() > 0 && field[0] == sign {
        let body = field.skip(1);
        let i = first_index(body, ',');
        parse_u32(if i < 0 { body } else { body.take(i) })
    } else {
        None
    }
}

/// Index of the first `@@` in `s`, or -1.
pub open spec fn find_at_at(s: Seq<char>) -> int
    decreases s.len(),
{
    if s.len() < 2 {
        -1
    } else if s[0] == '@' && s[1] == '@' {
        0
    } else {
        let k = find_at_at(s.skip(1));
        if k < 0 {
            -1
        } else {
            k + 1
        }
    }
}

/// `str::trim`: whitespace off both ends.
pub open spec fn trim_ws(s: Seq<char>) -> Seq<char>
    decreases s.len(),
{
    if s.len() > 0 && is_ws(s[0]) {
        trim_ws(s.skip(1))
    } else if s.len() > 0 && is_ws(s.last()) {
        trim_ws(s.drop_last())
    } else {
        s
    }
}

/// `@@ -12,7 +12,9 @@ fn main()` (after its opening `@@`) → the two
/// starts and the section name, if there is one.
pub open spec fn hunk_header(rest: Seq<char>) -> Option<(int, int, Option<Seq<char>>)> {
    let i = find_at_at(rest);
    if i < 0 {
        None
    } else {
        let ws = words(rest.take(i));
        let heading = trim_ws(rest.skip(i + 2));
        if ws.len() < 2 {
            None
        } else {
            match (range_start(ws[0], '-'), range_start(ws[1], '+')) {
                (Some(o), Some(n)) => Some((o, n, if heading.len() == 0 { None } else { Some(heading) })),
                _ => None,
            }
        }
    }
}

/// The parser's state between lines.
pub struct ParseState {
    pub hunks: Seq<HunkModel>,
    pub truncated: bool,
    pub added: int,
    pub removed: int,
    pub old_no: int,
    pub new_no: int,
    pub kept: int,
    /// Inside a hunk body: not derived from "is there a hunk yet", because a
    /// second file's `---`/`+++` header would then read as content.
    pub in_hunk: bool,
    /// The limit was hit: nothing after is read.
    pub done: bool,
    /// A line number ran past `u32::MAX`.
    pub overflow: bool,
    /// Each hunk's old start, as its header gave it.
    pub old_starts: Seq<int>,
}

pub open spec fn start_state() -> ParseState {
    ParseState { hunks: Seq::empty(), truncated: false, added: 0, removed: 0, old_no: 0, new_no: 0, kept: 0, in_hunk: false, done: false, overflow: false, old_starts: Seq::empty() }
}

pub open spec fn has_prefix(s: Seq<char>, p: Seq<char>) -> bool {
    has_at(s, 0, p)
}

pub open spec fn kind_of_prefix(c: char) -> LineKind {
    if c == '+' {
        LineKind::Added
    } else if c == '-' {
        LineKind::Removed
    } else {
        LineKind::Context
    }
}

/// One line's effect on the parse.
pub open spec fn diff_step(st: ParseState, line: Seq<char>, limit: int) -> ParseState {
    if st.done {
        st
    } else if has_prefix(line, seq!['@', '@']) {
        match hunk_header(line.skip(2)) {
            None => st,
            Some((o, n, h)) => ParseState { old_no: o, new_no: n, in_hunk: true, hunks: st.hunks.push((h, Seq::empty())), old_starts: st.old_starts.push(o), ..st },
        }
    } else if has_prefix(line, "diff --git"@) {
        ParseState { in_hunk: false, ..st }
    } else if !st.in_hunk {
        st
    } else if st.kept >= limit {
        ParseState { truncated: true, done: true, ..st }
    } else if line.len() == 0 || !(line[0] == '+' || line[0] == '-' || line[0] == ' ') {
        // "\ No newline at end of file" annotates the line above.
        st
    } else {
        let kind = kind_of_prefix(line[0]);
        let at = if kind == LineKind::Removed { st.old_no } else { st.new_no };
        let new_no = if kind != LineKind::Removed { st.new_no + 1 } else { st.new_no };
        let old_no = if kind != LineKind::Added { st.old_no + 1 } else { st.old_no };
        let hunks = if st.hunks.len() > 0 {
            let last = st.hunks.last();
            st.hunks.update(st.hunks.len() - 1, (last.0, last.1.push((kind, at, line.skip(1)))))
        } else {
            st.hunks
        };
        ParseState {
            hunks,
            added: if kind == LineKind::Added { st.added + 1 } else { st.added },
            removed: if kind == LineKind::Removed { st.removed + 1 } else { st.removed },
            old_no,
            new_no,
            kept: st.kept + 1,
            overflow: st.overflow || new_no > u32::MAX || old_no > u32::MAX,
            ..st
        }
    }
}

pub open spec fn diff_run(st: ParseState, lines: Seq<Seq<char>>, limit: int) -> ParseState
    decreases lines.len(),
{
    if lines.len() == 0 {
        st
    } else {
        diff_run(diff_step(st, lines[0], limit), lines.skip(1), limit)
    }
}

/// A cut that lands between hunks leaves an empty one on the end, which would
/// render as a heading introducing nothing: it goes.
pub open spec fn finish(hunks: Seq<HunkModel>) -> Seq<HunkModel> {
    if hunks.len() > 0 && hunks.last().1.len() == 0 {
        hunks.drop_last()
    } else {
        hunks
    }
}

pub open spec fn parsed(raw: Seq<char>, limit: int) -> ParseState {
    diff_run(start_state(), lines_of(raw), limit)
}

/// Whether every line number the diff counts through fits in a `u32`.
pub open spec fn numbers_fit(raw: Seq<char>, limit: int) -> bool {
    !parsed(raw, limit).overflow
}

pub proof fn lemma_overflow_sticks(st: ParseState, lines: Seq<Seq<char>>, limit: int)
    ensures
        st.overflow ==> diff_run(st, lines, limit).overflow,
    decreases lines.len(),
{
    if lines.len() > 0 {
        lemma_overflow_sticks(diff_step(st, lines[0], limit), lines.skip(1), limit);
    }
}

pub proof fn lemma_kept_bound(st: ParseState, lines: Seq<Seq<char>>, limit: int)
    requires
        st.kept <= limit,
        st.added + st.removed <= st.kept,
        0 <= st.added,
        0 <= st.removed,
    ensures
        diff_run(st, lines, limit).kept <= limit,
        diff_run(st, lines, limit).added + diff_run(st, lines, limit).removed <= diff_run(st, lines, limit).kept,
    decreases lines.len(),
{
    if lines.len() > 0 {
        lemma_kept_bound(diff_step(st, lines[0], limit), lines.skip(1), limit);
    }
}

pub proof fn lemma_lead_ws_split(s: Seq<char>, k: int)
    requires
        0 <= k <= s.len(),
        forall|j: int| 0 <= j < k ==> is_ws(#[trigger] s[j]),
    ensures
        lead_ws(s) == k + lead_ws(s.skip(k)),
    decreases k,
{
    if k > 0 {
        lemma_lead_ws_split(s.skip(1), k - 1);
        assert(s.skip(1).skip(k - 1) =~= s.skip(k));
    } else {
        assert(s.skip(0) =~= s);
    }
}

pub proof fn lemma_lead_word_split(s: Seq<char>, k: int)
    requires
        0 <= k <= s.len(),
        forall|j: int| 0 <= j < k ==> !is_ws(#[trigger] s[j]),
    ensures
        lead_word(s) == k + lead_word(s.skip(k)),
    decreases k,
{
    if k > 0 {
        lemma_lead_word_split(s.skip(1), k - 1);
        assert(s.skip(1).skip(k - 1) =~= s.skip(k));
    } else {
        assert(s.skip(0) =~= s);
    }
}

/// The next word of `cs[from..to]`, as `(start, end)`: what
/// `split_whitespace` yields first, and where the rest begins.
fn next_word(cs: &Vec<char>, from: usize, to: usize) -> (r: Option<(usize, usize)>)
    requires
        from <= to <= cs@.len(),
    ensures
        ({
            let s = cs@.subrange(from as int, to as int);
            match r {
                None => words(s).len() == 0,
                Some((a, b)) => {
                    &&& from <= a < b <= to
                    &&& words(s) == seq![cs@.subrange(a as int, b as int)] + words(cs@.subrange(b as int, to as int))
                },
            }
        }),
{
    let ghost s = cs@.subrange(from as int, to as int);
    let mut a = from;
    while a < to && ws(cs[a])
        invariant
            from <= a <= to <= cs@.len(),
            forall|j: int| from <= j < a ==> is_ws(#[trigger] cs@[j]),
        decreases to - a,
    {
        a += 1;
    }
    proof {
        assert forall|j: int| 0 <= j < a - from implies is_ws(#[trigger] s[j]) by {
            assert(s[j] == cs@[from + j]);
        }
        lemma_lead_ws_split(s, a - from);
        if a < to {
            assert(s.skip(a - from)[0] == cs@[a as int]);
        }
        assert(lead_ws(s.skip(a - from)) == 0);
        lemma_lead_bounds(s);
    }
    if a == to {
        return None;
    }
    let mut b = a;
    while b < to && !ws(cs[b])
        invariant
            a <= b <= to <= cs@.len(),
            forall|j: int| a <= j < b ==> !is_ws(#[trigger] cs@[j]),
        decreases to - b,
    {
        b += 1;
    }
    proof {
        let t = s.skip(lead_ws(s) as int);
        assert(t =~= cs@.subrange(a as int, to as int));
        assert forall|j: int| 0 <= j < b - a implies !is_ws(#[trigger] t[j]) by {
            assert(t[j] == cs@[a + j]);
        }
        lemma_lead_word_split(t, b - a);
        if b < to {
            assert(t.skip(b - a)[0] == cs@[b as int]);
        }
        assert(lead_word(t.skip(b - a)) == 0);
        assert(t.take(b - a) =~= cs@.subrange(a as int, b as int));
        assert(t.skip(b - a) =~= cs@.subrange(b as int, to as int));
    }
    Some((a, b))
}

proof fn lemma_digits_grow(d: Seq<char>, k: int)
    requires
        0 <= k <= d.len(),
        all_digits(d),
    ensures
        digits_value(d) >= digits_value(d.take(k)),
        digits_value(d.take(k)) >= 0,
    decreases d.len(),
{
    if d.len() > 0 {
        assert(all_digits(d.drop_last()));
        if k == d.len() {
            assert(d.take(k) =~= d);
            lemma_digits_grow(d.drop_last(), k - 1);
            assert(d.drop_last().take(k - 1) =~= d.drop_last());
        } else {
            lemma_digits_grow(d.drop_last(), k);
            assert(d.drop_last().take(k) =~= d.take(k));
        }
    } else {
        assert(d.take(k) =~= d);
    }
}

/// `str::parse::<u32>` of `cs[from..to]`.
pub(crate) fn parse_u32_at(cs: &Vec<char>, from: usize, to: usize) -> (r: Option<u32>)
    requires
        from <= to <= cs@.len(),
    ensures
        match r {
            Some(v) => parse_u32(cs@.subrange(from as int, to as int)) == Some(v as int),
            None => parse_u32(cs@.subrange(from as int, to as int)) is None,
        },
{
    let ghost s = cs@.subrange(from as int, to as int);
    let start = if from < to && cs[from] == '+' { from + 1 } else { from };
    let ghost d = cs@.subrange(start as int, to as int);
    assert(d =~= (if s.len() > 0 && s[0] == '+' { s.skip(1) } else { s }));
    if start == to {
        assert(d.len() == 0);
        return None;
    }
    let mut v: u64 = 0;
    let mut i = start;
    while i < to
        invariant
            start <= i <= to <= cs@.len(),
            start < to,
            s == cs@.subrange(from as int, to as int),
            d == cs@.subrange(start as int, to as int),
            d == (if s.len() > 0 && s[0] == '+' { s.skip(1) } else { s }),
            all_digits(cs@.subrange(start as int, i as int)),
            v == digits_value(cs@.subrange(start as int, i as int)),
            v <= u32::MAX,
        decreases to - i,
    {
        let c = cs[i];
        if c < '0' || c > '9' {
            assert(d[i - start] == c);
            assert(!all_digits(d));
            assert(parse_u32(s) is None);
            return None;
        }
        let dv: u8 = (c as u8) - 48;
        let next = v * 10 + dv as u64;
        proof {
            let p = cs@.subrange(start as int, i + 1);
            assert(p.drop_last() =~= cs@.subrange(start as int, i as int));
            assert(all_digits(p));
        }
        if next > 4294967295 {
            proof {
                let p = cs@.subrange(start as int, i + 1);
                assert forall|j: int| 0 <= j < d.len() && j != i - start && j < i + 1 - start implies '0' <= #[trigger] d[j] && d[j] <= '9' by {
                    assert(d[j] == p[j]);
                }
                if all_digits(d) {
                    lemma_digits_grow(d, i + 1 - start);
                    assert(d.take(i + 1 - start) =~= p);
                }
                assert(parse_u32(s) is None);
            }
            return None;
        }
        v = next;
        i += 1;
    }
    assert(cs@.subrange(start as int, to as int) =~= d);
    Some(v as u32)
}

/// The start a hunk range field gives: `-12,7` with sign `-` is 12.
fn range_start_at(cs: &Vec<char>, from: usize, to: usize, sign: char) -> (r: Option<u32>)
    requires
        from <= to <= cs@.len(),
    ensures
        match r {
            Some(v) => range_start(cs@.subrange(from as int, to as int), sign) == Some(v as int),
            None => range_start(cs@.subrange(from as int, to as int), sign) is None,
        },
{
    let ghost f = cs@.subrange(from as int, to as int);
    if from == to || cs[from] != sign {
        return None;
    }
    let ghost body = f.skip(1);
    assert(body =~= cs@.subrange(from + 1, to as int));
    let mut e = from + 1;
    while e < to && cs[e] != ','
        invariant
            from + 1 <= e <= to <= cs@.len(),
            forall|j: int| from + 1 <= j < e ==> cs@[j] != ',',
        decreases to - e,
    {
        e += 1;
    }
    proof {
        assert forall|j: int| 0 <= j < e - from - 1 implies body[j] != ',' by {
            assert(body[j] == cs@[from + 1 + j]);
        }
        if e < to {
            assert(body[e - from - 1] == cs@[e as int]);
        }
        lemma_first_index_at(body, ',', e - from - 1);
        if e < to {
            assert(body.take(e - from - 1) =~= cs@.subrange(from + 1, e as int));
        } else {
            assert(body =~= cs@.subrange(from + 1, e as int));
        }
    }
    parse_u32_at(cs, from + 1, e)
}

/// `trim_ws(cs[from..to])`, as bounds.
pub fn trim_bounds(cs: &Vec<char>, from: usize, to: usize) -> (r: (usize, usize))
    requires
        from <= to <= cs@.len(),
    ensures
        from <= r.0 <= r.1 <= to,
        trim_ws(cs@.subrange(from as int, to as int)) == cs@.subrange(r.0 as int, r.1 as int),
{
    let mut a = from;
    while a < to && ws(cs[a])
        invariant
            from <= a <= to <= cs@.len(),
            trim_ws(cs@.subrange(from as int, to as int)) == trim_ws(cs@.subrange(a as int, to as int)),
        decreases to - a,
    {
        assert(cs@.subrange(a as int, to as int).skip(1) =~= cs@.subrange(a + 1, to as int));
        a += 1;
    }
    let mut b = to;
    while b > a && ws(cs[b - 1])
        invariant
            from <= a <= b <= to <= cs@.len(),
            a < b ==> !is_ws(cs@[a as int]),
            trim_ws(cs@.subrange(from as int, to as int)) == trim_ws(cs@.subrange(a as int, b as int)),
        decreases b,
    {
        assert(cs@.subrange(a as int, b as int).drop_last() =~= cs@.subrange(a as int, b - 1));
        assert(cs@.subrange(a as int, b as int)[0] == cs@[a as int]);
        b -= 1;
    }
    proof {
        if a < b {
            assert(cs@.subrange(a as int, b as int)[0] == cs@[a as int]);
        }
    }
    (a, b)
}

/// Index of the first `@@` in `cs[from..]`.
fn find_at_at_in(cs: &Vec<char>, from: usize) -> (r: Option<usize>)
    requires
        from <= cs@.len(),
    ensures
        match r {
            Some(i) => from <= i && i + 2 <= cs@.len() && find_at_at(cs@.skip(from as int)) == i - from,
            None => find_at_at(cs@.skip(from as int)) == -1,
        },
{
    let mut i = from;
    while i < cs.len() && i + 1 < cs.len()
        invariant
            from <= i <= cs@.len(),
            find_at_at(cs@.skip(from as int)) == (if find_at_at(cs@.skip(i as int)) < 0 { -1 } else { find_at_at(cs@.skip(i as int)) + (i - from) }),
        decreases cs@.len() - i,
    {
        if cs[i] == '@' && cs[i + 1] == '@' {
            assert(cs@.skip(i as int)[0] == '@' && cs@.skip(i as int)[1] == '@');
            return Some(i);
        }
        assert(cs@.skip(i as int).skip(1) =~= cs@.skip(i + 1));
        i += 1;
    }
    None
}

/// Parse a hunk header after its opening `@@`: `cs[from..]`.
fn hunk_header_at(cs: &Vec<char>, from: usize) -> (r: Option<(u32, u32, Option<String>)>)
    requires
        from <= cs@.len(),
    ensures
        match r {
            Some((o, n, h)) => hunk_header(cs@.skip(from as int)) == Some((o as int, n as int, opt_view(h))),
            None => hunk_header(cs@.skip(from as int)) is None,
        },
{
    let ghost rest = cs@.skip(from as int);
    let i = match find_at_at_in(cs, from) {
        Some(i) => i,
        None => return None,
    };
    let ghost ranges = rest.take(i - from);
    assert(ranges =~= cs@.subrange(from as int, i as int));
    let (a1, b1) = match next_word(cs, from, i) {
        Some(w) => w,
        None => return None,
    };
    let (a2, b2) = match next_word(cs, b1, i) {
        Some(w) => w,
        None => return None,
    };
    let ghost ws = words(ranges);
    assert(ws[0] == cs@.subrange(a1 as int, b1 as int));
    assert(ws.skip(1) == words(cs@.subrange(b1 as int, i as int)));
    assert(ws[1] == ws.skip(1)[0]);
    let old_start = match range_start_at(cs, a1, b1, '-') {
        Some(o) => o,
        None => return None,
    };
    let new_start = match range_start_at(cs, a2, b2, '+') {
        Some(n) => n,
        None => return None,
    };
    let n = cs.len();
    assert(n == cs@.len());
    let (h1, h2) = trim_bounds(cs, i + 2, n);
    assert(rest.skip(i - from + 2) =~= cs@.subrange(i + 2, cs@.len() as int));
    let heading = if h1 == h2 {
        None
    } else {
        Some(string_of(cs, h1, h2))
    };
    Some((old_start, new_start, heading))
}

/// The hunks built so far: the closed ones, then the one still open.
pub open spec fn open_view(closed: Seq<Hunk>, open: Option<Hunk>) -> Seq<HunkModel> {
    hunks_view(closed) + match open {
        Some(h) => seq![hunk_view(h)],
        None => Seq::empty(),
    }
}

pub proof fn lemma_done_stays(st: ParseState, lines: Seq<Seq<char>>, limit: int)
    requires
        st.done,
    ensures
        diff_run(st, lines, limit) == st,
    decreases lines.len(),
{
    if lines.len() > 0 {
        lemma_done_stays(diff_step(st, lines[0], limit), lines.skip(1), limit);
    }
}

/// Parse `git diff`'s unified output into hunks of numbered rows, keeping at
/// most `limit` rows.
pub fn parse_diff(raw: &str, limit: usize) -> (r: Diff)
    requires
        numbers_fit(raw@, limit as int),
    ensures
        hunks_view(r.hunks@) == finish(parsed(raw@, limit as int).hunks),
        r.truncated == parsed(raw@, limit as int).truncated,
        r.added == parsed(raw@, limit as int).added,
        r.removed == parsed(raw@, limit as int).removed,
{
    let cs = chars_of(raw);
    let ls = split_lines(&cs);
    let ghost lines = views(ls@);
    let git_header = chars_of("diff --git");
    let mut closed: Vec<Hunk> = Vec::new();
    let mut open: Option<Hunk> = None;
    let mut truncated = false;
    let mut added: usize = 0;
    let mut removed: usize = 0;
    let mut old_no: u32 = 0;
    let mut new_no: u32 = 0;
    let mut kept: usize = 0;
    let mut in_hunk = false;
    let ghost mut st = start_state();
    let mut i: usize = 0;
    assert(lines.skip(0) =~= lines);
    assert(hunks_view(closed@) =~= Seq::<HunkModel>::empty());
    while i < ls.len() && !truncated
        invariant
            i <= ls@.len(),
            lines == views(ls@),
            git_header@ == "diff --git"@,
            parsed(raw@, limit as int) == diff_run(st, lines.skip(i as int), limit as int),
            !parsed(raw@, limit as int).overflow,
            !st.overflow,
            st.hunks == open_view(closed@, open),
            open is None ==> closed@.len() == 0,
            st.truncated == truncated,
            st.done == truncated,
            st.added == added,
            st.removed == removed,
            st.old_no == old_no,
            st.new_no == new_no,
            st.kept == kept,
            st.in_hunk == in_hunk,
            kept <= limit,
            added + removed <= kept,
        decreases ls@.len() - i,
    {
        let l = &ls[i];
        let ghost line = lines[i as int];
        assert(line == l@);
        let ghost next = diff_step(st, line, limit as int);
        proof {
            assert(lines.skip(i as int).skip(1) =~= lines.skip(i + 1));
            assert(lines.skip(i as int)[0] == line);
            lemma_overflow_sticks(next, lines.skip(i + 1), limit as int);
        }
        let at_at = l.len() >= 2 && l[0] == '@' && l[1] == '@';
        proof {
            let p = seq!['@', '@'];
            if at_at {
                assert(line.subrange(0, 2) =~= p);
            } else if line.len() >= 2 {
                assert(line.subrange(0, 2)[0] == line[0]);
                assert(line.subrange(0, 2)[1] == line[1]);
            }
            assert(at_at == has_prefix(line, p));
        }
        if at_at {
            match hunk_header_at(l, 2) {
                None => {},
                Some((o, n, h)) => {
                    let fresh = Hunk { heading: h, lines: Vec::new() };
                    let ghost before = open_view(closed@, open);
                    match open {
                        Some(prev) => {
                            closed.push(prev);
                        },
                        None => {},
                    }
                    open = Some(fresh);
                    proof {
                        assert(hunk_view(fresh) == (opt_view(h), Seq::<LineModel>::empty()));
                        assert(hunks_view(closed@) =~= before);
                    }
                    old_no = o;
                    new_no = n;
                    in_hunk = true;
                },
            }
        } else if matches_at(l, 0, &git_header) {
            in_hunk = false;
        } else if !in_hunk {
        } else if kept >= limit {
            truncated = true;
        } else if l.len() == 0 || !(l[0] == '+' || l[0] == '-' || l[0] == ' ') {
        } else {
            let c = l[0];
            let kind = if c == '+' {
                LineKind::Added
            } else if c == '-' {
                LineKind::Removed
            } else {
                LineKind::Context
            };
            assert(kind == kind_of_prefix(line[0]));
            let at = match kind {
                LineKind::Removed => old_no,
                _ => new_no,
            };
            match kind {
                LineKind::Added => {
                    new_no = new_no + 1;
                    added = added + 1;
                },
                LineKind::Removed => {
                    old_no = old_no + 1;
                    removed = removed + 1;
                },
                LineKind::Context => {
                    new_no = new_no + 1;
                    old_no = old_no + 1;
                },
            }
            kept = kept + 1;
            let text = string_of(l, 1, l.len());
            assert(text@ == line.skip(1));
            let row = Line { kind, number: at, text };
            let taken = open;
            open = match taken {
                Some(h) => {
                    let ghost hv = hunk_view(h);
                    let mut rows = h.lines;
                    rows.push(row);
                    let grown = Hunk { heading: h.heading, lines: rows };
                    proof {
                        assert(hunk_view(grown).1 =~= hv.1.push(line_view(row)));
                        assert(open_view(closed@, Some(grown)) =~= st.hunks.update(st.hunks.len() - 1, (hv.0, hv.1.push((kind, at as int, line.skip(1))))));
                    }
                    Some(grown)
                },
                None => None,
            };
        }
        proof {
            st = next;
        }
        i += 1;
    }
    proof {
        if truncated {
            lemma_done_stays(st, lines.skip(i as int), limit as int);
        } else {
            assert(lines.skip(i as int).len() == 0);
        }
    }
    match open {
        Some(h) => {
            closed.push(h);
        },
        None => {},
    }
    let ghost all = hunks_view(closed@);
    assert(all =~= st.hunks);
    let n = closed.len();
    if n > 0 && closed[n - 1].lines.len() == 0 {
        closed.pop();
        assert(hunks_view(closed@) =~= all.drop_last());
    }
    Diff { hunks: closed, truncated, added, removed }
}

/// Whether every line number `parse_diff` would count through fits in a
/// `u32`: what a caller holding raw `git diff` output checks first.
pub fn diff_numbers_fit(raw: &str, limit: usize) -> (r: bool)
    ensures
        r == numbers_fit(raw@, limit as int),
{
    let cs = chars_of(raw);
    let ls = split_lines(&cs);
    let ghost lines = views(ls@);
    let git_header = chars_of("diff --git");
    let mut old_no: u64 = 0;
    let mut new_no: u64 = 0;
    let mut kept: usize = 0;
    let mut in_hunk = false;
    let mut done = false;
    let ghost mut st = start_state();
    let mut i: usize = 0;
    assert(lines.skip(0) =~= lines);
    while i < ls.len() && !done
        invariant
            i <= ls@.len(),
            lines == views(ls@),
            git_header@ == "diff --git"@,
            parsed(raw@, limit as int) == diff_run(st, lines.skip(i as int), limit as int),
            !st.overflow,
            st.done == done,
            st.old_no == old_no,
            st.new_no == new_no,
            st.kept == kept,
            st.in_hunk == in_hunk,
            kept <= limit,
            old_no <= 4294967295,
            new_no <= 4294967295,
        decreases ls@.len() - i,
    {
        let l = &ls[i];
        let ghost line = lines[i as int];
        assert(line == l@);
        let ghost next = diff_step(st, line, limit as int);
        proof {
            assert(lines.skip(i as int).skip(1) =~= lines.skip(i + 1));
            assert(lines.skip(i as int)[0] == line);
            lemma_overflow_sticks(next, lines.skip(i + 1), limit as int);
        }
        let at_at = l.len() >= 2 && l[0] == '@' && l[1] == '@';
        proof {
            let p = seq!['@', '@'];
            if at_at {
                assert(line.subrange(0, 2) =~= p);
            } else if line.len() >= 2 {
                assert(line.subrange(0, 2)[0] == line[0]);
                assert(line.subrange(0, 2)[1] == line[1]);
            }
            assert(at_at == has_prefix(line, p));
        }
        if at_at {
            match hunk_header_at(l, 2) {
                None => {},
                Some((o, n, _)) => {
                    old_no = o as u64;
                    new_no = n as u64;
                    in_hunk = true;
                },
            }
        } else if matches_at(l, 0, &git_header) {
            in_hunk = false;
        } else if !in_hunk {
        } else if kept >= limit {
            done = true;
        } else if l.len() == 0 || !(l[0] == '+' || l[0] == '-' || l[0] == ' ') {
        } else {
            let c = l[0];
            if c != '-' {
                new_no = new_no + 1;
            }
            if c != '+' {
                old_no = old_no + 1;
            }
            kept = kept + 1;
            if new_no > 4294967295 || old_no > 4294967295 {
                assert(next.overflow);
                return false;
            }
        }
        proof {
            st = next;
        }
        i += 1;
    }
    proof {
        if done {
            lemma_done_stays(st, lines.skip(i as int), limit as int);
        } else {
            assert(lines.skip(i as int).len() == 0);
        }
    }
    true
}

/// How many rows the hunks hold.
pub open spec fn row_count(hs: Seq<HunkModel>) -> int
    decreases hs.len(),
{
    if hs.len() == 0 { 0 } else { row_count(hs.drop_last()) + hs.last().1.len() }
}

/// How many of `rows` are of kind `k`.
pub open spec fn kind_count(rows: Seq<LineModel>, k: LineKind) -> int
    decreases rows.len(),
{
    if rows.len() == 0 { 0 } else { kind_count(rows.drop_last(), k) + if rows.last().0 == k { 1int } else { 0int } }
}

/// How many rows of kind `k` the hunks hold.
pub open spec fn kind_total(hs: Seq<HunkModel>, k: LineKind) -> int
    decreases hs.len(),
{
    if hs.len() == 0 { 0 } else { kind_total(hs.drop_last(), k) + kind_count(hs.last().1, k) }
}

/// The numbers of the rows on the new file's side — additions and
/// context — in order.
pub open spec fn new_side(rows: Seq<LineModel>) -> Seq<int>
    decreases rows.len(),
{
    if rows.len() == 0 {
        Seq::empty()
    } else if rows.last().0 == LineKind::Removed {
        new_side(rows.drop_last())
    } else {
        new_side(rows.drop_last()).push(rows.last().1)
    }
}

/// Each number is one more than the one before.
pub open spec fn counts_up(s: Seq<int>) -> bool {
    forall|i: int| 0 <= i < s.len() - 1 ==> #[trigger] s[i + 1] == s[i] + 1
}

/// How many of `rows` take a line of the old file: removals and context.
pub open spec fn old_count(rows: Seq<LineModel>) -> int
    decreases rows.len(),
{
    if rows.len() == 0 { 0 } else { old_count(rows.drop_last()) + if rows.last().0 != LineKind::Added { 1int } else { 0int } }
}

/// Removed rows are numbered on the old file's side: from one removed row
/// to a later one, the number rises by how many rows from the first up to
/// the second take an old line — removals and context alike.
pub open spec fn old_side_counts(rows: Seq<LineModel>) -> bool {
    forall|i: int, k: int| #![trigger rows[i], rows[k]]
        0 <= i < k < rows.len() && rows[i].0 == LineKind::Removed && rows[k].0 == LineKind::Removed
            ==> rows[k].1 == rows[i].1 + old_count(rows.subrange(i, k))
}

/// Every removed row of the open hunk, counted on to its end, reaches the
/// old file's next line number.
pub open spec fn old_tail(rows: Seq<LineModel>, old_no: int) -> bool {
    forall|i: int| 0 <= i < rows.len() && (#[trigger] rows[i]).0 == LineKind::Removed
        ==> rows[i].1 + old_count(rows.subrange(i, rows.len() as int)) == old_no
}

proof fn lemma_push_row_old(rows: Seq<LineModel>, x: LineModel, old_no: int)
    requires
        old_side_counts(rows),
        old_tail(rows, old_no),
        x.0 == LineKind::Removed ==> x.1 == old_no,
    ensures
        old_side_counts(rows.push(x)),
        old_tail(rows.push(x), old_no + if x.0 != LineKind::Added { 1int } else { 0int }),
{
    let r2 = rows.push(x);
    let n = rows.len() as int;
    assert forall|i: int, k: int| #![trigger r2[i], r2[k]]
        0 <= i < k < r2.len() && r2[i].0 == LineKind::Removed && r2[k].0 == LineKind::Removed
            implies r2[k].1 == r2[i].1 + old_count(r2.subrange(i, k)) by {
        assert(r2.subrange(i, k) =~= rows.subrange(i, k));
        assert(r2[i] == rows[i]);
        if k < n {
            assert(r2[k] == rows[k]);
            assert(rows[i].0 == LineKind::Removed && rows[k].0 == LineKind::Removed);
        } else {
            assert(rows[i].0 == LineKind::Removed);
        }
    }
    assert forall|i: int| 0 <= i < r2.len() && (#[trigger] r2[i]).0 == LineKind::Removed
        implies r2[i].1 + old_count(r2.subrange(i, r2.len() as int)) == old_no + if x.0 != LineKind::Added { 1int } else { 0int } by {
        let sub = r2.subrange(i, r2.len() as int);
        assert(sub.drop_last() =~= rows.subrange(i, n));
        assert(sub.last() == x);
        assert(old_count(sub) == old_count(sub.drop_last()) + if sub.last().0 != LineKind::Added { 1int } else { 0int });
        if i < n {
            assert(r2[i] == rows[i]);
            assert(rows[i].0 == LineKind::Removed);
            assert(rows[i].1 + old_count(rows.subrange(i, n)) == old_no);
        } else {
            assert(rows.subrange(i, n) =~= Seq::<LineModel>::empty());
            assert(old_count(rows.subrange(i, n)) == 0);
            assert(r2[i] == x);
        }
    }
}

/// What holds of the parse at every line.
pub open spec fn diff_inv(st: ParseState, limit: int) -> bool {
    &&& 0 <= st.kept <= limit
    &&& st.kept == row_count(st.hunks)
    &&& st.added == kind_total(st.hunks, LineKind::Added)
    &&& st.removed == kind_total(st.hunks, LineKind::Removed)
    &&& st.in_hunk ==> st.hunks.len() > 0
    &&& st.truncated ==> st.kept == limit
    &&& forall|i: int| 0 <= i < st.hunks.len() ==> counts_up(new_side(#[trigger] st.hunks[i].1))
    &&& (st.in_hunk && new_side(st.hunks.last().1).len() > 0) ==> new_side(st.hunks.last().1).last() == st.new_no - 1
    &&& forall|i: int| 0 <= i < st.hunks.len() ==> old_side_counts(#[trigger] st.hunks[i].1)
    &&& st.in_hunk ==> old_tail(st.hunks.last().1, st.old_no)
    &&& st.old_starts.len() == st.hunks.len()
    &&& forall|i: int| 0 <= i < st.hunks.len() ==> numbered_from(#[trigger] st.hunks[i].1, st.old_starts[i])
    &&& st.in_hunk ==> st.old_no == st.old_starts.last() + old_count(st.hunks.last().1)
}

/// Each removed row of `rows` is numbered `old_start` plus the rows before
/// it that take an old line — removals and context.
pub open spec fn numbered_from(rows: Seq<LineModel>, old_start: int) -> bool {
    forall|k: int| 0 <= k < rows.len() && (#[trigger] rows[k]).0 == LineKind::Removed
        ==> rows[k].1 == old_start + old_count(rows.take(k))
}

proof fn lemma_push_numbered(rows: Seq<LineModel>, x: LineModel, old_start: int)
    requires
        numbered_from(rows, old_start),
        x.0 == LineKind::Removed ==> x.1 == old_start + old_count(rows),
    ensures
        numbered_from(rows.push(x), old_start),
        old_count(rows.push(x)) == old_count(rows) + if x.0 != LineKind::Added { 1int } else { 0int },
{
    let r2 = rows.push(x);
    assert(r2.drop_last() =~= rows);
    assert forall|k: int| 0 <= k < r2.len() && (#[trigger] r2[k]).0 == LineKind::Removed
        implies r2[k].1 == old_start + old_count(r2.take(k)) by {
        if k < rows.len() {
            assert(r2[k] == rows[k]);
            assert(r2.take(k) =~= rows.take(k));
        } else {
            assert(r2.take(k) =~= rows);
        }
    }
}

proof fn lemma_push_empty_hunk(hs: Seq<HunkModel>, h: Option<Seq<char>>)
    ensures
        row_count(hs.push((h, Seq::empty()))) == row_count(hs),
        kind_total(hs.push((h, Seq::empty())), LineKind::Added) == kind_total(hs, LineKind::Added),
        kind_total(hs.push((h, Seq::empty())), LineKind::Removed) == kind_total(hs, LineKind::Removed),
{
    assert(hs.push((h, Seq::empty())).drop_last() =~= hs);
}

proof fn lemma_grow_last(hs: Seq<HunkModel>, x: LineModel)
    requires
        hs.len() > 0,
    ensures ({
        let last = hs.last();
        let hs2 = hs.update(hs.len() - 1, (last.0, last.1.push(x)));
        &&& row_count(hs2) == row_count(hs) + 1
        &&& kind_total(hs2, LineKind::Added) == kind_total(hs, LineKind::Added) + if x.0 == LineKind::Added { 1int } else { 0int }
        &&& kind_total(hs2, LineKind::Removed) == kind_total(hs, LineKind::Removed) + if x.0 == LineKind::Removed { 1int } else { 0int }
        &&& new_side(hs2.last().1) == if x.0 == LineKind::Removed { new_side(last.1) } else { new_side(last.1).push(x.1) }
    }),
{
    let last = hs.last();
    let hs2 = hs.update(hs.len() - 1, (last.0, last.1.push(x)));
    assert(hs2.drop_last() =~= hs.drop_last());
    assert(last.1.push(x).drop_last() =~= last.1);
}

proof fn lemma_step_keeps(st: ParseState, line: Seq<char>, limit: int)
    requires
        diff_inv(st, limit),
    ensures
        diff_inv(diff_step(st, line, limit), limit),
{
    let n = diff_step(st, line, limit);
    if st.done {
    } else if has_prefix(line, seq!['@', '@']) {
        match hunk_header(line.skip(2)) {
            None => {},
            Some((o, nn, h)) => {
                lemma_push_empty_hunk(st.hunks, h);
                assert forall|i: int| 0 <= i < n.hunks.len() implies counts_up(new_side(#[trigger] n.hunks[i].1)) by {
                    if i < st.hunks.len() {
                        assert(n.hunks[i] == st.hunks[i]);
                    }
                }
                assert forall|i: int| 0 <= i < n.hunks.len() implies old_side_counts(#[trigger] n.hunks[i].1) by {
                    if i < st.hunks.len() {
                        assert(n.hunks[i] == st.hunks[i]);
                    }
                }
                assert forall|i: int| 0 <= i < n.hunks.len() implies numbered_from(#[trigger] n.hunks[i].1, n.old_starts[i]) by {
                    if i < st.hunks.len() {
                        assert(n.hunks[i] == st.hunks[i]);
                        assert(n.old_starts[i] == st.old_starts[i]);
                    }
                }
                assert(old_count(n.hunks.last().1) == 0);
            },
        }
    } else if has_prefix(line, "diff --git"@) {
    } else if !st.in_hunk {
    } else if st.kept >= limit {
    } else if line.len() == 0 || !(line[0] == '+' || line[0] == '-' || line[0] == ' ') {
    } else {
        let kind = kind_of_prefix(line[0]);
        let at = if kind == LineKind::Removed { st.old_no } else { st.new_no };
        let x = (kind, at, line.skip(1));
        lemma_grow_last(st.hunks, x);
        let last = st.hunks.last();
        assert(n.hunks == st.hunks.update(st.hunks.len() - 1, (last.0, last.1.push(x))));
        let ns = new_side(n.hunks.last().1);
        if kind != LineKind::Removed {
            let old = new_side(last.1);
            assert(counts_up(new_side(st.hunks[st.hunks.len() - 1].1)));
            assert forall|i: int| 0 <= i < ns.len() - 1 implies #[trigger] ns[i + 1] == ns[i] + 1 by {
                if i + 1 < old.len() {
                    assert(old[i + 1] == old[i] + 1);
                }
            }
        }
        assert forall|i: int| 0 <= i < n.hunks.len() implies counts_up(new_side(#[trigger] n.hunks[i].1)) by {
            if i < st.hunks.len() - 1 {
                assert(n.hunks[i] == st.hunks[i]);
            }
        }
        assert(old_side_counts(st.hunks[st.hunks.len() - 1].1));
        lemma_push_row_old(last.1, x, st.old_no);
        assert(n.hunks.last().1 == last.1.push(x));
        assert forall|i: int| 0 <= i < n.hunks.len() implies old_side_counts(#[trigger] n.hunks[i].1) by {
            if i < st.hunks.len() - 1 {
                assert(n.hunks[i] == st.hunks[i]);
            }
        }
        let li = st.hunks.len() - 1;
        assert(numbered_from(st.hunks[li].1, st.old_starts[li]));
        lemma_push_numbered(last.1, x, st.old_starts.last());
        assert forall|i: int| 0 <= i < n.hunks.len() implies numbered_from(#[trigger] n.hunks[i].1, n.old_starts[i]) by {
            if i < st.hunks.len() - 1 {
                assert(n.hunks[i] == st.hunks[i]);
            }
        }
    }
}

proof fn lemma_run_keeps(st: ParseState, lines: Seq<Seq<char>>, limit: int)
    requires
        diff_inv(st, limit),
    ensures
        diff_inv(diff_run(st, lines, limit), limit),
    decreases lines.len(),
{
    if lines.len() > 0 {
        lemma_step_keeps(st, lines[0], limit);
        lemma_run_keeps(diff_step(st, lines[0], limit), lines.skip(1), limit);
    }
}

/// What a parsed diff promises: no more than `limit` rows, exactly `limit`
/// when it was cut short; the added and removed counts are the rows of
/// those kinds; in each hunk the new-side numbers — additions and context,
/// in order — count up one at a time; and removed rows are numbered on the
/// old side: each is its hunk header's old start plus the rows before it
/// that take an old line, so from one to the next the number rises by the
/// old-side rows between.
pub proof fn lemma_parse_diff_shape(raw: Seq<char>, limit: nat)
    ensures ({
        let p = parsed(raw, limit as int);
        let hs = finish(p.hunks);
        &&& row_count(hs) <= limit
        &&& p.truncated ==> row_count(hs) == limit
        &&& p.added == kind_total(hs, LineKind::Added)
        &&& p.removed == kind_total(hs, LineKind::Removed)
        &&& forall|i: int| 0 <= i < hs.len() ==> counts_up(new_side(#[trigger] hs[i].1))
        &&& forall|i: int| 0 <= i < hs.len() ==> old_side_counts(#[trigger] hs[i].1)
        &&& p.old_starts.len() == p.hunks.len()
        &&& forall|i: int| 0 <= i < hs.len() ==> numbered_from(#[trigger] hs[i].1, p.old_starts[i])
    }),
{
    let p = parsed(raw, limit as int);
    assert(start_state().hunks.len() == 0);
    lemma_run_keeps(start_state(), lines_of(raw), limit as int);
    let hs = finish(p.hunks);
    if p.hunks.len() > 0 && p.hunks.last().1.len() == 0 {
        assert(p.hunks.last().1 =~= Seq::<LineModel>::empty());
        assert(hs == p.hunks.drop_last());
        assert(kind_count(p.hunks.last().1, LineKind::Added) == 0);
        assert(kind_count(p.hunks.last().1, LineKind::Removed) == 0);
        assert forall|i: int| 0 <= i < hs.len() implies counts_up(new_side(#[trigger] hs[i].1)) by {
            assert(hs[i] == p.hunks[i]);
        }
        assert forall|i: int| 0 <= i < hs.len() implies old_side_counts(#[trigger] hs[i].1) by {
            assert(hs[i] == p.hunks[i]);
        }
        assert forall|i: int| 0 <= i < hs.len() implies numbered_from(#[trigger] hs[i].1, p.old_starts[i]) by {
            assert(hs[i] == p.hunks[i]);
        }
    }
}

} // verus!
