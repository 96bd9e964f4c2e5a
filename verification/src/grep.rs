//! Content search over `rg --json`: the events it prints become hits, capped
//! in number and in line length, because a content search is a way in, not
//! a report. Running `rg` and reading its lines are the application's.

use vstd::prelude::*;
use crate::diff::{trim_bounds, trim_ws};
use crate::path::{join, join_of};
use crate::path::{parent, parent_of, same_path, same_place};
use crate::text::{chars_of, push_char, str_eq, string_of};

verus! {

/// Total hits kept. Past this the search is telling the user to type more.
pub const LIMIT: usize = 200;

/// Matches reported per file, so one log file cannot fill the list.
pub const PER_FILE: usize = 8;

/// Stored line length, in bytes.
pub const LINE_CAP: usize = 240;

#[derive(Debug, PartialEq, Eq)]
pub struct Hit {
    pub path: String,
    pub line: u64,
    /// The matched line, trimmed and capped.
    pub text: String,
}

impl Clone for Hit {
    fn clone(&self) -> (r: Self)
        ensures
            r == *self,
    {
        Hit { path: self.path.clone(), line: self.line, text: self.text.clone() }
    }
}

#[derive(Debug)]
pub struct Outcome {
    pub hits: Vec<Hit>,
    /// True when [`LIMIT`] cut the list short.
    pub truncated: bool,
}

impl Default for Outcome {
    fn default() -> (r: Self)
        ensures
            r.hits@.len() == 0,
            !r.truncated,
    {
        Outcome { hits: Vec::new(), truncated: false }
    }
}

/// One event of `rg --json` as far as a hit cares: its type, and the
/// match's path, line number and line text, each when present.
pub type RgEvent = (String, Option<String>, Option<u64>, Option<String>);

pub type EventModel = (Seq<char>, Option<Seq<char>>, Option<int>, Option<Seq<char>>);

pub open spec fn opt_str(o: Option<String>) -> Option<Seq<char>> {
    match o {
        Some(s) => Some(s@),
        None => None,
    }
}

pub open spec fn event_view(e: Option<RgEvent>) -> Option<EventModel> {
    match e {
        None => None,
        Some((kind, path, number, text)) => Some((
            kind@,
            opt_str(path),
            match number {
                Some(n) => Some(n as int),
                None => None,
            },
            opt_str(text),
        )),
    }
}

/// What `serde_json` reads a line of `rg --json` as.
pub uninterp spec fn rg_event(line: Seq<char>) -> Option<EventModel>;

/// `serde_json::from_str` of one line, and the fields a hit is made of:
/// `type`, `data.path.text`, `data.line_number`, `data.lines.text`. `None`
/// when the line is not JSON or has no `type` string; each field is `None`
/// when it is missing or not of its kind (a binary match carries no
/// `lines.text`). The contract names the result and says nothing more of
/// it.
#[verifier::external_body]
fn read_event(line: &str) -> (r: Option<RgEvent>)
    ensures
        event_view(r) == rg_event(line@),
{
    let event: serde_json::Value = serde_json::from_str(line).ok()?;
    let kind = event.get("type")?.as_str()?.to_string();
    let text = |p: &str| event.pointer(p).and_then(|v| v.as_str()).map(String::from);
    let number = event.pointer("/data/line_number").and_then(|v| v.as_u64());
    Some((kind, text("/data/path/text"), number, text("/data/lines/text")))
}

/// How many bytes `c` takes in UTF-8.
pub open spec fn utf8_len(c: char) -> nat {
    if (c as u32) < 0x80 { 1 } else if (c as u32) < 0x800 { 2 } else if (c as u32) < 0x10000 { 3 } else { 4 }
}

pub open spec fn utf8_size(s: Seq<char>) -> nat
    decreases s.len(),
{
    if s.len() == 0 { 0 } else { utf8_size(s.drop_last()) + utf8_len(s.last()) }
}

/// The longest prefix of `s` that fits in `cap` bytes: where a cut on a
/// character boundary lands.
pub open spec fn fitting(s: Seq<char>, cap: nat, k: nat) -> nat
    decreases s.len() - k,
{
    if k < s.len() && utf8_size(s.take(k as int + 1)) <= cap { fitting(s, cap, (k + 1) as nat) } else { k }
}

/// The line a hit shows: trimmed, and cut to [`LINE_CAP`] bytes with an
/// ellipsis when longer.
pub open spec fn shown_line(text: Seq<char>) -> Seq<char> {
    let t = trim_ws(text);
    if utf8_size(t) > LINE_CAP {
        t.take(fitting(t, LINE_CAP as nat, 0) as int).push('\u{2026}')
    } else {
        t
    }
}

fn char_bytes(c: char) -> (n: usize)
    ensures
        n == utf8_len(c),
{
    let v = c as u32;
    if v < 0x80 { 1 } else if v < 0x800 { 2 } else if v < 0x10000 { 3 } else { 4 }
}

proof fn lemma_size_grows(s: Seq<char>, k: int)
    requires
        0 <= k < s.len(),
    ensures
        utf8_size(s.take(k + 1)) == utf8_size(s.take(k)) + utf8_len(s[k]),
{
    assert(s.take(k + 1).drop_last() =~= s.take(k));
}

fn cap_line(t: &Vec<char>, from: usize, to: usize) -> (r: String)
    requires
        from <= to <= t@.len(),
    ensures
        ({
            let s = t@.subrange(from as int, to as int);
            r@ == if utf8_size(s) > LINE_CAP { s.take(fitting(s, LINE_CAP as nat, 0) as int).push('\u{2026}') } else { s }
        }),
{
    let ghost s = t@.subrange(from as int, to as int);
    let mut k: usize = 0;
    let mut size: usize = 0;
    assert(s.take(0) =~= Seq::<char>::empty());
    while from + k < to && size + char_bytes(t[from + k]) <= LINE_CAP
        invariant
            from + k <= to <= t@.len(),
            s == t@.subrange(from as int, to as int),
            size == utf8_size(s.take(k as int)),
            size <= LINE_CAP,
            fitting(s, LINE_CAP as nat, 0) == fitting(s, LINE_CAP as nat, k as nat),
        decreases to - from - k,
    {
        proof {
            lemma_size_grows(s, k as int);
            assert(s[k as int] == t@[from + k]);
        }
        size = size + char_bytes(t[from + k]);
        k += 1;
    }
    proof {
        if from + k < to {
            lemma_size_grows(s, k as int);
            assert(s[k as int] == t@[from + k]);
        }
    }
    let ghost whole = utf8_size(s);
    if from + k == to {
        assert(s.take(k as int) =~= s);
        return string_of(t, from, to);
    }
    proof {
        lemma_size_monotone(s, k as int + 1);
    }
    let mut out = string_of(t, from, from + k);
    push_char(&mut out, '\u{2026}');
    assert(t@.subrange(from as int, from + k) =~= s.take(k as int));
    out
}

proof fn lemma_size_monotone(s: Seq<char>, k: int)
    requires
        0 <= k <= s.len(),
    ensures
        utf8_size(s.take(k)) <= utf8_size(s),
    decreases s.len() - k,
{
    if k < s.len() {
        lemma_size_grows(s, k);
        lemma_size_monotone(s, k + 1);
    } else {
        assert(s.take(k) =~= s);
    }
}

/// A hit from one line of `rg --json`, or `None` for anything that is not
/// a match. `rg` ran in `root`, so its paths are relative to it.
pub open spec fn hit_of(root: Seq<char>, event: Option<EventModel>) -> Option<(Seq<char>, int, Seq<char>)> {
    match event {
        Some((kind, Some(p), Some(n), Some(t))) => if kind == "match"@ { Some((join_of(root, p), n, shown_line(t))) } else { None },
        _ => None,
    }
}

pub open spec fn hit_view(h: Hit) -> (Seq<char>, int, Seq<char>) {
    (h.path@, h.line as int, h.text@)
}

/// The hit a read event makes, if it is a match.
pub fn hit_from_event(root: &str, event: Option<RgEvent>) -> (r: Option<Hit>)
    ensures
        match r {
            Some(h) => hit_of(root@, event_view(event)) == Some(hit_view(h)),
            None => hit_of(root@, event_view(event)) is None,
        },
{
    match event {
        Some((kind, Some(path), Some(line), Some(text))) => {
            if !str_eq(kind.as_str(), "match") {
                return None;
            }
            let cs = chars_of(text.as_str());
            assert(cs@.subrange(0, cs@.len() as int) =~= cs@);
            let (a, b) = trim_bounds(&cs, 0, cs.len());
            let shown = cap_line(&cs, a, b);
            Some(Hit { path: join(root, path.as_str()), line, text: shown })
        },
        _ => None,
    }
}

/// One line of `rg --json`, as a hit when it is a match.
pub fn parse_line(root: &str, line: &str) -> (r: Option<Hit>)
    ensures
        match r {
            Some(h) => hit_of(root@, rg_event(line@)) == Some(hit_view(h)),
            None => hit_of(root@, rg_event(line@)) is None,
        },
{
    hit_from_event(root, read_event(line))
}

impl Outcome {
    /// Take one more hit, unless [`LIMIT`] are already in: then the list is
    /// marked cut and `false` says to stop reading.
    pub fn absorb(&mut self, hit: Hit) -> (more: bool)
        requires
            old(self).hits@.len() <= LIMIT,
        ensures
            more == (old(self).hits@.len() < LIMIT),
            more ==> final(self).hits@ == old(self).hits@.push(hit) && final(self).truncated == old(self).truncated,
            !more ==> final(self).hits@ == old(self).hits@ && final(self).truncated,
            final(self).hits@.len() <= LIMIT,
    {
        if self.hits.len() == LIMIT {
            self.truncated = true;
            return false;
        }
        self.hits.push(hit);
        true
    }
}

/// The search's result from what was collected and how `rg` exited
/// (`None` when that is unknown). Its codes are an interface — 2 is an
/// error — but only a failure with nothing to show is worth reporting: a
/// partial list beats an error box.
pub fn search(outcome: Outcome, exit_code: Option<i32>) -> (r: Result<Outcome, String>)
    ensures
        (outcome.hits@.len() == 0 && !outcome.truncated && exit_code == Some(2i32)) ==> (r matches Err(m) && m@ == "ripgrep failed on this directory"@),
        !(outcome.hits@.len() == 0 && !outcome.truncated && exit_code == Some(2i32)) ==> (r matches Ok(o) && o.hits@ == outcome.hits@ && o.truncated == outcome.truncated),
{
    if outcome.hits.len() == 0 && !outcome.truncated && exit_code == Some(2i32) {
        return Err(String::from_str("ripgrep failed on this directory"));
    }
    Ok(outcome)
}

/// `path` is among `names`, compared by components.
pub open spec fn named_in(names: Seq<String>, path: Seq<char>) -> bool {
    exists|i: int| 0 <= i < names.len() && same_path((#[trigger] names[i])@, path)
}

pub open spec fn content_rows(names: Seq<String>, hits: Seq<Hit>) -> Seq<Hit>
    decreases hits.len(),
{
    if hits.len() == 0 {
        Seq::empty()
    } else {
        let init = content_rows(names, hits.drop_last());
        if named_in(names, hits.last().path@) { init } else { init.push(hits.last()) }
    }
}

/// The finder's content section, with the files already listed by name
/// removed — one file, one row, whichever way it matched.
pub fn finder_content_rows(names: &Vec<String>, hits: &Vec<Hit>) -> (r: Vec<Hit>)
    ensures
        r@ == content_rows(names@, hits@),
{
    let mut out: Vec<Hit> = Vec::new();
    let mut i: usize = 0;
    assert(hits@.take(0) =~= Seq::<Hit>::empty());
    while i < hits.len()
        invariant
            i <= hits@.len(),
            out@ == content_rows(names@, hits@.take(i as int)),
        decreases hits@.len() - i,
    {
        let mut j: usize = 0;
        let mut named = false;
        while j < names.len()
            invariant
                i < hits@.len(),
                j <= names@.len(),
                named == exists|k: int| 0 <= k < j && same_path((#[trigger] names@[k])@, hits@[i as int].path@),
            decreases names@.len() - j,
        {
            if same_place(names[j].as_str(), hits[i].path.as_str()) {
                named = true;
            }
            j += 1;
        }
        proof {
            let t = hits@.take(i + 1);
            assert(t.drop_last() =~= hits@.take(i as int));
            assert(t.last() == hits@[i as int]);
        }
        if !named {
            out.push(hits[i].clone());
        }
        i += 1;
    }
    assert(hits@.take(hits@.len() as int) =~= hits@);
    out
}

/// The path the finder's `cursor`th row stands for: with no query, the
/// recent files; with one, the name matches and then the content rows
/// after them. `None` past the end.
pub open spec fn finder_row(query_empty: bool, recent: Seq<String>, names: Seq<String>, hits: Seq<Hit>, cursor: int) -> Option<Seq<char>> {
    if query_empty {
        if 0 <= cursor < recent.len() { Some(recent[cursor]@) } else { None }
    } else if 0 <= cursor < names.len() {
        Some(names[cursor]@)
    } else {
        let rows = content_rows(names, hits);
        if 0 <= cursor - names.len() < rows.len() { Some(rows[cursor - names.len()].path@) } else { None }
    }
}

/// The path behind the highlighted finder row, one resolution for all
/// three sections.
pub fn finder_row_path(query_empty: bool, recent: &Vec<String>, names: &Vec<String>, hits: &Vec<Hit>, cursor: usize) -> (r: Option<String>)
    ensures
        match finder_row(query_empty, recent@, names@, hits@, cursor as int) {
            Some(p) => r matches Some(s) && s@ == p,
            None => r is None,
        },
{
    if query_empty {
        if cursor < recent.len() {
            return Some(recent[cursor].clone());
        }
        return None;
    }
    if cursor < names.len() {
        return Some(names[cursor].clone());
    }
    let rows = finder_content_rows(names, hits);
    let k = cursor - names.len();
    if k < rows.len() {
        Some(rows[k].path.clone())
    } else {
        None
    }
}

/// Where picking a finder result goes: a directory opens itself; a file
/// opens its directory (nothing, for a path with no parent), so the cursor
/// can land on it.
pub fn finder_target(path: &str, is_dir: bool) -> (r: String)
    ensures
        r@ == if is_dir {
            path@
        } else {
            match parent_of(path@) {
                Some(p) => p,
                None => Seq::empty(),
            }
        },
{
    if is_dir {
        return String::from_str(path);
    }
    match parent(path) {
        Some(p) => p,
        None => String::new(),
    }
}

} // verus!
