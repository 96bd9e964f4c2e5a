//! The small decisions the window makes about text: cutting a long line in
//! the middle, a hex dump's rows, `~` in paths, what a dragged set is called
//! and why it cannot be dropped somewhere.

use vstd::prelude::*;
use crate::listing::{visible_of, Listing};
use crate::numfmt::{decimal, decimal_string, hex_fixed, push_hex};
use crate::path::{parent_of, path_starts_with};
use crate::places::{same_path, same_place};
use crate::text::{chars_of, concat, concat3, push_char, string_of};
use crate::entry::{age_text, format_age_secs, format_size, size_text};
use crate::preview::{body_label, joined, Body, ImageFormat, Preview};
use crate::split::{lines_of, split_lines, views};

verus! {

/// One line, cut in the middle: the first fifth and the tail survive, with
/// an ellipsis between, so a long path shows where it starts and ends.
pub open spec fn cut_middle(t: Seq<char>, max: nat) -> Seq<char> {
    if t.len() <= max {
        t
    } else {
        let head = max / 5;
        let tail: nat = if max >= head + 1 { (max - head - 1) as nat } else { 0 };
        t.take(head as int) + seq!['\u{2026}'] + t.skip(t.len() - tail)
    }
}

pub fn middle_truncate(text: &str, max: usize) -> (r: String)
    ensures
        r@ == cut_middle(text@, max as nat),
{
    let cs = chars_of(text);
    if cs.len() <= max {
        return String::from_str(text);
    }
    let head = max / 5;
    let tail = if max >= head + 1 { max - head - 1 } else { 0 };
    let mut out = string_of(&cs, 0, head);
    push_char(&mut out, '\u{2026}');
    let ghost before = out@;
    let rest = string_of(&cs, cs.len() - tail, cs.len());
    out.append(rest.as_str());
    assert(cs@.subrange(0, head as int) =~= cs@.take(head as int));
    assert(cs@.subrange(cs@.len() - tail, cs@.len() as int) =~= cs@.skip(cs@.len() - tail));
    out
}

/// A cut line is exactly `max` long, and keeps the start and the end.
pub proof fn lemma_cut_keeps_both_ends(t: Seq<char>, max: nat)
    requires
        t.len() > max,
        max >= 1,
    ensures
        cut_middle(t, max).len() == max,
        cut_middle(t, max).take((max / 5) as int) == t.take((max / 5) as int),
        cut_middle(t, max).skip((max / 5) as int + 1) == t.skip(t.len() - (max - max / 5 - 1)),
{
    let r = cut_middle(t, max);
    let head = max / 5;
    assert(r.take(head as int) =~= t.take(head as int));
    assert(r.skip(head as int + 1) =~= t.skip(t.len() - (max - head - 1)));
}

/// How many hex digits `n` takes.
pub open spec fn hex_width(n: nat) -> nat
    decreases n,
{
    if n < 16 { 1 } else { 1 + hex_width(n / 16) }
}

/// `{:08x}`: at least eight digits, zero-padded, and all of them.
pub open spec fn offset_text(n: nat) -> Seq<char> {
    hex_fixed(n, if hex_width(n) > 8 { hex_width(n) } else { 8 })
}

/// `{b:02x}` for each byte, separated by single spaces.
pub open spec fn hex_bytes(chunk: Seq<u8>) -> Seq<char>
    decreases chunk.len(),
{
    if chunk.len() == 0 {
        Seq::empty()
    } else if chunk.len() == 1 {
        hex_fixed(chunk[0] as nat, 2)
    } else {
        hex_bytes(chunk.drop_last()) + seq![' '] + hex_fixed(chunk.last() as nat, 2)
    }
}

/// A byte as the ascii column shows it: printable as itself, else a dot.
pub open spec fn shown_byte(b: u8) -> char {
    if 0x20 <= b && b <= 0x7e { b as char } else { '.' }
}

pub open spec fn padded(s: Seq<char>, width: nat) -> Seq<char> {
    if s.len() >= width { s } else { s + Seq::new((width - s.len()) as nat, |i: int| ' ') }
}

/// One row of the dump, for the bytes from `start`.
pub open spec fn hex_row(bytes: Seq<u8>, per_row: nat, start: nat) -> Seq<char> {
    let end = if start + per_row <= bytes.len() { start + per_row } else { bytes.len() as nat };
    let chunk = bytes.subrange(start as int, end as int);
    offset_text(start) + seq![' ', ' '] + padded(hex_bytes(chunk), (per_row * 3 - 1) as nat) + seq![' ', ' '] + Seq::new(chunk.len(), |i: int| shown_byte(chunk[i]))
}

pub open spec fn hex_rows_from(bytes: Seq<u8>, per_row: nat, start: nat) -> Seq<Seq<char>>
    decreases if start < bytes.len() { bytes.len() - start } else { 0 },
{
    if start >= bytes.len() || per_row == 0 {
        Seq::empty()
    } else {
        seq![hex_row(bytes, per_row, start)] + hex_rows_from(bytes, per_row, start + per_row)
    }
}

pub open spec fn rows_view(v: Seq<String>) -> Seq<Seq<char>> {
    Seq::new(v.len(), |i: int| v[i]@)
}

fn push_offset(out: &mut String, n: u64)
    ensures
        final(out)@ == old(out)@ + offset_text(n as nat),
{
    proof {
        lemma_hex_width_u64(n);
    }
    let mut w: usize = 1;
    let mut m = n;
    while m >= 16
        invariant
            1 <= w,
            w + hex_width(m as nat) - 1 == hex_width(n as nat),
            hex_width(n as nat) <= 16,
        decreases m,
    {
        m = m / 16;
        w += 1;
    }
    let width = if w > 8 { w } else { 8 };
    push_hex(out, n, width);
}

proof fn lemma_hex_width_u64(n: u64)
    ensures
        hex_width(n as nat) <= 16,
{
    reveal_with_fuel(crate::numfmt::pow16, 17);
    assert(crate::numfmt::pow16(16) == 18446744073709551616);
    lemma_hex_width_below(n as nat, 16);
}

proof fn lemma_hex_width_below(n: nat, k: nat)
    requires
        n < crate::numfmt::pow16(k),
        k >= 1,
    ensures
        hex_width(n) <= k,
    decreases k,
{
    if n >= 16 {
        assert(n / 16 < crate::numfmt::pow16((k - 1) as nat)) by (nonlinear_arith)
            requires
                n < 16 * crate::numfmt::pow16((k - 1) as nat),
        {
        }
        if k == 1 {
            assert(crate::numfmt::pow16(0) == 1);
        } else {
            lemma_hex_width_below(n / 16, (k - 1) as nat);
        }
    }
}

proof fn lemma_hex_fixed_len(n: nat, w: nat)
    ensures
        hex_fixed(n, w).len() == w,
    decreases w,
{
    if w > 0 {
        lemma_hex_fixed_len(n / 16, (w - 1) as nat);
    }
}

/// `00000000  de ad be ef  ....`: one row per `per_row` bytes, the hex
/// padded so the ascii column lines up on a short final row.
#[verifier::spinoff_prover]
pub fn hex_rows(bytes: &[u8], per_row: usize) -> (r: Vec<String>)
    requires
        per_row > 0,
        per_row * 3 <= usize::MAX,
    ensures
        rows_view(r@) == hex_rows_from(bytes@, per_row as nat, 0),
{
    let width = per_row * 3 - 1;
    let mut rows: Vec<String> = Vec::new();
    let mut start: usize = 0;
    let n = bytes.len();
    assert(rows_view(rows@) =~= Seq::<Seq<char>>::empty());
    while start < n
        invariant
            n == bytes@.len(),
            per_row > 0,
            width == per_row * 3 - 1,
            hex_rows_from(bytes@, per_row as nat, 0) == rows_view(rows@) + hex_rows_from(bytes@, per_row as nat, start as nat),
        decreases n - start,
    {
        let end = if n - start >= per_row { start + per_row } else { n };
        let mut row = String::new();
        push_offset(&mut row, start as u64);
        push_char(&mut row, ' ');
        push_char(&mut row, ' ');
        let ghost base = row@;
        let mut k = start;
        while k < end
            invariant
                start <= k <= end <= n,
                n == bytes@.len(),
                row@ == base + hex_bytes(bytes@.subrange(start as int, k as int)),
            decreases end - k,
        {
            let ghost before = row@;
            if k > start {
                push_char(&mut row, ' ');
            }
            push_hex(&mut row, bytes[k] as u64, 2);
            proof {
                let c = bytes@.subrange(start as int, k + 1);
                assert(c.drop_last() =~= bytes@.subrange(start as int, k as int));
                if k == start {
                    assert(bytes@.subrange(start as int, k as int).len() == 0);
                }
            }
            k += 1;
        }
        let ghost hexed = row@;
        let used = if end > start { (end - start) * 3 - 1 } else { 0 };
        proof {
            lemma_hex_bytes_len(bytes@.subrange(start as int, end as int));
        }
        let mut pad = used;
        while pad < width
            invariant
                used <= pad <= width,
                row@ == hexed + Seq::new((pad - used) as nat, |i: int| ' '),
            decreases width - pad,
        {
            push_char(&mut row, ' ');
            pad += 1;
            assert(row@ =~= hexed + Seq::new((pad - used) as nat, |i: int| ' '));
        }
        push_char(&mut row, ' ');
        push_char(&mut row, ' ');
        let ghost lead = row@;
        let mut k = start;
        while k < end
            invariant
                start <= k <= end <= n,
                n == bytes@.len(),
                row@ == lead + Seq::new((k - start) as nat, |i: int| shown_byte(bytes@[start + i])),
            decreases end - k,
        {
            let b = bytes[k];
            let c = if 0x20 <= b && b <= 0x7e { b as char } else { '.' };
            push_char(&mut row, c);
            k += 1;
            assert(row@ =~= lead + Seq::new((k - start) as nat, |i: int| shown_byte(bytes@[start + i])));
        }
        proof {
            let chunk = bytes@.subrange(start as int, end as int);
            assert(Seq::new((end - start) as nat, |i: int| shown_byte(bytes@[start + i])) =~= Seq::new(chunk.len(), |i: int| shown_byte(chunk[i])));
            assert(hexed == base + hex_bytes(chunk));
            assert(padded(hex_bytes(chunk), width as nat) =~= hex_bytes(chunk) + Seq::new((width - used) as nat, |i: int| ' '));
            assert(row@ =~= hex_row(bytes@, per_row as nat, start as nat));
        }
        let ghost before = rows_view(rows@);
        rows.push(row);
        assert(rows_view(rows@) =~= before.push(hex_row(bytes@, per_row as nat, start as nat)));
        proof {
            assert(hex_rows_from(bytes@, per_row as nat, start as nat) == seq![hex_row(bytes@, per_row as nat, start as nat)] + hex_rows_from(bytes@, per_row as nat, (start + per_row) as nat));
            if end == n {
                assert(hex_rows_from(bytes@, per_row as nat, (start + per_row) as nat) =~= Seq::<Seq<char>>::empty());
                assert(hex_rows_from(bytes@, per_row as nat, n as nat) =~= Seq::<Seq<char>>::empty());
            }
        }
        start = end;
    }
    rows
}

proof fn lemma_hex_bytes_len(chunk: Seq<u8>)
    ensures
        hex_bytes(chunk).len() == if chunk.len() == 0 { 0 } else { chunk.len() * 3 - 1 },
    decreases chunk.len(),
{
    if chunk.len() > 0 {
        lemma_hex_fixed_len(chunk.last() as nat, 2);
    }
    if chunk.len() == 1 {
        lemma_hex_fixed_len(chunk[0] as nat, 2);
    }
    if chunk.len() > 1 {
        lemma_hex_bytes_len(chunk.drop_last());
    }
}

/// Expand a leading `~` against `home`, which is what anyone typing a path
/// will use.
pub fn expand_tilde(input: &str, home: &str) -> (r: String)
    ensures
        r@ == if input@.len() > 0 && input@[0] == '~' { home@ + input@.skip(1) } else { input@ },
{
    let cs = chars_of(input);
    if cs.len() > 0 && cs[0] == '~' {
        let rest = string_of(&cs, 1, cs.len());
        assert(cs@.subrange(1, cs@.len() as int) =~= input@.skip(1));
        concat(home, rest.as_str())
    } else {
        String::from_str(input)
    }
}

/// `path` relative to `home`, as its components: `None` when it is not
/// under `home`.
pub open spec fn under_home(path: Seq<char>, home: Seq<char>) -> Option<Seq<char>> {
    crate::git::relative_of(path, home)
}

/// A path as a person would say it: `~`-relative when under home.
pub open spec fn said_path(path: Seq<char>, home: Seq<char>) -> Seq<char> {
    match under_home(path, home) {
        Some(rest) => if rest.len() == 0 { seq!['~'] } else { seq!['~', '/'] + rest },
        None => path,
    }
}

pub fn display_path(path: &str, home: &str) -> (r: String)
    ensures
        r@ == said_path(path@, home@),
{
    match crate::git::relative_path(home, path) {
        None => String::from_str(path),
        Some(rest) => {
            proof {
                reveal_strlit("~");
                reveal_strlit("~/");
            }
            if rest.as_str().unicode_len() == 0 {
                String::from_str("~")
            } else {
                concat("~/", rest.as_str())
            }
        },
    }
}

/// The first row shown, if any.
pub fn first_visible(listing: &Listing, show_hidden: bool) -> (r: Option<usize>)
    requires
        listing.wf(),
    ensures
        match r {
            Some(i) => visible_of(listing.rows(), listing.shown_order(), show_hidden).len() > 0
                && i == visible_of(listing.rows(), listing.shown_order(), show_hidden)[0],
            None => visible_of(listing.rows(), listing.shown_order(), show_hidden).len() == 0,
        },
{
    let shown = listing.visible(show_hidden);
    if shown.len() > 0 {
        Some(shown[0])
    } else {
        None
    }
}

/// One entry being dragged.
#[derive(Debug)]
pub struct DragItem {
    pub path: String,
    pub name: String,
    pub is_dir: bool,
}

/// The payload of an entry drag: the entries being carried.
#[derive(Debug)]
pub struct DraggedEntries {
    pub items: Vec<DragItem>,
}

pub open spec fn quoted(name: Seq<char>) -> Seq<char> {
    seq!['\u{201c}'] + name + seq!['\u{201d}']
}

impl DraggedEntries {
    /// What the drag preview and the notices call the load: the one name,
    /// quoted, or how many there are.
    pub fn label(&self) -> (r: String)
        ensures
            r@ == if self.items@.len() == 1 { quoted(self.items@[0].name@) } else { decimal(self.items@.len() as nat) + " items"@ },
    {
        if self.items.len() == 1 {
            quote(self.items[0].name.as_str())
        } else {
            let n = decimal_string(self.items.len() as u128);
            concat(n.as_str(), " items")
        }
    }
}

pub(crate) fn quote(name: &str) -> (r: String)
    ensures
        r@ == quoted(name@),
{
    proof {
        reveal_strlit("\u{201c}");
        reveal_strlit("\u{201d}");
    }
    concat3("\u{201c}", name, "\u{201d}")
}

/// Why one item cannot be dropped into `dest`, if it cannot: gone, already
/// there, or a directory into itself.
pub open spec fn item_refusal(path: Seq<char>, name: Seq<char>, is_dir: bool, present: bool, dest: Seq<char>) -> Option<Seq<char>> {
    if !present {
        Some(quoted(name) + " is no longer there"@)
    } else if parent_of(path) matches Some(p) && same_path(p, dest) {
        Some(quoted(name) + " is already there"@)
    } else if is_dir && path_starts_with(dest, path) {
        Some(quoted(name) + " cannot be moved into itself"@)
    } else {
        None
    }
}

pub open spec fn item_refusals(items: Seq<DragItem>, present: Seq<bool>, dest: Seq<char>) -> Seq<Seq<char>>
    decreases items.len(),
{
    if items.len() == 0 {
        Seq::empty()
    } else {
        let init = item_refusals(items.drop_last(), present, dest);
        let k = items.len() - 1;
        match item_refusal(items.last().path@, items.last().name@, items.last().is_dir, k < present.len() && present[k], dest) {
            Some(m) => init.push(m),
            None => init,
        }
    }
}

/// Why `items` cannot be dropped into `dest` — empty when they can. Every
/// problem is named, not the first: a drop that stops at the third of five
/// files has done something nobody asked for. `dest_is_dir` and `present`
/// say what the filesystem holds; `home` is for naming `dest`.
pub fn drop_refusals(items: &Vec<DragItem>, dest: &str, dest_is_dir: bool, present: &Vec<bool>, home: &str) -> (r: Vec<String>)
    ensures
        rows_view(r@) == (if dest_is_dir { Seq::empty() } else { seq![said_path(dest@, home@) + " is not a directory"@] }) + item_refusals(items@, present@, dest@),
{
    let mut out: Vec<String> = Vec::new();
    if !dest_is_dir {
        let shown = display_path(dest, home);
        out.push(concat(shown.as_str(), " is not a directory"));
    }
    let ghost lead = rows_view(out@);
    assert(lead =~= if dest_is_dir { Seq::<Seq<char>>::empty() } else { seq![said_path(dest@, home@) + " is not a directory"@] });
    let mut i: usize = 0;
    assert(items@.take(0) =~= Seq::<DragItem>::empty());
    while i < items.len()
        invariant
            i <= items@.len(),
            rows_view(out@) == lead + item_refusals(items@.take(i as int), present@, dest@),
        decreases items@.len() - i,
    {
        let item = &items[i];
        let here = i < present.len() && present[i];
        let name = quote(item.name.as_str());
        let parent_here = match crate::path::parent(item.path.as_str()) {
            Some(p) => same_place(p.as_str(), dest),
            None => false,
        };
        let reason = if !here {
            Some(concat(name.as_str(), " is no longer there"))
        } else if parent_here {
            Some(concat(name.as_str(), " is already there"))
        } else if item.is_dir && crate::path::starts_with_path(dest, item.path.as_str()) {
            Some(concat(name.as_str(), " cannot be moved into itself"))
        } else {
            None
        };
        proof {
            let t = items@.take(i + 1);
            assert(t.drop_last() =~= items@.take(i as int));
            assert(t.last() == *item);
        }
        match reason {
            Some(m) => {
                let ghost before = rows_view(out@);
                out.push(m);
                assert(rows_view(out@) =~= before.push(m@));
            },
            None => {},
        }
        i += 1;
    }
    assert(items@.take(items@.len() as int) =~= items@);
    out
}

/// A fact table, as values.
pub open spec fn facts_view(v: Seq<(String, String)>) -> Seq<(Seq<char>, Seq<char>)> {
    Seq::new(v.len(), |i: int| (v[i].0@, v[i].1@))
}

/// `first n` for a count that was cut short, else the count.
pub open spec fn counted(n: nat, cut: bool) -> Seq<char> {
    if cut { "first "@ + decimal(n) } else { decimal(n) }
}

/// The rows a body adds to the fact table.
pub open spec fn body_facts(b: Body) -> Seq<(Seq<char>, Seq<char>)> {
    match b {
        Body::Directory { entries: Some(n) } => seq![("entries"@, decimal(n as nat))],
        Body::Image { dimensions: Some((w, h)), .. } => seq![("dimensions"@, decimal(w as nat) + " \u{d7} "@ + decimal(h as nat))],
        Body::Text { lines, truncated, .. } => seq![("lines"@, counted(lines as nat, truncated))],
        Body::Diff(d) => seq![
            ("hunks"@, counted(d.hunks@.len(), d.truncated)),
            ("changed"@, "+"@ + decimal(d.added as nat) + " \u{2212}"@ + decimal(d.removed as nat)),
        ],
        Body::Video { facts, .. } => facts_view(facts@),
        Body::TooLarge { limit, .. } => seq![("limit"@, size_text(limit as nat))],
        _ => Seq::empty(),
    }
}

/// The fact table under a preview's title: the kind, then whether it is a
/// link, its size and its age when known, then what its body adds.
pub open spec fn facts_of(p: Preview, elapsed: Option<u64>) -> Seq<(Seq<char>, Seq<char>)> {
    seq![("kind"@, body_label(p.body)@)]
        + (if p.is_symlink { seq![("link"@, "symlink"@)] } else { Seq::empty() })
        + (match p.size { Some(n) => seq![("size"@, size_text(n as nat))], None => Seq::empty() })
        + (if p.key.mtime is Some { seq![("modified"@, age_text(elapsed))] } else { Seq::empty() })
        + body_facts(p.body)
}

fn fact(key: &str, value: String) -> (r: (String, String))
    ensures
        r.0@ == key@,
        r.1@ == value@,
{
    (String::from_str(key), value)
}

/// The fact table under the title, for a preview whose modification time
/// was `elapsed` seconds ago when the clock was read (`None` when it lies
/// in the future). A text cut at the line cap says `first …` rather than
/// claim a count it did not read.
pub fn preview_facts(preview: &Preview, elapsed: Option<u64>) -> (r: Vec<(String, String)>)
    ensures
        facts_view(r@) == facts_of(*preview, elapsed),
{
    let mut facts: Vec<(String, String)> = Vec::new();
    facts.push(fact("kind", String::from_str(preview.body.label())));
    if preview.is_symlink {
        facts.push(fact("link", String::from_str("symlink")));
    }
    match preview.size {
        Some(n) => facts.push(fact("size", format_size(n))),
        None => {},
    }
    match preview.key.mtime {
        Some(_) => facts.push(fact("modified", format_age_secs(elapsed))),
        None => {},
    }
    let ghost head = facts_view(facts@);
    assert(head =~= seq![("kind"@, body_label(preview.body)@)]
        + (if preview.is_symlink { seq![("link"@, "symlink"@)] } else { Seq::empty() })
        + (match preview.size { Some(n) => seq![("size"@, size_text(n as nat))], None => Seq::empty() })
        + (if preview.key.mtime is Some { seq![("modified"@, age_text(elapsed))] } else { Seq::empty() }));
    match &preview.body {
        Body::Directory { entries: Some(n) } => {
            facts.push(fact("entries", decimal_string(*n as u128)));
        },
        Body::Image { dimensions: Some((w, h)), .. } => {
            let ws = decimal_string(*w as u128);
            let hs = decimal_string(*h as u128);
            facts.push(fact("dimensions", concat3(ws.as_str(), " \u{d7} ", hs.as_str())));
        },
        Body::Text { lines, truncated, .. } => {
            let n = decimal_string(*lines as u128);
            let value = if *truncated { concat("first ", n.as_str()) } else { n };
            facts.push(fact("lines", value));
        },
        Body::Diff(d) => {
            let n = decimal_string(d.hunks.len() as u128);
            let value = if d.truncated { concat("first ", n.as_str()) } else { n };
            facts.push(fact("hunks", value));
            let a = decimal_string(d.added as u128);
            let m = decimal_string(d.removed as u128);
            let plus = concat("+", a.as_str());
            facts.push(fact("changed", concat3(plus.as_str(), " \u{2212}", m.as_str())));
        },
        Body::Video { facts: probed, .. } => {
            let mut i: usize = 0;
            while i < probed.len()
                invariant
                    i <= probed@.len(),
                    facts_view(facts@) == head + facts_view(probed@).take(i as int),
                decreases probed@.len() - i,
            {
                let (k, v) = &probed[i];
                let row = fact(k.as_str(), String::from_str(v.as_str()));
                let ghost prev = facts@;
                facts.push(row);
                assert(facts_view(facts@) =~= facts_view(prev).push((k@, v@)));
                i += 1;
                assert(facts_view(facts@) =~= head + facts_view(probed@).take(i as int));
            }
            assert(facts_view(probed@).take(probed@.len() as int) =~= facts_view(probed@));
        },
        Body::TooLarge { limit, .. } => {
            facts.push(fact("limit", format_size(*limit)));
        },
        _ => {},
    }
    assert(facts_view(facts@) =~= facts_of(*preview, elapsed));
    facts
}

/// The file extension a copied picture is written with.
pub fn image_extension(format: ImageFormat) -> (r: &'static str)
    ensures
        r == match format {
            ImageFormat::Png => "png",
            ImageFormat::Jpeg => "jpg",
            ImageFormat::Gif => "gif",
            ImageFormat::Webp => "webp",
            ImageFormat::Bmp => "bmp",
            ImageFormat::Tiff => "tiff",
            ImageFormat::Ico => "ico",
            ImageFormat::Svg => "svg",
        },
{
    match format {
        ImageFormat::Png => "png",
        ImageFormat::Jpeg => "jpg",
        ImageFormat::Gif => "gif",
        ImageFormat::Webp => "webp",
        ImageFormat::Bmp => "bmp",
        ImageFormat::Tiff => "tiff",
        ImageFormat::Ico => "ico",
        ImageFormat::Svg => "svg",
    }
}

/// Lines of a markdown file the docked pane renders.
pub const PANE_LINES: usize = 120;

/// The head of a markdown file for the pane: its first `PANE_LINES` lines,
/// joined by `\n`.
pub fn truncate_for_pane(source: &str) -> (r: String)
    ensures
        r@ == joined(lines_of(source@).take(if lines_of(source@).len() <= PANE_LINES { lines_of(source@).len() as int } else { PANE_LINES as int })),
{
    let cs = chars_of(source);
    let ls = split_lines(&cs);
    let ghost all = views(ls@);
    let n = if ls.len() <= PANE_LINES { ls.len() } else { PANE_LINES };
    let mut out = String::new();
    let mut i: usize = 0;
    assert(all.take(0) =~= Seq::<Seq<char>>::empty());
    while i < n
        invariant
            i <= n <= ls@.len(),
            all == views(ls@),
            out@ == joined(all.take(i as int)),
        decreases n - i,
    {
        let l = &ls[i];
        let ghost before = out@;
        if i > 0 {
            push_char(&mut out, '\n');
        }
        let piece = string_of(l, 0, l.len());
        assert(l@.subrange(0, l@.len() as int) =~= l@);
        out.append(piece.as_str());
        proof {
            let t = all.take(i + 1);
            assert(t.drop_last() =~= all.take(i as int));
            assert(t.last() == l@);
            if i == 0 {
                assert(out@ =~= l@);
            } else {
                assert(out@ =~= before + seq!['\n'] + l@);
            }
        }
        i += 1;
    }
    out
}

/// How a move of several entries went.
#[derive(Debug, PartialEq, Eq)]
pub enum MoveReport {
    /// Everything moved: a notice saying so.
    Moved(String),
    /// Something did not: the refusal, with one reason per failure.
    Refused { subtitle: String, reasons: Vec<String> },
}

/// One failed move, for the refusal's list: the entry's name, quoted, and
/// why.
pub fn move_failure(name: &str, why: &str) -> (r: String)
    ensures
        r@ == quoted(name@) + ": "@ + why@,
{
    let q = quote(name);
    concat3(q.as_str(), ": ", why)
}

/// What moving `dragged` into `where_to` comes to, given the failures
/// (one line each, at most one per entry): a notice when all of it moved,
/// else a refusal saying how much did.
pub fn move_report(dragged: &DraggedEntries, failures: Vec<String>, where_to: &str) -> (r: MoveReport)
    requires
        failures@.len() <= dragged.items@.len(),
    ensures
        failures@.len() == 0 ==> (r matches MoveReport::Moved(m) && m@ == "moved "@ + (if dragged.items@.len() == 1 {
            quoted(dragged.items@[0].name@)
        } else {
            decimal(dragged.items@.len() as nat) + " items"@
        }) + " into "@ + where_to@),
        failures@.len() > 0 ==> (r matches MoveReport::Refused { subtitle, reasons } && reasons@ == failures@ && subtitle@ == (if dragged.items@.len() > failures@.len() {
            decimal((dragged.items@.len() - failures@.len()) as nat) + " of "@ + decimal(dragged.items@.len() as nat) + " moved into "@ + where_to@
        } else {
            "nothing was moved into "@ + where_to@
        })),
{
    if failures.len() == 0 {
        let what = dragged.label();
        let head = concat("moved ", what.as_str());
        return MoveReport::Moved(concat3(head.as_str(), " into ", where_to));
    }
    let moved = dragged.items.len() - failures.len();
    let subtitle = if moved > 0 {
        let m = decimal_string(moved as u128);
        let n = decimal_string(dragged.items.len() as u128);
        let part = concat3(m.as_str(), " of ", n.as_str());
        concat3(part.as_str(), " moved into ", where_to)
    } else {
        concat("nothing was moved into ", where_to)
    };
    MoveReport::Refused { subtitle, reasons: failures }
}

} // verus!
