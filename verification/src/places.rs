//! The sidebar's navigation shortcuts.
//!
//! Two groups. Places are derived from the system — home, the XDG user
//! directories, and `~/.config` — and are not editable. Pins are the user's
//! own, persisted to `omafiles/places.toml` under the config directory.
//!
//! Reading `user-dirs.dirs` and the pin file, asking which candidate
//! directories exist, and writing the pins back are the application's
//! business; this module decides what the sidebar holds.

use vstd::prelude::*;
use crate::diff::{trim_bounds, trim_ws};
use crate::entry::entry_name;
use crate::natural::{lex, lex_compare, Order};
use crate::path::{join, join_of};
pub use crate::path::{same_path, same_place};
use crate::split::{first_index, lemma_first_index_at, lines_of, split_lines, views};
use crate::text::{chars_equal, chars_of, str_eq, string_of};

verus! {

/// Where a shortcut came from, which decides whether it can be edited.
#[derive(Debug, Clone, Copy, PartialEq, Eq, Structural)]
pub enum Origin {
    /// `$HOME`.
    Home,
    /// An `XDG_*_DIR` from `user-dirs.dirs`.
    Xdg,
    /// `~/.config`: not an XDG user directory, but where an Omarchy user
    /// spends a lot of time.
    Config,
    /// The user pinned it: the only kind that can be reordered or removed.
    Pinned,
}

impl Origin {
    pub fn is_editable(self) -> (r: bool)
        ensures
            r == (self == Origin::Pinned),
    {
        match self {
            Origin::Pinned => true,
            _ => false,
        }
    }
}

#[derive(Debug, PartialEq, Eq)]
pub struct Place {
    pub label: String,
    pub path: String,
    pub origin: Origin,
}

impl Clone for Place {
    fn clone(&self) -> (r: Self)
        ensures
            r == *self,
    {
        Place { label: self.label.clone(), path: self.path.clone(), origin: self.origin }
    }
}

pub type PlaceModel = (Seq<char>, Seq<char>, Origin);

pub open spec fn place_view(p: Place) -> PlaceModel {
    (p.label@, p.path@, p.origin)
}

pub open spec fn places_view(s: Seq<Place>) -> Seq<PlaceModel> {
    Seq::new(s.len(), |i: int| place_view(s[i]))
}

/// A place's label is its directory's own name — derived from the path
/// rather than from the `XDG_*` key, so a localised setup shows what is
/// actually on disk.
pub fn label_for(path: &str) -> (r: String)
    ensures
        r@ == entry_name(path@),
{
    match crate::path::file_name(path) {
        Some(name) => name,
        None => String::from_str(path),
    }
}

/// The well-known XDG directories, in the order they are shown: declared,
/// not alphabetical, because nobody thinks of Videos as coming before
/// Documents.
pub open spec fn xdg_rank(name: Seq<char>) -> int {
    if name == "DESKTOP"@ {
        0
    } else if name == "DOWNLOAD"@ {
        1
    } else if name == "DOCUMENTS"@ {
        2
    } else if name == "PICTURES"@ {
        3
    } else if name == "MUSIC"@ {
        4
    } else if name == "VIDEOS"@ {
        5
    } else if name == "PUBLICSHARE"@ {
        6
    } else if name == "TEMPLATES"@ {
        7
    } else {
        -1
    }
}

fn rank_of(name: &Vec<char>) -> (r: i32)
    ensures
        r == xdg_rank(name@),
{
    if chars_equal(name, &chars_of("DESKTOP")) {
        0
    } else if chars_equal(name, &chars_of("DOWNLOAD")) {
        1
    } else if chars_equal(name, &chars_of("DOCUMENTS")) {
        2
    } else if chars_equal(name, &chars_of("PICTURES")) {
        3
    } else if chars_equal(name, &chars_of("MUSIC")) {
        4
    } else if chars_equal(name, &chars_of("VIDEOS")) {
        5
    } else if chars_equal(name, &chars_of("PUBLICSHARE")) {
        6
    } else if chars_equal(name, &chars_of("TEMPLATES")) {
        7
    } else {
        -1
    }
}

/// `trim_matches('"')`: every quote off both ends.
pub open spec fn trim_quotes(s: Seq<char>) -> Seq<char>
    decreases s.len(),
{
    if s.len() > 0 && s[0] == '"' {
        trim_quotes(s.skip(1))
    } else if s.len() > 0 && s.last() == '"' {
        trim_quotes(s.drop_last())
    } else {
        s
    }
}

/// `trim_start_matches('/')`.
pub open spec fn trim_leading_seps(s: Seq<char>) -> Seq<char>
    decreases s.len(),
{
    if s.len() > 0 && s[0] == '/' {
        trim_leading_seps(s.skip(1))
    } else {
        s
    }
}

/// One line of `user-dirs.dirs`, which is shell syntax:
/// `XDG_NAME_DIR="$HOME/x"` gives `NAME` and the expanded path.
pub open spec fn user_dir_line(line: Seq<char>, home: Seq<char>) -> Option<(Seq<char>, Seq<char>)> {
    let l = trim_ws(line);
    let i = first_index(l, '=');
    if l.len() > 0 && l[0] == '#' {
        None
    } else if i < 0 {
        None
    } else {
        let key = trim_ws(l.take(i));
        let value = trim_quotes(trim_ws(l.skip(i + 1)));
        if key.len() > 8 && key.take(4) == "XDG_"@ && key.skip(key.len() - 4) == "_DIR"@ {
            let name = key.subrange(4, key.len() - 4);
            let path = if value.len() >= 5 && value.take(5) == "$HOME"@ {
                join_of(home, trim_leading_seps(value.skip(5)))
            } else {
                value
            };
            Some((name, path))
        } else {
            None
        }
    }
}

pub open spec fn user_dirs_of(lines: Seq<Seq<char>>, home: Seq<char>) -> Seq<(Seq<char>, Seq<char>)>
    decreases lines.len(),
{
    if lines.len() == 0 {
        Seq::empty()
    } else {
        let rest = user_dirs_of(lines.skip(1), home);
        match user_dir_line(lines[0], home) {
            Some(d) => seq![d] + rest,
            None => rest,
        }
    }
}

/// Trim `cs[from..to]` of quotes at both ends, as bounds.
fn trim_quote_bounds(cs: &Vec<char>, from: usize, to: usize) -> (r: (usize, usize))
    requires
        from <= to <= cs@.len(),
    ensures
        from <= r.0 <= r.1 <= to,
        trim_quotes(cs@.subrange(from as int, to as int)) == cs@.subrange(r.0 as int, r.1 as int),
{
    let mut a = from;
    while a < to && cs[a] == '"'
        invariant
            from <= a <= to <= cs@.len(),
            trim_quotes(cs@.subrange(from as int, to as int)) == trim_quotes(cs@.subrange(a as int, to as int)),
        decreases to - a,
    {
        assert(cs@.subrange(a as int, to as int).skip(1) =~= cs@.subrange(a + 1, to as int));
        a += 1;
    }
    let mut b = to;
    while b > a && cs[b - 1] == '"'
        invariant
            from <= a <= b <= to <= cs@.len(),
            a < b ==> cs@[a as int] != '"',
            trim_quotes(cs@.subrange(from as int, to as int)) == trim_quotes(cs@.subrange(a as int, b as int)),
        decreases b,
    {
        assert(cs@.subrange(a as int, b as int).drop_last() =~= cs@.subrange(a as int, b - 1));
        assert(cs@.subrange(a as int, b as int)[0] == cs@[a as int]);
        b -= 1;
    }
    proof {
        if a < b {
            assert(cs@.subrange(a as int, b as int)[0] == cs@[a as int]);
        }
    }
    (a, b)
}

/// The `NAME` of an `XDG_NAME_DIR` key held in `cs[ka..kb]`.
fn dir_name(cs: &Vec<char>, ka: usize, kb: usize) -> (r: Option<String>)
    requires
        ka <= kb <= cs@.len(),
    ensures
        ({
            let key = cs@.subrange(ka as int, kb as int);
            match r {
                Some(name) => key.len() > 8 && key.take(4) == "XDG_"@ && key.skip(key.len() - 4) == "_DIR"@ && name@ == key.subrange(4, key.len() - 4),
                None => !(key.len() > 8 && key.take(4) == "XDG_"@ && key.skip(key.len() - 4) == "_DIR"@),
            }
        }),
{
    let ghost key = cs@.subrange(ka as int, kb as int);
    proof {
        reveal_strlit("XDG_");
        reveal_strlit("_DIR");
    }
    if kb - ka <= 8 {
        return None;
    }
    let prefix_ok = cs[ka] == 'X' && cs[ka + 1] == 'D' && cs[ka + 2] == 'G' && cs[ka + 3] == '_';
    let suffix_ok = cs[kb - 4] == '_' && cs[kb - 3] == 'D' && cs[kb - 2] == 'I' && cs[kb - 1] == 'R';
    proof {
        if prefix_ok {
            assert(key.take(4) =~= "XDG_"@);
        } else {
            assert(key.take(4)[0] == cs@[ka as int]);
            assert(key.take(4)[1] == cs@[ka + 1]);
            assert(key.take(4)[2] == cs@[ka + 2]);
            assert(key.take(4)[3] == cs@[ka + 3]);
        }
        if suffix_ok {
            assert(key.skip(key.len() - 4) =~= "_DIR"@);
        } else {
            assert(key.skip(key.len() - 4)[0] == cs@[kb - 4]);
            assert(key.skip(key.len() - 4)[1] == cs@[kb - 3]);
            assert(key.skip(key.len() - 4)[2] == cs@[kb - 2]);
            assert(key.skip(key.len() - 4)[3] == cs@[kb - 1]);
        }
    }
    if !prefix_ok || !suffix_ok {
        return None;
    }
    let name = string_of(cs, ka + 4, kb - 4);
    assert(name@ =~= key.subrange(4, key.len() - 4));
    Some(name)
}

/// The path a value in `cs[va..vb]` names: `$HOME` expanded.
fn expand_home(cs: &Vec<char>, va: usize, vb: usize, home: &str) -> (r: String)
    requires
        va <= vb <= cs@.len(),
    ensures
        ({
            let value = cs@.subrange(va as int, vb as int);
            r@ == if value.len() >= 5 && value.take(5) == "$HOME"@ {
                join_of(home@, trim_leading_seps(value.skip(5)))
            } else {
                value
            }
        }),
{
    let ghost value = cs@.subrange(va as int, vb as int);
    proof {
        reveal_strlit("$HOME");
    }
    let home_rel = vb - va >= 5 && cs[va] == '$' && cs[va + 1] == 'H' && cs[va + 2] == 'O' && cs[va + 3] == 'M' && cs[va + 4] == 'E';
    proof {
        if home_rel {
            assert(value.take(5) =~= "$HOME"@);
        } else if value.len() >= 5 {
            assert(value.take(5)[0] == cs@[va as int]);
            assert(value.take(5)[1] == cs@[va + 1]);
            assert(value.take(5)[2] == cs@[va + 2]);
            assert(value.take(5)[3] == cs@[va + 3]);
            assert(value.take(5)[4] == cs@[va + 4]);
        }
    }
    if !home_rel {
        return string_of(cs, va, vb);
    }
    let mut s = va + 5;
    assert(value.skip(5) =~= cs@.subrange(s as int, vb as int));
    while s < vb && cs[s] == '/'
        invariant
            va + 5 <= s <= vb <= cs@.len(),
            trim_leading_seps(value.skip(5)) == trim_leading_seps(cs@.subrange(s as int, vb as int)),
        decreases vb - s,
    {
        assert(cs@.subrange(s as int, vb as int).skip(1) =~= cs@.subrange(s + 1, vb as int));
        s += 1;
    }
    proof {
        if s < vb {
            assert(cs@.subrange(s as int, vb as int)[0] == cs@[s as int]);
        }
    }
    let rest = string_of(cs, s, vb);
    join(home, rest.as_str())
}

/// Parse one line of `user-dirs.dirs`.
fn parse_user_dir(line: &Vec<char>, home: &str) -> (r: Option<(String, String)>)
    ensures
        match r {
            Some((name, path)) => user_dir_line(line@, home@) == Some((name@, path@)),
            None => user_dir_line(line@, home@) is None,
        },
{
    assert(line@.subrange(0, line@.len() as int) =~= line@);
    let (a, b) = trim_bounds(line, 0, line.len());
    let ghost l = line@.subrange(a as int, b as int);
    if a < b && line[a] == '#' {
        return None;
    }
    let mut e = a;
    while e < b && line[e] != '='
        invariant
            a <= e <= b <= line@.len(),
            forall|j: int| a <= j < e ==> line@[j] != '=',
        decreases b - e,
    {
        e += 1;
    }
    proof {
        assert forall|j: int| 0 <= j < e - a implies l[j] != '=' by {
            assert(l[j] == line@[a + j]);
        }
        if e < b {
            assert(l[e - a] == line@[e as int]);
        }
        lemma_first_index_at(l, '=', e - a);
    }
    if e == b {
        return None;
    }
    assert(l.take(e - a) =~= line@.subrange(a as int, e as int));
    assert(l.skip(e - a + 1) =~= line@.subrange(e + 1, b as int));
    let (ka, kb) = trim_bounds(line, a, e);
    let (va0, vb0) = trim_bounds(line, e + 1, b);
    let (va, vb) = trim_quote_bounds(line, va0, vb0);
    match dir_name(line, ka, kb) {
        None => None,
        Some(name) => {
            let path = expand_home(line, va, vb, home);
            Some((name, path))
        },
    }
}

/// Parse `user-dirs.dirs`: the `XDG_*_DIR` entries it declares, in file
/// order.
pub fn read_user_dirs(text: &str, home: &str) -> (r: Vec<(String, String)>)
    ensures
        r@.len() == user_dirs_of(lines_of(text@), home@).len(),
        forall|k: int| 0 <= k < r@.len() ==> (#[trigger] r@[k]).0@ == user_dirs_of(lines_of(text@), home@)[k].0 && r@[k].1@ == user_dirs_of(lines_of(text@), home@)[k].1,
{
    let cs = chars_of(text);
    let ls = split_lines(&cs);
    let ghost all = views(ls@);
    let mut out: Vec<(String, String)> = Vec::new();
    let mut k = ls.len();
    assert(all.skip(all.len() as int) =~= Seq::<Seq<char>>::empty());
    while k > 0
        invariant
            k <= ls@.len(),
            all == views(ls@),
            all == lines_of(text@),
            out@.len() == user_dirs_of(all.skip(k as int), home@).len(),
            forall|j: int| 0 <= j < out@.len() ==> (#[trigger] out@[j]).0@ == user_dirs_of(all.skip(k as int), home@)[j].0 && out@[j].1@ == user_dirs_of(all.skip(k as int), home@)[j].1,
        decreases k,
    {
        k -= 1;
        assert(all.skip(k as int).skip(1) =~= all.skip(k + 1));
        assert(all.skip(k as int)[0] == ls@[k as int]@);
        match parse_user_dir(&ls[k], home) {
            Some(d) => {
                let ghost before = out@;
                out.insert(0, d);
                assert forall|j: int| 0 <= j < out@.len() implies (#[trigger] out@[j]).0@ == user_dirs_of(all.skip(k as int), home@)[j].0 && out@[j].1@ == user_dirs_of(all.skip(k as int), home@)[j].1 by {
                    if j > 0 {
                        assert(out@[j] == before[j - 1]);
                    }
                }
            },
            None => {},
        }
    }
    assert(all.skip(0) =~= all);
    out
}

pub type Dir = (Seq<char>, Seq<char>);

pub open spec fn dirs_view(v: Seq<(String, String)>) -> Seq<Dir> {
    Seq::new(v.len(), |i: int| (v[i].0@, v[i].1@))
}

/// The paths of the entries called by the `r`th well-known name, in order.
pub open spec fn paths_ranked(dirs: Seq<Dir>, r: int) -> Seq<Seq<char>>
    decreases dirs.len(),
{
    if dirs.len() == 0 {
        Seq::empty()
    } else {
        let init = paths_ranked(dirs.drop_last(), r);
        if xdg_rank(dirs.last().0) == r { init.push(dirs.last().1) } else { init }
    }
}

/// The well-known directories among `dirs`, in the declared order, the
/// ranks below `r` only.
pub open spec fn known_upto(dirs: Seq<Dir>, r: int) -> Seq<Seq<char>>
    decreases r,
{
    if r <= 0 {
        Seq::empty()
    } else {
        known_upto(dirs, r - 1) + paths_ranked(dirs, r - 1)
    }
}

/// The entries that are not well-known, in file order.
pub open spec fn unranked(dirs: Seq<Dir>) -> Seq<Dir>
    decreases dirs.len(),
{
    if dirs.len() == 0 {
        Seq::empty()
    } else {
        let init = unranked(dirs.drop_last());
        if xdg_rank(dirs.last().0) < 0 { init.push(dirs.last()) } else { init }
    }
}

/// `(name, path)` pairs in the order tuples of strings compare: by name,
/// then by path.
pub open spec fn pair_order(a: Dir, b: Dir) -> Order {
    match lex(a.0, b.0) {
        Order::Equal => lex(a.1, b.1),
        o => o,
    }
}

pub open spec fn insert_pair(sorted: Seq<Dir>, x: Dir) -> Seq<Dir>
    decreases sorted.len(),
{
    if sorted.len() == 0 {
        seq![x]
    } else if pair_order(x, sorted.last()) == Order::Less {
        insert_pair(sorted.drop_last(), x).push(sorted.last())
    } else {
        sorted.push(x)
    }
}

/// `s` sorted by [`pair_order`], ties kept in order.
pub open spec fn sort_pairs(s: Seq<Dir>) -> Seq<Dir>
    decreases s.len(),
{
    if s.len() == 0 {
        Seq::empty()
    } else {
        insert_pair(sort_pairs(s.drop_last()), s.last())
    }
}

/// The directories the system half of the sidebar is built from, in the
/// order they are offered: the well-known XDG ones in the declared order,
/// then the others sorted — a non-standard `XDG_PROJECTS_DIR` is real, and
/// silently hiding it would be wrong — then the config directory.
pub open spec fn candidates_of(home: Seq<char>, config_dir: Seq<char>, user_dirs: Option<Seq<char>>) -> Seq<(Seq<char>, Origin)> {
    let dirs = match user_dirs {
        Some(t) => user_dirs_of(lines_of(t), home),
        None => Seq::empty(),
    };
    let known = known_upto(dirs, 8);
    let extra = sort_pairs(unranked(dirs));
    Seq::new(known.len(), |i: int| (known[i], Origin::Xdg)) + Seq::new(extra.len(), |i: int| (extra[i].1, Origin::Xdg)) + seq![(config_dir, Origin::Config)]
}

pub open spec fn candidates_view(v: Seq<(String, Origin)>) -> Seq<(Seq<char>, Origin)> {
    Seq::new(v.len(), |i: int| (v[i].0@, v[i].1))
}

proof fn lemma_insert_pair_at(sorted: Seq<Dir>, x: Dir, p: int)
    requires
        0 <= p <= sorted.len(),
        forall|j: int| p <= j < sorted.len() ==> pair_order(x, #[trigger] sorted[j]) == Order::Less,
        p == 0 || pair_order(x, sorted[p - 1]) != Order::Less,
    ensures
        insert_pair(sorted, x) == sorted.take(p) + seq![x] + sorted.skip(p),
    decreases sorted.len(),
{
    if sorted.len() == 0 {
        assert(sorted.take(p) + seq![x] + sorted.skip(p) =~= seq![x]);
    } else if pair_order(x, sorted.last()) == Order::Less {
        let n = sorted.len() - 1;
        assert(p <= n);
        let d = sorted.drop_last();
        assert forall|j: int| p <= j < d.len() implies pair_order(x, #[trigger] d[j]) == Order::Less by {
            assert(d[j] == sorted[j]);
        }
        if p > 0 {
            assert(d[p - 1] == sorted[p - 1]);
        }
        lemma_insert_pair_at(d, x, p);
        assert(sorted.take(p) + seq![x] + sorted.skip(p) =~= (d.take(p) + seq![x] + d.skip(p)).push(sorted.last()));
    } else {
        assert(p == sorted.len());
        assert(sorted.take(p) + seq![x] + sorted.skip(p) =~= sorted.push(x));
    }
}

fn pair_compare(a: &(String, String), b: &(String, String)) -> (r: Order)
    ensures
        r == pair_order((a.0@, a.1@), (b.0@, b.1@)),
{
    match lex_compare(&chars_of(a.0.as_str()), &chars_of(b.0.as_str())) {
        Order::Equal => lex_compare(&chars_of(a.1.as_str()), &chars_of(b.1.as_str())),
        o => o,
    }
}

/// The candidate directories for the system half of the sidebar, from the
/// text of `user-dirs.dirs` (`None` when it could not be read).
pub fn system_candidates(home: &str, config_dir: &str, user_dirs: Option<&str>) -> (r: Vec<(String, Origin)>)
    ensures
        candidates_view(r@) == candidates_of(home@, config_dir@, match user_dirs { Some(t) => Some(t@), None => None }),
{
    let dirs: Vec<(String, String)> = match user_dirs {
        Some(t) => read_user_dirs(t, home),
        None => Vec::new(),
    };
    let ghost dv = dirs_view(dirs@);
    assert(dv =~= match user_dirs { Some(t) => user_dirs_of(lines_of(t@), home@), None => Seq::<Dir>::empty() });
    let mut out: Vec<(String, Origin)> = Vec::new();
    assert(candidates_view(out@) =~= Seq::<(Seq<char>, Origin)>::empty());
    let mut r: i32 = 0;
    while r < 8
        invariant
            0 <= r <= 8,
            dv == dirs_view(dirs@),
            candidates_view(out@) == Seq::new(known_upto(dv, r as int).len(), |i: int| (known_upto(dv, r as int)[i], Origin::Xdg)),
        decreases 8 - r,
    {
        let mut j: usize = 0;
        let ghost base = known_upto(dv, r as int);
        assert(dv.take(0) =~= Seq::<Dir>::empty());
        while j < dirs.len()
            invariant
                0 <= r < 8,
                j <= dirs@.len(),
                dv == dirs_view(dirs@),
                base == known_upto(dv, r as int),
                candidates_view(out@) == Seq::new((base + paths_ranked(dv.take(j as int), r as int)).len(), |i: int| ((base + paths_ranked(dv.take(j as int), r as int))[i], Origin::Xdg)),
            decreases dirs@.len() - j,
        {
            let ghost before = paths_ranked(dv.take(j as int), r as int);
            assert(dv.take(j + 1).drop_last() =~= dv.take(j as int));
            assert(dv.take(j + 1).last() == dv[j as int]);
            let name = chars_of(dirs[j].0.as_str());
            if rank_of(&name) == r {
                let ghost cv = candidates_view(out@);
                out.push((dirs[j].1.clone(), Origin::Xdg));
                assert(candidates_view(out@) =~= cv.push((dv[j as int].1, Origin::Xdg)));
                assert(candidates_view(out@) =~= Seq::new((base + paths_ranked(dv.take(j + 1), r as int)).len(), |i: int| ((base + paths_ranked(dv.take(j + 1), r as int))[i], Origin::Xdg)));
            } else {
                assert(paths_ranked(dv.take(j + 1), r as int) == before);
            }
            j += 1;
        }
        assert(dv.take(dirs@.len() as int) =~= dv);
        r += 1;
    }
    let mut extras: Vec<(String, String)> = Vec::new();
    let mut j: usize = 0;
    assert(dv.take(0) =~= Seq::<Dir>::empty());
    while j < dirs.len()
        invariant
            j <= dirs@.len(),
            dv == dirs_view(dirs@),
            dirs_view(extras@) == unranked(dv.take(j as int)),
        decreases dirs@.len() - j,
    {
        assert(dv.take(j + 1).drop_last() =~= dv.take(j as int));
        assert(dv.take(j + 1).last() == dv[j as int]);
        let name = chars_of(dirs[j].0.as_str());
        if rank_of(&name) < 0 {
            let ghost ev = dirs_view(extras@);
            extras.push((dirs[j].0.clone(), dirs[j].1.clone()));
            assert(dirs_view(extras@) =~= ev.push(dv[j as int]));
        }
        j += 1;
    }
    assert(dv.take(dirs@.len() as int) =~= dv);
    let ghost xv = dirs_view(extras@);
    let mut sorted: Vec<(String, String)> = Vec::new();
    let mut i: usize = 0;
    assert(xv.take(0) =~= Seq::<Dir>::empty());
    assert(dirs_view(sorted@) =~= Seq::<Dir>::empty());
    while i < extras.len()
        invariant
            i <= extras@.len(),
            xv == dirs_view(extras@),
            dirs_view(sorted@) == sort_pairs(xv.take(i as int)),
        decreases extras@.len() - i,
    {
        let ghost sv = dirs_view(sorted@);
        let mut p = sorted.len();
        while p > 0 && pair_compare(&extras[i], &sorted[p - 1]) == Order::Less
            invariant
                p <= sorted@.len(),
                i < extras@.len(),
                sv == dirs_view(sorted@),
                xv == dirs_view(extras@),
                forall|q: int| p <= q < sv.len() ==> pair_order(xv[i as int], #[trigger] sv[q]) == Order::Less,
            decreases p,
        {
            p -= 1;
        }
        proof {
            lemma_insert_pair_at(sv, xv[i as int], p as int);
            assert(xv.take(i + 1).drop_last() =~= xv.take(i as int));
            assert(xv.take(i + 1).last() == xv[i as int]);
        }
        sorted.insert(p, (extras[i].0.clone(), extras[i].1.clone()));
        assert(dirs_view(sorted@) =~= sv.take(p as int) + seq![xv[i as int]] + sv.skip(p as int));
        i += 1;
    }
    assert(xv.take(extras@.len() as int) =~= xv);
    let mut k: usize = 0;
    let ghost kv = candidates_view(out@);
    let ghost extra = sort_pairs(xv);
    while k < sorted.len()
        invariant
            k <= sorted@.len(),
            dirs_view(sorted@) == extra,
            candidates_view(out@) == kv + Seq::new(k as nat, |i: int| (extra[i].1, Origin::Xdg)),
        decreases sorted@.len() - k,
    {
        let ghost cv = candidates_view(out@);
        assert(extra[k as int].1 == sorted@[k as int].1@);
        out.push((sorted[k].1.clone(), Origin::Xdg));
        assert(candidates_view(out@) =~= cv.push((extra[k as int].1, Origin::Xdg)));
        k += 1;
        assert(candidates_view(out@) =~= kv + Seq::new(k as nat, |i: int| (extra[i].1, Origin::Xdg)));
    }
    let ghost before = candidates_view(out@);
    out.push((String::from_str(config_dir), Origin::Config));
    assert(candidates_view(out@) =~= before.push((config_dir@, Origin::Config)));
    assert(candidates_view(out@) =~= candidates_of(home@, config_dir@, match user_dirs { Some(t) => Some(t@), None => None }));
    out
}

/// Whether the `k`th candidate was found to be a directory.
pub open spec fn present_at(present: Seq<bool>, k: int) -> bool {
    0 <= k < present.len() && present[k]
}

/// Add a place unless it is useless: `$HOME` again, missing, or already
/// there. Both of the first two happen in practice — `XDG_DESKTOP_DIR` and
/// `XDG_TEMPLATES_DIR` often point at `$HOME`.
pub open spec fn useful(places: Seq<PlaceModel>, home: Seq<char>, path: Seq<char>, origin: Origin, present: bool) -> Seq<PlaceModel> {
    if same_path(path, home) || !present || exists|i: int| 0 <= i < places.len() && same_path(#[trigger] places[i].1, path) {
        places
    } else {
        places.push((entry_name(path), path, origin))
    }
}

pub open spec fn build(places: Seq<PlaceModel>, home: Seq<char>, cands: Seq<(Seq<char>, Origin)>, present: Seq<bool>, k: int) -> Seq<PlaceModel>
    decreases cands.len() - k,
{
    if k < 0 || k >= cands.len() {
        places
    } else {
        build(useful(places, home, cands[k].0, cands[k].1, present_at(present, k)), home, cands, present, k + 1)
    }
}

/// Home first, then every candidate worth showing.
pub open spec fn system_of(home: Seq<char>, cands: Seq<(Seq<char>, Origin)>, present: Seq<bool>) -> Seq<PlaceModel> {
    build(seq![("Home"@, home, Origin::Home)], home, cands, present, 0)
}

/// No two places lead to the same directory.
pub open spec fn distinct_places(places: Seq<PlaceModel>) -> bool {
    forall|i: int, j: int| 0 <= i < j < places.len() ==> !same_path(#[trigger] places[i].1, #[trigger] places[j].1)
}

proof fn lemma_build_keeps(places: Seq<PlaceModel>, home: Seq<char>, cands: Seq<(Seq<char>, Origin)>, present: Seq<bool>, k: int)
    requires
        distinct_places(places),
        places.len() > 0,
        same_path(places[0].1, home),
    ensures
        distinct_places(build(places, home, cands, present, k)),
        build(places, home, cands, present, k).len() >= places.len(),
        build(places, home, cands, present, k)[0] == places[0],
    decreases cands.len() - k,
{
    if 0 <= k < cands.len() {
        let next = useful(places, home, cands[k].0, cands[k].1, present_at(present, k));
        if next != places {
            let path = cands[k].0;
            assert forall|i: int, j: int| 0 <= i < j < next.len() implies !same_path(#[trigger] next[i].1, #[trigger] next[j].1) by {
                if j == places.len() {
                    assert(next[j].1 == path);
                    assert(next[i] == places[i]);
                    if same_path(places[i].1, path) {
                        assert(same_path(#[trigger] places[i].1, path));
                    }
                } else {
                    assert(next[i] == places[i] && next[j] == places[j]);
                }
            }
        }
        lemma_build_keeps(next, home, cands, present, k + 1);
    }
}

/// The system half never shows one directory twice, and Home — first —
/// exactly once: an `XDG_DESKTOP_DIR` that is just `$HOME` again is not a
/// second Home.
pub proof fn lemma_system_places_are_distinct(home: Seq<char>, cands: Seq<(Seq<char>, Origin)>, present: Seq<bool>)
    ensures
        distinct_places(system_of(home, cands, present)),
        system_of(home, cands, present)[0] == ("Home"@, home, Origin::Home),
        forall|i: int| 0 < i < system_of(home, cands, present).len() ==> !same_path(#[trigger] system_of(home, cands, present)[i].1, home),
{
    let start = seq![("Home"@, home, Origin::Home)];
    lemma_build_keeps(start, home, cands, present, 0);
    let r = system_of(home, cands, present);
    assert forall|i: int| 0 < i < r.len() implies !same_path(#[trigger] r[i].1, home) by {
        assert(!same_path(r[0].1, r[i].1));
    }
}

/// Add `path` to `places` unless it is useless; `present` is whether it was
/// found to be a directory.
pub fn push_if_useful(places: &mut Vec<Place>, home: &str, path: &str, origin: Origin, present: bool)
    ensures
        places_view(final(places)@) == useful(places_view(old(places)@), home@, path@, origin, present),
{
    let ghost pv = places_view(places@);
    if same_place(path, home) || !present {
        return;
    }
    let mut i: usize = 0;
    while i < places.len()
        invariant
            i <= places@.len(),
            pv == places_view(places@),
            forall|j: int| 0 <= j < i ==> !same_path(#[trigger] pv[j].1, path@),
        decreases places@.len() - i,
    {
        if same_place(places[i].path.as_str(), path) {
            assert(pv[i as int].1 == places@[i as int].path@);
            return;
        }
        i += 1;
    }
    let place = Place { label: label_for(path), path: String::from_str(path), origin };
    places.push(place);
    assert(places_view(places@) =~= pv.push((entry_name(path@), path@, origin)));
}

/// Home, then the candidates worth showing, in order. `present[k]` is
/// whether the `k`th candidate was found to be a directory.
pub fn system_places(home: &str, candidates: &Vec<(String, Origin)>, present: &Vec<bool>) -> (r: Vec<Place>)
    ensures
        places_view(r@) == system_of(home@, candidates_view(candidates@), present@),
{
    let mut places: Vec<Place> = Vec::new();
    places.push(Place { label: String::from_str("Home"), path: String::from_str(home), origin: Origin::Home });
    let ghost cv = candidates_view(candidates@);
    assert(places_view(places@) =~= seq![("Home"@, home@, Origin::Home)]);
    let mut k: usize = 0;
    while k < candidates.len()
        invariant
            k <= candidates@.len(),
            cv == candidates_view(candidates@),
            system_of(home@, cv, present@) == build(places_view(places@), home@, cv, present@, k as int),
        decreases candidates@.len() - k,
    {
        let here = k < present.len() && present[k];
        push_if_useful(&mut places, home, candidates[k].0.as_str(), candidates[k].1, here);
        k += 1;
    }
    places
}

/// One pin as the pin file holds it: the path, and a label only when the
/// user renamed it — absent means "use the directory name", so a renamed
/// directory updates its own label.
#[derive(Debug, PartialEq, Eq)]
pub struct PinEntry {
    pub path: String,
    pub label: Option<String>,
}

/// The pin file's contents.
#[derive(Debug, PartialEq, Eq)]
pub struct PinFile {
    pub version: u32,
    pub pins: Vec<PinEntry>,
}

impl Default for PinFile {
    fn default() -> (r: Self)
        ensures
            r.version == 0,
            r.pins@.len() == 0,
    {
        PinFile { version: 0, pins: Vec::new() }
    }
}

/// The version a pin file without one is read as.
pub fn one() -> (r: u32)
    ensures
        r == 1,
{
    1
}

pub type PinModel = (Seq<char>, Option<Seq<char>>);

pub open spec fn pin_view(p: PinEntry) -> PinModel {
    (p.path@, match p.label { Some(l) => Some(l@), None => None })
}

pub open spec fn pins_view(s: Seq<PinEntry>) -> Seq<PinModel> {
    Seq::new(s.len(), |i: int| pin_view(s[i]))
}

/// The place a pin shows as.
pub open spec fn place_of_pin(p: PinModel) -> PlaceModel {
    (match p.1 { Some(l) => l, None => entry_name(p.0) }, p.0, Origin::Pinned)
}

/// What is written for a place: its label only when it differs from the
/// directory's own name, so renaming the directory keeps the sidebar honest.
pub open spec fn pin_of_place(p: PlaceModel) -> PinModel {
    (p.1, if p.0 != entry_name(p.1) { Some(p.0) } else { None })
}

impl PinFile {
    /// The pins, as places.
    pub fn into_places(self) -> (r: Vec<Place>)
        ensures
            places_view(r@) == Seq::new(self.pins@.len(), |i: int| place_of_pin(pin_view(self.pins@[i]))),
    {
        let mut out: Vec<Place> = Vec::new();
        let mut i: usize = 0;
        while i < self.pins.len()
            invariant
                i <= self.pins@.len(),
                places_view(out@) == Seq::new(i as nat, |k: int| place_of_pin(pin_view(self.pins@[k]))),
            decreases self.pins@.len() - i,
        {
            let pin = &self.pins[i];
            let label = match &pin.label {
                Some(l) => l.clone(),
                None => label_for(pin.path.as_str()),
            };
            let ghost before = places_view(out@);
            out.push(Place { label, path: pin.path.clone(), origin: Origin::Pinned });
            assert(places_view(out@) =~= before.push(place_of_pin(pin_view(self.pins@[i as int]))));
            i += 1;
            assert(places_view(out@) =~= Seq::new(i as nat, |k: int| place_of_pin(pin_view(self.pins@[k]))));
        }
        out
    }

    /// The file that records `places`.
    pub fn from_places(places: &[Place]) -> (r: PinFile)
        ensures
            r.version == 1,
            pins_view(r.pins@) == Seq::new(places@.len(), |i: int| pin_of_place(place_view(places@[i]))),
    {
        let mut pins: Vec<PinEntry> = Vec::new();
        let mut i: usize = 0;
        while i < places.len()
            invariant
                i <= places@.len(),
                pins_view(pins@) == Seq::new(i as nat, |k: int| pin_of_place(place_view(places@[k]))),
            decreases places@.len() - i,
        {
            let p = &places[i];
            let own = label_for(p.path.as_str());
            let label = if str_eq(p.label.as_str(), own.as_str()) { None } else { Some(p.label.clone()) };
            let ghost before = pins_view(pins@);
            pins.push(PinEntry { path: p.path.clone(), label });
            assert(pins_view(pins@) =~= before.push(pin_of_place(place_view(places@[i as int]))));
            i += 1;
            assert(pins_view(pins@) =~= Seq::new(i as nat, |k: int| pin_of_place(place_view(places@[k]))));
        }
        PinFile { version: 1, pins }
    }
}

/// Pins survive a save and a load: writing places to the pin file and
/// reading them back gives the same labels and paths, as pins.
pub proof fn lemma_pins_round_trip(places: Seq<PlaceModel>)
    ensures
        Seq::new(places.len(), |i: int| place_of_pin(pin_of_place(places[i]))) == Seq::new(places.len(), |i: int| (places[i].0, places[i].1, Origin::Pinned)),
{
    assert(Seq::new(places.len(), |i: int| place_of_pin(pin_of_place(places[i]))) =~= Seq::new(places.len(), |i: int| (places[i].0, places[i].1, Origin::Pinned)));
}

/// Where the pins are kept, under the config directory.
pub fn pins_path(config_dir: &str) -> (r: String)
    ensures
        r@ == join_of(config_dir@, "omafiles/places.toml"@),
{
    join(config_dir, "omafiles/places.toml")
}

/// The first index of `all` whose path is `path`, or -1.
pub open spec fn first_place(all: Seq<PlaceModel>, path: Seq<char>) -> int
    decreases all.len(),
{
    if all.len() == 0 {
        -1
    } else if same_path(all[0].1, path) {
        0
    } else {
        let k = first_place(all.skip(1), path);
        if k < 0 { -1 } else { k + 1 }
    }
}

/// The sidebar's contents.
#[derive(Debug)]
pub struct Places {
    system: Vec<Place>,
    pinned: Vec<Place>,
}

impl Default for Places {
    fn default() -> (r: Self)
        ensures
            r.system_view().len() == 0,
            r.pinned_view().len() == 0,
    {
        Places { system: Vec::new(), pinned: Vec::new() }
    }
}

impl Places {
    pub closed spec fn system_view(&self) -> Seq<PlaceModel> {
        places_view(self.system@)
    }

    pub closed spec fn pinned_view(&self) -> Seq<PlaceModel> {
        places_view(self.pinned@)
    }

    pub open spec fn all_view(&self) -> Seq<PlaceModel> {
        self.system_view() + self.pinned_view()
    }

    /// The system half from the candidates and which of them exist, and
    /// the user's pins.
    pub fn load(home: &str, candidates: &Vec<(String, Origin)>, present: &Vec<bool>, pins: PinFile) -> (r: Places)
        ensures
            r.system_view() == system_of(home@, candidates_view(candidates@), present@),
            r.pinned_view() == Seq::new(pins.pins@.len(), |i: int| place_of_pin(pin_view(pins.pins@[i]))),
    {
        Places { system: system_places(home, candidates, present), pinned: pins.into_places() }
    }

    pub fn system(&self) -> (r: &[Place])
        ensures
            places_view(r@) == self.system_view(),
    {
        self.system.as_slice()
    }

    pub fn pinned(&self) -> (r: &[Place])
        ensures
            places_view(r@) == self.pinned_view(),
    {
        self.pinned.as_slice()
    }

    /// Every place, system then pinned, for cursor movement across the
    /// sidebar.
    pub fn all(&self) -> (r: Vec<Place>)
        ensures
            places_view(r@) == self.all_view(),
    {
        let mut out: Vec<Place> = Vec::new();
        let mut i: usize = 0;
        while i < self.system.len()
            invariant
                i <= self.system@.len(),
                places_view(out@) == places_view(self.system@).take(i as int),
            decreases self.system@.len() - i,
        {
            let ghost before = places_view(out@);
            out.push(self.system[i].clone());
            assert(places_view(out@) =~= before.push(place_view(self.system@[i as int])));
            i += 1;
            assert(places_view(out@) =~= places_view(self.system@).take(i as int));
        }
        let mut j: usize = 0;
        assert(places_view(self.system@).take(self.system@.len() as int) =~= places_view(self.system@));
        while j < self.pinned.len()
            invariant
                j <= self.pinned@.len(),
                places_view(out@) == places_view(self.system@) + places_view(self.pinned@).take(j as int),
            decreases self.pinned@.len() - j,
        {
            let ghost before = places_view(out@);
            out.push(self.pinned[j].clone());
            assert(places_view(out@) =~= before.push(place_view(self.pinned@[j as int])));
            j += 1;
            assert(places_view(out@) =~= places_view(self.system@) + places_view(self.pinned@).take(j as int));
        }
        assert(places_view(self.pinned@).take(self.pinned@.len() as int) =~= places_view(self.pinned@));
        out
    }

    pub fn len(&self) -> (n: usize)
        requires
            self.all_view().len() <= usize::MAX,
        ensures
            n == self.all_view().len(),
    {
        self.system.len() + self.pinned.len()
    }

    pub fn is_empty(&self) -> (r: bool)
        ensures
            r == (self.all_view().len() == 0),
    {
        self.system.len() == 0 && self.pinned.len() == 0
    }

    pub fn get(&self, index: usize) -> (r: Option<&Place>)
        ensures
            match r {
                Some(p) => index < self.all_view().len() && place_view(*p) == self.all_view()[index as int],
                None => index >= self.all_view().len(),
            },
    {
        if index < self.system.len() {
            Some(&self.system[index])
        } else if index - self.system.len() < self.pinned.len() {
            Some(&self.pinned[index - self.system.len()])
        } else {
            None
        }
    }

    /// The index of the place matching `path` exactly: highlighting Home
    /// the whole time you are anywhere under it would tell you nothing.
    pub fn index_of_path(&self, path: &str) -> (r: Option<usize>)
        ensures
            match r {
                Some(i) => first_place(self.all_view(), path@) == i,
                None => first_place(self.all_view(), path@) == -1,
            },
    {
        let all = self.all();
        let ghost av = places_view(all@);
        let mut i: usize = 0;
        assert(av.skip(0) =~= av);
        while i < all.len()
            invariant
                i <= av.len(),
                av == places_view(all@),
                av == self.all_view(),
                first_place(av, path@) == (if first_place(av.skip(i as int), path@) < 0 { -1 } else { first_place(av.skip(i as int), path@) + i }),
            decreases av.len() - i,
        {
            assert(av.skip(i as int)[0] == av[i as int]);
            if same_place(all[i].path.as_str(), path) {
                return Some(i);
            }
            assert(av.skip(i as int).skip(1) =~= av.skip(i + 1));
            i += 1;
        }
        None
    }

    /// Pin `path`, which `is_dir` says is (or is not) a directory. Refused
    /// — `false`, nothing changed — when it is not one or is pinned already.
    pub fn pin(&mut self, path: &str, is_dir: bool) -> (r: bool)
        ensures
            r == (is_dir && !exists|i: int| 0 <= i < old(self).pinned_view().len() && same_path(#[trigger] old(self).pinned_view()[i].1, path@)),
            final(self).system_view() == old(self).system_view(),
            final(self).pinned_view() == if r {
                old(self).pinned_view().push((entry_name(path@), path@, Origin::Pinned))
            } else {
                old(self).pinned_view()
            },
    {
        if !is_dir {
            return false;
        }
        let ghost pv = places_view(self.pinned@);
        let mut i: usize = 0;
        while i < self.pinned.len()
            invariant
                i <= self.pinned@.len(),
                pv == places_view(self.pinned@),
                forall|j: int| 0 <= j < i ==> !same_path(#[trigger] pv[j].1, path@),
            decreases self.pinned@.len() - i,
        {
            if same_place(self.pinned[i].path.as_str(), path) {
                assert(pv[i as int].1 == self.pinned@[i as int].path@);
                assert(same_path(old(self).pinned_view()[i as int].1, path@));
                return false;
            }
            i += 1;
        }
        self.pinned.push(Place { label: label_for(path), path: String::from_str(path), origin: Origin::Pinned });
        assert(places_view(self.pinned@) =~= pv.push((entry_name(path@), path@, Origin::Pinned)));
        true
    }

    /// Remove the pin at `index` within the pinned list; `false` when there
    /// is none there.
    pub fn unpin(&mut self, index: usize) -> (r: bool)
        ensures
            r == (index < old(self).pinned_view().len()),
            final(self).system_view() == old(self).system_view(),
            final(self).pinned_view() == if r { old(self).pinned_view().remove(index as int) } else { old(self).pinned_view() },
    {
        if index >= self.pinned.len() {
            return false;
        }
        let ghost pv = places_view(self.pinned@);
        self.pinned.remove(index);
        assert(places_view(self.pinned@) =~= pv.remove(index as int));
        true
    }

    /// Move a pin up or down within the pinned list. Clamped, not wrapping:
    /// a reorder that jumps from top to bottom is disorienting. `None` when
    /// nothing moves.
    pub fn move_pin(&mut self, index: usize, delta: isize) -> (r: Option<usize>)
        requires
            index < old(self).pinned_view().len() ==> isize::MIN <= index + delta <= isize::MAX,
        ensures
            final(self).system_view() == old(self).system_view(),
            index >= old(self).pinned_view().len() ==> r is None && final(self).pinned_view() == old(self).pinned_view(),
            index < old(self).pinned_view().len() ==> {
                let target = clamp(index + delta, 0, old(self).pinned_view().len() - 1);
                &&& target == index ==> r is None && final(self).pinned_view() == old(self).pinned_view()
                &&& target != index ==> r == Some(target as usize) && final(self).pinned_view() == old(self).pinned_view().remove(index as int).insert(target, old(self).pinned_view()[index as int])
            },
    {
        let n = self.pinned.len();
        if index >= n {
            return None;
        }
        let wanted: i128 = index as i128 + delta as i128;
        let last: i128 = n as i128 - 1;
        let target: i128 = if wanted < 0 { 0 } else if wanted > last { last } else { wanted };
        if target == index as i128 {
            return None;
        }
        let t = target as usize;
        let ghost pv = places_view(self.pinned@);
        let pin = self.pinned.remove(index);
        self.pinned.insert(t, pin);
        assert(places_view(self.pinned@) =~= pv.remove(index as int).insert(t as int, pv[index as int]));
        Some(t)
    }

    /// Whether `index` (into [`Self::all`]) refers to a pin, and its
    /// position within the pinned list.
    pub fn pinned_index(&self, index: usize) -> (r: Option<usize>)
        ensures
            match r {
                Some(i) => index >= self.system_view().len() && i == index - self.system_view().len() && i < self.pinned_view().len(),
                None => index < self.system_view().len() || index - self.system_view().len() >= self.pinned_view().len(),
            },
    {
        if index < self.system.len() {
            return None;
        }
        let i = index - self.system.len();
        if i < self.pinned.len() {
            Some(i)
        } else {
            None
        }
    }

    /// What the Pin button says and does for `path`: pin it, unpin it, or
    /// nothing for a system place, which is permanently in the sidebar.
    pub fn pin_state(&self, path: &str) -> (r: PinState)
        ensures
            r == pin_state_of(self.all_view(), self.system_view().len(), self.pinned_view().len(), path@),
    {
        match self.index_of_path(path) {
            None => PinState::Pinnable,
            Some(index) => match self.pinned_index(index) {
                Some(_) => PinState::Pinned,
                None => PinState::System,
            },
        }
    }

    /// The Pin button: unpin `path` if it is pinned, pin it (when `is_dir`)
    /// if it is not, leave a system place alone. The sidebar cursor, at
    /// `cursor` before, comes back when anything changed: on the new pin, or
    /// kept inside the shorter list.
    pub fn toggle_pin(&mut self, path: &str, is_dir: bool, cursor: usize) -> (r: Option<usize>)
        requires
            old(self).all_view().len() < usize::MAX,
        ensures
            final(self).system_view() == old(self).system_view(),
            ({
                let state = pin_state_of(old(self).all_view(), old(self).system_view().len(), old(self).pinned_view().len(), path@);
                let n = old(self).system_view().len();
                match state {
                    PinState::System => r is None && final(self).pinned_view() == old(self).pinned_view(),
                    PinState::Pinned => {
                        let i = first_place(old(self).all_view(), path@) - n;
                        let left = final(self).all_view().len();
                        &&& final(self).pinned_view() == old(self).pinned_view().remove(i)
                        &&& r == Some((if left == 0 { 0 } else if cursor < left { cursor as int } else { left - 1 }) as usize)
                    },
                    PinState::Pinnable => {
                        let added = is_dir && !exists|k: int| 0 <= k < old(self).pinned_view().len() && same_path(#[trigger] old(self).pinned_view()[k].1, path@);
                        &&& added ==> final(self).pinned_view() == old(self).pinned_view().push((entry_name(path@), path@, Origin::Pinned))
                            && r == Some((final(self).all_view().len() - 1) as usize)
                        &&& !added ==> final(self).pinned_view() == old(self).pinned_view() && r is None
                    },
                }
            }),
    {
        match self.index_of_path(path) {
            None => {
                if self.pin(path, is_dir) {
                    Some(self.len() - 1)
                } else {
                    None
                }
            },
            Some(index) => match self.pinned_index(index) {
                None => None,
                Some(pin) => {
                    self.unpin(pin);
                    let left = self.len();
                    let last = if left == 0 { 0 } else { left - 1 };
                    Some(if cursor < last { cursor } else { last })
                },
            },
        }
    }

    /// The pin file that records the pins, for the application to write.
    pub fn save(&self) -> (r: PinFile)
        ensures
            r.version == 1,
            pins_view(r.pins@) == Seq::new(self.pinned_view().len(), |i: int| pin_of_place(self.pinned_view()[i])),
    {
        PinFile::from_places(self.pinned.as_slice())
    }
}

pub open spec fn clamp(v: int, lo: int, hi: int) -> int {
    if v < lo { lo } else if v > hi { hi } else { v }
}

/// What the Pin button does for a directory.
#[derive(Debug, Clone, Copy, PartialEq, Eq, Structural)]
pub enum PinState {
    Pinnable,
    Pinned,
    /// A system place: nothing to pin, nothing to remove.
    System,
}

pub open spec fn pin_state_of(all: Seq<PlaceModel>, system_len: nat, pinned_len: nat, path: Seq<char>) -> PinState {
    let i = first_place(all, path);
    if i < 0 {
        PinState::Pinnable
    } else if i >= system_len && i - system_len < pinned_len {
        PinState::Pinned
    } else {
        PinState::System
    }
}

} // verus!
