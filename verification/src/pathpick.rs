//! The location picker: completing a typed path against the directories
//! on disk, and what Enter in it comes to.
//!
//! Completion works the way a shell's does: text naming an existing
//! directory offers that directory's children; anything else completes
//! against its parent, filtered by the last component, so `/usr/sh` offers
//! `/usr/share`.

use vstd::prelude::*;
use crate::listing::is_permutation;
use crate::natural::{lemma_natural_order_antisymmetric, natural_compare, natural_order, Order};
use crate::palette::{lowercased, to_lowercase};
use crate::path::{file_name, file_name_of, parent, parent_of, root_path};
use crate::text::{chars_of, starts_with, string_of};
use crate::path::{trim_end_seps, trimmed_len};
use crate::diff::{trim_bounds, trim_ws};
use crate::presentation::expand_tilde;
use crate::entry::{nearest_existing, self_or_ancestor};

verus! {

/// Suggestions offered at most.
pub const MAX_SUGGESTIONS: usize = 10;

pub open spec fn ends_with_slash(s: Seq<char>) -> bool {
    s.len() > 0 && s.last() == '/'
}

/// What completion works from, for the tilde-expanded text `e`: the
/// directory whose children are offered, and the prefix they must start
/// with. `is_dir` says whether `e` names a directory.
pub open spec fn base_of(e: Seq<char>, is_dir: bool) -> (Seq<char>, Seq<char>) {
    if ends_with_slash(e) || is_dir {
        (e, Seq::empty())
    } else {
        (
            match parent_of(e) {
                Some(p) => p,
                None => root_path(),
            },
            match file_name_of(e) {
                Some(n) => n,
                None => Seq::empty(),
            },
        )
    }
}

/// The directory to list and the prefix to complete, for the expanded
/// text `expanded`, which names a directory exactly when `is_dir`.
pub fn completion_base(expanded: &str, is_dir: bool) -> (r: (String, String))
    ensures
        (r.0@, r.1@) == base_of(expanded@, is_dir),
{
    let cs = chars_of(expanded);
    if (cs.len() > 0 && cs[cs.len() - 1] == '/') || is_dir {
        return (String::from_str(expanded), String::new());
    }
    let dir = match parent(expanded) {
        Some(p) => p,
        None => String::from_str("/"),
    };
    proof {
        reveal_strlit("/");
        assert("/"@ =~= root_path());
    }
    let prefix = match file_name(expanded) {
        Some(n) => n,
        None => String::new(),
    };
    (dir, prefix)
}

pub open spec fn starts_dot(s: Seq<char>) -> bool {
    s.len() > 0 && s[0] == '.'
}

pub open spec fn is_prefix_of(p: Seq<char>, s: Seq<char>) -> bool {
    p.len() <= s.len() && s.take(p.len() as int) == p
}

/// Whether a directory called `name` completes `prefix`: its name starts
/// with the prefix, case aside, and a dot-directory only once a dot has
/// been typed — the listing's hidden-file rule.
pub open spec fn offers(name: Seq<char>, prefix: Seq<char>) -> bool {
    (starts_dot(prefix) || !starts_dot(name)) && is_prefix_of(lowercased(prefix), lowercased(name))
}

/// The name a suggestion is shown and sorted by.
pub open spec fn shown_name(path: Seq<char>) -> Seq<char> {
    match file_name_of(path) {
        Some(n) => n,
        None => Seq::empty(),
    }
}

fn name_of(path: &str) -> (r: String)
    ensures
        r@ == shown_name(path@),
{
    match file_name(path) {
        Some(n) => n,
        None => String::new(),
    }
}

/// Whether the directory `name` completes `prefix`.
pub fn completes(name: &str, prefix: &str) -> (r: bool)
    ensures
        r == offers(name@, prefix@),
{
    let p = chars_of(prefix);
    let n = chars_of(name);
    let dot_ok = (p.len() > 0 && p[0] == '.') || !(n.len() > 0 && n[0] == '.');
    if !dot_ok {
        return false;
    }
    let lp = to_lowercase(prefix);
    let ln = to_lowercase(name);
    starts_with(ln.as_str(), lp.as_str())
}

/// The children (path, and whether it is a directory) that complete
/// `prefix`, in the order they were read.
pub open spec fn candidates(children: Seq<(String, bool)>, prefix: Seq<char>) -> Seq<Seq<char>>
    decreases children.len(),
{
    if children.len() == 0 {
        Seq::empty()
    } else {
        let rest = candidates(children.drop_last(), prefix);
        let (p, d) = children.last();
        if d && offers(shown_name(p@), prefix) { rest.push(p@) } else { rest }
    }
}

/// `order` lists `paths` by the natural order of their names, ties in
/// the order they were read.
pub open spec fn by_name(paths: Seq<Seq<char>>, order: Seq<usize>) -> bool {
    forall|k: int| 0 <= k < order.len() - 1 ==> {
        let o = #[trigger] natural_order(shown_name(paths[order[k] as int]), shown_name(paths[order[k + 1] as int]));
        &&& o != Order::Greater
        &&& o == Order::Equal ==> order[k] < order[k + 1]
    }
}

/// The directories offered for `prefix` among `children` (each a path and
/// whether it is a directory): those that complete it, by name in the
/// natural order, at most `MAX_SUGGESTIONS` of them.
pub fn suggestions(children: &Vec<(String, bool)>, prefix: &str) -> (r: Vec<String>)
    ensures
        ({
            let c = candidates(children@, prefix@);
            exists|order: Seq<usize>| {
                &&& is_permutation(order, c.len())
                &&& by_name(c, order)
                &&& r@.len() == (if c.len() <= MAX_SUGGESTIONS { c.len() } else { MAX_SUGGESTIONS as nat })
                &&& forall|k: int| 0 <= k < r@.len() ==> #[trigger] r@[k]@ == c[order[k] as int]
            }
        }),
{
    let mut paths: Vec<String> = Vec::new();
    let mut names: Vec<String> = Vec::new();
    let mut i: usize = 0;
    while i < children.len()
        invariant
            i <= children@.len(),
            paths@.len() == names@.len(),
            Seq::new(paths@.len(), |k: int| paths@[k]@) == candidates(children@.take(i as int), prefix@),
            forall|k: int| 0 <= k < names@.len() ==> #[trigger] names@[k]@ == shown_name(paths@[k]@),
        decreases children@.len() - i,
    {
        let (path, is_dir) = &children[i];
        let name = name_of(path.as_str());
        let keep = *is_dir && completes(name.as_str(), prefix);
        let ghost before = Seq::new(paths@.len(), |k: int| paths@[k]@);
        proof {
            let t = children@.take(i + 1);
            assert(t.drop_last() =~= children@.take(i as int));
            assert(t.last() == children@[i as int]);
        }
        if keep {
            paths.push(String::from_str(path.as_str()));
            names.push(name);
            assert(Seq::new(paths@.len(), |k: int| paths@[k]@) =~= before.push(path@));
        }
        i += 1;
    }
    assert(children@.take(children@.len() as int) =~= children@);
    let ghost c = candidates(children@, prefix@);
    assert(forall|k: int| 0 <= k < paths@.len() ==> #[trigger] paths@[k]@ == c[k]);
    let order = name_order(&names);
    proof {
        assert forall|k: int| 0 <= k < order@.len() - 1 implies {
            let o = #[trigger] natural_order(shown_name(c[order@[k] as int]), shown_name(c[order@[k + 1] as int]));
            &&& o != Order::Greater
            &&& o == Order::Equal ==> order@[k] < order@[k + 1]
        } by {
            assert(names@[order@[k] as int]@ == shown_name(c[order@[k] as int]));
            assert(names@[order@[k + 1] as int]@ == shown_name(c[order@[k + 1] as int]));
        }
    }
    let n = if order.len() <= MAX_SUGGESTIONS { order.len() } else { MAX_SUGGESTIONS };
    let mut out: Vec<String> = Vec::new();
    let mut k: usize = 0;
    while k < n
        invariant
            k <= n <= order@.len(),
            order@.len() == paths@.len(),
            forall|j: int| 0 <= j < order@.len() ==> #[trigger] order@[j] < paths@.len(),
            out@.len() == k,
            forall|j: int| 0 <= j < k ==> #[trigger] out@[j]@ == paths@[order@[j] as int]@,
        decreases n - k,
    {
        out.push(String::from_str(paths[order[k]].as_str()));
        k += 1;
    }
    assert(forall|j: int| 0 <= j < out@.len() ==> #[trigger] out@[j]@ == c[order@[j] as int]);
    assert(c.len() == paths@.len());
    assert(is_permutation(order@, c.len()));
    assert(by_name(c, order@));
    assert({
        &&& is_permutation(order@, c.len())
        &&& by_name(c, order@)
        &&& out@.len() == (if c.len() <= MAX_SUGGESTIONS { c.len() } else { MAX_SUGGESTIONS as nat })
        &&& forall|k: int| 0 <= k < out@.len() ==> #[trigger] out@[k]@ == c[order@[k] as int]
    });
    out
}

/// Indices of `names` in their natural order, stably: an insertion sort
/// that never moves a name past one it ties with.
fn name_order(names: &Vec<String>) -> (order: Vec<usize>)
    ensures
        is_permutation(order@, names@.len()),
        forall|k: int| 0 <= k < order@.len() - 1 ==> {
            let o = #[trigger] natural_order(names@[order@[k] as int]@, names@[order@[k + 1] as int]@);
            &&& o != Order::Greater
            &&& o == Order::Equal ==> order@[k] < order@[k + 1]
        },
{
    let mut order: Vec<usize> = Vec::new();
    let mut i: usize = 0;
    while i < names.len()
        invariant
            i <= names@.len(),
            order@.len() == i,
            forall|k: int| 0 <= k < order@.len() ==> order@[k] < i,
            forall|j: int, k: int| 0 <= j < k < order@.len() ==> order@[j] != order@[k],
            forall|k: int| 0 <= k < order@.len() - 1 ==> {
                let o = #[trigger] natural_order(names@[order@[k] as int]@, names@[order@[k + 1] as int]@);
                &&& o != Order::Greater
                &&& o == Order::Equal ==> order@[k] < order@[k + 1]
            },
        decreases names@.len() - i,
    {
        let mut p = order.len();
        while p > 0 && greater(natural_compare(names[order[p - 1]].as_str(), names[i].as_str()))
            invariant
                p <= order@.len(),
                order@.len() == i,
                i < names@.len(),
                forall|k: int| 0 <= k < order@.len() ==> order@[k] < i,
                forall|k: int| p <= k < order@.len() ==> natural_order(names@[order@[k] as int]@, names@[i as int]@)
                    == Order::Greater,
            decreases p,
        {
            p -= 1;
        }
        let ghost before = order@;
        order.insert(p, i);
        proof {
            let after = order@;
            assert(after == before.insert(p as int, i));
            assert forall|k: int| 0 <= k < after.len() - 1 implies {
                let o = #[trigger] natural_order(names@[after[k] as int]@, names@[after[k + 1] as int]@);
                &&& o != Order::Greater
                &&& o == Order::Equal ==> after[k] < after[k + 1]
            } by {
                if k + 1 < p {
                    assert(after[k] == before[k] && after[k + 1] == before[k + 1]);
                } else if k + 1 == p {
                    assert(after[k] == before[k] && after[k + 1] == i);
                    assert(before[k] < i);
                } else if k == p {
                    assert(after[k] == i && after[k + 1] == before[k]);
                    lemma_natural_order_antisymmetric(names@[i as int]@, names@[before[k] as int]@);
                } else {
                    let j = k - 1;
                    assert(after[k] == before[j] && after[k + 1] == before[j + 1]);
                }
            }
            assert forall|j: int, k: int| 0 <= j < k < after.len() implies after[j] != after[k] by {
                if j < p && k < p {
                    assert(after[j] == before[j] && after[k] == before[k]);
                } else if j < p && k == p {
                } else if j < p {
                    assert(after[j] == before[j] && after[k] == before[k - 1]);
                } else if j == p {
                    assert(after[k] == before[k - 1]);
                } else {
                    assert(after[j] == before[j - 1] && after[k] == before[k - 1]);
                }
            }
        }
        i += 1;
    }
    order
}

fn greater(o: Order) -> (r: bool)
    ensures
        r == (o == Order::Greater),
{
    match o {
        Order::Greater => true,
        _ => false,
    }
}

/// `s` without its trailing slashes, as a string.
fn without_trailing_slashes(s: &str) -> (r: String)
    ensures
        r@ == trim_end_seps(s@),
{
    let cs = chars_of(s);
    let n = trimmed_len(&cs, cs.len());
    assert(cs@.take(cs@.len() as int) =~= cs@);
    assert(cs@.subrange(0, n as int) =~= cs@.take(n as int));
    string_of(&cs, 0, n)
}

/// The create row, when `there` says whether the disk reports something at
/// the trimmed path: offered, not empty, and nothing there yet.
pub open spec fn create_row_of(expanded: Seq<char>, offered: bool, there: bool) -> Option<Seq<char>> {
    if !offered || trim_end_seps(expanded).len() == 0 || there { None } else { Some(trim_end_seps(expanded)) }
}

/// The row that offers to create what was typed: the expanded text without
/// its trailing slashes, when the panel offers creating at all (the file
/// maker does not: there the typed path is the file itself), it is not
/// empty, and nothing is there yet as the disk answered about that trimmed
/// path. The disk is asked only when the first two hold; its answer comes
/// back beside the row.
pub fn create_row(expanded: &str, offered: bool) -> (r: (Option<String>, Ghost<bool>))
    ensures
        match create_row_of(expanded@, offered, r.1@) {
            Some(t) => r.0 matches Some(s) && s@ == t,
            None => r.0 is None,
        },
{
    let trimmed = without_trailing_slashes(expanded);
    if !offered || trimmed.as_str().unicode_len() == 0 {
        return (None, Ghost(false));
    }
    let there = crate::probe::path_exists(trimmed.as_str());
    if there {
        (None, Ghost(true))
    } else {
        (Some(trimmed), Ghost(false))
    }
}

/// What the location picker was opened for.
pub enum Purpose {
    GoTo,
    /// Move `source` (called `name`) into the picked directory.
    MoveInto { source: String, name: String },
    /// Make a new file, or a directory when the text ends in `/`.
    CreateFile,
}

/// What Enter in the location picker comes to.
#[derive(Debug, PartialEq, Eq)]
pub enum Choice {
    /// Put this directory in the field and keep completing.
    Complete(String),
    /// There is no name to make: ask for one (`file` or `directory`).
    AskName(&'static str),
    MakeDirectory(String),
    MakeFile(String),
    /// Go to, or move into, this directory, which is there.
    Existing(String),
    /// Create this directory, then go to or move into it.
    Create(String),
    /// Refuse, saying why.
    Refuse(String),
    /// Enter does nothing.
    Nothing,
}

pub open spec fn tilde_of(input: Seq<char>, home: Seq<char>) -> Seq<char> {
    if input.len() > 0 && input[0] == '~' { home + input.skip(1) } else { input }
}

/// The path whose being a directory Enter depends on: for the file maker,
/// the trimmed text without trailing slashes; else the text as typed,
/// `~` expanded either way.
pub open spec fn probed_path(creating: bool, typed: Seq<char>, home: Seq<char>) -> Seq<char> {
    if creating { tilde_of(trim_end_seps(trim_ws(typed)), home) } else { tilde_of(typed, home) }
}

pub fn probe_target(purpose: &Purpose, typed: &str, home: &str) -> (r: String)
    ensures
        r@ == probed_path(purpose is CreateFile, typed@, home@),
{
    match purpose {
        Purpose::CreateFile => {
            let cs = chars_of(typed);
            assert(cs@.subrange(0, cs@.len() as int) =~= cs@);
            let (a, b) = trim_bounds(&cs, 0, cs.len());
            let trimmed = string_of(&cs, a, b);
            let bare = without_trailing_slashes(trimmed.as_str());
            expand_tilde(bare.as_str(), home)
        },
        _ => expand_tilde(typed, home),
    }
}

/// Enter in the location picker. `cursor` is the highlighted row (the
/// suggestions, then the create row), `names_dir` whether `probe_target`'s
/// path is a directory.
///
/// The file maker completes a highlighted directory into the field, and
/// otherwise makes what the text names — a directory when it ends in `/` —
/// unless there is no name to make. The other purposes take the
/// highlighted row; with none, the typed directory, else the first
/// suggestion (a half-typed name commits to its completion); failing both,
/// going lands on the nearest directory that is there, while a move
/// refuses, since it has to land exactly where it was aimed.
pub fn confirm_path(
    purpose: &Purpose,
    cursor: Option<usize>,
    suggestions: &Vec<String>,
    create: &Option<String>,
    typed: &str,
    home: &str,
    names_dir: bool,
) -> (r: Choice)
    ensures
        purpose is CreateFile ==> ({
            let target = probed_path(true, typed@, home@);
            let directory = ends_with_slash(trim_ws(typed@));
            if cursor matches Some(i) && i < suggestions@.len() {
                r matches Choice::Complete(d) && d@ == suggestions@[cursor->0 as int]@
            } else if file_name_of(target) is None || (!directory && names_dir) {
                r == Choice::AskName(if directory { "directory" } else { "file" })
            } else if directory {
                r matches Choice::MakeDirectory(t) && t@ == target
            } else {
                r matches Choice::MakeFile(t) && t@ == target
            }
        }),
        !(purpose is CreateFile) ==> ({
            let typed_path = probed_path(false, typed@, home@);
            match cursor {
                Some(i) => if i < suggestions@.len() {
                    r matches Choice::Existing(d) && d@ == suggestions@[i as int]@
                } else {
                    match create {
                        Some(c) => r matches Choice::Create(d) && d@ == c@,
                        None => r == Choice::Nothing,
                    }
                },
                None => if names_dir {
                    r matches Choice::Existing(d) && d@ == typed_path
                } else if suggestions@.len() > 0 {
                    r matches Choice::Existing(d) && d@ == suggestions@[0]@
                } else if purpose is GoTo {
                    r matches Choice::Existing(d) && (self_or_ancestor(d@, typed_path) || d@ == root_path())
                } else {
                    r matches Choice::Refuse(m)
                        && m@ == "no such directory \u{2014} pick \u{201c}create\u{201d} to make it"@
                },
            }
        }),
{
    let target = probe_target(purpose, typed, home);
    match purpose {
        Purpose::CreateFile => {
            match cursor {
                Some(i) => {
                    if i < suggestions.len() {
                        return Choice::Complete(String::from_str(suggestions[i].as_str()));
                    }
                },
                None => {},
            }
            let cs = chars_of(typed);
            assert(cs@.subrange(0, cs@.len() as int) =~= cs@);
            let (a, b) = trim_bounds(&cs, 0, cs.len());
            let directory = b > a && cs[b - 1] == '/';
            assert(cs@.subrange(a as int, b as int).len() > 0 ==> cs@.subrange(a as int, b as int).last() == cs@[b - 1]);
            let unnamed = match file_name(target.as_str()) {
                Some(_) => false,
                None => true,
            };
            if unnamed || (!directory && names_dir) {
                Choice::AskName(if directory { "directory" } else { "file" })
            } else if directory {
                Choice::MakeDirectory(target)
            } else {
                Choice::MakeFile(target)
            }
        },
        _ => {
            match cursor {
                Some(i) => {
                    if i < suggestions.len() {
                        Choice::Existing(String::from_str(suggestions[i].as_str()))
                    } else {
                        match create {
                            Some(c) => Choice::Create(String::from_str(c.as_str())),
                            None => Choice::Nothing,
                        }
                    }
                },
                None => {
                    if names_dir {
                        Choice::Existing(target)
                    } else if suggestions.len() > 0 {
                        Choice::Existing(String::from_str(suggestions[0].as_str()))
                    } else {
                        match purpose {
                            Purpose::GoTo => Choice::Existing(nearest_existing(target.as_str()).0),
                            _ => Choice::Refuse(String::from_str(
                                "no such directory \u{2014} pick \u{201c}create\u{201d} to make it",
                            )),
                        }
                    }
                },
            }
        },
    }
}

/// What the field holds once a highlighted directory is completed into
/// it: the directory with one trailing slash, so completion goes on inside.
pub fn completed_field(dir: &str) -> (r: String)
    ensures
        r@ == (if ends_with_slash(dir@) { dir@ } else { dir@.push('/') }),
{
    let cs = chars_of(dir);
    let mut text = String::from_str(dir);
    if !(cs.len() > 0 && cs[cs.len() - 1] == '/') {
        crate::text::push_char(&mut text, '/');
    }
    text
}

} // verus!
