//! Where a copy or a new file lands: a name in the destination that is not
//! taken yet. The copying and moving themselves are the application's.

use vstd::prelude::*;
use crate::numfmt::{decimal, decimal_string};
use crate::path::{file_name, file_name_of, join, join_of, parent, parent_of, path_starts_with, starts_with_path};
use crate::places::{same_path, same_place};
use crate::presentation::{quote, quoted};
use crate::diff::{trim_bounds, trim_ws};
use crate::split::{lines_of, split_lines, views};
use crate::split::{first_index, lemma_first_index_at};
use crate::text::{chars_of, concat, string_of};

verus! {

/// A name split for numbering: the stem, and the extension with its dot. A
/// leading dot is a hidden file, not an empty stem with an extension.
pub open spec fn name_parts(name: Seq<char>) -> (Seq<char>, Seq<char>) {
    let i = first_index(name, '.');
    if i > 0 { (name.take(i), name.skip(i)) } else { (name, Seq::empty()) }
}

/// `name` numbered `n`: the counter goes before the extension (`a.txt` →
/// `a (2).txt`), because the suffix is what makes the file openable.
pub open spec fn numbered(name: Seq<char>, n: nat) -> Seq<char> {
    name_parts(name).0 + " ("@ + decimal(n) + ")"@ + name_parts(name).1
}

/// The `n`th name tried in `dir`: `name` itself, then numbered from 2.
pub open spec fn candidate(dir: Seq<char>, name: Seq<char>, n: nat) -> Seq<char> {
    if n <= 1 { join_of(dir, name) } else { join_of(dir, numbered(name, n)) }
}

/// `name` with the counter `n` in it.
pub fn numbered_name(name: &str, n: u32) -> (r: String)
    ensures
        r@ == numbered(name@, n as nat),
{
    let cs = chars_of(name);
    let mut i: usize = 0;
    while i < cs.len() && cs[i] != '.'
        invariant
            i <= cs@.len(),
            forall|j: int| 0 <= j < i ==> cs@[j] != '.',
        decreases cs@.len() - i,
    {
        i += 1;
    }
    proof {
        lemma_first_index_at(cs@, '.', i as int);
    }
    let (stem, ext) = if i > 0 && i < cs.len() {
        (string_of(&cs, 0, i), string_of(&cs, i, cs.len()))
    } else {
        (String::from_str(name), String::new())
    };
    proof {
        if i > 0 && i < cs@.len() {
            assert(cs@.subrange(0, i as int) =~= cs@.take(i as int));
            assert(cs@.subrange(i as int, cs@.len() as int) =~= cs@.skip(i as int));
        }
    }
    let digits = decimal_string(n as u128);
    let mut out = concat(stem.as_str(), " (");
    out.append(digits.as_str());
    out.append(")");
    out.append(ext.as_str());
    out
}

/// The `n`th candidate path, as [`candidate`] names it.
pub fn candidate_path(dir: &str, name: &str, n: u32) -> (r: String)
    ensures
        r@ == candidate(dir@, name@, n as nat),
{
    if n <= 1 {
        join(dir, name)
    } else {
        let numbered = numbered_name(name, n);
        join(dir, numbered.as_str())
    }
}

/// The index of the first `false` in `answers`, or -1.
pub open spec fn free_at(answers: Seq<bool>) -> int
    decreases answers.len(),
{
    if answers.len() == 0 {
        -1
    } else if free_at(answers.drop_last()) >= 0 {
        free_at(answers.drop_last())
    } else if !answers.last() {
        answers.len() - 1
    } else {
        -1
    }
}

/// The first candidate that `answers` does not call taken, where
/// `answers[k]` says whether candidate `k + 1` is.
pub open spec fn first_free_of(dir: Seq<char>, name: Seq<char>, answers: Seq<bool>) -> Option<Seq<char>> {
    if free_at(answers) >= 0 { Some(candidate(dir, name, (free_at(answers) + 1) as nat)) } else { None }
}

/// The answers of asking about candidates 1, 2, … in turn: every one but the
/// last was taken, and the asking stopped at the first free one, or at the
/// largest counter.
pub open spec fn probed_in_turn(answers: Seq<bool>) -> bool {
    &&& 1 <= answers.len() <= i32::MAX
    &&& forall|j: int| 0 <= j < answers.len() - 1 ==> answers[j]
    &&& answers.last() ==> answers.len() == i32::MAX
}

/// `r` holds the text `m` holds.
pub open spec fn same_text_option(r: Option<String>, m: Option<Seq<char>>) -> bool {
    match m {
        Some(q) => r matches Some(p) && p@ == q,
        None => r is None,
    }
}

/// `r` holds the text `m` holds, success or error.
pub open spec fn same_text_result(r: Result<String, String>, m: Result<Seq<char>, Seq<char>>) -> bool {
    match m {
        Ok(q) => r matches Ok(p) && p@ == q,
        Err(q) => r matches Err(p) && p@ == q,
    }
}

proof fn lemma_free_at_push(s: Seq<bool>, b: bool)
    ensures
        free_at(s.push(b)) == if free_at(s) >= 0 { free_at(s) } else if !b { s.len() as int } else { -1 },
{
    assert(s.push(b).drop_last() =~= s);
}

proof fn lemma_free_at_bounds(s: Seq<bool>)
    ensures
        -1 <= free_at(s) < s.len(),
        free_at(s) >= 0 ==> !s[free_at(s)] && forall|j: int| 0 <= j < free_at(s) ==> s[j],
        free_at(s) < 0 ==> forall|j: int| 0 <= j < s.len() ==> s[j],
    decreases s.len(),
{
    if s.len() > 0 {
        lemma_free_at_bounds(s.drop_last());
        assert forall|j: int| 0 <= j < s.len() - 1 implies s[j] == s.drop_last()[j] by {}
    }
}

/// The first candidate not taken, where `taken[k]` says whether candidate
/// `k + 1` exists; `None` when every one listed is.
pub fn first_free(dir: &str, name: &str, taken: &Vec<bool>) -> (r: Option<String>)
    requires
        taken@.len() <= i32::MAX,
    ensures
        same_text_option(r, first_free_of(dir@, name@, taken@)),
{
    let mut k: usize = 0;
    while k < taken.len()
        invariant
            k <= taken@.len() <= i32::MAX,
            free_at(taken@.take(k as int)) == -1,
        decreases taken@.len() - k,
    {
        proof {
            lemma_free_at_push(taken@.take(k as int), taken@[k as int]);
            assert(taken@.take(k as int).push(taken@[k as int]) =~= taken@.take(k + 1));
        }
        if !taken[k] {
            let p = candidate_path(dir, name, (k + 1) as u32);
            proof {
                lemma_free_at_bounds(taken@.take(k + 1));
                lemma_free_at_prefix(taken@, k + 1);
            }
            return Some(p);
        }
        k += 1;
    }
    assert(taken@.take(taken@.len() as int) =~= taken@);
    None
}

/// A first `false` within a prefix is the first `false` of the whole.
proof fn lemma_free_at_prefix(s: Seq<bool>, n: int)
    requires
        0 <= n <= s.len(),
        free_at(s.take(n)) >= 0,
    ensures
        free_at(s) == free_at(s.take(n)),
    decreases s.len() - n,
{
    if n < s.len() {
        lemma_free_at_push(s.take(n), s[n]);
        assert(s.take(n).push(s[n]) =~= s.take(n + 1));
        lemma_free_at_prefix(s, n + 1);
    } else {
        assert(s.take(n) =~= s);
    }
}

/// A path in `dir` that does not exist yet, counting up from `name`: the
/// disk is asked about candidate 1, 2, … in turn, and the first one it does
/// not report taken is the answer. What the disk said comes back beside
/// it; `None` only when every candidate up to the largest counter was taken.
pub fn unique_target(dir: &str, name: &str) -> (r: (Option<String>, Ghost<Seq<bool>>))
    ensures
        probed_in_turn(r.1@),
        same_text_option(r.0, first_free_of(dir@, name@, r.1@)),
{
    let ghost mut answers: Seq<bool> = Seq::empty();
    let mut n: u32 = 1;
    while n <= 2147483647
        invariant
            1 <= n <= 2147483648,
            answers.len() == n - 1,
            forall|j: int| 0 <= j < answers.len() ==> answers[j],
            free_at(answers) == -1,
        decreases 2147483648 - n,
    {
        let p = candidate_path(dir, name, n);
        let taken = crate::probe::path_exists(p.as_str());
        proof {
            lemma_free_at_push(answers, taken);
            answers = answers.push(taken);
        }
        if !taken {
            return (Some(p), Ghost(answers));
        }
        n += 1;
    }
    (None, Ghost(answers))
}

/// Where a copy lands, given what the disk said of the candidates.
pub open spec fn copy_outcome(source: Seq<char>, source_is_dir: bool, dest_dir: Seq<char>, answers: Seq<bool>)
    -> Result<Seq<char>, Seq<char>> {
    match file_name_of(source) {
        None => Err("cannot copy a path with no name"@),
        Some(name) => match first_free_of(dest_dir, name, answers) {
            None => Err("no free name is left"@),
            Some(t) => if source_is_dir && path_starts_with(t, source) {
                Err("cannot paste a directory into itself"@)
            } else {
                Ok(t)
            },
        },
    }
}

/// Where a copy of `source` into `dest_dir` lands — the first free name
/// there, numbered on a collision — or why it cannot be made. A directory
/// pasted into itself would recurse forever through its own fresh copy, so
/// that is refused. What the disk said of the candidates comes back beside.
pub fn copy_into(source: &str, source_is_dir: bool, dest_dir: &str) -> (r: (Result<String, String>, Ghost<Seq<bool>>))
    ensures
        file_name_of(source@) is Some ==> probed_in_turn(r.1@),
        same_text_result(r.0, copy_outcome(source@, source_is_dir, dest_dir@, r.1@)),
{
    let name = match file_name(source) {
        Some(n) => n,
        None => return (Err(String::from_str("cannot copy a path with no name")), Ghost(Seq::empty())),
    };
    let (found, answers) = unique_target(dest_dir, name.as_str());
    let target = match found {
        Some(t) => t,
        None => return (Err(String::from_str("no free name is left")), answers),
    };
    if source_is_dir && starts_with_path(target.as_str(), source) {
        return (Err(String::from_str("cannot paste a directory into itself")), answers);
    }
    (Ok(target), answers)
}

/// Where a move lands, given whether the destination is a directory and
/// what the disk said of the candidates.
pub open spec fn move_outcome(source: Seq<char>, source_is_dir: bool, dest_dir: Seq<char>, dest_is_dir: bool, answers: Seq<bool>)
    -> Result<Seq<char>, Seq<char>> {
    match file_name_of(source) {
        None => Err("cannot move a path with no name"@),
        Some(name) => if !dest_is_dir {
            Err(dest_dir + " is not a directory"@)
        } else if parent_of(source) is Some && same_path(parent_of(source)->0, dest_dir) {
            Err(quoted(name) + " is already there"@)
        } else {
            match first_free_of(dest_dir, name, answers) {
                None => Err("no free name is left"@),
                Some(t) => if source_is_dir && path_starts_with(t, source) {
                    Err("cannot move a directory into itself"@)
                } else {
                    Ok(t)
                },
            }
        },
    }
}

/// Where a move of `source` into `dest_dir` lands, or why it cannot be
/// made: the destination is not a directory, the entry is already there —
/// a move into its own directory would only mint a numbered duplicate — or
/// a directory would go into itself. The disk is asked about candidates
/// only when none of the first refusals applies.
pub fn move_into(source: &str, source_is_dir: bool, dest_dir: &str, dest_is_dir: bool)
    -> (r: (Result<String, String>, Ghost<Seq<bool>>))
    ensures
        (file_name_of(source@) is Some && dest_is_dir && !(parent_of(source@) is Some && same_path(parent_of(source@)->0, dest_dir@)))
            ==> probed_in_turn(r.1@),
        same_text_result(r.0, move_outcome(source@, source_is_dir, dest_dir@, dest_is_dir, r.1@)),
{
    let name = match file_name(source) {
        Some(n) => n,
        None => return (Err(String::from_str("cannot move a path with no name")), Ghost(Seq::empty())),
    };
    if !dest_is_dir {
        return (Err(concat(dest_dir, " is not a directory")), Ghost(Seq::empty()));
    }
    let here = match parent(source) {
        Some(p) => same_place(p.as_str(), dest_dir),
        None => false,
    };
    if here {
        let q = quote(name.as_str());
        return (Err(concat(q.as_str(), " is already there")), Ghost(Seq::empty()));
    }
    let (found, answers) = unique_target(dest_dir, name.as_str());
    let target = match found {
        Some(t) => t,
        None => return (Err(String::from_str("no free name is left")), answers),
    };
    if source_is_dir && starts_with_path(target.as_str(), source) {
        return (Err(String::from_str("cannot move a directory into itself")), answers);
    }
    (Ok(target), answers)
}

/// Where a new file called `name` is written in `dir` — the first free
/// name, numbered like a paste if the name is taken — given what the disk
/// said of the candidates.
pub open spec fn write_outcome(dir: Seq<char>, dir_is_dir: bool, name: Seq<char>, answers: Seq<bool>)
    -> Result<Seq<char>, Seq<char>> {
    if !dir_is_dir {
        Err(dir + " is not a directory"@)
    } else {
        match first_free_of(dir, name, answers) {
            None => Err("no free name is left"@),
            Some(t) => Ok(t),
        }
    }
}

/// Where a new file called `name` is written in `dir`, numbered like a
/// paste if the name is taken.
pub fn write_new(dir: &str, dir_is_dir: bool, name: &str) -> (r: (Result<String, String>, Ghost<Seq<bool>>))
    ensures
        dir_is_dir ==> probed_in_turn(r.1@),
        same_text_result(r.0, write_outcome(dir@, dir_is_dir, name@, r.1@)),
{
    if !dir_is_dir {
        return (Err(concat(dir, " is not a directory")), Ghost(Seq::empty()));
    }
    let (found, answers) = unique_target(dir, name);
    match found {
        Some(t) => (Ok(t), answers),
        None => (Err(String::from_str("no free name is left")), answers),
    }
}

/// What a new file or directory at `path` needs first: the directory to
/// create above it, if any; or why it cannot be made — it has no name, or
/// something is there already (a "new" verb must not lose anything).
pub fn create_file(path: &str, exists: bool) -> (r: Result<Option<String>, String>)
    ensures
        file_name_of(path@) is None ==> (r matches Err(m) && m@ == "a file needs a name"@),
        (file_name_of(path@) is Some && exists) ==> (r matches Err(m) && m@ == quoted(file_name_of(path@)->0) + " already exists"@),
        r is Ok <==> (file_name_of(path@) is Some && !exists),
        r matches Ok(up) ==> !exists && file_name_of(path@) is Some && match up {
            Some(p) => parent_of(path@) == Some(p@) && p@.len() > 0,
            None => !(parent_of(path@) is Some && parent_of(path@)->0.len() > 0),
        },
{
    let name = match file_name(path) {
        Some(n) => n,
        None => return Err(String::from_str("a file needs a name")),
    };
    if exists {
        let q = quote(name.as_str());
        return Err(concat(q.as_str(), " already exists"));
    }
    match parent(path) {
        Some(p) => {
            if p.as_str().unicode_len() > 0 {
                Ok(Some(p))
            } else {
                Ok(None)
            }
        },
        None => Ok(None),
    }
}

/// Whether a directory may be created at `path`.
pub fn create_directory(path: &str, exists: bool) -> (r: Result<(), String>)
    ensures
        file_name_of(path@) is None ==> (r matches Err(m) && m@ == "a directory needs a name"@),
        (file_name_of(path@) is Some && exists) ==> (r matches Err(m) && m@ == quoted(file_name_of(path@)->0) + " already exists"@),
        r is Ok <==> (file_name_of(path@) is Some && !exists),
{
    let name = match file_name(path) {
        Some(n) => n,
        None => return Err(String::from_str("a directory needs a name")),
    };
    if exists {
        let q = quote(name.as_str());
        return Err(concat(q.as_str(), " already exists"));
    }
    Ok(())
}

/// Where a zip goes, given what the disk said of the candidates.
pub open spec fn compress_outcome(source: Seq<char>, answers: Seq<bool>)
    -> Result<(Seq<char>, Seq<char>, Seq<char>), Seq<char>> {
    match parent_of(source) {
        None => Err("cannot compress the filesystem root"@),
        Some(dir) => match file_name_of(source) {
            None => Err("cannot compress a path with no name"@),
            Some(name) => match first_free_of(dir, name + ".zip"@, answers) {
                None => Err("no free name is left"@),
                Some(t) => Ok((t, dir, name)),
            },
        },
    }
}

/// Where a zip of `source` goes: `(archive, directory, name)` — a sibling
/// `<name>.zip`, the first free one, numbered on a collision, made from
/// inside the directory so the archive holds relative paths.
pub fn compress(source: &str) -> (r: (Result<(String, String, String), String>, Ghost<Seq<bool>>))
    ensures
        (parent_of(source@) is Some && file_name_of(source@) is Some) ==> probed_in_turn(r.1@),
        match compress_outcome(source@, r.1@) {
            Ok((t, d, n)) => r.0 matches Ok((a, b, c)) && a@ == t && b@ == d && c@ == n,
            Err(m) => r.0 matches Err(e) && e@ == m,
        },
{
    let dir = match parent(source) {
        Some(d) => d,
        None => return (Err(String::from_str("cannot compress the filesystem root")), Ghost(Seq::empty())),
    };
    let name = match file_name(source) {
        Some(n) => n,
        None => return (Err(String::from_str("cannot compress a path with no name")), Ghost(Seq::empty())),
    };
    let archive = concat(name.as_str(), ".zip");
    let (found, answers) = unique_target(dir.as_str(), archive.as_str());
    match found {
        Some(t) => (Ok((t, dir, name)), answers),
        None => (Err(String::from_str("no free name is left")), answers),
    }
}

/// What a failed archiver said, or a plain sentence when it said nothing.
pub fn compress_failure(stderr: &str) -> (r: String)
    ensures
        r@ == if trim_ws(stderr@).len() == 0 { "compression failed"@ } else { trim_ws(stderr@) },
{
    let cs = chars_of(stderr);
    assert(cs@.subrange(0, cs@.len() as int) =~= cs@);
    let (a, b) = trim_bounds(&cs, 0, cs.len());
    if a == b {
        String::from_str("compression failed")
    } else {
        string_of(&cs, a, b)
    }
}

/// `trim_start_matches("gio: ")`.
pub open spec fn without_gio(s: Seq<char>) -> Seq<char>
    decreases s.len(),
{
    if s.len() >= 5 && s.take(5) == "gio: "@ { without_gio(s.skip(5)) } else { s }
}

/// Why `gio trash` refused, from its stderr: its last line, trimmed, its
/// `gio: ` prefix off.
pub open spec fn trash_reason(stderr: Seq<char>) -> Seq<char> {
    let ls = lines_of(stderr);
    without_gio(if ls.len() == 0 { "gio refused"@ } else { trim_ws(ls.last()) })
}

/// `cs` with every leading `gio: ` off.
fn strip_gio(cs: &Vec<char>) -> (r: String)
    ensures
        r@ == without_gio(cs@),
{
    proof {
        reveal_strlit("gio: ");
    }
    let mut from: usize = 0;
    assert(cs@.skip(0) =~= cs@);
    while cs.len() - from >= 5 && cs[from] == 'g' && cs[from + 1] == 'i' && cs[from + 2] == 'o' && cs[from + 3] == ':' && cs[from + 4] == ' '
        invariant
            from <= cs@.len(),
            without_gio(cs@) == without_gio(cs@.skip(from as int)),
        decreases cs@.len() - from,
    {
        let ghost t = cs@.skip(from as int);
        proof {
            reveal_strlit("gio: ");
            assert("gio: "@ =~= seq!['g', 'i', 'o', ':', ' ']);
        }
        assert(t.take(5) =~= seq!['g', 'i', 'o', ':', ' ']);
        assert(without_gio(t) == without_gio(t.skip(5)));
        assert(t.skip(5) =~= cs@.skip(from + 5));
        from += 5;
    }
    proof {
        let t = cs@.skip(from as int);
        if t.len() >= 5 {
            assert(t.take(5)[0] == cs@[from as int]);
            assert(t.take(5)[1] == cs@[from + 1]);
            assert(t.take(5)[2] == cs@[from + 2]);
            assert(t.take(5)[3] == cs@[from + 3]);
            assert(t.take(5)[4] == cs@[from + 4]);
        }
    }
    let rest = string_of(cs, from, cs.len());
    assert(rest@ =~= cs@.skip(from as int));
    rest
}

/// What moving to the trash came to: `Err((missing, message))` when `gio`
/// could not be run (`missing` when it is not installed), else its exit
/// status and stderr.
pub fn trash(outcome: Result<(bool, String), (bool, String)>) -> (r: Result<(), String>)
    ensures
        match outcome {
            Err((true, _)) => r matches Err(m) && m@ == "install glib2 (gio) to move files to the trash"@,
            Err((false, e)) => r matches Err(m) && m@ == "could not run gio: "@ + e@,
            Ok((true, _)) => r is Ok,
            Ok((false, stderr)) => r matches Err(m) && m@ == "could not trash: "@ + trash_reason(stderr@),
        },
{
    match outcome {
        Err((true, _)) => Err(String::from_str("install glib2 (gio) to move files to the trash")),
        Err((false, e)) => Err(concat("could not run gio: ", e.as_str())),
        Ok((true, _)) => Ok(()),
        Ok((false, stderr)) => {
            let cs = chars_of(stderr.as_str());
            let ls = split_lines(&cs);
            let ghost lv = views(ls@);
            let why: Vec<char> = if ls.len() == 0 {
                chars_of("gio refused")
            } else {
                let last = &ls[ls.len() - 1];
                assert(last@.subrange(0, last@.len() as int) =~= last@);
                assert(lv.last() == last@);
                let (a, b) = trim_bounds(last, 0, last.len());
                crate::split::slice_chars(last, a, b)
            };
            let rest = strip_gio(&why);
            Err(concat("could not trash: ", rest.as_str()))
        },
    }
}

} // verus!
