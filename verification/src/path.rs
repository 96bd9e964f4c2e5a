//! Paths as the explorer handles them: strings of `/`-separated components,
//! with the parent, name, join and prefix rules of `std::path` on Unix.
//!
//! The parent and name rules are the ones `std::path::Path` follows for
//! paths without `.` components: trailing separators are not a component,
//! the parent of `/` is nothing, and the parent of a bare name is the empty
//! path. Comparing two paths, or asking whether one lies under another,
//! goes by their components, as `std::path` does: repeated separators and
//! interior `.` components do not count.

use vstd::prelude::*;
use crate::split::{first_index, lemma_first_index, pieces, split_pieces, views};
use crate::text::{chars_equal, chars_of, concat, push_char, string_of};

verus! {

pub open spec fn sep() -> char {
    '/'
}

/// `s` with its trailing separators removed.
pub open spec fn trim_end_seps(s: Seq<char>) -> Seq<char>
    decreases s.len(),
{
    if s.len() > 0 && s.last() == sep() {
        trim_end_seps(s.drop_last())
    } else {
        s
    }
}

/// The index of the last separator in `s`, or -1.
pub open spec fn rfind_sep(s: Seq<char>) -> int
    decreases s.len(),
{
    if s.len() == 0 {
        -1
    } else if s.last() == sep() {
        s.len() - 1
    } else {
        rfind_sep(s.drop_last())
    }
}

pub open spec fn root_path() -> Seq<char> {
    seq![sep()]
}

/// `Path::parent`: `None` for the root and the empty path, `""` for a bare
/// name, `/` for a top-level entry.
pub open spec fn parent_of(p: Seq<char>) -> Option<Seq<char>> {
    let q = trim_end_seps(p);
    if q.len() == 0 {
        None
    } else {
        let i = rfind_sep(q);
        if i < 0 {
            Some(Seq::<char>::empty())
        } else {
            let h = trim_end_seps(q.take(i));
            if h.len() == 0 {
                Some(root_path())
            } else {
                Some(h)
            }
        }
    }
}

/// `Path::file_name`: the last component, unless there is none or it is `..`.
pub open spec fn file_name_of(p: Seq<char>) -> Option<Seq<char>> {
    let q = trim_end_seps(p);
    let name = q.skip(rfind_sep(q) + 1);
    if name.len() == 0 || name == seq!['.', '.'] {
        None
    } else {
        Some(name)
    }
}

/// `Path::join`: an absolute `name` replaces the base, otherwise one separator
/// goes between them unless the base is empty or already ends in one.
pub open spec fn join_of(base: Seq<char>, name: Seq<char>) -> Seq<char> {
    if name.len() > 0 && name[0] == sep() {
        name
    } else if base.len() == 0 || base.last() == sep() {
        base + name
    } else {
        base.push(sep()) + name
    }
}

/// For paths in normal form (see [`canon`]): `base` is a whole-component
/// prefix of `p`, compared as text.
pub open spec fn text_starts_with(p: Seq<char>, base: Seq<char>) -> bool {
    let b = trim_end_seps(base);
    let q = trim_end_seps(p);
    if b.len() == 0 {
        base.len() == 0 || (p.len() > 0 && p[0] == sep())
    } else {
        q == b || (b.len() < q.len() && q.take(b.len() as int) == b && q[b.len() as int] == sep())
    }
}

/// `Path::ancestors().skip(1)`: the parent, its parent, and so on.
pub open spec fn strict_ancestors(p: Seq<char>) -> Seq<Seq<char>>
    decreases p.len(),
{
    match parent_of(p) {
        None => Seq::empty(),
        Some(q) => {
            if q.len() < p.len() {
                seq![q] + strict_ancestors(q)
            } else {
                Seq::empty()
            }
        },
    }
}

pub proof fn lemma_trim_len(s: Seq<char>)
    ensures
        trim_end_seps(s).len() <= s.len(),
        trim_end_seps(s) == s.take(trim_end_seps(s).len() as int),
        trim_end_seps(s).len() == 0 || trim_end_seps(s).last() != sep(),
    decreases s.len(),
{
    if s.len() > 0 && s.last() == sep() {
        lemma_trim_len(s.drop_last());
        assert(s.drop_last().take(trim_end_seps(s).len() as int) =~= s.take(trim_end_seps(s).len() as int));
    } else {
        assert(s.take(s.len() as int) =~= s);
    }
}

pub proof fn lemma_rfind(s: Seq<char>)
    ensures
        -1 <= rfind_sep(s) < s.len(),
        rfind_sep(s) >= 0 ==> s[rfind_sep(s)] == sep(),
        forall|j: int| rfind_sep(s) < j < s.len() ==> s[j] != sep(),
    decreases s.len(),
{
    if s.len() > 0 && s.last() != sep() {
        lemma_rfind(s.drop_last());
        assert forall|j: int| rfind_sep(s) < j < s.len() implies s[j] != sep() by {
            if j < s.len() - 1 {
                assert(s[j] == s.drop_last()[j]);
            }
        }
    }
}

/// A parent is always strictly shorter than the path it came from.
pub proof fn lemma_parent_shorter(p: Seq<char>)
    ensures
        parent_of(p) matches Some(q) ==> q.len() < p.len(),
{
    let q = trim_end_seps(p);
    lemma_trim_len(p);
    if q.len() > 0 {
        lemma_rfind(q);
        let i = rfind_sep(q);
        if i >= 0 {
            lemma_trim_len(q.take(i));
        }
    }
}

/// Length of `trim_end_seps(cs[..n])`.
pub fn trimmed_len(cs: &Vec<char>, n: usize) -> (r: usize)
    requires
        n <= cs@.len(),
    ensures
        r <= n,
        trim_end_seps(cs@.take(n as int)) == cs@.take(r as int),
{
    let mut k = n;
    while k > 0 && cs[k - 1] == '/'
        invariant
            k <= n <= cs@.len(),
            trim_end_seps(cs@.take(n as int)) == trim_end_seps(cs@.take(k as int)),
        decreases k,
    {
        assert(cs@.take(k as int).drop_last() =~= cs@.take(k - 1));
        k -= 1;
    }
    k
}

/// `rfind_sep(cs[..n])`, as an index.
fn rfind_sep_in(cs: &Vec<char>, n: usize) -> (r: Option<usize>)
    requires
        n <= cs@.len(),
    ensures
        match r {
            Some(i) => rfind_sep(cs@.take(n as int)) == i as int && i < n,
            None => rfind_sep(cs@.take(n as int)) == -1,
        },
{
    let mut k = n;
    while k > 0
        invariant
            k <= n <= cs@.len(),
            rfind_sep(cs@.take(n as int)) == rfind_sep(cs@.take(k as int)),
        decreases k,
    {
        assert(cs@.take(k as int).drop_last() =~= cs@.take(k - 1));
        if cs[k - 1] == '/' {
            return Some(k - 1);
        }
        k -= 1;
    }
    None
}

/// `Path::parent`.
pub fn parent(p: &str) -> (r: Option<String>)
    ensures
        match r {
            Some(s) => parent_of(p@) == Some(s@),
            None => parent_of(p@) is None,
        },
{
    let cs = chars_of(p);
    let n = trimmed_len(&cs, cs.len());
    assert(cs@.take(cs@.len() as int) =~= p@);
    if n == 0 {
        return None;
    }
    let ghost q = cs@.take(n as int);
    match rfind_sep_in(&cs, n) {
        None => Some(String::new()),
        Some(i) => {
            assert(q.take(i as int) =~= cs@.take(i as int));
            let h = trimmed_len(&cs, i);
            if h == 0 {
                let mut s = String::new();
                push_char(&mut s, '/');
                assert(s@ =~= root_path());
                Some(s)
            } else {
                let s = string_of(&cs, 0, h);
                assert(s@ =~= cs@.take(h as int));
                Some(s)
            }
        },
    }
}

/// `Path::file_name`.
pub fn file_name(p: &str) -> (r: Option<String>)
    ensures
        match r {
            Some(s) => file_name_of(p@) == Some(s@),
            None => file_name_of(p@) is None,
        },
{
    let cs = chars_of(p);
    assert(cs@.take(cs@.len() as int) =~= p@);
    let n = trimmed_len(&cs, cs.len());
    let ghost q = cs@.take(n as int);
    let start: usize = match rfind_sep_in(&cs, n) {
        None => 0,
        Some(i) => i + 1,
    };
    proof { lemma_rfind(q); }
    assert(q.skip(rfind_sep(q) + 1) =~= cs@.subrange(start as int, n as int));
    if start == n {
        return None;
    }
    if n - start == 2 && cs[start] == '.' && cs[start + 1] == '.' {
        assert(cs@.subrange(start as int, n as int) =~= seq!['.', '.']);
        return None;
    }
    let s = string_of(&cs, start, n);
    proof {
        if s@ == seq!['.', '.'] {
            assert(s@[0] == cs@[start as int]);
            assert(s@[1] == cs@[start + 1]);
        }
    }
    Some(s)
}

/// `Path::join`.
pub fn join(base: &str, name: &str) -> (r: String)
    ensures
        r@ == join_of(base@, name@),
{
    let b = chars_of(base);
    let n = chars_of(name);
    if n.len() > 0 && n[0] == '/' {
        return String::from_str(name);
    }
    if b.len() == 0 || b[b.len() - 1] == '/' {
        concat(base, name)
    } else {
        let mut s = String::from_str(base);
        push_char(&mut s, '/');
        s.append(name);
        s
    }
}

/// [`text_starts_with`], over whole components of the text.
pub fn starts_with_text(p: &str, base: &str) -> (r: bool)
    ensures
        r == text_starts_with(p@, base@),
{
    let pc = chars_of(p);
    let bc = chars_of(base);
    assert(pc@.take(pc@.len() as int) =~= p@);
    assert(bc@.take(bc@.len() as int) =~= base@);
    let bn = trimmed_len(&bc, bc.len());
    let pn = trimmed_len(&pc, pc.len());
    if bn == 0 {
        return bc.len() == 0 || (pc.len() > 0 && pc[0] == '/');
    }
    if bn > pn {
        return false;
    }
    let mut i: usize = 0;
    while i < bn
        invariant
            bn <= pn <= pc@.len(),
            bn <= bc@.len(),
            i <= bn,
            pc@ == p@,
            bc@ == base@,
            trim_end_seps(p@) == pc@.take(pn as int),
            trim_end_seps(base@) == bc@.take(bn as int),
            forall|j: int| 0 <= j < i ==> pc@[j] == bc@[j],
        decreases bn - i,
    {
        if pc[i] != bc[i] {
            proof {
                assert(pc@.take(pn as int).take(bn as int)[i as int] != bc@.take(bn as int)[i as int]);
                assert(pc@.take(pn as int)[i as int] != bc@.take(bn as int)[i as int]);
            }
            return false;
        }
        i += 1;
    }
    assert(pc@.take(pn as int).take(bn as int) =~= bc@.take(bn as int));
    if bn == pn {
        assert(pc@.take(pn as int) =~= bc@.take(bn as int));
        true
    } else {
        pc[bn] == '/'
    }
}

/// `p` begins at the root.
pub open spec fn is_absolute(p: Seq<char>) -> bool {
    p.len() > 0 && p[0] == sep()
}

pub open spec fn is_dot(s: Seq<char>) -> bool {
    s == seq!['.']
}

/// `cs` without its `.` pieces.
pub open spec fn without_dots(cs: Seq<Seq<char>>) -> Seq<Seq<char>>
    decreases cs.len(),
{
    if cs.len() == 0 {
        cs
    } else if is_dot(cs.last()) {
        without_dots(cs.drop_last())
    } else {
        without_dots(cs.drop_last()).push(cs.last())
    }
}

/// `Path::components` after the root: the pieces between separators, empty
/// ones and `.` dropped, except a `.` that begins a relative path.
pub open spec fn components(p: Seq<char>) -> Seq<Seq<char>> {
    let raw = pieces(p, sep());
    if !is_absolute(p) && raw.len() > 0 && is_dot(raw[0]) {
        seq![seq!['.']] + without_dots(raw.skip(1))
    } else {
        without_dots(raw)
    }
}

/// `cs` with one separator between each two.
pub open spec fn joined_path(cs: Seq<Seq<char>>) -> Seq<char>
    decreases cs.len(),
{
    if cs.len() == 0 {
        Seq::empty()
    } else if cs.len() == 1 {
        cs[0]
    } else {
        joined_path(cs.drop_last()) + seq![sep()] + cs.last()
    }
}

/// The normal form of a path: its root, if it has one, and its components
/// one separator apart. Two paths are the same path exactly when their
/// normal forms agree, as `Path`'s `==` compares components.
pub open spec fn canon(p: Seq<char>) -> Seq<char> {
    if is_absolute(p) { seq![sep()] + joined_path(components(p)) } else { joined_path(components(p)) }
}

/// `p` and `q` name the same path, component for component.
pub open spec fn same_path(a: Seq<char>, b: Seq<char>) -> bool {
    canon(a) == canon(b)
}

/// `Path::starts_with`: `base`'s components are a prefix of `p`'s.
pub open spec fn path_starts_with(p: Seq<char>, base: Seq<char>) -> bool {
    text_starts_with(canon(p), canon(base))
}

proof fn lemma_without_dots_push(cs: Seq<Seq<char>>, x: Seq<char>)
    ensures
        without_dots(cs.push(x)) == if is_dot(x) { without_dots(cs) } else { without_dots(cs).push(x) },
{
    assert(cs.push(x).drop_last() =~= cs);
}

proof fn lemma_joined_push(cs: Seq<Seq<char>>, x: Seq<char>)
    ensures
        joined_path(cs.push(x)) == if cs.len() == 0 { x } else { joined_path(cs) + seq![sep()] + x },
{
    assert(cs.push(x).drop_last() =~= cs);
}

/// The normal form of `p`.
pub fn canonical(p: &str) -> (r: String)
    ensures
        r@ == canon(p@),
{
    normal_parts(p).0
}

/// The normal form of `p`, and how many components it has.
fn normal_parts(p: &str) -> (r: (String, usize))
    ensures
        r.0@ == canon(p@),
        r.1 == components(p@).len(),
{
    let cs = chars_of(p);
    let raw = split_pieces(&cs, '/');
    let ghost rv = views(raw@);
    let abs = cs.len() > 0 && cs[0] == '/';
    let mut out = String::new();
    if abs {
        push_char(&mut out, '/');
    }
    let ghost prefix = out@;
    let dot = chars_of(".");
    proof {
        reveal_strlit(".");
        assert(dot@ =~= seq!['.']);
    }
    let lead = !abs && raw.len() > 0 && chars_equal(&raw[0], &dot);
    let ghost mut kept: Seq<Seq<char>> = Seq::empty();
    let mut start: usize = 0;
    let mut any = false;
    let mut count: usize = 0;
    if lead {
        any = true;
        count = 1;
        push_char(&mut out, '.');
        proof {
            kept = seq![seq!['.']];
            assert(out@ =~= prefix + joined_path(kept));
        }
        start = 1;
    }
    let ghost lead_part = kept;
    assert(rv.subrange(start as int, start as int) =~= Seq::<Seq<char>>::empty());
    let mut i: usize = start;
    while i < raw.len()
        invariant
            start <= i <= raw@.len(),
            rv == views(raw@),
            rv == pieces(p@, '/'),
            kept == lead_part + without_dots(rv.subrange(start as int, i as int)),
            out@ == prefix + joined_path(kept),
            any == (kept.len() > 0),
            count == kept.len(),
            kept.len() <= i,
            dot@ == seq!['.'],
        decreases raw@.len() - i,
    {
        let piece = &raw[i];
        let ghost before = kept;
        proof {
            assert(rv[i as int] == piece@);
            assert(rv.subrange(start as int, i + 1) =~= rv.subrange(start as int, i as int).push(piece@));
            lemma_without_dots_push(rv.subrange(start as int, i as int), piece@);
        }
        let ghost wd0 = without_dots(rv.subrange(start as int, i as int));
        if !chars_equal(piece, &dot) {
            let ghost out0 = out@;
            if any {
                push_char(&mut out, '/');
            }
            let mut k: usize = 0;
            let ghost base = out@;
            while k < piece.len()
                invariant
                    k <= piece@.len(),
                    out@ == base + piece@.take(k as int),
                decreases piece@.len() - k,
            {
                push_char(&mut out, piece[k]);
                k += 1;
                assert(out@ =~= base + piece@.take(k as int));
            }
            proof {
                assert(piece@.take(piece@.len() as int) =~= piece@);
                assert(!is_dot(piece@));
                assert(without_dots(rv.subrange(start as int, i + 1)) == wd0.push(piece@));
                kept = kept.push(piece@);
                assert(kept =~= lead_part + wd0.push(piece@));
                lemma_joined_push(before, piece@);
                assert(out@ =~= prefix + joined_path(kept));
            }
            any = true;
            count += 1;
        } else {
            proof {
                assert(is_dot(piece@));
                assert(without_dots(rv.subrange(start as int, i + 1)) == wd0);
            }
        }
        i += 1;
    }
    proof {
        assert(rv.subrange(start as int, rv.len() as int) =~= rv.skip(start as int));
        if !lead {
            assert(rv.skip(0) =~= rv);
            assert(lead_part + without_dots(rv) =~= without_dots(rv));
        }
    }
    (out, count)
}

/// `Path::starts_with`, over components.
pub fn starts_with_path(p: &str, base: &str) -> (r: bool)
    ensures
        r == path_starts_with(p@, base@),
{
    let a = canonical(p);
    let b = canonical(base);
    starts_with_text(a.as_str(), b.as_str())
}

/// Whether `a` and `b` name the same path, component for component.
pub fn same_place(a: &str, b: &str) -> (r: bool)
    ensures
        r == same_path(a@, b@),
{
    let x = canonical(a);
    let y = canonical(b);
    chars_equal(&chars_of(x.as_str()), &chars_of(y.as_str()))
}

/// A piece between separators: not empty, with no separator in it.
pub open spec fn clean_piece(x: Seq<char>) -> bool {
    x.len() > 0 && forall|j: int| 0 <= j < x.len() ==> x[j] != sep()
}

/// A path in normal form's shape: no two separators in a row, and no
/// trailing one but for the root itself.
pub open spec fn tidy(s: Seq<char>) -> bool {
    &&& forall|j: int| 0 <= j < s.len() - 1 ==> !(s[j] == sep() && #[trigger] s[j + 1] == sep())
    &&& s.len() > 1 ==> s.last() != sep()
}

proof fn lemma_pieces_clean(s: Seq<char>)
    ensures
        forall|k: int| 0 <= k < pieces(s, sep()).len() ==> clean_piece(#[trigger] pieces(s, sep())[k]),
    decreases s.len(),
{
    lemma_first_index(s, sep());
    let i = first_index(s, sep());
    if i >= 0 && i < s.len() {
        lemma_pieces_clean(s.skip(i + 1));
        let rest = pieces(s.skip(i + 1), sep());
        if i > 0 {
            let all = seq![s.take(i)] + rest;
            assert forall|k: int| 0 <= k < all.len() implies clean_piece(#[trigger] all[k]) by {
                if k > 0 {
                    assert(all[k] == rest[k - 1]);
                }
            }
        }
    }
}

proof fn lemma_without_dots_clean(cs: Seq<Seq<char>>)
    requires
        forall|k: int| 0 <= k < cs.len() ==> clean_piece(#[trigger] cs[k]),
    ensures
        forall|k: int| 0 <= k < without_dots(cs).len() ==> clean_piece(#[trigger] without_dots(cs)[k]),
    decreases cs.len(),
{
    if cs.len() > 0 {
        let init = cs.drop_last();
        assert forall|k: int| 0 <= k < init.len() implies clean_piece(#[trigger] init[k]) by {
            assert(init[k] == cs[k]);
        }
        lemma_without_dots_clean(init);
        if !is_dot(cs.last()) {
            let w = without_dots(init).push(cs.last());
            assert forall|k: int| 0 <= k < w.len() implies clean_piece(#[trigger] w[k]) by {
                if k < w.len() - 1 {
                    assert(w[k] == without_dots(init)[k]);
                }
            }
        }
    }
}

proof fn lemma_components_clean(p: Seq<char>)
    ensures
        forall|k: int| 0 <= k < components(p).len() ==> clean_piece(#[trigger] components(p)[k]),
{
    let raw = pieces(p, sep());
    lemma_pieces_clean(p);
    if !is_absolute(p) && raw.len() > 0 && is_dot(raw[0]) {
        let t = raw.skip(1);
        assert forall|k: int| 0 <= k < t.len() implies clean_piece(#[trigger] t[k]) by {
            assert(t[k] == raw[k + 1]);
        }
        lemma_without_dots_clean(t);
        let all = seq![seq!['.']] + without_dots(t);
        assert forall|k: int| 0 <= k < all.len() implies clean_piece(#[trigger] all[k]) by {
            if k > 0 {
                assert(all[k] == without_dots(t)[k - 1]);
            }
        }
    } else {
        lemma_without_dots_clean(raw);
    }
}

proof fn lemma_joined_tidy(cs: Seq<Seq<char>>)
    requires
        forall|k: int| 0 <= k < cs.len() ==> clean_piece(#[trigger] cs[k]),
    ensures
        tidy(joined_path(cs)),
        cs.len() > 0 ==> joined_path(cs).len() > 0 && joined_path(cs)[0] != sep() && joined_path(cs).last() != sep(),
    decreases cs.len(),
{
    if cs.len() == 1 {
        assert(clean_piece(cs[0]));
    } else if cs.len() > 1 {
        let init = cs.drop_last();
        assert forall|k: int| 0 <= k < init.len() implies clean_piece(#[trigger] init[k]) by {
            assert(init[k] == cs[k]);
        }
        lemma_joined_tidy(init);
        let a = joined_path(init);
        let x = cs.last();
        assert(clean_piece(cs[cs.len() - 1]));
        let j = a + seq![sep()] + x;
        assert(j == joined_path(cs));
        assert forall|t: int| 0 <= t < j.len() - 1 implies !(j[t] == sep() && #[trigger] j[t + 1] == sep()) by {
            if t < a.len() - 1 {
                assert(j[t] == a[t] && j[t + 1] == a[t + 1]);
            } else if t == a.len() - 1 {
                assert(j[t] == a.last());
            } else if t == a.len() {
                assert(j[t + 1] == x[0]);
            } else {
                assert(j[t + 1] == x[t + 1 - a.len() - 1]);
            }
        }
        assert(j.last() == x.last());
        assert(j[0] == a[0]);
    }
}

/// The normal form has the shape of one.
pub proof fn lemma_canon_tidy(p: Seq<char>)
    ensures
        tidy(canon(p)),
        is_absolute(p) ==> is_absolute(canon(p)),
        !is_absolute(p) ==> !is_absolute(canon(p)),
{
    lemma_components_clean(p);
    lemma_joined_tidy(components(p));
    let j = joined_path(components(p));
    if is_absolute(p) {
        let c = seq![sep()] + j;
        assert forall|t: int| 0 <= t < c.len() - 1 implies !(c[t] == sep() && #[trigger] c[t + 1] == sep()) by {
            if t == 0 {
                assert(c[1] == j[0]);
            } else {
                assert(c[t] == j[t - 1] && c[t + 1] == j[t]);
                let u = t - 1;
                assert(!(j[u] == sep() && j[u + 1] == sep()));
            }
        }
        if j.len() > 0 {
            assert(c.last() == j.last());
        }
    }
}

proof fn lemma_trim_tidy(s: Seq<char>)
    requires
        tidy(s),
        !(s.len() == 1 && s[0] == sep()),
    ensures
        trim_end_seps(s) == s,
{
}

proof fn lemma_prefix_tidy(s: Seq<char>, i: int)
    requires
        tidy(s),
        0 < i <= s.len(),
        s[i - 1] != sep(),
    ensures
        tidy(s.take(i)),
{
    let h = s.take(i);
    assert forall|j: int| 0 <= j < h.len() - 1 implies !(h[j] == sep() && #[trigger] h[j + 1] == sep()) by {
        assert(h[j] == s[j] && h[j + 1] == s[j + 1]);
    }
}

/// The parent of a path in normal form is in normal form too.
pub proof fn lemma_parent_tidy(s: Seq<char>)
    requires
        tidy(s),
    ensures
        parent_of(s) matches Some(h) ==> tidy(h),
{
    if s.len() == 1 && s[0] == sep() {
        assert(trim_end_seps(s) == trim_end_seps(s.drop_last()));
        assert(parent_of(s) is None);
    } else if s.len() > 0 {
        lemma_trim_tidy(s);
        lemma_rfind(s);
        let i = rfind_sep(s);
        if i > 0 {
            if s[i - 1] == sep() {
                let u = i - 1;
                assert(s[u] == sep() && s[u + 1] == sep());
            }
            lemma_prefix_tidy(s, i);
            assert(trim_end_seps(s.take(i)) == s.take(i));
            assert(parent_of(s) == Some(s.take(i)));
        } else if i == 0 {
            assert(s.take(0) =~= Seq::<char>::empty());
            assert(parent_of(s) == Some(root_path()));
        } else {
            assert(parent_of(s) == Some(Seq::<char>::empty()));
        }
    }
}

/// Everything above a path is shorter than it.
pub proof fn lemma_ancestors_shorter(p: Seq<char>)
    ensures
        forall|k: int| 0 <= k < strict_ancestors(p).len() ==> (#[trigger] strict_ancestors(p)[k]).len() < p.len(),
    decreases p.len(),
{
    lemma_parent_shorter(p);
    if let Some(q) = parent_of(p) {
        if q.len() < p.len() {
            lemma_ancestors_shorter(q);
            let all = strict_ancestors(p);
            assert forall|k: int| 0 <= k < all.len() implies (#[trigger] all[k]).len() < p.len() by {
                if k > 0 {
                    assert(all[k] == strict_ancestors(q)[k - 1]);
                }
            }
        }
    }
}

/// Going up from a path in normal form that lies strictly inside `root`
/// stays inside `root`.
pub proof fn lemma_parent_stays_inside(a: Seq<char>, root: Seq<char>)
    requires
        tidy(a),
        tidy(root),
        text_starts_with(a, root),
        a != root,
        parent_of(a) is Some,
    ensures
        text_starts_with(parent_of(a)->0, root),
{
    let h = parent_of(a)->0;
    lemma_parent_tidy(a);
    if root.len() == 0 {
    } else if root.len() == 1 && root[0] == sep() {
        assert(root.drop_last() =~= Seq::<char>::empty());
        assert(trim_end_seps(root) == trim_end_seps(root.drop_last()));
        assert(trim_end_seps(root).len() == 0);
        assert(a.len() > 0 && a[0] == sep());
        if a.len() == 1 {
            assert(a.drop_last() =~= Seq::<char>::empty());
            assert(trim_end_seps(a) == trim_end_seps(a.drop_last()));
            assert(parent_of(a) is None);
        }
        if a.len() > 1 {
            lemma_trim_tidy(a);
            lemma_rfind(a);
            let i = rfind_sep(a);
            if i > 0 {
                if a[i - 1] == sep() {
                    let u = i - 1;
                    assert(a[u] == sep() && a[u + 1] == sep());
                }
                lemma_prefix_tidy(a, i);
                assert(trim_end_seps(a.take(i)) == a.take(i));
                assert(h == a.take(i));
                assert(h[0] == a[0]);
            } else {
                assert(a.take(0) =~= Seq::<char>::empty());
                assert(h == root_path());
            }
        }
    } else {
        lemma_trim_tidy(root);
        if a.len() == 1 && a[0] == sep() {
            assert(trim_end_seps(a) == trim_end_seps(a.drop_last()));
            assert(false);
        }
        lemma_trim_tidy(a);
        let n = root.len() as int;
        assert(n < a.len() && a.take(n) == root && a[n] == sep());
        lemma_rfind(a);
        let i = rfind_sep(a);
        assert(i >= n);
        if i == n {
            assert(a.take(i) =~= root);
            assert(h == root);
        } else {
            if a[i - 1] == sep() {
                let u = i - 1;
                assert(a[u] == sep() && a[u + 1] == sep());
            }
            lemma_prefix_tidy(a, i);
            assert(trim_end_seps(a.take(i)) == a.take(i));
            assert(h == a.take(i));
            assert(h.take(n) =~= root);
            lemma_trim_tidy(h);
        }
    }
}

/// A path shorter than `root` (in normal form, neither empty nor the root
/// directory) does not lie inside it.
pub proof fn lemma_shorter_not_inside(d: Seq<char>, root: Seq<char>)
    requires
        tidy(root),
        root.len() > 0,
        !(root.len() == 1 && root[0] == sep()),
        d.len() < root.len(),
    ensures
        !text_starts_with(d, root),
{
    lemma_trim_tidy(root);
    lemma_trim_len(d);
}

/// The text left once the separators and `.` pieces at its front are gone,
/// as `Components` trims the front of what is left of a path.
pub open spec fn trim_front(s: Seq<char>) -> Seq<char>
    decreases s.len(),
{
    if s.len() > 0 && s[0] == sep() {
        trim_front(s.skip(1))
    } else if s.len() == 1 && s[0] == '.' {
        Seq::empty()
    } else if s.len() >= 2 && s[0] == '.' && s[1] == sep() {
        trim_front(s.skip(2))
    } else {
        s
    }
}

/// The same at the back, never cutting into the first `floor` characters.
pub open spec fn trim_back(s: Seq<char>, floor: nat) -> Seq<char>
    decreases s.len(),
{
    if s.len() <= floor {
        s
    } else if s.last() == sep() {
        trim_back(s.drop_last(), floor)
    } else if s.len() == 1 && s[0] == '.' {
        Seq::empty()
    } else if s.len() >= 2 && s.last() == '.' && s[s.len() - 2] == sep() {
        trim_back(s.drop_last(), floor)
    } else {
        s
    }
}

/// The text after the first `k` components of `s`, each with the
/// separator after it.
pub open spec fn skip_components(s: Seq<char>, k: nat) -> Seq<char>
    decreases k,
{
    if k == 0 {
        s
    } else {
        let t = trim_front(s);
        let i = first_index(t, sep());
        if i < 0 { Seq::empty() } else { skip_components(t.skip(i + 1), (k - 1) as nat) }
    }
}

/// A relative path that begins with a `.` component.
pub open spec fn leads_with_dot(p: Seq<char>) -> bool {
    !is_absolute(p) && pieces(p, sep()).len() > 0 && is_dot(pieces(p, sep())[0])
}

/// `Path::strip_prefix`: when `base`'s components begin `p`'s, the text of
/// `p` after them, trimmed of separators and `.` pieces at both ends. A
/// base with no components leaves `p` whole but for its end, where its
/// root and a leading `.` stay.
pub open spec fn strip_path_prefix(p: Seq<char>, base: Seq<char>) -> Option<Seq<char>> {
    if !path_starts_with(p, base) {
        None
    } else {
        let k = components(base).len();
        if !is_absolute(base) && k == 0 {
            Some(trim_back(p, (if is_absolute(p) || leads_with_dot(p) { 1nat } else { 0nat })))
        } else {
            let rest = if is_absolute(p) {
                skip_components(p.skip(1), k)
            } else if leads_with_dot(p) {
                skip_components(p.skip(1), (k - 1) as nat)
            } else {
                skip_components(p, k)
            };
            Some(trim_back(trim_front(rest), 0))
        }
    }
}

/// Where `trim_front(cs[from..])` begins.
fn front_start(cs: &Vec<char>, from: usize) -> (r: usize)
    requires
        from <= cs@.len(),
    ensures
        from <= r <= cs@.len(),
        trim_front(cs@.skip(from as int)) == cs@.skip(r as int),
{
    let mut i = from;
    while i < cs.len()
        invariant
            from <= i <= cs@.len(),
            trim_front(cs@.skip(from as int)) == trim_front(cs@.skip(i as int)),
        decreases cs@.len() - i,
    {
        let ghost t = cs@.skip(i as int);
        if cs[i] == '/' {
            assert(t.skip(1) =~= cs@.skip(i + 1));
            i += 1;
        } else if cs[i] == '.' && i + 1 == cs.len() {
            assert(t.len() == 1);
            assert(cs@.skip(cs@.len() as int) =~= Seq::<char>::empty());
            return cs.len();
        } else if cs[i] == '.' && i + 1 < cs.len() && cs[i + 1] == '/' {
            assert(t.skip(2) =~= cs@.skip(i + 2));
            i += 2;
        } else {
            return i;
        }
    }
    i
}

/// Where `trim_back(cs[from..to], floor)` ends.
fn back_end(cs: &Vec<char>, from: usize, to: usize, floor: usize) -> (r: usize)
    requires
        from <= to <= cs@.len(),
    ensures
        from <= r <= to,
        trim_back(cs@.subrange(from as int, to as int), floor as nat) == cs@.subrange(from as int, r as int),
{
    let mut j = to;
    while j > from && j - from > floor
        invariant
            from <= j <= to <= cs@.len(),
            trim_back(cs@.subrange(from as int, to as int), floor as nat) == trim_back(cs@.subrange(from as int, j as int), floor as nat),
        decreases j,
    {
        let ghost t = cs@.subrange(from as int, j as int);
        if cs[j - 1] == '/' {
            assert(t.drop_last() =~= cs@.subrange(from as int, j - 1));
            j -= 1;
        } else if cs[j - 1] == '.' && j - 1 == from {
            assert(t.len() == 1 && t[0] == '.');
            assert(cs@.subrange(from as int, from as int) =~= Seq::<char>::empty());
            return from;
        } else if cs[j - 1] == '.' && j >= from + 2 && cs[j - 2] == '/' {
            assert(t.drop_last() =~= cs@.subrange(from as int, j - 1));
            j -= 1;
        } else {
            return j;
        }
    }
    j
}

/// Where the text after the first `k` components of `cs[from..]` begins.
fn skip_start(cs: &Vec<char>, from: usize, k: usize) -> (r: usize)
    requires
        from <= cs@.len(),
    ensures
        r <= cs@.len(),
        skip_components(cs@.skip(from as int), k as nat) == cs@.skip(r as int),
{
    let mut at = from;
    let mut left = k;
    while left > 0
        invariant
            at <= cs@.len(),
            skip_components(cs@.skip(from as int), k as nat) == skip_components(cs@.skip(at as int), left as nat),
        decreases left,
    {
        let start = front_start(cs, at);
        let mut i = start;
        while i < cs.len() && cs[i] != '/'
            invariant
                start <= i <= cs@.len(),
                forall|j: int| start <= j < i ==> cs@[j] != '/',
            decreases cs@.len() - i,
        {
            i += 1;
        }
        let ghost t = cs@.skip(start as int);
        proof {
            assert forall|j: int| 0 <= j < i - start implies t[j] != '/' by {
                assert(t[j] == cs@[start + j]);
            }
            crate::split::lemma_first_index_at(t, '/', i - start);
        }
        if i == cs.len() {
            assert(cs@.skip(cs@.len() as int) =~= Seq::<char>::empty());
            assert(skip_components(cs@.skip(at as int), left as nat) == Seq::<char>::empty());
            if left > 1 {
                proof { lemma_skip_empty((left - 1) as nat); }
            }
            return cs.len();
        }
        assert(t.skip(i - start + 1) =~= cs@.skip(i + 1));
        at = i + 1;
        left -= 1;
    }
    at
}

proof fn lemma_skip_empty(k: nat)
    ensures
        skip_components(Seq::empty(), k) == Seq::<char>::empty(),
    decreases k,
{
    if k > 0 {
        assert(trim_front(Seq::<char>::empty()) == Seq::<char>::empty());
        crate::split::lemma_first_index(Seq::<char>::empty(), sep());
    }
}

/// Whether `cs`, a relative path, begins with a `.` component.
fn leads_dot(cs: &Vec<char>) -> (r: bool)
    ensures
        r == leads_with_dot(cs@),
{
    let ghost p = cs@;
    proof {
        lemma_first_index(p, sep());
    }
    if cs.len() == 0 {
        assert(pieces(p, sep()) =~= Seq::<Seq<char>>::empty());
        return false;
    }
    if cs[0] == '/' {
        return false;
    }
    let r = cs[0] == '.' && (cs.len() == 1 || cs[1] == '/');
    proof {
        let i = first_index(p, sep());
        assert(p[0] != sep());
        assert(i != 0);
        if i < 0 {
            assert(pieces(p, sep()) == seq![p]);
            assert(pieces(p, sep())[0] == p);
            if cs@.len() > 1 {
                assert(p[1] != sep());
            }
            if r {
                assert(p =~= seq!['.']);
            }
            if is_dot(p) {
                assert(p.len() == 1 && p[0] == '.');
            }
        } else {
            let rest = pieces(p.skip(i + 1), sep());
            assert(pieces(p, sep()) == seq![p.take(i)] + rest);
            assert(pieces(p, sep())[0] == p.take(i));
            assert(p[i] == sep());
            if r {
                assert(p.len() > 1);
                assert(p[1] == sep());
                assert(i <= 1);
                assert(i == 1);
                assert(p.take(i) =~= seq!['.']);
            }
            if is_dot(p.take(i)) {
                assert(p.take(i).len() == 1);
                assert(i == 1);
                assert(p[0] == p.take(i)[0]);
                assert(p[1] == sep());
            }
        }
    }
    r
}

/// `Path::strip_prefix`: the text of `p` after `base`'s components, trimmed
/// of separators and `.` pieces at both ends; `None` when `base` is not a
/// whole-component prefix of `p`.
pub fn strip_path(p: &str, base: &str) -> (r: Option<String>)
    ensures
        match r {
            Some(rest) => strip_path_prefix(p@, base@) == Some(rest@),
            None => strip_path_prefix(p@, base@) is None,
        },
{
    if !starts_with_path(p, base) {
        return None;
    }
    let (_, k) = normal_parts(base);
    let bc = chars_of(base);
    let cs = chars_of(p);
    let base_abs = bc.len() > 0 && bc[0] == '/';
    if !base_abs && k == 0 {
        let floor: usize = if (cs.len() > 0 && cs[0] == '/') || leads_dot(&cs) { 1 } else { 0 };
        let e = back_end(&cs, 0, cs.len(), floor);
        assert(cs@.subrange(0, cs@.len() as int) =~= cs@);
        let out = string_of(&cs, 0, e);
        return Some(out);
    }
    let from = if cs.len() > 0 && cs[0] == '/' {
        skip_start(&cs, 1, k)
    } else if leads_dot(&cs) {
        proof {
            if k == 0 {
                // a base with no components is relative, handled above; an
                // absolute base only prefixes absolute paths
                assert(base_abs);
                assert(is_absolute(base@));
                assert(canon(base@) =~= seq!['/']);
                crate::path::lemma_canon_tidy(p@);
                assert(!is_absolute(p@));
                assert(trim_end_seps(canon(base@)) == trim_end_seps(canon(base@).drop_last()));
                assert(canon(base@).drop_last() =~= Seq::<char>::empty());
                assert(false);
            }
        }
        skip_start(&cs, 1, k - 1)
    } else {
        assert(cs@.skip(0) =~= cs@);
        skip_start(&cs, 0, k)
    };
    let a = front_start(&cs, from);
    let e = back_end(&cs, a, cs.len(), 0);
    assert(cs@.skip(a as int) =~= cs@.subrange(a as int, cs@.len() as int));
    let out = string_of(&cs, a, e);
    Some(out)
}

} // verus!
