//! Network locations, for the sidebar's NETWORK section.
//!
//! Mounting is GVfs's: `gio mount <uri>` does it, and the mount surfaces as
//! a directory under `$XDG_RUNTIME_DIR/gvfs/`, browsable like any other path.
//! This module names the locations, recognises a URI worth saving, finds
//! which of GVfs's directories a mount landed in, and words what `gio` said.

use vstd::prelude::*;
use crate::diff::{trim_bounds, trim_ws};
use crate::path::{join, join_of};
use crate::split::{pieces, split_pieces, views};
use crate::text::{chars_of, concat, concat3, has_at, matches_at, string_of};

verus! {

#[derive(Debug, PartialEq, Eq)]
pub struct Location {
    /// A label; derived from the URI when the user gives none.
    pub name: String,
    /// `smb://host/share`, `sftp://user@host/path`, `dav(s)://…`, `ftp://…`.
    pub uri: String,
}

/// Index of the first `://` in `s`, or -1.
pub open spec fn scheme_end(s: Seq<char>) -> int
    decreases s.len(),
{
    if s.len() < 3 {
        -1
    } else if s[0] == ':' && s[1] == '/' && s[2] == '/' {
        0
    } else {
        let k = scheme_end(s.skip(1));
        if k < 0 { -1 } else { k + 1 }
    }
}

/// Index of the first `c` in `s`, or -1.
pub open spec fn first_of(s: Seq<char>, c: char) -> int
    decreases s.len(),
{
    if s.len() == 0 {
        -1
    } else if s[0] == c {
        0
    } else {
        let k = first_of(s.skip(1), c);
        if k < 0 { -1 } else { k + 1 }
    }
}

/// Index of the last `c` in `s`, or -1.
pub open spec fn last_of(s: Seq<char>, c: char) -> int
    decreases s.len(),
{
    if s.len() == 0 {
        -1
    } else if s.last() == c {
        s.len() - 1
    } else {
        last_of(s.drop_last(), c)
    }
}

/// What follows the scheme, or the whole text when there is none.
pub open spec fn after_scheme(uri: Seq<char>) -> Seq<char> {
    if scheme_end(uri) >= 0 { uri.skip(scheme_end(uri) + 3) } else { uri }
}

/// The authority: up to the first `/`.
pub open spec fn authority_of(rest: Seq<char>) -> Seq<char> {
    if first_of(rest, '/') >= 0 { rest.take(first_of(rest, '/')) } else { rest }
}

/// The path after the authority's `/`, empty when there is none.
pub open spec fn path_of(rest: Seq<char>) -> Seq<char> {
    if first_of(rest, '/') >= 0 { rest.skip(first_of(rest, '/') + 1) } else { Seq::empty() }
}

/// The authority without its `user@` — a credential, not an identity.
pub open spec fn without_user(authority: Seq<char>) -> Seq<char> {
    if last_of(authority, '@') >= 0 { authority.skip(last_of(authority, '@') + 1) } else { authority }
}

/// The first non-empty segment of a path, if any: a share's name.
pub open spec fn first_segment(path: Seq<char>) -> Option<Seq<char>> {
    if pieces(path, '/').len() > 0 { Some(pieces(path, '/')[0]) } else { None }
}

/// A label a person would use: `share on host` for a share, `host` alone
/// otherwise.
pub open spec fn name_for(uri: Seq<char>) -> Seq<char> {
    let rest = after_scheme(uri);
    let host = without_user(authority_of(rest));
    match first_segment(path_of(rest)) {
        Some(share) => share + " on "@ + host,
        None => host,
    }
}

/// The host inside a URI, port dropped: what a GVfs mount directory names
/// itself after. `None` without a scheme or with an empty host.
pub open spec fn host_spec(uri: Seq<char>) -> Option<Seq<char>> {
    if scheme_end(uri) < 0 {
        None
    } else {
        let h = without_user(authority_of(uri.skip(scheme_end(uri) + 3)));
        let host = if first_of(h, ':') >= 0 { h.take(first_of(h, ':')) } else { h };
        if host.len() == 0 { None } else { Some(host) }
    }
}

/// A scheme and a host, nothing more: the sanity check before saving.
pub open spec fn uri_like(text: Seq<char>) -> bool {
    scheme_end(text) > 0 && host_spec(text) is Some
}

fn scheme_end_in(cs: &Vec<char>) -> (r: Option<usize>)
    ensures
        match r {
            Some(i) => scheme_end(cs@) == i && i + 3 <= cs@.len(),
            None => scheme_end(cs@) == -1,
        },
{
    let mut i: usize = 0;
    assert(cs@.skip(0) =~= cs@);
    while i < cs.len() && cs.len() - i > 2
        invariant
            i <= cs@.len(),
            scheme_end(cs@) == (if scheme_end(cs@.skip(i as int)) < 0 { -1 } else { scheme_end(cs@.skip(i as int)) + i }),
        decreases cs@.len() - i,
    {
        if cs[i] == ':' && cs[i + 1] == '/' && cs[i + 2] == '/' {
            assert(cs@.skip(i as int)[0] == ':' && cs@.skip(i as int)[1] == '/' && cs@.skip(i as int)[2] == '/');
            return Some(i);
        }
        assert(cs@.skip(i as int).skip(1) =~= cs@.skip(i + 1));
        i += 1;
    }
    None
}

/// First index of `c` in `cs[from..to]`, relative to `from`.
fn first_of_in(cs: &Vec<char>, from: usize, to: usize, c: char) -> (r: Option<usize>)
    requires
        from <= to <= cs@.len(),
    ensures
        match r {
            Some(k) => first_of(cs@.subrange(from as int, to as int), c) == k && from + k < to,
            None => first_of(cs@.subrange(from as int, to as int), c) == -1,
        },
{
    let ghost s = cs@.subrange(from as int, to as int);
    let mut i = from;
    assert(s.skip(0) =~= s);
    while i < to
        invariant
            from <= i <= to <= cs@.len(),
            s == cs@.subrange(from as int, to as int),
            first_of(s, c) == (if first_of(s.skip(i - from), c) < 0 { -1 } else { first_of(s.skip(i - from), c) + (i - from) }),
        decreases to - i,
    {
        assert(s.skip(i - from)[0] == cs@[i as int]);
        if cs[i] == c {
            return Some(i - from);
        }
        assert(s.skip(i - from).skip(1) =~= s.skip(i - from + 1));
        i += 1;
    }
    None
}

/// Last index of `c` in `cs[from..to]`, relative to `from`.
fn last_of_in(cs: &Vec<char>, from: usize, to: usize, c: char) -> (r: Option<usize>)
    requires
        from <= to <= cs@.len(),
    ensures
        match r {
            Some(k) => last_of(cs@.subrange(from as int, to as int), c) == k && from + k < to,
            None => last_of(cs@.subrange(from as int, to as int), c) == -1,
        },
{
    let mut k = to;
    while k > from
        invariant
            from <= k <= to <= cs@.len(),
            last_of(cs@.subrange(from as int, to as int), c) == last_of(cs@.subrange(from as int, k as int), c),
        decreases k,
    {
        if cs[k - 1] == c {
            return Some(k - 1 - from);
        }
        assert(cs@.subrange(from as int, k as int).drop_last() =~= cs@.subrange(from as int, k - 1));
        k -= 1;
    }
    None
}

/// The pieces of a URI as bounds into its characters: where the part after
/// the scheme starts, where the authority ends, and where the host (without
/// its `user@`) starts.
fn split_uri(cs: &Vec<char>) -> (r: (usize, usize, usize))
    ensures
        r.0 <= r.2 <= r.1 <= cs@.len(),
        cs@.skip(r.0 as int) == after_scheme(cs@),
        cs@.subrange(r.0 as int, r.1 as int) == authority_of(after_scheme(cs@)),
        cs@.subrange(r.2 as int, r.1 as int) == without_user(authority_of(after_scheme(cs@))),
        path_of(after_scheme(cs@)) == if r.1 < cs@.len() { cs@.skip(r.1 + 1) } else { Seq::<char>::empty() },
{
    let start = match scheme_end_in(cs) {
        Some(i) => {
            let n = cs.len();
            assert(i + 3 <= n);
            i + 3
        },
        None => 0,
    };
    let n = cs.len();
    assert(cs@.skip(start as int) =~= cs@.subrange(start as int, n as int));
    assert(start == 0 ==> cs@.skip(0) =~= cs@);
    let end = match first_of_in(cs, start, n, '/') {
        Some(k) => start + k,
        None => n,
    };
    proof {
        let rest = cs@.subrange(start as int, n as int);
        if end < n {
            assert(rest.take(end - start) =~= cs@.subrange(start as int, end as int));
            assert(rest.skip(end - start + 1) =~= cs@.skip(end + 1));
        }
    }
    let host = match last_of_in(cs, start, end, '@') {
        Some(k) => start + k + 1,
        None => start,
    };
    proof {
        let a = cs@.subrange(start as int, end as int);
        if host > start {
            assert(a.skip(host - start) =~= cs@.subrange(host as int, end as int));
        }
    }
    (start, end, host)
}

/// A label a person would use for `uri`.
pub fn derive_name(uri: &str) -> (r: String)
    ensures
        r@ == name_for(uri@),
{
    let cs = chars_of(uri);
    let (_start, end, host_from) = split_uri(&cs);
    let host = string_of(&cs, host_from, end);
    let path = if end < cs.len() { crate::split::slice_chars(&cs, end + 1, cs.len()) } else { Vec::new() };
    assert(end < cs@.len() ==> path@ =~= cs@.skip(end + 1));
    let parts = split_pieces(&path, '/');
    if parts.len() > 0 {
        assert(views(parts@)[0] == parts@[0]@);
        let share = string_of(&parts[0], 0, parts[0].len());
        assert(parts@[0]@.subrange(0, parts@[0]@.len() as int) =~= parts@[0]@);
        concat3(share.as_str(), " on ", host.as_str())
    } else {
        host
    }
}

/// The host inside a URI.
pub fn host_of(uri: &str) -> (r: Option<String>)
    ensures
        match r {
            Some(h) => host_spec(uri@) == Some(h@),
            None => host_spec(uri@) is None,
        },
{
    let cs = chars_of(uri);
    if scheme_end_in(&cs).is_none() {
        return None;
    }
    let (_start, end, host_from) = split_uri(&cs);
    let stop = match first_of_in(&cs, host_from, end, ':') {
        Some(k) => host_from + k,
        None => end,
    };
    proof {
        let h = cs@.subrange(host_from as int, end as int);
        if stop < end {
            assert(h.take(stop - host_from) =~= cs@.subrange(host_from as int, stop as int));
        }
    }
    if stop == host_from {
        return None;
    }
    Some(string_of(&cs, host_from, stop))
}

/// A quick sanity check before saving: a scheme and a host, nothing more.
pub fn looks_like_uri(text: &str) -> (r: bool)
    ensures
        r == uri_like(text@),
{
    let cs = chars_of(text);
    match scheme_end_in(&cs) {
        Some(i) => i > 0 && host_of(text).is_some(),
        None => false,
    }
}

pub open spec fn contains_text(hay: Seq<char>, needle: Seq<char>) -> bool {
    exists|i: int| #[trigger] has_at(hay, i, needle)
}

pub(crate) fn contains(hay: &str, needle: &str) -> (r: bool)
    ensures
        r == contains_text(hay@, needle@),
{
    let h = chars_of(hay);
    let n = chars_of(needle);
    let mut i: usize = 0;
    while i < h.len()
        invariant
            i <= h@.len(),
            h@ == hay@,
            n@ == needle@,
            forall|j: int| 0 <= j < i ==> !has_at(hay@, j, needle@),
        decreases h@.len() - i,
    {
        if matches_at(&h, i, &n) {
            return true;
        }
        i += 1;
    }
    if matches_at(&h, i, &n) {
        return true;
    }
    assert forall|j: int| !has_at(hay@, j, needle@) by {
        if 0 <= j && j <= h@.len() {
            assert(!has_at(hay@, j, needle@));
        }
    }
    false
}

/// Whether a GVfs directory called `name` is the mount of `host` (and of
/// `share`, for a share): GVfs names them from the scheme, host and share,
/// so matching on those avoids reimplementing its escaping rules.
pub open spec fn names_mount(name: Seq<char>, host: Seq<char>, share: Seq<char>) -> bool {
    contains_text(name, "host="@ + host)
        || (contains_text(name, "server="@ + host) && (share.len() == 0 || contains_text(name, "share="@ + share)))
}

/// The share a URI names: the first path segment, or nothing.
pub open spec fn share_of(uri: Seq<char>) -> Seq<char> {
    if scheme_end(uri) >= 0 && first_of(after_scheme(uri), '/') >= 0 {
        match first_segment(path_of(after_scheme(uri))) {
            Some(s) => s,
            None => Seq::empty(),
        }
    } else {
        Seq::empty()
    }
}

/// The first of `names` that is `host`'s mount, or -1.
pub open spec fn first_mount(names: Seq<Seq<char>>, host: Seq<char>, share: Seq<char>) -> int
    decreases names.len(),
{
    if names.len() == 0 {
        -1
    } else if names_mount(names[0], host, share) {
        0
    } else {
        let k = first_mount(names.skip(1), host, share);
        if k < 0 { -1 } else { k + 1 }
    }
}

pub open spec fn strs_view(v: Seq<String>) -> Seq<Seq<char>> {
    Seq::new(v.len(), |i: int| v[i]@)
}

/// Where `uri`'s mount landed among `names`, the entries of the GVfs
/// directory `dir`, in the order they were listed.
pub fn mount_point(uri: &str, dir: &str, names: &Vec<String>) -> (r: Option<String>)
    ensures
        match r {
            Some(p) => host_spec(uri@) matches Some(host) && first_mount(strs_view(names@), host, share_of(uri@)) >= 0
                && p@ == join_of(dir@, strs_view(names@)[first_mount(strs_view(names@), host, share_of(uri@))]),
            None => host_spec(uri@) is None || first_mount(strs_view(names@), host_spec(uri@)->0, share_of(uri@)) == -1,
        },
{
    let host = match host_of(uri) {
        Some(h) => h,
        None => return None,
    };
    let cs = chars_of(uri);
    let (_start, end, _h) = split_uri(&cs);
    let has_path = scheme_end_in(&cs).is_some() && end < cs.len();
    let share = if has_path {
        let path = crate::split::slice_chars(&cs, end + 1, cs.len());
        assert(path@ =~= cs@.skip(end + 1));
        let parts = split_pieces(&path, '/');
        if parts.len() > 0 {
            assert(views(parts@)[0] == parts@[0]@);
            assert(parts@[0]@.subrange(0, parts@[0]@.len() as int) =~= parts@[0]@);
            string_of(&parts[0], 0, parts[0].len())
        } else {
            String::new()
        }
    } else {
        String::new()
    };
    assert(share@ == share_of(uri@));
    let with_host = concat("host=", host.as_str());
    let with_server = concat("server=", host.as_str());
    let with_share = concat("share=", share.as_str());
    let ghost nv = strs_view(names@);
    let mut i: usize = 0;
    assert(nv.skip(0) =~= nv);
    while i < names.len()
        invariant
            i <= names@.len(),
            nv == strs_view(names@),
            host_spec(uri@) == Some(host@),
            share@ == share_of(uri@),
            with_host@ == "host="@ + host@,
            with_server@ == "server="@ + host@,
            with_share@ == "share="@ + share@,
            first_mount(nv, host@, share@) == (if first_mount(nv.skip(i as int), host@, share@) < 0 { -1 } else { first_mount(nv.skip(i as int), host@, share@) + i }),
        decreases names@.len() - i,
    {
        let name = names[i].as_str();
        assert(nv.skip(i as int)[0] == nv[i as int]);
        let hit = contains(name, with_host.as_str())
            || (contains(name, with_server.as_str()) && (share.as_str().unicode_len() == 0 || contains(name, with_share.as_str())));
        if hit {
            assert(names_mount(nv[i as int], host@, share@));
            return Some(join(dir, name));
        }
        assert(nv.skip(i as int).skip(1) =~= nv.skip(i + 1));
        i += 1;
    }
    None
}

/// What `gio` said, in words: `could_not` is the sentence for a failure it
/// explained nothing about.
fn gio_outcome(outcome: Result<(bool, String), String>, could_not: String, mounting: bool) -> (r: Result<(), String>)
    ensures
        match outcome {
            Err(e) => r matches Err(m) && m@ == "could not run gio: "@ + e@,
            Ok((true, _)) => r is Ok,
            Ok((false, stderr)) => if mounting && contains_text(trim_ws(stderr@), "already mounted"@) {
                r is Ok
            } else {
                r matches Err(m) && m@ == (if trim_ws(stderr@).len() == 0 { could_not@ } else { trim_ws(stderr@) })
            },
        },
{
    match outcome {
        Err(e) => Err(concat("could not run gio: ", e.as_str())),
        Ok((true, _)) => Ok(()),
        Ok((false, stderr)) => {
            let cs = chars_of(stderr.as_str());
            assert(cs@.subrange(0, cs@.len() as int) =~= cs@);
            let (a, b) = trim_bounds(&cs, 0, cs.len());
            let message = string_of(&cs, a, b);
            if mounting && contains(message.as_str(), "already mounted") {
                return Ok(());
            }
            if a == b {
                Err(could_not)
            } else {
                Err(message)
            }
        },
    }
}

/// What `gio mount <uri>` came to. Already mounted is success by another
/// name.
pub fn mount(uri: &str, outcome: Result<(bool, String), String>) -> (r: Result<(), String>)
    ensures
        match outcome {
            Err(e) => r matches Err(m) && m@ == "could not run gio: "@ + e@,
            Ok((true, _)) => r is Ok,
            Ok((false, stderr)) => if contains_text(trim_ws(stderr@), "already mounted"@) {
                r is Ok
            } else {
                r matches Err(m) && m@ == (if trim_ws(stderr@).len() == 0 { "could not mount "@ + uri@ } else { trim_ws(stderr@) })
            },
        },
{
    gio_outcome(outcome, concat("could not mount ", uri), true)
}

/// What `gio mount -u <uri>` came to.
pub fn unmount(uri: &str, outcome: Result<(bool, String), String>) -> (r: Result<(), String>)
    ensures
        match outcome {
            Err(e) => r matches Err(m) && m@ == "could not run gio: "@ + e@,
            Ok((true, _)) => r is Ok,
            Ok((false, stderr)) => r matches Err(m) && m@ == (if trim_ws(stderr@).len() == 0 { "could not unmount "@ + uri@ } else { trim_ws(stderr@) }),
        },
{
    gio_outcome(outcome, concat("could not unmount ", uri), false)
}

} // verus!
