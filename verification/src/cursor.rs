//! Where a cursor goes: one step or a page through a list, to either end,
//! and where the listing's cursor lands when the rows it may stand on change.

use vstd::prelude::*;
use crate::listing::{first_named, visible_of, Listing};

verus! {

/// Rows a page key moves.
pub const PAGE: isize = 10;

/// `x` clamped to `lo..=hi`.
pub open spec fn clamp(x: int, lo: int, hi: int) -> int {
    if x < lo { lo } else if x > hi { hi } else { x }
}

/// A cursor at `current` moved by `delta` through a list of `len` rows,
/// stopping at either end rather than wrapping.
pub fn step(current: usize, delta: isize, len: usize) -> (r: usize)
    requires
        len > 0,
    ensures
        r == clamp(current + delta, 0, len - 1),
{
    let target: i128 = current as i128 + delta as i128;
    let last: usize = len - 1;
    if target < 0 {
        0
    } else if target > last as i128 {
        last
    } else {
        target as usize
    }
}

/// A cursor that may also stand above the list (`None`: the typed text is
/// what Enter takes), moved by `delta` through `len` rows; `len` is not
/// empty.
pub fn step_optional(current: Option<usize>, delta: isize, len: usize) -> (r: Option<usize>)
    requires
        len > 0,
    ensures
        ({
            let from = match current { Some(c) => c as int, None => -1 };
            let to = clamp(from + delta, -1, len - 1);
            if to < 0 { r is None } else { r == Some(to as usize) }
        }),
{
    let from: i128 = match current {
        Some(c) => c as i128,
        None => -1,
    };
    let target: i128 = from + delta as i128;
    let last: usize = len - 1;
    if target < 0 {
        None
    } else if target > last as i128 {
        Some(last)
    } else {
        Some(target as usize)
    }
}

/// The first position of `x` in `s`, or -1.
pub open spec fn index_in(s: Seq<usize>, x: usize) -> int
    decreases s.len(),
{
    if s.len() == 0 {
        -1
    } else if s[0] == x {
        0
    } else {
        let k = index_in(s.skip(1), x);
        if k < 0 { -1 } else { k + 1 }
    }
}

fn find(visible: &Vec<usize>, x: usize) -> (r: Option<usize>)
    ensures
        match r {
            Some(i) => index_in(visible@, x) == i && i < visible@.len(),
            None => index_in(visible@, x) == -1,
        },
{
    let mut i: usize = 0;
    assert(visible@.skip(0) =~= visible@);
    while i < visible.len()
        invariant
            i <= visible@.len(),
            index_in(visible@, x) == (if index_in(visible@.skip(i as int), x) < 0 { -1 } else { index_in(
                visible@.skip(i as int),
                x,
            ) + i }),
        decreases visible@.len() - i,
    {
        assert(visible@.skip(i as int).skip(1) =~= visible@.skip(i + 1));
        assert(visible@.skip(i as int)[0] == visible@[i as int]);
        if visible[i] == x {
            return Some(i);
        }
        i += 1;
    }
    assert(visible@.skip(i as int) =~= Seq::<usize>::empty());
    None
}

/// Where the listing's cursor goes on a step of `delta` through the rows
/// shown: from where it stands among them (the first row when it stands
/// on none), clamped to the ends. Nothing when no row is shown.
pub fn step_in(visible: &Vec<usize>, cursor: Option<usize>, delta: isize) -> (r: Option<usize>)
    ensures
        visible@.len() == 0 ==> r is None,
        visible@.len() > 0 ==> {
            let at = match cursor {
                Some(c) => if index_in(visible@, c) >= 0 { index_in(visible@, c) } else { 0 },
                None => 0,
            };
            r == Some(visible@[clamp(at + delta, 0, visible@.len() - 1)])
        },
{
    if visible.len() == 0 {
        return None;
    }
    let at = match cursor {
        Some(c) => match find(visible, c) {
            Some(i) => i,
            None => 0,
        },
        None => 0,
    };
    let next = step(at, delta, visible.len());
    Some(visible[next])
}

/// The first (or, with `last`, the final) row shown.
pub fn edge_of(visible: &Vec<usize>, last: bool) -> (r: Option<usize>)
    ensures
        visible@.len() == 0 ==> r is None,
        visible@.len() > 0 ==> r == Some(if last { visible@.last() } else { visible@[0] }),
{
    if visible.len() == 0 {
        None
    } else if last {
        Some(visible[visible.len() - 1])
    } else {
        Some(visible[0])
    }
}

/// Where the cursor stands once the rows shown change (hidden files shown
/// or hidden): where it was, if that row is still shown; else the first
/// row shown.
pub fn kept_on(visible: &Vec<usize>, cursor: Option<usize>) -> (r: Option<usize>)
    ensures
        (cursor matches Some(c) && visible@.contains(c)) ==> r == cursor,
        !(cursor matches Some(c) && visible@.contains(c)) ==> r == (if visible@.len() > 0 {
            Some(visible@[0])
        } else {
            None
        }),
{
    match cursor {
        Some(c) => {
            let mut i: usize = 0;
            while i < visible.len()
                invariant
                    i <= visible@.len(),
                    cursor == Some(c),
                    forall|k: int| 0 <= k < i ==> visible@[k] != c,
                decreases visible@.len() - i,
            {
                if visible[i] == c {
                    return Some(c);
                }
                i += 1;
            }
            edge_of(visible, false)
        },
        None => edge_of(visible, false),
    }
}

/// The places cursor at either end of `len` places.
pub fn place_edge(len: usize, last: bool) -> (r: usize)
    ensures
        r == (if last && len > 0 { len - 1 } else { 0 }),
{
    if last && len > 0 {
        len - 1
    } else {
        0
    }
}

/// The row named `name`, when the listing has it and shows it.
pub open spec fn restored(listing: &Listing, show_hidden: bool, name: Option<Seq<char>>) -> Option<usize> {
    match name {
        Some(n) => {
            let i = first_named(listing.rows(), n);
            if i >= 0 && visible_of(listing.rows(), listing.shown_order(), show_hidden).contains(i as usize) {
                Some(i as usize)
            } else {
                None
            }
        },
        None => None,
    }
}

/// Put the cursor back on a named entry, if it is still there and shown.
pub fn restore_cursor(listing: &Listing, show_hidden: bool, name: Option<&str>) -> (r: Option<usize>)
    requires
        listing.wf(),
    ensures
        r == restored(listing, show_hidden, match name { Some(n) => Some(n@), None => None }),
{
    let n = match name {
        Some(n) => n,
        None => return None,
    };
    let index = match listing.index_of_name(n) {
        Some(i) => i,
        None => return None,
    };
    let visible = listing.visible(show_hidden);
    let mut k: usize = 0;
    while k < visible.len()
        invariant
            k <= visible@.len(),
            name == Some(n),
            index as int == first_named(listing.rows(), n@),
            visible@ == visible_of(listing.rows(), listing.shown_order(), show_hidden),
            forall|j: int| 0 <= j < k ==> visible@[j] != index,
        decreases visible@.len() - k,
    {
        if visible[k] == index {
            assert(visible@.contains(index));
            return Some(index);
        }
        k += 1;
    }
    None
}

/// Where the cursor lands once a directory is read again: on the entry
/// it was on (remembered by name), else on the first row shown.
pub fn cursor_after_reload(listing: &Listing, show_hidden: bool, name: Option<&str>) -> (r: Option<usize>)
    requires
        listing.wf(),
    ensures
        ({
            let vis = visible_of(listing.rows(), listing.shown_order(), show_hidden);
            r == match restored(listing, show_hidden, match name { Some(n) => Some(n@), None => None }) {
                Some(i) => Some(i),
                None => if vis.len() > 0 { Some(vis[0]) } else { None },
            }
        }),
{
    match restore_cursor(listing, show_hidden, name) {
        Some(i) => Some(i),
        None => {
            let visible = listing.visible(show_hidden);
            edge_of(&visible, false)
        },
    }
}

} // verus!
