//! Marked entries: the names a tab has picked out, kept by name so that a
//! mark survives a re-read of the directory and a re-sort of the listing.

use vstd::prelude::*;
use crate::entry::Entry;
use crate::listing::{first_named, visible_of, Listing};
use crate::text::str_eq;

verus! {

/// The names of `v`, as values.
pub open spec fn names_of(v: Seq<String>) -> Seq<Seq<char>> {
    v.map_values(|s: String| s@)
}

/// A set of marked names.
pub struct Marks {
    names: Vec<String>,
}

impl View for Marks {
    type V = Set<Seq<char>>;

    closed spec fn view(&self) -> Set<Seq<char>> {
        names_of(self.names@).to_set()
    }
}

/// The names of the rows at `indices` of `rows`.
pub open spec fn names_at(rows: Seq<Entry>, indices: Seq<usize>) -> Set<Seq<char>> {
    Set::new(|n: Seq<char>| exists|k: int| 0 <= k < indices.len() && rows[indices[k] as int].name@ == n)
}

/// The first position of `x` in `s`, or -1.
pub open spec fn position_of(s: Seq<usize>, x: usize) -> int
    decreases s.len(),
{
    if s.len() == 0 {
        -1
    } else if s.last() == x {
        let k = position_of(s.drop_last(), x);
        if k >= 0 { k } else { s.len() - 1 }
    } else {
        position_of(s.drop_last(), x)
    }
}

/// The entries of `vis`, in order, whose names are in `marked`.
pub open spec fn marked_of(rows: Seq<Entry>, vis: Seq<usize>, marked: Set<Seq<char>>) -> Seq<usize>
    decreases vis.len(),
{
    if vis.len() == 0 {
        Seq::empty()
    } else {
        let rest = marked_of(rows, vis.drop_last(), marked);
        if marked.contains(rows[vis.last() as int].name@) { rest.push(vis.last()) } else { rest }
    }
}

impl Marks {
    pub closed spec fn wf(&self) -> bool {
        names_of(self.names@).no_duplicates()
    }

    /// Nothing marked.
    pub fn new() -> (m: Marks)
        ensures
            m.wf(),
            m@ == Set::<Seq<char>>::empty(),
    {
        let m = Marks { names: Vec::new() };
        assert(names_of(m.names@).to_set() =~= Set::<Seq<char>>::empty());
        m
    }

    /// Where `name` is kept, if it is marked.
    fn find(&self, name: &str) -> (r: Option<usize>)
        ensures
            match r {
                Some(i) => i < self.names@.len() && self.names@[i as int]@ == name@,
                None => !self@.contains(name@),
            },
    {
        let mut i: usize = 0;
        while i < self.names.len()
            invariant
                i <= self.names@.len(),
                forall|k: int| 0 <= k < i ==> self.names@[k]@ != name@,
            decreases self.names@.len() - i,
        {
            if str_eq(self.names[i].as_str(), name) {
                return Some(i);
            }
            i += 1;
        }
        assert forall|k: int| 0 <= k < names_of(self.names@).len() implies names_of(self.names@)[k] != name@ by {
            assert(names_of(self.names@)[k] == self.names@[k]@);
        }
        None
    }

    /// Whether `name` is marked.
    pub fn contains(&self, name: &str) -> (r: bool)
        ensures
            r == self@.contains(name@),
    {
        match self.find(name) {
            Some(i) => {
                assert(names_of(self.names@)[i as int] == name@);
                true
            },
            None => false,
        }
    }

    /// How many names are marked.
    pub fn len(&self) -> (n: usize)
        requires
            self.wf(),
        ensures
            n == self@.len(),
    {
        proof {
            names_of(self.names@).unique_seq_to_set();
        }
        self.names.len()
    }

    /// Whether nothing is marked.
    pub fn is_empty(&self) -> (r: bool)
        requires
            self.wf(),
        ensures
            r == (self@.len() == 0),
    {
        self.len() == 0
    }

    /// Mark `name`.
    pub fn insert(&mut self, name: String)
        requires
            old(self).wf(),
        ensures
            final(self).wf(),
            final(self)@ == old(self)@.insert(name@),
    {
        if self.contains(name.as_str()) {
            assert(self@ =~= self@.insert(name@));
            return;
        }
        let ghost before = names_of(self.names@);
        let ghost n = name@;
        self.names.push(name);
        assert(names_of(self.names@) =~= before.push(n));
        proof {
            lemma_push_contains(before, n);
        }
        assert(names_of(self.names@).to_set() =~= before.to_set().insert(n));
    }

    /// Unmark `name`.
    pub fn remove(&mut self, name: &str)
        requires
            old(self).wf(),
        ensures
            final(self).wf(),
            final(self)@ == old(self)@.remove(name@),
    {
        match self.find(name) {
            None => {
                assert(self@ =~= self@.remove(name@));
            },
            Some(i) => {
                let ghost before = names_of(self.names@);
                assert(before[i as int] == name@);
                self.names.remove(i);
                let ghost after = names_of(self.names@);
                assert(after =~= before.remove(i as int));
                assert forall|k: int| 0 <= k < after.len() implies after[k] != name@ by {
                    if k < i {
                        assert(after[k] == before[k]);
                        assert(before[k] != before[i as int]);
                    } else {
                        assert(after[k] == before[k + 1]);
                        assert(before[k + 1] != before[i as int]);
                    }
                }
                assert forall|a: int, b: int| 0 <= a < b < after.len() implies after[a] != after[b] by {
                    let a2 = if a < i { a } else { a + 1 };
                    let b2 = if b < i { b } else { b + 1 };
                    assert(after[a] == before[a2] && after[b] == before[b2]);
                }
                assert(after.to_set() =~= before.to_set().remove(name@)) by {
                    assert forall|x: Seq<char>| after.to_set().contains(x) <==> before.to_set().remove(name@).contains(x) by {
                        if after.to_set().contains(x) {
                            let k = choose|k: int| 0 <= k < after.len() && after[k] == x;
                            if k < i {
                                assert(before[k] == x);
                            } else {
                                assert(before[k + 1] == x);
                            }
                        }
                        if before.to_set().remove(name@).contains(x) {
                            let k = choose|k: int| 0 <= k < before.len() && before[k] == x;
                            assert(k != i);
                            if k < i {
                                assert(after[k] == x);
                            } else {
                                assert(after[k - 1] == x);
                            }
                        }
                    }
                }
            },
        }
    }

    /// Mark (`on`) or unmark the entry at `index` of the listing; nothing
    /// happens for an index the listing does not have.
    pub fn mark(&mut self, listing: &Listing, index: usize, on: bool)
        requires
            old(self).wf(),
        ensures
            final(self).wf(),
            index < listing.rows().len() ==> final(self)@ == (if on {
                old(self)@.insert(listing.rows()[index as int].name@)
            } else {
                old(self)@.remove(listing.rows()[index as int].name@)
            }),
            index >= listing.rows().len() ==> final(self)@ == old(self)@,
    {
        match listing.get(index) {
            Some(e) => {
                if on {
                    self.insert(String::from_str(e.name.as_str()));
                } else {
                    self.remove(e.name.as_str());
                }
            },
            None => {},
        }
    }

    /// Flip the mark on the entry at `index`.
    pub fn toggle_mark(&mut self, listing: &Listing, index: usize)
        requires
            old(self).wf(),
        ensures
            final(self).wf(),
            index < listing.rows().len() ==> {
                let n = listing.rows()[index as int].name@;
                final(self)@ == (if old(self)@.contains(n) { old(self)@.remove(n) } else { old(self)@.insert(n) })
            },
            index >= listing.rows().len() ==> final(self)@ == old(self)@,
    {
        let on = match listing.get(index) {
            Some(e) => !self.contains(e.name.as_str()),
            None => true,
        };
        self.mark(listing, index, on);
    }

    /// Mark every visible entry between the listing indices `from` and `to`,
    /// both included, in whichever order they were given; nothing when
    /// either is not visible.
    pub fn mark_range(&mut self, listing: &Listing, show_hidden: bool, from: usize, to: usize)
        requires
            old(self).wf(),
            listing.wf(),
        ensures
            final(self).wf(),
            ({
                let vis = visible_of(listing.rows(), listing.shown_order(), show_hidden);
                let a = position_of(vis, from);
                let b = position_of(vis, to);
                if a >= 0 && b >= 0 {
                    let lo = if a <= b { a } else { b };
                    let hi = if a <= b { b } else { a };
                    final(self)@ == old(self)@.union(names_at(listing.rows(), vis.subrange(lo, hi + 1)))
                } else {
                    final(self)@ == old(self)@
                }
            }),
    {
        let visible = listing.visible(show_hidden);
        let a = match position(&visible, from) {
            Some(a) => a,
            None => return,
        };
        let b = match position(&visible, to) {
            Some(b) => b,
            None => return,
        };
        let lo = if a <= b { a } else { b };
        let hi = if a <= b { b } else { a };
        assert(hi < visible@.len());
        self.mark_all(listing, &visible, lo, hi + 1);
        assert(visible@ == visible_of(listing.rows(), listing.shown_order(), show_hidden));
    }

    /// Mark the entries at `indices[from..to]`.
    fn mark_all(&mut self, listing: &Listing, indices: &Vec<usize>, from: usize, to: usize)
        requires
            old(self).wf(),
            from <= to <= indices@.len(),
            forall|k: int| 0 <= k < indices@.len() ==> #[trigger] indices@[k] < listing.rows().len(),
        ensures
            final(self).wf(),
            final(self)@ == old(self)@.union(names_at(listing.rows(), indices@.subrange(from as int, to as int))),
    {
        let ghost start = self@;
        let ghost rows = listing.rows();
        let mut i = from;
        assert(start =~= start.union(names_at(rows, indices@.subrange(from as int, from as int))));
        while i < to
            invariant
                from <= i <= to <= indices@.len(),
                self.wf(),
                rows == listing.rows(),
                forall|k: int| 0 <= k < indices@.len() ==> #[trigger] indices@[k] < rows.len(),
                self@ == start.union(names_at(rows, indices@.subrange(from as int, i as int))),
            decreases to - i,
        {
            let ghost before = self@;
            self.mark(listing, indices[i], true);
            i += 1;
            assert(self@ =~= start.union(names_at(rows, indices@.subrange(from as int, i as int)))) by {
                let sub = indices@.subrange(from as int, i as int);
                let prev = indices@.subrange(from as int, i - 1);
                assert forall|n: Seq<char>| names_at(rows, sub).contains(n) <==> names_at(rows, prev).contains(n)
                    || n == rows[indices@[i - 1] as int].name@ by {
                    if names_at(rows, sub).contains(n) {
                        let k = choose|k: int| 0 <= k < sub.len() && rows[sub[k] as int].name@ == n;
                        if k < prev.len() {
                            assert(prev[k] == sub[k]);
                        }
                    }
                    if names_at(rows, prev).contains(n) {
                        let k = choose|k: int| 0 <= k < prev.len() && rows[prev[k] as int].name@ == n;
                        assert(sub[k] == prev[k]);
                    }
                    if n == rows[indices@[i - 1] as int].name@ {
                        assert(sub[sub.len() - 1] == indices@[i - 1]);
                    }
                }
            }
        }
    }

    /// Mark every visible entry.
    pub fn select_all(&mut self, listing: &Listing, show_hidden: bool)
        requires
            old(self).wf(),
            listing.wf(),
        ensures
            final(self).wf(),
            final(self)@ == old(self)@.union(names_at(listing.rows(), visible_of(listing.rows(), listing.shown_order(), show_hidden))),
    {
        let visible = listing.visible(show_hidden);
        self.mark_all(listing, &visible, 0, visible.len());
        assert(visible@.subrange(0, visible@.len() as int) =~= visible@);
    }

    /// The marked entries among the visible ones, as listing indices in
    /// listing order: what a drag carries.
    pub fn selection(&self, listing: &Listing, show_hidden: bool) -> (r: Vec<usize>)
        requires
            listing.wf(),
        ensures
            r@ == marked_of(listing.rows(), visible_of(listing.rows(), listing.shown_order(), show_hidden), self@),
    {
        let visible = listing.visible(show_hidden);
        let ghost rows = listing.rows();
        let mut out: Vec<usize> = Vec::new();
        let mut i: usize = 0;
        while i < visible.len()
            invariant
                i <= visible@.len(),
                rows == listing.rows(),
                forall|k: int| 0 <= k < visible@.len() ==> #[trigger] visible@[k] < rows.len(),
                out@ == marked_of(rows, visible@.take(i as int), self@),
            decreases visible@.len() - i,
        {
            let index = visible[i];
            let keep = match listing.get(index) {
                Some(e) => self.contains(e.name.as_str()),
                None => false,
            };
            if keep {
                out.push(index);
            }
            proof {
                let t = visible@.take(i + 1);
                assert(t.drop_last() =~= visible@.take(i as int));
                assert(t.last() == index);
            }
            i += 1;
        }
        assert(visible@.take(visible@.len() as int) =~= visible@);
        out
    }

    /// Forget the marks on names the listing no longer has: a file moved or
    /// deleted must not stay marked and come back marked should a file of
    /// the same name appear.
    pub fn prune(&mut self, listing: &Listing)
        requires
            old(self).wf(),
        ensures
            final(self).wf(),
            final(self)@ == old(self)@.filter(|n: Seq<char>| listed_in(listing.rows(), n)),
    {
        let ghost before = names_of(self.names@);
        let ghost rows = listing.rows();
        let mut kept: Vec<String> = Vec::new();
        let mut i: usize = 0;
        while i < self.names.len()
            invariant
                i <= self.names@.len(),
                before == names_of(self.names@),
                before.no_duplicates(),
                rows == listing.rows(),
                names_of(kept@).no_duplicates(),
                forall|x: Seq<char>| #[trigger] names_of(kept@).contains(x) <==> (before.take(i as int).contains(x) && listed_in(rows, x)),
            decreases self.names@.len() - i,
        {
            let name = &self.names[i];
            let found = listing.index_of_name(name.as_str());
            let ghost n = name@;
            assert(before[i as int] == n);
            assert(!before.take(i as int).contains(n)) by {
                if before.take(i as int).contains(n) {
                    let k = choose|k: int| 0 <= k < i && before.take(i as int)[k] == n;
                    assert(before[k] == before[i as int]);
                }
            }
            let ghost prev = names_of(kept@);
            if found.is_some() {
                kept.push(String::from_str(name.as_str()));
                assert(names_of(kept@) =~= prev.push(n));
                assert forall|a: int, b: int| 0 <= a < b < names_of(kept@).len() implies names_of(kept@)[a] != names_of(kept@)[b] by {
                    if b == prev.len() {
                        assert(prev.contains(prev[a]));
                    } else {
                        assert(prev[a] != prev[b]);
                    }
                }
            }
            i += 1;
            assert(before.take(i as int) =~= before.take(i - 1).push(n));
            proof {
                lemma_push_contains(before.take(i - 1), n);
                if found.is_some() {
                    lemma_push_contains(prev, n);
                    assert(listed_in(rows, n));
                } else {
                    assert(names_of(kept@) == prev);
                    assert(!listed_in(rows, n));
                }
            }
        }
        self.names = kept;
        assert(before.take(before.len() as int) =~= before);
        assert(self@ =~= names_of(old(self).names@).to_set().filter(|n: Seq<char>| listed_in(rows, n)));
    }
}

proof fn lemma_push_contains(s: Seq<Seq<char>>, n: Seq<char>)
    ensures
        forall|x: Seq<char>| #[trigger] s.push(n).contains(x) <==> (s.contains(x) || x == n),
{
    assert forall|x: Seq<char>| #[trigger] s.push(n).contains(x) <==> (s.contains(x) || x == n) by {
        if s.push(n).contains(x) {
            let k = choose|k: int| 0 <= k < s.len() + 1 && s.push(n)[k] == x;
            if k < s.len() {
                assert(s[k] == x);
            }
        }
        if s.contains(x) {
            let k = choose|k: int| 0 <= k < s.len() && s[k] == x;
            assert(s.push(n)[k] == x);
        }
        if x == n {
            assert(s.push(n)[s.len() as int] == n);
        }
    }
}

/// `name` is one of the rows' names.
pub open spec fn listed_in(rows: Seq<Entry>, name: Seq<char>) -> bool {
    first_named(rows, name) >= 0
}

/// Where `x` first stands in `v`.
fn position(v: &Vec<usize>, x: usize) -> (r: Option<usize>)
    ensures
        match r {
            Some(i) => position_of(v@, x) == i && i < v@.len(),
            None => position_of(v@, x) == -1,
        },
{
    let mut i: usize = 0;
    while i < v.len()
        invariant
            i <= v@.len(),
            position_of(v@.take(i as int), x) == -1,
        decreases v@.len() - i,
    {
        proof {
            let t = v@.take(i + 1);
            assert(t.drop_last() =~= v@.take(i as int));
        }
        if v[i] == x {
            proof {
                lemma_position_prefix(v@, x, (i + 1) as int);
            }
            return Some(i);
        }
        i += 1;
    }
    assert(v@.take(v@.len() as int) =~= v@);
    None
}

/// Once `x` is found in a prefix, longer prefixes find it at the same place.
proof fn lemma_position_prefix(s: Seq<usize>, x: usize, k: int)
    requires
        1 <= k <= s.len(),
        position_of(s.take(k), x) >= 0,
    ensures
        position_of(s, x) == position_of(s.take(k), x),
    decreases s.len() - k,
{
    if k < s.len() {
        let t = s.take(k + 1);
        assert(t.drop_last() =~= s.take(k));
        assert(position_of(t, x) == position_of(s.take(k), x));
        lemma_position_prefix(s, x, k + 1);
    } else {
        assert(s.take(k) =~= s);
    }
}

/// After every visible entry is marked, the selection is exactly the
/// visible entries, in listing order, whatever was marked before.
pub proof fn lemma_select_all_selects_every_visible(rows: Seq<Entry>, vis: Seq<usize>, before: Set<Seq<char>>)
    requires
        forall|k: int| 0 <= k < vis.len() ==> #[trigger] vis[k] < rows.len(),
    ensures
        marked_of(rows, vis, before.union(names_at(rows, vis))) == vis,
    decreases vis.len(),
{
    if vis.len() > 0 {
        let m = before.union(names_at(rows, vis));
        let shorter = vis.drop_last();
        lemma_select_all_selects_every_visible(rows, shorter, m);
        assert(m.union(names_at(rows, shorter)) =~= m) by {
            assert forall|n: Seq<char>| names_at(rows, shorter).contains(n) implies m.contains(n) by {
                let k = choose|k: int| 0 <= k < shorter.len() && rows[shorter[k] as int].name@ == n;
                assert(vis[k] == shorter[k]);
                assert(names_at(rows, vis).contains(n));
            }
        }
        assert(m.contains(rows[vis.last() as int].name@)) by {
            assert(names_at(rows, vis).contains(rows[vis[vis.len() - 1] as int].name@));
        }
        assert(marked_of(rows, vis, m) == marked_of(rows, shorter, m).push(vis.last()));
        assert(shorter.push(vis.last()) =~= vis);
    }
}

/// Marking a name that was not marked and then unmarking it leaves the
/// marks as they were; unmarking a marked name and marking it again does
/// too.
pub proof fn lemma_marking_twice_restores(marks: Set<Seq<char>>, name: Seq<char>)
    ensures
        !marks.contains(name) ==> marks.insert(name).remove(name) == marks,
        marks.contains(name) ==> marks.remove(name).insert(name) == marks,
{
    if !marks.contains(name) {
        assert(marks.insert(name).remove(name) =~= marks);
    } else {
        assert(marks.remove(name).insert(name) =~= marks);
    }
}

} // verus!
