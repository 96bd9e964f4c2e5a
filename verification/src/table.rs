//! A small map keyed by path strings: a vector of `(key, value)` pairs with
//! distinct keys, seen as a `Map` from key text to value.
//!
//! The explorer keys by path and holds at most a few thousand entries (the
//! changed files of one repository, the directories a session visited), so
//! a linear map is the honest structure.

use vstd::prelude::*;
use crate::text::str_eq;

verus! {

/// The map a sequence of pairs denotes: later pairs win.
pub open spec fn map_of<V>(s: Seq<(String, V)>) -> Map<Seq<char>, V>
    decreases s.len(),
{
    if s.len() == 0 {
        Map::empty()
    } else {
        map_of(s.drop_last()).insert(s.last().0@, s.last().1)
    }
}

pub open spec fn distinct_keys<V>(s: Seq<(String, V)>) -> bool {
    forall|i: int, j: int| 0 <= i < j < s.len() ==> s[i].0@ != s[j].0@
}

pub proof fn lemma_map_of_keys<V>(s: Seq<(String, V)>, k: Seq<char>)
    ensures
        map_of(s).contains_key(k) <==> exists|i: int| 0 <= i < s.len() && s[i].0@ == k,
    decreases s.len(),
{
    if s.len() > 0 {
        lemma_map_of_keys(s.drop_last(), k);
        if exists|i: int| 0 <= i < s.len() && s[i].0@ == k {
            let i = choose|i: int| 0 <= i < s.len() && s[i].0@ == k;
            if i < s.len() - 1 {
                assert(s.drop_last()[i].0@ == k);
            }
        }
        if exists|i: int| 0 <= i < s.len() - 1 && s.drop_last()[i].0@ == k {
            let i = choose|i: int| 0 <= i < s.len() - 1 && s.drop_last()[i].0@ == k;
            assert(s[i].0@ == k);
        }
    }
}

pub proof fn lemma_map_of_value<V>(s: Seq<(String, V)>, i: int)
    requires
        distinct_keys(s),
        0 <= i < s.len(),
    ensures
        map_of(s).contains_key(s[i].0@),
        map_of(s)[s[i].0@] == s[i].1,
    decreases s.len(),
{
    if i < s.len() - 1 {
        lemma_map_of_value(s.drop_last(), i);
        assert(s.drop_last()[i] == s[i]);
    }
}

pub proof fn lemma_map_of_update<V>(s: Seq<(String, V)>, i: int, v: V)
    requires
        distinct_keys(s),
        0 <= i < s.len(),
    ensures
        map_of(s.update(i, (s[i].0, v))) == map_of(s).insert(s[i].0@, v),
        distinct_keys(s.update(i, (s[i].0, v))),
    decreases s.len(),
{
    let t = s.update(i, (s[i].0, v));
    if i == s.len() - 1 {
        assert(t.drop_last() =~= s.drop_last());
        assert(map_of(s).insert(s[i].0@, v) =~= map_of(s.drop_last()).insert(s[i].0@, v));
    } else {
        lemma_map_of_update(s.drop_last(), i, v);
        assert(t.drop_last() =~= s.drop_last().update(i, (s[i].0, v)));
        assert(s.last().0@ != s[i].0@);
        assert(map_of(t) =~= map_of(s).insert(s[i].0@, v));
    }
}

pub proof fn lemma_map_of_push<V>(s: Seq<(String, V)>, k: String, v: V)
    requires
        distinct_keys(s),
        !map_of(s).contains_key(k@),
    ensures
        map_of(s.push((k, v))) == map_of(s).insert(k@, v),
        distinct_keys(s.push((k, v))),
{
    assert(s.push((k, v)).drop_last() =~= s);
    assert forall|j: int| 0 <= j < s.len() implies s[j].0@ != k@ by {
        lemma_map_of_keys(s, k@);
    }
}

pub proof fn lemma_map_of_remove_first<V>(s: Seq<(String, V)>)
    requires
        distinct_keys(s),
        s.len() > 0,
    ensures
        map_of(s.skip(1)) == map_of(s).remove(s[0].0@),
        distinct_keys(s.skip(1)),
    decreases s.len(),
{
    if s.len() == 1 {
        assert(s.skip(1) =~= Seq::<(String, V)>::empty());
        assert(s.drop_last() =~= Seq::<(String, V)>::empty());
        assert(map_of(s.drop_last()) =~= Map::<Seq<char>, V>::empty());
        assert(map_of(s.skip(1)) =~= Map::<Seq<char>, V>::empty());
        assert(map_of(s).remove(s[0].0@) =~= Map::<Seq<char>, V>::empty());
    } else {
        lemma_map_of_remove_first(s.drop_last());
        assert(s.skip(1).drop_last() =~= s.drop_last().skip(1));
        assert(s.last().0@ != s[0].0@);
        assert(map_of(s.skip(1)) =~= map_of(s).remove(s[0].0@));
    }
}

/// A map from path text to `V`.
#[derive(Debug, Clone)]
pub struct Table<V> {
    entries: Vec<(String, V)>,
}

impl<V> Table<V> {
    pub closed spec fn view(&self) -> Map<Seq<char>, V> {
        map_of(self.entries@)
    }

    pub closed spec fn wf(&self) -> bool {
        distinct_keys(self.entries@)
    }

    pub proof fn lemma_finite(&self)
        requires
            self.wf(),
        ensures
            self.view().dom().finite(),
            self.view().dom().len() == self.size(),
    {
        lemma_map_of_finite(self.entries@);
    }

    /// How many keys the table holds.
    pub closed spec fn size(&self) -> nat {
        self.entries@.len()
    }

    pub fn new() -> (t: Self)
        ensures
            t.wf(),
            t.view() == Map::<Seq<char>, V>::empty(),
            t.size() == 0,
    {
        Table { entries: Vec::new() }
    }

    pub fn len(&self) -> (n: usize)
        ensures
            n == self.size(),
    {
        self.entries.len()
    }

    fn find(&self, key: &str) -> (r: Option<usize>)
        requires
            self.wf(),
        ensures
            match r {
                Some(i) => i < self.entries@.len() && self.entries@[i as int].0@ == key@,
                None => !self.view().contains_key(key@),
            },
    {
        let mut i: usize = 0;
        while i < self.entries.len()
            invariant
                i <= self.entries@.len(),
                forall|j: int| 0 <= j < i ==> self.entries@[j].0@ != key@,
            decreases self.entries@.len() - i,
        {
            if str_eq(self.entries[i].0.as_str(), key) {
                return Some(i);
            }
            i += 1;
        }
        proof {
            lemma_map_of_keys(self.entries@, key@);
        }
        None
    }

    pub fn contains(&self, key: &str) -> (r: bool)
        requires
            self.wf(),
        ensures
            r == self.view().contains_key(key@),
    {
        match self.find(key) {
            Some(i) => {
                proof { lemma_map_of_value(self.entries@, i as int); }
                true
            },
            None => false,
        }
    }

    pub fn get(&self, key: &str) -> (r: Option<&V>)
        requires
            self.wf(),
        ensures
            match r {
                Some(v) => self.view().contains_key(key@) && self.view()[key@] == *v,
                None => !self.view().contains_key(key@),
            },
    {
        match self.find(key) {
            Some(i) => {
                proof { lemma_map_of_value(self.entries@, i as int); }
                Some(&self.entries[i].1)
            },
            None => None,
        }
    }

    /// Set `key` to `value`, replacing what was there.
    pub fn set(&mut self, key: String, value: V)
        requires
            old(self).wf(),
        ensures
            final(self).wf(),
            final(self).view() == old(self).view().insert(key@, value),
            final(self).size() == old(self).size() + (if old(self).view().contains_key(key@) { 0int } else { 1int }),
    {
        match self.find(key.as_str()) {
            Some(i) => {
                proof {
                    lemma_map_of_value(self.entries@, i as int);
                    lemma_map_of_update(self.entries@, i as int, value);
                }
                let k = self.entries[i].0.clone();
                self.entries.set(i, (k, value));
            },
            None => {
                proof { lemma_map_of_push(self.entries@, key, value); }
                self.entries.push((key, value));
            },
        }
    }

    /// Drop the oldest key, if any; returns whether one went.
    pub fn remove_oldest(&mut self) -> (removed: bool)
        requires
            old(self).wf(),
        ensures
            final(self).wf(),
            removed == (old(self).size() > 0),
            removed ==> exists|k: Seq<char>| old(self).view().contains_key(k) && final(self).view() == old(self).view().remove(k),
            !removed ==> final(self).view() == old(self).view(),
            final(self).size() == (if removed { old(self).size() - 1 } else { old(self).size() as int }),
    {
        if self.entries.len() == 0 {
            return false;
        }
        proof {
            lemma_map_of_remove_first(self.entries@);
            lemma_map_of_value(self.entries@, 0);
        }
        let ghost k = self.entries@[0].0@;
        self.entries.remove(0);
        assert(self.entries@ =~= old(self).entries@.skip(1));
        assert(old(self).view().contains_key(k));
        assert(self.view() == old(self).view().remove(k));
        true
    }
}

pub proof fn lemma_map_of_finite<V>(s: Seq<(String, V)>)
    requires
        distinct_keys(s),
    ensures
        map_of(s).dom().finite(),
        map_of(s).dom().len() == s.len(),
    decreases s.len(),
{
    if s.len() > 0 {
        lemma_map_of_finite(s.drop_last());
        lemma_map_of_keys(s.drop_last(), s.last().0@);
        assert(!map_of(s.drop_last()).contains_key(s.last().0@));
    }
}

} // verus!
