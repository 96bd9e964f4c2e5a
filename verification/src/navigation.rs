//! Where we are, where we have been, and where the cursor was when we left.
//!
//! The behaviour worth naming: going up out of a directory puts the cursor
//! on the directory just left, not at the top of the list — otherwise the most
//! common navigation in a file manager loses your place.
//!
//! Pure logic: no filesystem access.

use vstd::prelude::*;
use crate::path::{canon, canonical, file_name, file_name_of, parent, parent_of, same_path, same_place};
use crate::table::Table;
use crate::text::{chars_of, string_of};
use crate::git::{relative_of, relative_path};
use crate::split::{pieces, split_pieces, views};

verus! {

/// The cursor as remembered: the entry's name.
pub open spec fn cursor_view(c: Option<&str>) -> Option<Seq<char>> {
    match c {
        Some(s) => Some(s@),
        None => None,
    }
}

/// What remembering `cursor` for the directory `at` does to the memory
/// `mem` of `size` entries bounded by `limit`: when it is full and `at` is
/// new, some entry makes room — which one is left open.
pub open spec fn remembered(mem: Map<Seq<char>, String>, size: nat, limit: nat, at: Seq<char>, cursor: Option<Seq<char>>, new_mem: Map<Seq<char>, String>) -> bool {
    match cursor {
        None => new_mem == mem,
        Some(name) => if size >= limit && !mem.contains_key(at) && size > 0 {
            exists|k: Seq<char>| #![auto] mem.contains_key(k) && new_mem.remove(at) == mem.remove(k).remove(at) && new_mem.contains_key(at) && new_mem[at]@ == name
        } else {
            new_mem.remove(at) == mem.remove(at) && new_mem.contains_key(at) && new_mem[at]@ == name
        },
    }
}

/// A back/forward stack plus per-directory cursor memory.
#[derive(Debug)]
pub struct Navigation {
    current: String,
    back: Vec<String>,
    forward: Vec<String>,
    /// The entry name the cursor was on, per directory visited, the
    /// directory in normal form. Keyed by name rather than index: a file added or removed while we were away shifts
    /// every index after it.
    cursor_memory: Table<String>,
    /// Bound on the memory, so a long session does not grow it without limit.
    memory_limit: usize,
}

pub open spec fn paths(v: Seq<String>) -> Seq<Seq<char>> {
    Seq::new(v.len(), |i: int| v[i]@)
}

pub const DEFAULT_MEMORY_LIMIT: usize = 512;

/// Where we are, what is behind us, and what is ahead.
pub type History = (Seq<char>, Seq<Seq<char>>, Seq<Seq<char>>);

/// A step back: the last place behind becomes current, and the current one
/// goes ahead.
pub open spec fn stepped_back(h: History) -> History {
    (h.1.last(), h.1.drop_last(), h.2.push(h.0))
}

/// A step forward: the last place ahead becomes current, and the current
/// one goes behind.
pub open spec fn stepped_forward(h: History) -> History {
    (h.2.last(), h.1.push(h.0), h.2.drop_last())
}

/// Going somewhere new: the current place goes behind, and what was ahead
/// is gone, as in a browser.
pub open spec fn went(h: History, to: Seq<char>) -> History {
    (to, h.1.push(h.0), Seq::empty())
}

impl Navigation {
    pub closed spec fn here(&self) -> Seq<char> {
        self.current@
    }

    pub closed spec fn back_stack(&self) -> Seq<Seq<char>> {
        paths(self.back@)
    }

    pub closed spec fn forward_stack(&self) -> Seq<Seq<char>> {
        paths(self.forward@)
    }

    pub closed spec fn memory(&self) -> Map<Seq<char>, String> {
        self.cursor_memory.view()
    }

    pub closed spec fn memory_size(&self) -> nat {
        self.cursor_memory.size()
    }

    pub closed spec fn limit(&self) -> nat {
        self.memory_limit as nat
    }

    pub closed spec fn wf(&self) -> bool {
        self.cursor_memory.wf()
    }

    pub open spec fn history(&self) -> History {
        (self.here(), self.back_stack(), self.forward_stack())
    }

    /// The size the memory is held to: the limit, and room for one entry
    /// even when the limit is zero.
    pub open spec fn bound(&self) -> nat {
        if self.limit() == 0 { 1 } else { self.limit() }
    }

    pub fn new(start: String) -> (n: Navigation)
        ensures
            n.wf(),
            n.here() == start@,
            n.back_stack().len() == 0,
            n.forward_stack().len() == 0,
            n.memory() == Map::<Seq<char>, String>::empty(),
            n.memory_size() == 0,
            n.limit() == DEFAULT_MEMORY_LIMIT,
    {
        Self::with_memory_limit(start, DEFAULT_MEMORY_LIMIT)
    }

    /// A navigation whose cursor memory is held to `limit` directories.
    pub fn with_memory_limit(start: String, limit: usize) -> (n: Navigation)
        ensures
            n.wf(),
            n.here() == start@,
            n.back_stack().len() == 0,
            n.forward_stack().len() == 0,
            n.memory() == Map::<Seq<char>, String>::empty(),
            n.memory_size() == 0,
            n.limit() == limit,
    {
        let n = Navigation { current: start, back: Vec::new(), forward: Vec::new(), cursor_memory: Table::new(), memory_limit: limit };
        assert(paths(n.back@) =~= Seq::<Seq<char>>::empty());
        assert(paths(n.forward@) =~= Seq::<Seq<char>>::empty());
        n
    }

    pub fn current(&self) -> (r: &str)
        ensures
            r@ == self.here(),
    {
        self.current.as_str()
    }

    /// The current directory's components, for the breadcrumb: under
    /// `home` as `~` and what follows it, which is shorter and how people
    /// refer to such paths; else `/` and every component after the root.
    pub fn breadcrumb(&self, home: Option<&str>) -> (r: Vec<String>)
        ensures
            views_of_crumbs(r@) == crumbs(self.here(), match home { Some(h) => Some(h@), None => None }),
    {
        let under = match home {
            Some(h) => relative_path(h, self.current.as_str()),
            None => None,
        };
        let mut parts: Vec<String> = Vec::new();
        let rest: Vec<Vec<char>> = match under {
            Some(rel) => {
                parts.push(String::from_str("~"));
                let normal = canonical(rel.as_str());
                split_pieces(&chars_of(normal.as_str()), '/')
            },
            None => {
                parts.push(String::from_str("/"));
                let normal = canonical(self.current.as_str());
                let all = split_pieces(&chars_of(normal.as_str()), '/');
                let cs = chars_of(self.current.as_str());
                if cs.len() > 0 && cs[0] == '/' || all.len() == 0 {
                    all
                } else {
                    let mut tail: Vec<Vec<char>> = Vec::new();
                    let mut k: usize = 1;
                    while k < all.len()
                        invariant
                            1 <= k <= all@.len(),
                            views(tail@) == views(all@).subrange(1, k as int),
                        decreases all@.len() - k,
                    {
                        let piece = crate::split::slice_chars(&all[k], 0, all[k].len());
                        assert(all@[k as int]@.subrange(0, all@[k as int]@.len() as int) =~= all@[k as int]@);
                        let ghost prev = tail@;
                        tail.push(piece);
                        assert(views(tail@) =~= views(prev).push(piece@));
                        k += 1;
                        assert(views(tail@) =~= views(all@).subrange(1, k as int));
                    }
                    assert(views(all@).subrange(1, all@.len() as int) =~= views(all@).skip(1));
                    tail
                }
            },
        };
        proof {
            reveal_strlit("~");
            reveal_strlit("/");
        }
        let ghost head = views_of_crumbs(parts@);
        proof {
            assert("~"@ =~= seq!['~']);
            assert("/"@ =~= seq!['/']);
        }
        let mut i: usize = 0;
        while i < rest.len()
            invariant
                i <= rest@.len(),
                parts@.len() == i + 1,
                views_of_crumbs(parts@) == head + views(rest@).take(i as int),
                head.len() == 1,
            decreases rest@.len() - i,
        {
            let piece = string_of(&rest[i], 0, rest[i].len());
            assert(rest@[i as int]@.subrange(0, rest@[i as int]@.len() as int) =~= rest@[i as int]@);
            let ghost prev = parts@;
            parts.push(piece);
            assert(views_of_crumbs(parts@) =~= views_of_crumbs(prev).push(piece@));
            i += 1;
            assert(views_of_crumbs(parts@) =~= head + views(rest@).take(i as int));
        }
        assert(views(rest@).take(rest@.len() as int) =~= views(rest@));
        parts
    }

    pub fn can_go_back(&self) -> (r: bool)
        ensures
            r == (self.back_stack().len() > 0),
    {
        self.back.len() > 0
    }

    pub fn can_go_forward(&self) -> (r: bool)
        ensures
            r == (self.forward_stack().len() > 0),
    {
        self.forward.len() > 0
    }

    /// How many directories have a remembered cursor.
    pub fn remembered_count(&self) -> (r: usize)
        ensures
            r == self.memory_size(),
    {
        self.cursor_memory.len()
    }

    /// Record the cursor for the directory about to be left.
    fn remember(&mut self, cursor: Option<&str>)
        requires
            old(self).wf(),
        ensures
            final(self).wf(),
            final(self).here() == old(self).here(),
            final(self).back_stack() == old(self).back_stack(),
            final(self).forward_stack() == old(self).forward_stack(),
            final(self).limit() == old(self).limit(),
            remembered(old(self).memory(), old(self).memory_size(), old(self).limit(), canon(old(self).here()), cursor_view(cursor), final(self).memory()),
            final(self).memory_size() <= if old(self).memory_size() > old(self).bound() { old(self).memory_size() } else { old(self).bound() },
    {
        let name = match cursor {
            Some(name) => name,
            None => return,
        };
        proof {
            self.cursor_memory.lemma_finite();
        }
        let ghost mem = self.cursor_memory.view();
        let key = canonical(self.current.as_str());
        if self.cursor_memory.len() >= self.memory_limit && !self.cursor_memory.contains(key.as_str()) {
            let removed = self.cursor_memory.remove_oldest();
            let ghost k = choose|k: Seq<char>| mem.contains_key(k) && self.cursor_memory.view() == mem.remove(k);
            let ghost at = key@;
            self.cursor_memory.set(key, String::from_str(name));
            proof {
                if removed {
                    assert(self.cursor_memory.view().remove(at) =~= mem.remove(k).remove(at));
                } else {
                    assert(self.cursor_memory.view().remove(at) =~= mem.remove(at));
                }
            }
        } else {
            let ghost at = key@;
            self.cursor_memory.set(key, String::from_str(name));
            assert(self.cursor_memory.view().remove(at) =~= mem.remove(at));
        }
    }

    /// Navigate to `path`, remembering where the cursor was. Going somewhere
    /// new discards the forward stack, as in a browser; going where we
    /// already are — the same components, however written — changes nothing.
    pub fn go(&mut self, path: String, leaving_cursor: Option<&str>)
        requires
            old(self).wf(),
        ensures
            final(self).wf(),
            final(self).limit() == old(self).limit(),
            same_path(path@, old(self).here()) ==> {
                &&& final(self).here() == old(self).here()
                &&& final(self).back_stack() == old(self).back_stack()
                &&& final(self).forward_stack() == old(self).forward_stack()
                &&& final(self).memory() == old(self).memory()
                &&& final(self).memory_size() == old(self).memory_size()
            },
            !same_path(path@, old(self).here()) ==> {
                &&& final(self).history() == went(old(self).history(), path@)
                &&& remembered(old(self).memory(), old(self).memory_size(), old(self).limit(), canon(old(self).here()), cursor_view(leaving_cursor), final(self).memory())
            },
            final(self).memory_size() <= if old(self).memory_size() > old(self).bound() { old(self).memory_size() } else { old(self).bound() },
    {
        if same_place(path.as_str(), self.current.as_str()) {
            return;
        }
        self.remember(leaving_cursor);
        let ghost before = paths(self.back@);
        let previous = self.current.clone();
        self.current = path;
        self.back.push(previous);
        self.forward = Vec::new();
        assert(paths(self.back@) =~= before.push(previous@));
        assert(paths(self.forward@) =~= Seq::<Seq<char>>::empty());
    }

    /// Go to the parent, leaving the cursor on the directory we came from.
    /// `false` at the root, where nothing changes.
    pub fn go_up(&mut self, leaving_cursor: Option<&str>) -> (r: bool)
        requires
            old(self).wf(),
        ensures
            final(self).wf(),
            final(self).limit() == old(self).limit(),
            r == (parent_of(old(self).here()) is Some),
            !r ==> {
                &&& final(self).here() == old(self).here()
                &&& final(self).back_stack() == old(self).back_stack()
                &&& final(self).forward_stack() == old(self).forward_stack()
                &&& final(self).memory() == old(self).memory()
            },
            r ==> {
                &&& Some(final(self).here()) == parent_of(old(self).here())
                &&& final(self).back_stack() == old(self).back_stack().push(old(self).here())
                &&& final(self).forward_stack().len() == 0
                &&& exists|m: Map<Seq<char>, String>| {
                    &&& #[trigger] remembered(old(self).memory(), old(self).memory_size(), old(self).limit(), canon(old(self).here()), cursor_view(leaving_cursor), m)
                    &&& match file_name_of(old(self).here()) {
                        Some(name) => {
                            &&& final(self).memory().remove(canon(final(self).here())) == m.remove(canon(final(self).here()))
                            &&& final(self).memory().contains_key(canon(final(self).here()))
                            &&& final(self).memory()[canon(final(self).here())]@ == name
                        },
                        None => final(self).memory() == m,
                    }
                }
            },
            final(self).memory_size() <= 1 + if old(self).memory_size() > old(self).bound() { old(self).memory_size() } else { old(self).bound() },
    {
        let up = match parent(self.current.as_str()) {
            Some(p) => p,
            None => return false,
        };
        let leaving_name = file_name(self.current.as_str());
        self.remember(leaving_cursor);
        let ghost before = paths(self.back@);
        let child = self.current.clone();
        self.current = up;
        self.back.push(child);
        self.forward = Vec::new();
        assert(paths(self.back@) =~= before.push(child@));
        assert(paths(self.forward@) =~= Seq::<Seq<char>>::empty());
        let ghost m = self.cursor_memory.view();
        match leaving_name {
            Some(name) => {
                let key = canonical(self.current.as_str());
                let ghost at = key@;
                self.cursor_memory.set(key, name);
                assert(self.cursor_memory.view().remove(at) =~= m.remove(at));
            },
            None => {},
        }
        true
    }

    /// Step back through history; `false` when there is none.
    pub fn go_back(&mut self, leaving_cursor: Option<&str>) -> (r: bool)
        requires
            old(self).wf(),
        ensures
            final(self).wf(),
            final(self).limit() == old(self).limit(),
            r == (old(self).back_stack().len() > 0),
            !r ==> {
                &&& final(self).here() == old(self).here()
                &&& final(self).forward_stack() == old(self).forward_stack()
                &&& final(self).memory() == old(self).memory()
            },
            r ==> {
                &&& final(self).history() == stepped_back(old(self).history())
                &&& remembered(old(self).memory(), old(self).memory_size(), old(self).limit(), canon(old(self).here()), cursor_view(leaving_cursor), final(self).memory())
            },
            final(self).memory_size() <= if old(self).memory_size() > old(self).bound() { old(self).memory_size() } else { old(self).bound() },
    {
        let ghost before_back = paths(self.back@);
        let previous = match self.back.pop() {
            Some(p) => p,
            None => return false,
        };
        assert(paths(self.back@) =~= before_back.drop_last());
        self.remember(leaving_cursor);
        let ghost before = paths(self.forward@);
        let left = self.current.clone();
        self.current = previous;
        self.forward.push(left);
        assert(paths(self.forward@) =~= before.push(left@));
        true
    }

    /// Step forward again; `false` when there is nothing ahead.
    pub fn go_forward(&mut self, leaving_cursor: Option<&str>) -> (r: bool)
        requires
            old(self).wf(),
        ensures
            final(self).wf(),
            final(self).limit() == old(self).limit(),
            r == (old(self).forward_stack().len() > 0),
            !r ==> {
                &&& final(self).here() == old(self).here()
                &&& final(self).back_stack() == old(self).back_stack()
                &&& final(self).memory() == old(self).memory()
            },
            r ==> {
                &&& final(self).history() == stepped_forward(old(self).history())
                &&& remembered(old(self).memory(), old(self).memory_size(), old(self).limit(), canon(old(self).here()), cursor_view(leaving_cursor), final(self).memory())
            },
            final(self).memory_size() <= if old(self).memory_size() > old(self).bound() { old(self).memory_size() } else { old(self).bound() },
    {
        let ghost before_forward = paths(self.forward@);
        let next = match self.forward.pop() {
            Some(p) => p,
            None => return false,
        };
        assert(paths(self.forward@) =~= before_forward.drop_last());
        self.remember(leaving_cursor);
        let ghost before = paths(self.back@);
        let left = self.current.clone();
        self.current = next;
        self.back.push(left);
        assert(paths(self.back@) =~= before.push(left@));
        true
    }

    /// The entry name the cursor should land on in the current directory.
    pub fn remembered_cursor(&self) -> (r: Option<&str>)
        requires
            self.wf(),
        ensures
            match r {
                Some(s) => self.memory().contains_key(canon(self.here())) && self.memory()[canon(self.here())]@ == s@,
                None => !self.memory().contains_key(canon(self.here())),
            },
    {
        let key = canonical(self.current.as_str());
        match self.cursor_memory.get(key.as_str()) {
            Some(name) => Some(name.as_str()),
            None => None,
        }
    }

    /// Name the entry the cursor lands on here, overriding what was
    /// remembered when this directory was last left — for a caller that just
    /// made something and wants it under the cursor.
    pub fn land_on(&mut self, name: &str)
        requires
            old(self).wf(),
        ensures
            final(self).wf(),
            final(self).here() == old(self).here(),
            final(self).back_stack() == old(self).back_stack(),
            final(self).forward_stack() == old(self).forward_stack(),
            final(self).limit() == old(self).limit(),
            remembered(old(self).memory(), old(self).memory_size(), old(self).limit(), canon(old(self).here()), Some(name@), final(self).memory()),
            final(self).memory_size() <= if old(self).memory_size() > old(self).bound() { old(self).memory_size() } else { old(self).bound() },
    {
        self.remember(Some(name));
    }
}

/// Back and forward behave like a browser's: a step back then a step
/// forward is where we were, and so is a step forward then back.
pub proof fn lemma_back_then_forward(h: History)
    requires
        h.1.len() > 0,
    ensures
        stepped_back(h).2.len() > 0,
        stepped_forward(stepped_back(h)) == h,
{
    assert(stepped_forward(stepped_back(h)).1 =~= h.1);
    assert(stepped_forward(stepped_back(h)).2 =~= h.2);
}

pub proof fn lemma_forward_then_back(h: History)
    requires
        h.2.len() > 0,
    ensures
        stepped_forward(h).1.len() > 0,
        stepped_back(stepped_forward(h)) == h,
{
    assert(stepped_back(stepped_forward(h)).1 =~= h.1);
    assert(stepped_back(stepped_forward(h)).2 =~= h.2);
}

/// Going somewhere new leaves nothing to go forward to, and one step back
/// returns to where we were.
pub proof fn lemma_going_clears_forward(h: History, to: Seq<char>)
    ensures
        went(h, to).2.len() == 0,
        stepped_back(went(h, to)).0 == h.0,
{
}

/// A round trip brings the cursor back: leaving a directory with the cursor
/// on `name` and coming straight back finds `name` remembered there.
pub proof fn lemma_round_trip_remembers(mem: Map<Seq<char>, String>, size: nat, limit: nat, at: Seq<char>, name: Seq<char>, new_mem: Map<Seq<char>, String>)
    requires
        remembered(mem, size, limit, at, Some(name), new_mem),
    ensures
        new_mem.contains_key(at),
        new_mem[at]@ == name,
{
}

/// The breadcrumb's components, as values.
pub open spec fn views_of_crumbs(v: Seq<String>) -> Seq<Seq<char>> {
    Seq::new(v.len(), |i: int| v[i]@)
}

/// The breadcrumb of `current`: `~` and the components after `home` when
/// `current` lies under it, else `/` and the components after the root —
/// or, for a relative path, after its first.
pub open spec fn crumbs(current: Seq<char>, home: Option<Seq<char>>) -> Seq<Seq<char>> {
    if home is Some && relative_of(current, home->0) is Some {
        seq![seq!['~']] + pieces(canon(relative_of(current, home->0)->0), '/')
    } else {
        let all = pieces(canon(current), '/');
        seq![seq!['/']] + (if (current.len() > 0 && current[0] == '/') || all.len() == 0 { all } else { all.skip(1) })
    }
}

/// A step back with the cursor on `name`, then a step forward, lands where
/// we were with `name` remembered there — unless the step forward, leaving
/// a directory the memory does not hold while it is full, made room by
/// dropping that very entry.
pub proof fn lemma_back_forward_restores_the_cursor(
    h: History,
    limit: nat,
    mem0: Map<Seq<char>, String>,
    size0: nat,
    name: Seq<char>,
    mem1: Map<Seq<char>, String>,
    size1: nat,
    leaving: Option<Seq<char>>,
    mem2: Map<Seq<char>, String>,
)
    requires
        h.1.len() > 0,
        !same_path(h.1.last(), h.0),
        remembered(mem0, size0, limit, canon(h.0), Some(name), mem1),
        remembered(mem1, size1, limit, canon(stepped_back(h).0), leaving, mem2),
        leaving is Some ==> !(size1 >= limit && !mem1.contains_key(canon(stepped_back(h).0)) && size1 > 0),
    ensures
        stepped_back(h).2.len() > 0,
        stepped_forward(stepped_back(h)) == h,
        mem2.contains_key(canon(h.0)),
        mem2[canon(h.0)]@ == name,
{
    lemma_back_then_forward(h);
    let back = canon(stepped_back(h).0);
    let at = canon(h.0);
    assert(mem1.remove(back).contains_key(at));
    if leaving is Some {
        assert(mem2.remove(back) == mem1.remove(back));
        assert(mem2.remove(back).contains_key(at));
        assert(mem2[at] == mem2.remove(back)[at]);
    }
}

} // verus!
