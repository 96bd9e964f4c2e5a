//! A directory's entries, sorted and filtered for display.
//!
//! Reading the directory is the application's business; what it read comes
//! here as entries (or as the error that stopped it), and everything after
//! that — the name order, the column sorts, what a hidden-files toggle shows —
//! is decided in this module.

use vstd::prelude::*;
use std::cmp::Ordering;
use crate::entry::{hidden_name, ordering_of, Entry, Kind};
use crate::natural::{flip, lemma_natural_order_antisymmetric, lemma_natural_order_transitive, natural_compare, natural_order, Order};

verus! {

/// The column a listing is ordered by.
#[derive(Debug, Clone, Copy, PartialEq, Eq, Structural)]
pub enum SortKey {
    Name,
    Size,
    Age,
}

impl SortKey {
    /// The direction a first click on the column gives: names A to Z, the
    /// largest file first, the newest first.
    pub fn natural_descending(self) -> (r: bool)
        ensures
            r == (self == SortKey::Size),
    {
        match self {
            SortKey::Size => true,
            _ => false,
        }
    }
}

/// How a listing is ordered: the key, and whether it runs backwards.
///
/// "Ascending" is in the column's own terms: alphabetical for names, small
/// to large for sizes, young to old for ages — so ascending age puts the
/// newest file on top.
#[derive(Debug, Clone, Copy, PartialEq, Eq, Structural)]
pub struct Sort {
    pub key: SortKey,
    pub descending: bool,
}

impl Default for Sort {
    fn default() -> (r: Self)
        ensures
            r == (Sort { key: SortKey::Name, descending: false }),
    {
        Sort { key: SortKey::Name, descending: false }
    }
}

/// `Option`'s own order on sizes and times: absent before present, then by
/// value.
pub open spec fn option_order(a: Option<int>, b: Option<int>) -> Order {
    match (a, b) {
        (None, None) => Order::Equal,
        (None, Some(_)) => Order::Less,
        (Some(_), None) => Order::Greater,
        (Some(x), Some(y)) => if x < y {
            Order::Less
        } else if x == y {
            Order::Equal
        } else {
            Order::Greater
        },
    }
}

pub open spec fn size_of(e: Entry) -> Option<int> {
    match e.size {
        Some(n) => Some(n as int),
        None => None,
    }
}

pub open spec fn time_of(e: Entry) -> Option<int> {
    match e.modified {
        Some(t) => Some(t as int),
        None => None,
    }
}

/// The name order a directory is read into: directories first, then the
/// natural order of the names.
pub open spec fn name_rank(a: Entry, b: Entry) -> Order {
    if a.kind == Kind::Directory && b.kind != Kind::Directory {
        Order::Less
    } else if a.kind != Kind::Directory && b.kind == Kind::Directory {
        Order::Greater
    } else {
        natural_order(a.name@, b.name@)
    }
}

/// The order `sort` shows rows in. Directories come first whatever the key
/// — they have no size, and folders scattered among files by date cannot be
/// navigated — then the key, with the natural name order breaking ties so the
/// order is total.
pub open spec fn row_order(sort: Sort, a: Entry, b: Entry) -> Order {
    if a.kind == Kind::Directory && b.kind != Kind::Directory {
        Order::Less
    } else if a.kind != Kind::Directory && b.kind == Kind::Directory {
        Order::Greater
    } else {
        let by_key = match sort.key {
            SortKey::Name => Order::Equal,
            SortKey::Size => option_order(size_of(a), size_of(b)),
            // A later modification is a smaller age; an entry with no date
            // has no age, and sorts old.
            SortKey::Age => option_order(time_of(b), time_of(a)),
        };
        let within = if by_key == Order::Equal { natural_order(a.name@, b.name@) } else { by_key };
        if sort.descending { flip(within) } else { within }
    }
}

/// Which order a run of indices is sorted by: the name order, or a column.
pub open spec fn rank(by: Option<Sort>, a: Entry, b: Entry) -> Order {
    match by {
        None => name_rank(a, b),
        Some(s) => row_order(s, a, b),
    }
}

pub proof fn lemma_rank_antisymmetric(by: Option<Sort>, a: Entry, b: Entry)
    ensures
        rank(by, a, b) == flip(rank(by, b, a)),
{
    lemma_natural_order_antisymmetric(a.name@, b.name@);
}

/// Ascending by name is the name order itself.
pub proof fn lemma_name_ascending_is_name_rank(a: Entry, b: Entry)
    ensures
        row_order(Sort { key: SortKey::Name, descending: false }, a, b) == name_rank(a, b),
{
}

/// `order` holds each index of `0..n` exactly once.
pub open spec fn is_permutation(order: Seq<usize>, n: nat) -> bool {
    &&& order.len() == n
    &&& forall|k: int| 0 <= k < order.len() ==> order[k] < n
    &&& forall|j: int, k: int| 0 <= j < k < order.len() ==> order[j] != order[k]
}

/// `order` lists `rows` so that no row is followed by one that should come
/// before it, and rows the order cannot tell apart keep their index order.
pub open spec fn sorted_by(by: Option<Sort>, rows: Seq<Entry>, order: Seq<usize>) -> bool {
    forall|k: int| 0 <= k < order.len() - 1 ==> {
        let o = #[trigger] rank(by, rows[order[k] as int], rows[order[k + 1] as int]);
        &&& o != Order::Greater
        &&& o == Order::Equal ==> order[k] < order[k + 1]
    }
}

/// Whatever the sort, directories come first: in an order sorted by any
/// sort, no directory follows a file.
pub proof fn lemma_directories_first(sort: Sort, rows: Seq<Entry>, order: Seq<usize>, j: int, k: int)
    requires
        sorted_by(Some(sort), rows, order),
        0 <= j < k < order.len(),
        rows[order[k] as int].kind == Kind::Directory,
    ensures
        rows[order[j] as int].kind == Kind::Directory,
    decreases k - j,
{
    let m = k - 1;
    assert(rank(Some(sort), rows[order[m] as int], rows[order[m + 1] as int]) != Order::Greater);
    if j < m {
        lemma_directories_first(sort, rows, order, j, m);
    }
}

pub open spec fn identity(n: nat) -> Seq<usize> {
    Seq::new(n, |k: int| k as usize)
}

fn option_compare(a: Option<u64>, b: Option<u64>) -> (r: Order)
    ensures
        r == option_order(
            match a { Some(n) => Some(n as int), None => None },
            match b { Some(n) => Some(n as int), None => None },
        ),
{
    match (a, b) {
        (None, None) => Order::Equal,
        (None, Some(_)) => Order::Less,
        (Some(_), None) => Order::Greater,
        (Some(x), Some(y)) => if x < y {
            Order::Less
        } else if x == y {
            Order::Equal
        } else {
            Order::Greater
        },
    }
}

fn time_compare(a: Option<i128>, b: Option<i128>) -> (r: Order)
    ensures
        r == option_order(
            match a { Some(n) => Some(n as int), None => None },
            match b { Some(n) => Some(n as int), None => None },
        ),
{
    match (a, b) {
        (None, None) => Order::Equal,
        (None, Some(_)) => Order::Less,
        (Some(_), None) => Order::Greater,
        (Some(x), Some(y)) => if x < y {
            Order::Less
        } else if x == y {
            Order::Equal
        } else {
            Order::Greater
        },
    }
}

fn flipped(o: Order) -> (r: Order)
    ensures
        r == flip(o),
{
    match o {
        Order::Less => Order::Greater,
        Order::Equal => Order::Equal,
        Order::Greater => Order::Less,
    }
}

/// [`rank`], computed.
fn compare_rows(by: Option<Sort>, a: &Entry, b: &Entry) -> (r: Order)
    ensures
        r == rank(by, *a, *b),
{
    let da = a.kind.is_dir();
    let db = b.kind.is_dir();
    if da && !db {
        return Order::Less;
    }
    if !da && db {
        return Order::Greater;
    }
    match by {
        None => natural_compare(a.name.as_str(), b.name.as_str()),
        Some(sort) => {
            let by_key = match sort.key {
                SortKey::Name => Order::Equal,
                SortKey::Size => option_compare(a.size, b.size),
                SortKey::Age => time_compare(b.modified, a.modified),
            };
            let within = match by_key {
                Order::Equal => natural_compare(a.name.as_str(), b.name.as_str()),
                other => other,
            };
            if sort.descending {
                flipped(within)
            } else {
                within
            }
        },
    }
}

impl Sort {
    /// The order a click on `key`'s column asks for: a new column starts in
    /// its natural direction, the current one turns around.
    pub fn clicked(self, key: SortKey) -> (r: Sort)
        ensures
            r.key == key,
            r.descending == (if self.key == key { !self.descending } else { key == SortKey::Size }),
    {
        if self.key == key {
            Sort { key, descending: !self.descending }
        } else {
            Sort { key, descending: key.natural_descending() }
        }
    }

    /// Where `a` goes relative to `b` under this sort.
    pub fn cmp(self, a: &Entry, b: &Entry) -> (r: Ordering)
        ensures
            r == ordering_of(row_order(self, *a, *b)),
    {
        match compare_rows(Some(self), a, b) {
            Order::Less => Ordering::Less,
            Order::Equal => Ordering::Equal,
            Order::Greater => Ordering::Greater,
        }
    }
}

/// The indices of `rows`, stably sorted by `by`: an insertion sort that
/// never moves a row past one it ties with.
fn sorted_indices(rows: &Vec<Entry>, by: Option<Sort>) -> (order: Vec<usize>)
    ensures
        is_permutation(order@, rows@.len()),
        sorted_by(by, rows@, order@),
{
    let mut order: Vec<usize> = Vec::new();
    let mut i: usize = 0;
    while i < rows.len()
        invariant
            i <= rows@.len(),
            order@.len() == i,
            forall|k: int| 0 <= k < order@.len() ==> order@[k] < i,
            forall|j: int, k: int| 0 <= j < k < order@.len() ==> order@[j] != order@[k],
            sorted_by(by, rows@, order@),
        decreases rows@.len() - i,
    {
        let mut p = order.len();
        while p > 0 && compare_rows(by, &rows[order[p - 1]], &rows[i]) == Order::Greater
            invariant
                p <= order@.len(),
                order@.len() == i,
                i < rows@.len(),
                forall|k: int| 0 <= k < order@.len() ==> order@[k] < i,
                forall|k: int| p <= k < order@.len() ==> rank(by, rows@[order@[k] as int], rows@[i as int]) == Order::Greater,
            decreases p,
        {
            p -= 1;
        }
        let ghost before = order@;
        order.insert(p, i);
        proof {
            let after = order@;
            assert(after == before.insert(p as int, i));
            assert forall|k: int| 0 <= k < after.len() - 1 implies {
                let o = #[trigger] rank(by, rows@[after[k] as int], rows@[after[k + 1] as int]);
                &&& o != Order::Greater
                &&& o == Order::Equal ==> after[k] < after[k + 1]
            } by {
                if k + 1 < p {
                    assert(after[k] == before[k] && after[k + 1] == before[k + 1]);
                    assert(rank(by, rows@[before[k] as int], rows@[before[k + 1] as int]) != Order::Greater);
                } else if k + 1 == p {
                    assert(after[k] == before[k] && after[k + 1] == i);
                    assert(before[k] < i);
                } else if k == p {
                    assert(after[k] == i && after[k + 1] == before[k]);
                    lemma_rank_antisymmetric(by, rows@[i as int], rows@[before[k] as int]);
                } else {
                    let j = k - 1;
                    assert(after[k] == before[j] && after[k + 1] == before[j + 1]);
                    assert(rank(by, rows@[before[j] as int], rows@[before[j + 1] as int]) != Order::Greater);
                }
            }
            assert forall|j: int, k: int| 0 <= j < k < after.len() implies after[j] != after[k] by {
                if j < p && k < p {
                    assert(after[j] == before[j] && after[k] == before[k]);
                } else if j < p && k == p {
                } else if j < p {
                    assert(after[j] == before[j] && after[k] == before[k - 1]);
                } else if j == p {
                    assert(after[k] == before[k - 1]);
                } else {
                    assert(after[j] == before[j - 1] && after[k] == before[k - 1]);
                }
            }
        }
        i += 1;
    }
    order
}

/// A directory's entries and the order they are shown in.
#[derive(Debug)]
pub struct Listing {
    pub path: String,
    /// Everything in the directory, in name order, hidden entries included:
    /// filtering is [`Listing::visible`]'s job, so a hidden-files toggle
    /// needs no re-read. Never reordered once read — the cursor and the marks
    /// hold indices into it.
    entries: Vec<Entry>,
    /// Indices into `entries` in display order.
    order: Vec<usize>,
    sort: Sort,
    /// Set when the directory could not be read at all. The path still
    /// shows, so the user can see where they are and navigate out.
    pub error: Option<String>,
}

/// The visible indices of `order`, in order.
pub open spec fn visible_of(rows: Seq<Entry>, order: Seq<usize>, show_hidden: bool) -> Seq<usize>
    decreases order.len(),
{
    if order.len() == 0 {
        Seq::empty()
    } else {
        let rest = visible_of(rows, order.skip(1), show_hidden);
        if show_hidden || !hidden_name(rows[order[0] as int].name@) {
            seq![order[0]] + rest
        } else {
            rest
        }
    }
}

/// `(directories, files)` among the rows `shown` names.
pub open spec fn count_kinds(rows: Seq<Entry>, shown: Seq<usize>) -> (int, int)
    decreases shown.len(),
{
    if shown.len() == 0 {
        (0, 0)
    } else {
        let (d, f) = count_kinds(rows, shown.skip(1));
        if rows[shown[0] as int].kind == Kind::Directory { (d + 1, f) } else { (d, f + 1) }
    }
}

/// The first index whose entry is called `name`, or -1.
pub open spec fn first_named(rows: Seq<Entry>, name: Seq<char>) -> int
    decreases rows.len(),
{
    if rows.len() == 0 {
        -1
    } else if rows[0].name@ == name {
        0
    } else {
        let k = first_named(rows.skip(1), name);
        if k < 0 { -1 } else { k + 1 }
    }
}

proof fn lemma_visible_bounds(rows: Seq<Entry>, order: Seq<usize>, show_hidden: bool)
    ensures
        visible_of(rows, order, show_hidden).len() <= order.len(),
        forall|k: int| 0 <= k < visible_of(rows, order, show_hidden).len() ==> exists|j: int| 0 <= j < order.len() && order[j] == #[trigger] visible_of(rows, order, show_hidden)[k],
    decreases order.len(),
{
    if order.len() > 0 {
        lemma_visible_bounds(rows, order.skip(1), show_hidden);
        let v = visible_of(rows, order, show_hidden);
        let rest = visible_of(rows, order.skip(1), show_hidden);
        assert forall|k: int| 0 <= k < v.len() implies exists|j: int| 0 <= j < order.len() && order[j] == #[trigger] v[k] by {
            if show_hidden || !hidden_name(rows[order[0] as int].name@) {
                if k == 0 {
                    assert(order[0] == v[0]);
                } else {
                    assert(v[k] == rest[k - 1]);
                    let j = choose|j: int| 0 <= j < order.skip(1).len() && order.skip(1)[j] == rest[k - 1];
                    assert(order[j + 1] == v[k]);
                }
            } else {
                assert(v[k] == rest[k]);
                let j = choose|j: int| 0 <= j < order.skip(1).len() && order.skip(1)[j] == rest[k];
                assert(order[j + 1] == v[k]);
            }
        }
    }
}

proof fn lemma_count_bounds(rows: Seq<Entry>, shown: Seq<usize>)
    ensures
        count_kinds(rows, shown).0 >= 0,
        count_kinds(rows, shown).1 >= 0,
        count_kinds(rows, shown).0 + count_kinds(rows, shown).1 == shown.len(),
    decreases shown.len(),
{
    if shown.len() > 0 {
        lemma_count_bounds(rows, shown.skip(1));
    }
}

impl Listing {
    pub closed spec fn rows(&self) -> Seq<Entry> {
        self.entries@
    }

    pub closed spec fn shown_order(&self) -> Seq<usize> {
        self.order@
    }

    pub closed spec fn sort_spec(&self) -> Sort {
        self.sort
    }

    /// The directory this lists.
    pub closed spec fn location(&self) -> String {
        self.path
    }

    /// Why the directory could not be read, if it could not.
    pub closed spec fn failure(&self) -> Option<String> {
        self.error
    }

    /// Entries in name order, and a display order that is a permutation of
    /// them sorted by the listing's sort.
    pub closed spec fn wf(&self) -> bool {
        &&& sorted_by(None, self.entries@, identity(self.entries@.len()))
        &&& is_permutation(self.order@, self.entries@.len())
        &&& sorted_by(Some(self.sort), self.entries@, self.order@)
    }

    /// What reading `path` gave: its entries in name order, or the error
    /// that stopped the read — a listing either way, because a file manager
    /// that shows nothing and says nothing is worse than one that says
    /// "permission denied".
    pub fn read(path: String, listed: Result<Vec<Entry>, String>) -> (l: Listing)
        ensures
            l.wf(),
            l.location() == path,
            l.sort_spec() == (Sort { key: SortKey::Name, descending: false }),
            l.shown_order() == identity(l.rows().len()),
            match listed {
                Err(e) => l.failure() == Some(e) && l.rows().len() == 0,
                Ok(read) => l.failure() is None && exists|p: Seq<usize>| {
                    &&& is_permutation(p, read@.len())
                    &&& sorted_by(None, read@, p)
                    &&& l.rows() == Seq::new(p.len(), |k: int| read@[p[k] as int])
                },
            },
    {
        match listed {
            Err(e) => {
                let l = Listing { path, entries: Vec::new(), order: Vec::new(), sort: Sort::default(), error: Some(e) };
                assert(l.order@ =~= identity(0));
                l
            },
            Ok(read) => {
                let p = sorted_indices(&read, None);
                let mut entries: Vec<Entry> = Vec::new();
                let mut k: usize = 0;
                while k < p.len()
                    invariant
                        k <= p@.len(),
                        is_permutation(p@, read@.len()),
                        entries@ == Seq::new(k as nat, |j: int| read@[p@[j] as int]),
                    decreases p@.len() - k,
                {
                    let e = read[p[k]].clone();
                    entries.push(e);
                    k += 1;
                    assert(entries@ =~= Seq::new(k as nat, |j: int| read@[p@[j] as int]));
                }
                let ghost rows = entries@;
                let order = Self::identity_order(entries.len());
                proof {
                    assert forall|i: int| 0 <= i < rows.len() - 1 implies {
                        let o = #[trigger] rank(None, rows[identity(rows.len())[i] as int], rows[identity(rows.len())[i + 1] as int]);
                        &&& o != Order::Greater
                        &&& o == Order::Equal ==> identity(rows.len())[i] < identity(rows.len())[i + 1]
                    } by {
                        assert(rows[i] == read@[p@[i] as int]);
                        assert(rows[i + 1] == read@[p@[i + 1] as int]);
                        assert(rank(None, read@[p@[i] as int], read@[p@[i + 1] as int]) != Order::Greater);
                    }
                    assert forall|i: int| 0 <= i < rows.len() - 1 implies #[trigger] rank(Some(Sort { key: SortKey::Name, descending: false }), rows[order@[i] as int], rows[order@[i + 1] as int]) != Order::Greater by {
                        lemma_name_ascending_is_name_rank(rows[i], rows[i + 1]);
                        assert(rank(None, rows[identity(rows.len())[i] as int], rows[identity(rows.len())[i + 1] as int]) != Order::Greater);
                    }
                }
                Listing { path, entries, order, sort: Sort::default(), error: None }
            },
        }
    }

    fn identity_order(n: usize) -> (order: Vec<usize>)
        ensures
            order@ == identity(n as nat),
            is_permutation(order@, n as nat),
    {
        let mut order: Vec<usize> = Vec::new();
        let mut k: usize = 0;
        while k < n
            invariant
                k <= n,
                order@ == identity(k as nat),
            decreases n - k,
        {
            order.push(k);
            k += 1;
            assert(order@ =~= identity(k as nat));
        }
        order
    }

    /// Read `path`'s result and order it by `sort` in one go, for the
    /// background thread that has no view to ask afterwards.
    pub fn read_sorted(path: String, listed: Result<Vec<Entry>, String>, sort: Sort) -> (l: Listing)
        ensures
            l.wf(),
            l.location() == path,
            l.sort_spec() == sort,
            match listed {
                Err(e) => l.failure() == Some(e) && l.rows().len() == 0,
                Ok(read) => l.failure() is None && exists|p: Seq<usize>| {
                    &&& is_permutation(p, read@.len())
                    &&& sorted_by(None, read@, p)
                    &&& l.rows() == Seq::new(p.len(), |k: int| read@[p[k] as int])
                },
            },
    {
        let mut l = Self::read(path, listed);
        l.sort(sort);
        l
    }

    pub fn empty(path: String) -> (l: Listing)
        ensures
            l.wf(),
            l.location() == path,
            l.rows().len() == 0,
            l.failure() is None,
            l.sort_spec() == (Sort { key: SortKey::Name, descending: false }),
    {
        let l = Listing { path, entries: Vec::new(), order: Vec::new(), sort: Sort::default(), error: None };
        assert(l.entries@.len() == 0);
        l
    }

    /// Reorder the rows. Indices stay what they were, so a cursor or a mark
    /// held across the call is still on the same entry, in its new place.
    pub fn sort(&mut self, sort: Sort)
        requires
            old(self).wf(),
        ensures
            final(self).wf(),
            final(self).rows() == old(self).rows(),
            final(self).location() == old(self).location(),
            final(self).failure() == old(self).failure(),
            final(self).sort_spec() == sort,
    {
        self.sort = sort;
        let n = self.entries.len();
        if sort.key != SortKey::Name || sort.descending {
            self.order = sorted_indices(&self.entries, Some(sort));
        } else {
            self.order = Self::identity_order(n);
            proof {
                let rows = self.entries@;
                assert forall|i: int| 0 <= i < rows.len() - 1 implies {
                    let o = #[trigger] rank(Some(sort), rows[self.order@[i] as int], rows[self.order@[i + 1] as int]);
                    &&& o != Order::Greater
                    &&& o == Order::Equal ==> self.order@[i] < self.order@[i + 1]
                } by {
                    lemma_name_ascending_is_name_rank(rows[i], rows[i + 1]);
                    assert(rank(None, rows[identity(rows.len())[i] as int], rows[identity(rows.len())[i + 1] as int]) != Order::Greater);
                }
            }
        }
    }

    pub fn sort_order(&self) -> (s: Sort)
        ensures
            s == self.sort_spec(),
    {
        self.sort
    }

    /// Indices into [`Self::all`] that should be shown, in display order.
    /// Indices rather than references, so a cursor survives a hidden-files
    /// toggle or a change of sort.
    pub fn visible(&self, show_hidden: bool) -> (r: Vec<usize>)
        requires
            self.wf(),
        ensures
            r@ == visible_of(self.rows(), self.shown_order(), show_hidden),
            forall|k: int| 0 <= k < r@.len() ==> r@[k] < self.rows().len(),
    {
        let mut out: Vec<usize> = Vec::new();
        let mut k = self.order.len();
        let ghost rows = self.entries@;
        let ghost order = self.order@;
        assert(order.skip(order.len() as int) =~= Seq::<usize>::empty());
        while k > 0
            invariant
                k <= order.len(),
                order == self.order@,
                rows == self.entries@,
                is_permutation(order, rows.len()),
                out@ == visible_of(rows, order.skip(k as int), show_hidden),
            decreases k,
        {
            k -= 1;
            let i = self.order[k];
            assert(order.skip(k as int).skip(1) =~= order.skip(k + 1));
            assert(order.skip(k as int)[0] == i);
            if show_hidden || !self.entries[i].is_hidden() {
                let ghost before = out@;
                out.insert(0, i);
                assert(out@ =~= seq![i] + before);
            }
        }
        assert(order.skip(0) =~= order);
        proof {
            lemma_visible_bounds(rows, order, show_hidden);
            assert forall|k: int| 0 <= k < out@.len() implies out@[k] < rows.len() by {
                let j = choose|j: int| 0 <= j < order.len() && order[j] == out@[k];
            }
        }
        out
    }

    pub fn all(&self) -> (r: &[Entry])
        ensures
            r@ == self.rows(),
    {
        self.entries.as_slice()
    }

    pub fn get(&self, index: usize) -> (r: Option<&Entry>)
        ensures
            match r {
                Some(e) => index < self.rows().len() && *e == self.rows()[index as int],
                None => index >= self.rows().len(),
            },
    {
        if index < self.entries.len() {
            Some(&self.entries[index])
        } else {
            None
        }
    }

    pub fn is_empty(&self) -> (r: bool)
        ensures
            r == (self.rows().len() == 0),
    {
        self.entries.len() == 0
    }

    /// Find an entry by file name: how the cursor is put back after a
    /// refresh, where indices have shifted but the name has not.
    pub fn index_of_name(&self, name: &str) -> (r: Option<usize>)
        ensures
            match r {
                Some(i) => first_named(self.rows(), name@) == i,
                None => first_named(self.rows(), name@) == -1,
            },
    {
        let mut i: usize = 0;
        let ghost rows = self.entries@;
        assert(rows.skip(0) =~= rows);
        while i < self.entries.len()
            invariant
                i <= rows.len(),
                rows == self.entries@,
                first_named(rows, name@) == (if first_named(rows.skip(i as int), name@) < 0 { -1 } else { first_named(rows.skip(i as int), name@) + i }),
            decreases rows.len() - i,
        {
            assert(rows.skip(i as int)[0] == rows[i as int]);
            if crate::text::str_eq(self.entries[i].name.as_str(), name) {
                return Some(i);
            }
            assert(rows.skip(i as int).skip(1) =~= rows.skip(i + 1));
            i += 1;
        }
        None
    }

    /// `(directories, files)` among the visible entries, for the status
    /// line.
    pub fn counts(&self, show_hidden: bool) -> (r: (usize, usize))
        requires
            self.wf(),
        ensures
            r.0 == count_kinds(self.rows(), visible_of(self.rows(), self.shown_order(), show_hidden)).0,
            r.1 == count_kinds(self.rows(), visible_of(self.rows(), self.shown_order(), show_hidden)).1,
    {
        let shown = self.visible(show_hidden);
        let ghost rows = self.entries@;
        let mut dirs: usize = 0;
        let mut files: usize = 0;
        let mut k = shown.len();
        proof {
            lemma_count_bounds(rows, shown@);
            lemma_visible_bounds(rows, self.order@, show_hidden);
        }
        assert(shown@.skip(shown@.len() as int) =~= Seq::<usize>::empty());
        while k > 0
            invariant
                k <= shown@.len(),
                shown@.len() <= usize::MAX,
                shown@.len() <= rows.len(),
                rows == self.entries@,
                forall|j: int| 0 <= j < shown@.len() ==> shown@[j] < rows.len(),
                (dirs as int, files as int) == count_kinds(rows, shown@.skip(k as int)),
            decreases k,
        {
            k -= 1;
            assert(shown@.skip(k as int).skip(1) =~= shown@.skip(k + 1));
            assert(shown@.skip(k as int)[0] == shown@[k as int]);
            proof {
                lemma_count_bounds(rows, shown@.skip(k + 1));
                let c = count_kinds(rows, shown@.skip(k + 1));
                assert(dirs == c.0 && files == c.1);
                assert(shown@.skip(k + 1).len() == shown@.len() - k - 1);
            }
            if self.entries[shown[k]].kind.is_dir() {
                dirs += 1;
            } else {
                files += 1;
            }
        }
        assert(shown@.skip(0) =~= shown@);
        (dirs, files)
    }

    /// The parent directory, unless this is the root.
    pub fn parent(&self) -> (r: Option<String>)
        ensures
            match r {
                Some(p) => crate::path::parent_of(self.location()@) == Some(p@),
                None => crate::path::parent_of(self.location()@) is None,
            },
    {
        crate::path::parent(self.path.as_str())
    }
}

/// What the empty state says, in order of what is worth saying.
pub fn describe_empty(listing: &Listing, show_hidden: bool) -> (r: &'static str)
    requires
        listing.wf(),
    ensures
        r@ == (if listing.failure() is Some {
            "cannot read this directory"@
        } else if listing.rows().len() == 0 {
            "empty directory"@
        } else if visible_of(listing.rows(), listing.shown_order(), show_hidden).len() == 0 {
            "only hidden files here"@
        } else {
            ""@
        }),
{
    if listing.error.is_some() {
        "cannot read this directory"
    } else if listing.is_empty() {
        "empty directory"
    } else if listing.visible(show_hidden).len() == 0 {
        "only hidden files here"
    } else {
        ""
    }
}

/// Whether `entry` can be entered.
pub fn is_navigable(entry: &Entry) -> (r: bool)
    ensures
        r == (entry.kind == Kind::Directory),
{
    entry.kind.is_dir()
}

/// The order within one kind (directories among themselves, files among
/// themselves) before a descending sort turns it round.
pub open spec fn within(sort: Sort, a: Entry, b: Entry) -> Order {
    let by_key = match sort.key {
        SortKey::Name => Order::Equal,
        SortKey::Size => option_order(size_of(a), size_of(b)),
        SortKey::Age => option_order(time_of(b), time_of(a)),
    };
    if by_key == Order::Equal { natural_order(a.name@, b.name@) } else { by_key }
}

proof fn lemma_within_antisymmetric(sort: Sort, a: Entry, b: Entry)
    ensures
        within(sort, a, b) == flip(within(sort, b, a)),
{
    lemma_natural_order_antisymmetric(a.name@, b.name@);
}

proof fn lemma_within_transitive(sort: Sort, a: Entry, b: Entry, c: Entry)
    requires
        within(sort, a, b) != Order::Greater,
        within(sort, b, c) != Order::Greater,
    ensures
        within(sort, a, c) != Order::Greater,
        (within(sort, a, b) == Order::Less || within(sort, b, c) == Order::Less) ==> within(sort, a, c) == Order::Less,
{
    let key_ab = match sort.key {
        SortKey::Name => Order::Equal,
        SortKey::Size => option_order(size_of(a), size_of(b)),
        SortKey::Age => option_order(time_of(b), time_of(a)),
    };
    let key_bc = match sort.key {
        SortKey::Name => Order::Equal,
        SortKey::Size => option_order(size_of(b), size_of(c)),
        SortKey::Age => option_order(time_of(c), time_of(b)),
    };
    if key_ab == Order::Equal && key_bc == Order::Equal {
        lemma_natural_order_transitive(a.name@, b.name@, c.name@);
    }
}

/// Any sort's order is transitive: a row not after a second, the second
/// not after a third, puts the first not after the third, and strictly
/// before when either step is strict.
pub proof fn lemma_rank_transitive(by: Option<Sort>, a: Entry, b: Entry, c: Entry)
    requires
        rank(by, a, b) != Order::Greater,
        rank(by, b, c) != Order::Greater,
    ensures
        rank(by, a, c) != Order::Greater,
        (rank(by, a, b) == Order::Less || rank(by, b, c) == Order::Less) ==> rank(by, a, c) == Order::Less,
{
    let da = a.kind == Kind::Directory;
    let db = b.kind == Kind::Directory;
    let dc = c.kind == Kind::Directory;
    if da == db && db == dc {
        match by {
            None => lemma_natural_order_transitive(a.name@, b.name@, c.name@),
            Some(sort) => {
                if sort.descending {
                    lemma_within_antisymmetric(sort, a, b);
                    lemma_within_antisymmetric(sort, b, c);
                    lemma_within_antisymmetric(sort, a, c);
                    lemma_within_transitive(sort, c, b, a);
                } else {
                    lemma_within_transitive(sort, a, b, c);
                }
            },
        }
    }
}

/// A sorted listing never shows a row before one that sorts ahead of it:
/// sorted neighbour by neighbour means sorted throughout.
pub proof fn lemma_sorted_throughout(by: Option<Sort>, rows: Seq<Entry>, order: Seq<usize>, j: int, k: int)
    requires
        sorted_by(by, rows, order),
        0 <= j < k < order.len(),
    ensures
        rank(by, rows[order[j] as int], rows[order[k] as int]) != Order::Greater,
    decreases k - j,
{
    let m = k - 1;
    assert(rank(by, rows[order[m] as int], rows[order[m + 1] as int]) != Order::Greater);
    if j < m {
        lemma_sorted_throughout(by, rows, order, j, m);
        lemma_rank_transitive(by, rows[order[j] as int], rows[order[m] as int], rows[order[k] as int]);
    }
}

} // verus!
