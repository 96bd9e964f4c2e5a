//! One row in a directory listing, and the orders rows are shown in.

use vstd::prelude::*;
use std::cmp::Ordering;
use std::time::{Duration, SystemTime};
use crate::text::chars_of;
use crate::natural::{natural_compare, natural_order, Order};
use crate::numfmt::{decimal, decimal_string};
use crate::text::push_char;
use crate::path::{file_name_of, parent_of, strict_ancestors, lemma_parent_shorter, root_path};

verus! {

#[verifier::external_type_specification]
#[verifier::external_body]
pub struct ExSystemTime(SystemTime);

#[derive(Debug, Clone, Copy, PartialEq, Eq, Structural)]
pub enum Kind {
    Directory,
    File,
    /// A symlink we could not resolve — a broken link, or one pointing outside
    /// what we can stat. Shown rather than hidden: a broken link in a directory
    /// is information.
    Unresolved,
}

impl Kind {
    pub fn is_dir(self) -> (r: bool)
        ensures
            r == (self == Kind::Directory),
    {
        match self {
            Kind::Directory => true,
            _ => false,
        }
    }
}

/// What a `stat` that followed the link found: the facts an entry keeps.
#[derive(Debug, Clone, Copy, PartialEq, Eq, Structural)]
pub struct Metadata {
    pub is_dir: bool,
    pub len: u64,
    /// Modification time in nanoseconds since the Unix epoch, when known.
    pub modified: Option<i128>,
}

#[derive(Debug, PartialEq, Eq)]
pub struct Entry {
    pub path: String,
    /// The file name alone. Stored rather than derived because it is read on
    /// every frame for every visible row.
    pub name: String,
    pub kind: Kind,
    /// `None` for directories — computing a directory's size means walking it.
    pub size: Option<u64>,
    /// Modification time in nanoseconds since the Unix epoch. Ordered as the
    /// times themselves are.
    pub modified: Option<i128>,
    /// Whether this is a symlink, independent of what it resolves to.
    pub is_symlink: bool,
}

impl Clone for Entry {
    fn clone(&self) -> (r: Self)
        ensures
            r == *self,
    {
        Entry {
            path: self.path.clone(),
            name: self.name.clone(),
            kind: self.kind,
            size: self.size,
            modified: self.modified,
            is_symlink: self.is_symlink,
        }
    }
}

/// The name a listing shows for `path`: its last component, or the whole
/// path when it has none.
pub open spec fn entry_name(path: Seq<char>) -> Seq<char> {
    match file_name_of(path) {
        Some(n) => n,
        None => path,
    }
}

pub open spec fn hidden_name(name: Seq<char>) -> bool {
    name.len() > 0 && name[0] == '.'
}

impl Entry {
    /// Build one directory entry from what the two `stat`s said. Never fails:
    /// a `stat` that errored (`metadata` is `None`) yields an
    /// [`Kind::Unresolved`] entry rather than dropping the file from the view.
    pub fn from_path(path: String, metadata: Option<Metadata>, is_symlink: bool) -> (e: Entry)
        ensures
            e.path == path,
            e.name@ == entry_name(path@),
            e.is_symlink == is_symlink,
            match metadata {
                Some(m) => {
                    &&& e.kind == (if m.is_dir { Kind::Directory } else { Kind::File })
                    &&& e.size == (if m.is_dir { None } else { Some(m.len) })
                    &&& e.modified == m.modified
                },
                None => e.kind == Kind::Unresolved && e.size is None && e.modified is None,
            },
    {
        let name = match crate::path::file_name(path.as_str()) {
            Some(n) => n,
            None => path.clone(),
        };
        match metadata {
            Some(m) => Entry {
                kind: if m.is_dir { Kind::Directory } else { Kind::File },
                size: if m.is_dir { None } else { Some(m.len) },
                modified: m.modified,
                name,
                path,
                is_symlink,
            },
            None => Entry {
                kind: Kind::Unresolved,
                size: None,
                modified: None,
                name,
                path,
                is_symlink,
            },
        }
    }

    /// A leading dot, the Unix convention. Not the same as "should be
    /// hidden" — that is the view's decision.
    pub fn is_hidden(&self) -> (r: bool)
        ensures
            r == hidden_name(self.name@),
    {
        let cs = chars_of(self.name.as_str());
        cs.len() > 0 && cs[0] == '.'
    }

    /// Directories first, then natural order by name.
    pub fn sort_key_cmp(&self, other: &Self) -> (r: Ordering)
        ensures
            r == entry_order(self.kind, self.name@, other.kind, other.name@),
    {
        let mine = self.kind.is_dir();
        let theirs = other.kind.is_dir();
        if mine && !theirs {
            Ordering::Less
        } else if !mine && theirs {
            Ordering::Greater
        } else {
            natural_cmp(self.name.as_str(), other.name.as_str())
        }
    }
}

/// Directories before everything else, then the natural name order.
pub open spec fn entry_order(k1: Kind, n1: Seq<char>, k2: Kind, n2: Seq<char>) -> Ordering {
    if k1 == Kind::Directory && k2 != Kind::Directory {
        Ordering::Less
    } else if k1 != Kind::Directory && k2 == Kind::Directory {
        Ordering::Greater
    } else {
        ordering_of(natural_order(n1, n2))
    }
}

pub open spec fn pow1024(u: nat) -> nat
    decreases u,
{
    if u == 0 {
        1
    } else {
        1024 * pow1024((u - 1) as nat)
    }
}

pub open spec fn pow2(k: nat) -> nat
    decreases k,
{
    if k == 0 {
        1
    } else {
        2 * pow2((k - 1) as nat)
    }
}

/// How many bits `n` needs.
pub open spec fn bit_length(n: nat) -> nat
    decreases n,
{
    if n == 0 {
        0
    } else {
        1 + bit_length(n / 2)
    }
}

/// `num / den`, rounded to the nearest integer, ties to the even one.
pub open spec fn round_half_even(num: nat, den: nat) -> nat {
    let q = num / den;
    let r = num % den;
    if 2 * r > den || (2 * r == den && q % 2 == 1) {
        q + 1
    } else {
        q
    }
}

/// `n as f64`, for a non-negative integer: exact up to 53 significant bits,
/// rounded to nearest-even beyond.
pub open spec fn as_f64(n: nat) -> nat {
    let l = bit_length(n);
    if l <= 53 {
        n
    } else {
        round_half_even(n, pow2((l - 53) as nat)) * pow2((l - 53) as nat)
    }
}

/// The unit a size is shown in: the largest power of 1024 it reaches, up to P.
pub open spec fn size_unit(bytes: nat) -> nat {
    if bytes >= pow1024(5) {
        5
    } else if bytes >= pow1024(4) {
        4
    } else if bytes >= pow1024(3) {
        3
    } else if bytes >= pow1024(2) {
        2
    } else if bytes >= pow1024(1) {
        1
    } else {
        0
    }
}

pub open spec fn unit_letter(u: nat) -> char {
    if u == 1 {
        'K'
    } else if u == 2 {
        'M'
    } else if u == 3 {
        'G'
    } else if u == 4 {
        'T'
    } else if u == 5 {
        'P'
    } else {
        'B'
    }
}

/// `format_size`'s text: whole bytes below 1 K; above, the value in its unit
/// with one decimal below 10 and none from 10 on, rounded as `{:.1}` and
/// `{:.0}` round a float (to nearest, ties to even).
pub open spec fn size_text(bytes: nat) -> Seq<char> {
    let u = size_unit(bytes);
    if u == 0 {
        decimal(bytes) + seq![' ', 'B']
    } else {
        let f = as_f64(bytes);
        let d = pow1024(u);
        if f < 10 * d {
            let t = round_half_even(f * 10, d);
            decimal(t / 10) + seq!['.'] + decimal(t % 10) + seq![' ', unit_letter(u)]
        } else {
            decimal(round_half_even(f, d)) + seq![' ', unit_letter(u)]
        }
    }
}

proof fn lemma_bit_length_bound(n: nat, k: nat)
    requires
        n < pow2(k),
    ensures
        bit_length(n) <= k,
    decreases k,
{
    if n > 0 && k > 0 {
        lemma_bit_length_bound(n / 2, (k - 1) as nat);
    }
}

proof fn lemma_round_bound(num: nat, den: nat)
    requires
        den > 0,
    ensures
        round_half_even(num, den) * den <= num + den,
{
    let q = num / den;
    assert(q * den <= num) by (nonlinear_arith)
        requires
            q == num / den,
            den > 0,
    ;
    assert((q + 1) * den == q * den + den) by (nonlinear_arith);
}

fn round_even(num: u128, den: u128) -> (r: u128)
    requires
        den > 0,
        num <= 0x1_0000_0000_0000_0000_0000_0000_0000u128,
    ensures
        r == round_half_even(num as nat, den as nat),
{
    let q = num / den;
    let r = num % den;
    assert(q <= num) by (nonlinear_arith)
        requires
            q == num / den,
            den > 0,
    ;
    if r > den - r || (r == den - r && q % 2 == 1) {
        q + 1
    } else {
        q
    }
}

/// `bytes as f64`, as an exact integer.
fn f64_value(bytes: u64) -> (f: u128)
    ensures
        f == as_f64(bytes as nat),
        f <= 0x1_0000_0000_0000_0000u128 + 4096,
{
    let n: u128 = bytes as u128;
    let mut m = n;
    let mut len: u128 = 0;
    proof {
        reveal_with_fuel(pow2, 65);
        assert(pow2(64) == 0x1_0000_0000_0000_0000);
        lemma_bit_length_bound(n as nat, 64);
    }
    while m > 0
        invariant
            bit_length(n as nat) == len + bit_length(m as nat),
            m <= n,
            len <= 128,
            len + bit_length(m as nat) <= 64,
        decreases m,
    {
        m = m / 2;
        len += 1;
    }
    if len <= 53 {
        return n;
    }
    let shift = len - 53;
    let mut p: u128 = 1;
    let mut i: u128 = 0;
    while i < shift
        invariant
            i <= shift <= 11,
            p == pow2(i as nat),
            p <= 2048,
        decreases shift - i,
    {
        proof {
            reveal_with_fuel(pow2, 12);
            assert(pow2(11) == 2048);
        }
        p = p * 2;
        i += 1;
        proof {
            if i <= 11 {
            }
        }
    }
    proof {
        reveal_with_fuel(pow2, 12);
        assert(pow2(11) == 2048);
    }
    let q = round_even(n, p);
    proof {
        lemma_round_bound(n as nat, p as nat);
    }
    q * p
}

/// Human-readable size, for the listing's right-hand column.
pub fn format_size(bytes: u64) -> (r: String)
    ensures
        r@ == size_text(bytes as nat),
{
    proof {
        reveal_with_fuel(pow1024, 6);
        assert(pow1024(1) == 1024);
        assert(pow1024(2) == 1048576);
        assert(pow1024(3) == 1073741824);
        assert(pow1024(4) == 1099511627776);
        assert(pow1024(5) == 1125899906842624);
    }
    let (unit, d): (u128, u128) = if bytes >= 1125899906842624 {
        (5, 1125899906842624)
    } else if bytes >= 1099511627776 {
        (4, 1099511627776)
    } else if bytes >= 1073741824 {
        (3, 1073741824)
    } else if bytes >= 1048576 {
        (2, 1048576)
    } else if bytes >= 1024 {
        (1, 1024)
    } else {
        (0, 1)
    };
    let letter = if unit == 1 {
        'K'
    } else if unit == 2 {
        'M'
    } else if unit == 3 {
        'G'
    } else if unit == 4 {
        'T'
    } else if unit == 5 {
        'P'
    } else {
        'B'
    };
    if unit == 0 {
        let mut s = decimal_string(bytes as u128);
        push_char(&mut s, ' ');
        push_char(&mut s, 'B');
        return s;
    }
    let f = f64_value(bytes);
    if f < 10 * d {
        let t = round_even(f * 10, d);
        let mut s = decimal_string(t / 10);
        push_char(&mut s, '.');
        let tail = decimal_string(t % 10);
        s.append(tail.as_str());
        push_char(&mut s, ' ');
        push_char(&mut s, letter);
        assert(s@ =~= size_text(bytes as nat));
        s
    } else {
        let mut s = decimal_string(round_even(f, d));
        push_char(&mut s, ' ');
        push_char(&mut s, letter);
        assert(s@ =~= size_text(bytes as nat));
        s
    }
}

/// Compact relative age for something `elapsed` seconds old: `now` under a
/// minute or when it is dated in the future (`None`), then whole minutes,
/// hours, days, 30-day months and 365-day years.
pub open spec fn age_text(elapsed: Option<u64>) -> Seq<char> {
    match elapsed {
        None => seq!['n', 'o', 'w'],
        Some(s) => {
            if s < 60 {
                seq!['n', 'o', 'w']
            } else if s < 3600 {
                decimal((s / 60) as nat) + seq!['m']
            } else if s < 86_400 {
                decimal((s / 3600) as nat) + seq!['h']
            } else if s < 2_592_000 {
                decimal((s / 86_400) as nat) + seq!['d']
            } else if s < 31_536_000 {
                decimal((s / 2_592_000) as nat) + seq!['m', 'o']
            } else {
                decimal((s / 31_536_000) as nat) + seq!['y']
            }
        },
    }
}

/// The age text for a known elapsed time.
pub fn format_age_secs(elapsed: Option<u64>) -> (r: String)
    ensures
        r@ == age_text(elapsed),
{
    let mut out = String::new();
    match elapsed {
        None => {
            push_char(&mut out, 'n');
            push_char(&mut out, 'o');
            push_char(&mut out, 'w');
        },
        Some(s) => {
            if s < 60 {
                push_char(&mut out, 'n');
                push_char(&mut out, 'o');
                push_char(&mut out, 'w');
            } else if s < 3600 {
                out = decimal_string((s / 60) as u128);
                push_char(&mut out, 'm');
            } else if s < 86_400 {
                out = decimal_string((s / 3600) as u128);
                push_char(&mut out, 'h');
            } else if s < 2_592_000 {
                out = decimal_string((s / 86_400) as u128);
                push_char(&mut out, 'd');
            } else if s < 31_536_000 {
                out = decimal_string((s / 2_592_000) as u128);
                push_char(&mut out, 'm');
                push_char(&mut out, 'o');
            } else {
                out = decimal_string((s / 31_536_000) as u128);
                push_char(&mut out, 'y');
            }
        },
    }
    assert(out@ =~= age_text(elapsed));
    out
}

/// `SystemTime::elapsed`: how long ago `t` was by the clock now, or `None`
/// when `t` lies in the future. Nothing is promised of the value: it is the
/// clock's answer.
#[verifier::external_body]
fn elapsed_since(t: &SystemTime) -> Option<Duration> {
    t.elapsed().ok()
}

/// `Duration::as_secs`: the whole seconds in `d`.
#[verifier::external_body]
fn whole_seconds(d: &Duration) -> u64 {
    d.as_secs()
}

/// Compact relative age, e.g. `2m`, `4h`, `9d`: the age text of however long
/// ago `modified` was when the clock was read.
pub fn format_age(modified: SystemTime) -> (r: String)
    ensures
        exists|elapsed: Option<u64>| r@ == age_text(elapsed),
{
    let elapsed = match elapsed_since(&modified) {
        Some(d) => Some(whole_seconds(&d)),
        None => None,
    };
    format_age_secs(elapsed)
}

/// `c` is `p` itself or one of its ancestors.
pub open spec fn self_or_ancestor(c: Seq<char>, p: Seq<char>) -> bool {
    c == p || strict_ancestors(p).contains(c)
}

/// `p` followed by its ancestors, nearest first.
pub open spec fn chain_of(p: Seq<char>) -> Seq<Seq<char>> {
    seq![p] + strict_ancestors(p)
}

/// The index of the first `true` in `answers`, or -1.
pub open spec fn first_yes(answers: Seq<bool>) -> int
    decreases answers.len(),
{
    if answers.len() == 0 {
        -1
    } else if first_yes(answers.drop_last()) >= 0 {
        first_yes(answers.drop_last())
    } else if answers.last() {
        answers.len() - 1
    } else {
        -1
    }
}

/// Where `nearest_existing` lands, when `answers[k]` says whether the `k`th
/// of `path` and its ancestors is a directory: the first that is, else `/`.
pub open spec fn nearest_of(path: Seq<char>, answers: Seq<bool>) -> Seq<char> {
    if 0 <= first_yes(answers) < chain_of(path).len() { chain_of(path)[first_yes(answers)] } else { root_path() }
}

/// The answers of asking about `path` and then each ancestor in turn:
/// every one but the last said no, and the asking stopped at the first yes
/// or after the root.
pub open spec fn asked_upwards(path: Seq<char>, answers: Seq<bool>) -> bool {
    &&& 1 <= answers.len() <= chain_of(path).len()
    &&& forall|j: int| 0 <= j < answers.len() - 1 ==> !answers[j]
    &&& !answers.last() ==> answers.len() == chain_of(path).len()
}

proof fn lemma_first_yes_push(s: Seq<bool>, b: bool)
    ensures
        first_yes(s.push(b)) == if first_yes(s) >= 0 { first_yes(s) } else if b { s.len() as int } else { -1 },
{
    assert(s.push(b).drop_last() =~= s);
}

/// The chain of a path with a parent goes on with the parent's chain.
proof fn lemma_chain_step(c: Seq<char>)
    ensures
        parent_of(c) matches Some(q) ==> chain_of(c) =~= seq![c] + chain_of(q),
        parent_of(c) is None ==> chain_of(c) =~= seq![c],
{
    lemma_parent_shorter(c);
}

/// A member of the chain is the path or one of its ancestors.
proof fn lemma_chain_member(p: Seq<char>, k: int)
    requires
        0 <= k < chain_of(p).len(),
    ensures
        self_or_ancestor(chain_of(p)[k], p),
{
    if k > 0 {
        assert(strict_ancestors(p)[k - 1] == chain_of(p)[k]);
    }
}

/// The nearest of `path` and its ancestors that is a directory, as the disk
/// answered when asked about each in turn, nearest first; `/` when none
/// answered yes. What the disk said comes back beside it.
///
/// A tab pointing at an unmounted drive or a deleted directory must land
/// somewhere rather than failing.
pub fn nearest_existing(path: &str) -> (r: (String, Ghost<Seq<bool>>))
    ensures
        asked_upwards(path@, r.1@),
        r.0@ == nearest_of(path@, r.1@),
        self_or_ancestor(r.0@, path@) || r.0@ == root_path(),
{
    let mut candidate = String::from_str(path);
    let ghost mut answers: Seq<bool> = Seq::empty();
    let ghost mut before: Seq<Seq<char>> = Seq::empty();
    loop
        invariant
            chain_of(path@) == before + chain_of(candidate@),
            before.len() == answers.len(),
            forall|j: int| 0 <= j < answers.len() ==> !answers[j],
            first_yes(answers) == -1,
        decreases candidate@.len(),
    {
        proof {
            lemma_chain_step(candidate@);
        }
        let yes = crate::probe::is_dir(candidate.as_str());
        proof {
            lemma_first_yes_push(answers, yes);
            assert(chain_of(path@)[answers.len() as int] == candidate@);
            answers = answers.push(yes);
            before = before.push(candidate@);
        }
        if yes {
            proof {
                lemma_chain_member(path@, answers.len() - 1);
            }
            return (candidate, Ghost(answers));
        }
        match crate::path::parent(candidate.as_str()) {
            Some(p) => {
                proof {
                    lemma_parent_shorter(candidate@);
                    assert(chain_of(path@) =~= before + chain_of(p@));
                }
                candidate = p;
            },
            None => {
                assert(chain_of(path@).len() == answers.len());
                let mut root = String::new();
                push_char(&mut root, '/');
                assert(root@ =~= root_path());
                return (root, Ghost(answers));
            },
        }
    }
}

/// The standard ordering for a comparison outcome.
pub open spec fn ordering_of(o: Order) -> Ordering {
    match o {
        Order::Less => Ordering::Less,
        Order::Equal => Ordering::Equal,
        Order::Greater => Ordering::Greater,
    }
}

/// Compare two names treating digit runs as numbers.
///
/// Case-insensitive, with a case-sensitive tiebreak so the order is total and
/// stable — otherwise `README` and `readme` could swap between listings.
pub fn natural_cmp(a: &str, b: &str) -> (r: Ordering)
    ensures
        r == ordering_of(natural_order(a@, b@)),
{
    match natural_compare(a, b) {
        Order::Less => Ordering::Less,
        Order::Equal => Ordering::Equal,
        Order::Greater => Ordering::Greater,
    }
}

} // verus!
