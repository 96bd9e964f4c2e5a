//! The natural order on names: digit runs compare as numbers, letters
//! compare without regard to ASCII case, and a character-by-character
//! comparison breaks the remaining ties so the order is total.

use vstd::prelude::*;
use crate::text::{ascii_lower, chars_of, is_ascii_digit, lower, is_ascii_upper};

verus! {

/// The three outcomes of a comparison.
#[derive(Debug, Clone, Copy, PartialEq, Eq, Structural)]
pub enum Order {
    Less,
    Equal,
    Greater,
}

pub open spec fn flip(o: Order) -> Order {
    match o {
        Order::Less => Order::Greater,
        Order::Greater => Order::Less,
        Order::Equal => Order::Equal,
    }
}

/// How many ASCII digits `s` starts with.
pub open spec fn digit_run(s: Seq<char>) -> nat
    decreases s.len(),
{
    if s.len() > 0 && is_ascii_digit(s[0]) {
        1 + digit_run(s.skip(1))
    } else {
        0
    }
}

pub open spec fn u128_max() -> int {
    0xffff_ffff_ffff_ffff_ffff_ffff_ffff_ffffu128 as int
}

pub open spec fn sat(v: int) -> int {
    if v > u128_max() {
        u128_max()
    } else {
        v
    }
}

/// The value of a run of digits, saturating at `u128::MAX` at every step
/// rather than overflowing.
pub open spec fn run_value(d: Seq<char>) -> int
    decreases d.len(),
{
    if d.len() == 0 {
        0
    } else {
        sat(sat(run_value(d.drop_last()) * 10) + (d.last() as int - '0' as int))
    }
}

pub proof fn lemma_digit_run_bounds(s: Seq<char>)
    ensures
        digit_run(s) <= s.len(),
        s.len() > 0 && is_ascii_digit(s[0]) ==> digit_run(s) >= 1,
        forall|j: int| 0 <= j < digit_run(s) ==> is_ascii_digit(#[trigger] s[j]),
        digit_run(s) < s.len() ==> !is_ascii_digit(s[digit_run(s) as int]),
    decreases s.len(),
{
    if s.len() > 0 && is_ascii_digit(s[0]) {
        lemma_digit_run_bounds(s.skip(1));
        assert forall|j: int| 0 <= j < digit_run(s) implies is_ascii_digit(#[trigger] s[j]) by {
            if j > 0 {
                assert(s[j] == s.skip(1)[j - 1]);
            }
        }
        if digit_run(s) < s.len() {
            assert(s[digit_run(s) as int] == s.skip(1)[digit_run(s.skip(1)) as int]);
        }
    }
}

/// Digits counted from `k` on: after `k` leading digits, the run is `k`
/// plus whatever run the rest starts with.
pub proof fn lemma_digit_run_split(s: Seq<char>, k: int)
    requires
        0 <= k <= s.len(),
        forall|j: int| 0 <= j < k ==> is_ascii_digit(#[trigger] s[j]),
    ensures
        digit_run(s) == k + digit_run(s.skip(k)),
    decreases k,
{
    if k > 0 {
        assert(is_ascii_digit(s[0]));
        lemma_digit_run_split(s.skip(1), k - 1);
        assert(s.skip(1).skip(k - 1) =~= s.skip(k));
    } else {
        assert(s.skip(0) =~= s);
    }
}

/// The comparison walk: digit runs compare as numbers, everything else
/// compares one character at a time, ignoring ASCII case. `Equal` means the
/// two names are equal under that reading.
pub open spec fn walk(s: Seq<char>, t: Seq<char>) -> Order
    decreases s.len() + t.len(),
{
    if s.len() == 0 && t.len() == 0 {
        Order::Equal
    } else if s.len() == 0 {
        Order::Less
    } else if t.len() == 0 {
        Order::Greater
    } else if is_ascii_digit(s[0]) && is_ascii_digit(t[0]) {
        let n = digit_run(s);
        let m = digit_run(t);
        let vs = run_value(s.take(n as int));
        let vt = run_value(t.take(m as int));
        if vs < vt {
            Order::Less
        } else if vs > vt {
            Order::Greater
        } else {
            proof {
                lemma_digit_run_bounds(s);
                lemma_digit_run_bounds(t);
            }
            walk(s.skip(n as int), t.skip(m as int))
        }
    } else {
        let ls = lower(s[0]);
        let lt = lower(t[0]);
        if ls < lt {
            Order::Less
        } else if ls > lt {
            Order::Greater
        } else {
            walk(s.skip(1), t.skip(1))
        }
    }
}

/// Plain lexicographic order on characters — the order `str::cmp` gives,
/// since UTF-8 preserves code point order.
pub open spec fn lex(s: Seq<char>, t: Seq<char>) -> Order
    decreases s.len(),
{
    if s.len() == 0 && t.len() == 0 {
        Order::Equal
    } else if s.len() == 0 {
        Order::Less
    } else if t.len() == 0 {
        Order::Greater
    } else if s[0] < t[0] {
        Order::Less
    } else if s[0] > t[0] {
        Order::Greater
    } else {
        lex(s.skip(1), t.skip(1))
    }
}

/// The natural order: the walk, with a case-sensitive character order
/// breaking its ties so the order is total.
pub open spec fn natural_order(a: Seq<char>, b: Seq<char>) -> Order {
    match walk(a, b) {
        Order::Equal => lex(a, b),
        o => o,
    }
}

/// Consume a run of digits starting at `start`. Saturates rather than
/// overflowing — a 30-digit filename is not worth a panic.
fn take_number(cs: &Vec<char>, start: usize) -> (r: (u128, usize))
    requires
        start <= cs@.len(),
    ensures
        r.1 == start + digit_run(cs@.skip(start as int)),
        r.1 <= cs@.len(),
        r.0 == run_value(cs@.subrange(start as int, r.1 as int)),
{
    let mut value: u128 = 0;
    let mut i = start;
    while i < cs.len() && '0' <= cs[i] && cs[i] <= '9'
        invariant
            start <= i <= cs@.len(),
            forall|j: int| start <= j < i ==> is_ascii_digit(#[trigger] cs@[j]),
            value == run_value(cs@.subrange(start as int, i as int)),
        decreases cs@.len() - i,
    {
        let c = cs[i];
        let d: u8 = (c as u8) - 48;
        let times = match value.checked_mul(10) {
            Some(v) => v,
            None => u128::MAX,
        };
        let next = times.saturating_add(d as u128);
        proof {
            let old_d = cs@.subrange(start as int, i as int);
            let new_d = cs@.subrange(start as int, i + 1);
            assert(new_d.drop_last() =~= old_d);
            assert(new_d.last() == c);
        }
        value = next;
        i += 1;
    }
    proof {
        let s = cs@.skip(start as int);
        assert forall|j: int| 0 <= j < i - start implies is_ascii_digit(#[trigger] s[j]) by {
            assert(s[j] == cs@[start + j]);
        }
        lemma_digit_run_split(s, i - start);
        if i < cs@.len() {
            assert(s.skip(i - start)[0] == cs@[i as int]);
        }
        assert(digit_run(s.skip(i - start)) == 0);
    }
    (value, i)
}

pub fn lex_compare(x: &Vec<char>, y: &Vec<char>) -> (r: Order)
    ensures
        r == lex(x@, y@),
{
    let mut k: usize = 0;
    assert(x@.skip(0) =~= x@);
    assert(y@.skip(0) =~= y@);
    while k < x.len() && k < y.len()
        invariant
            k <= x@.len(),
            k <= y@.len(),
            lex(x@, y@) == lex(x@.skip(k as int), y@.skip(k as int)),
        decreases x@.len() - k,
    {
        let (l, r) = (x[k], y[k]);
        assert(x@.skip(k as int)[0] == l);
        assert(y@.skip(k as int)[0] == r);
        if l < r {
            return Order::Less;
        }
        if l > r {
            return Order::Greater;
        }
        assert(x@.skip(k as int).skip(1) =~= x@.skip(k + 1));
        assert(y@.skip(k as int).skip(1) =~= y@.skip(k + 1));
        k += 1;
    }
    if k == x.len() && k == y.len() {
        Order::Equal
    } else if k == x.len() {
        Order::Less
    } else {
        Order::Greater
    }
}

/// Compare two names treating digit runs as numbers.
///
/// Case-insensitive, with a case-sensitive tiebreak so the order is total and
/// stable — otherwise `README` and `readme` could swap between listings.
pub fn natural_compare(a: &str, b: &str) -> (r: Order)
    ensures
        r == natural_order(a@, b@),
{
    let x = chars_of(a);
    let y = chars_of(b);
    let mut i: usize = 0;
    let mut j: usize = 0;
    assert(x@.skip(0) =~= x@);
    assert(y@.skip(0) =~= y@);
    loop
        invariant
            i <= x@.len(),
            j <= y@.len(),
            x@ == a@,
            y@ == b@,
            walk(a@, b@) == walk(x@.skip(i as int), y@.skip(j as int)),
        ensures
            x@ == a@,
            y@ == b@,
            walk(a@, b@) == Order::Equal,
        decreases x@.len() - i + y@.len() - j,
    {
        let ghost s = x@.skip(i as int);
        let ghost t = y@.skip(j as int);
        if i == x.len() && j == y.len() {
            assert(s.len() == 0 && t.len() == 0);
            break;
        }
        if i == x.len() {
            return Order::Less;
        }
        if j == y.len() {
            return Order::Greater;
        }
        let l = x[i];
        let r = y[j];
        assert(s[0] == l);
        assert(t[0] == r);
        if '0' <= l && l <= '9' && '0' <= r && r <= '9' {
            let (ln, i2) = take_number(&x, i);
            let (rn, j2) = take_number(&y, j);
            proof {
                lemma_digit_run_bounds(s);
                lemma_digit_run_bounds(t);
                assert(s.take(digit_run(s) as int) =~= x@.subrange(i as int, i2 as int));
                assert(t.take(digit_run(t) as int) =~= y@.subrange(j as int, j2 as int));
                assert(s.skip(digit_run(s) as int) =~= x@.skip(i2 as int));
                assert(t.skip(digit_run(t) as int) =~= y@.skip(j2 as int));
            }
            if ln < rn {
                return Order::Less;
            }
            if ln > rn {
                return Order::Greater;
            }
            i = i2;
            j = j2;
        } else {
            let lc = ascii_lower(l);
            let rc = ascii_lower(r);
            assert(s.skip(1) =~= x@.skip(i + 1));
            assert(t.skip(1) =~= y@.skip(j + 1));
            i += 1;
            j += 1;
            if lc < rc {
                return Order::Less;
            }
            if lc > rc {
                return Order::Greater;
            }
        }
    }
    lex_compare(&x, &y)
}

pub proof fn lemma_lex_flip(s: Seq<char>, t: Seq<char>)
    ensures
        lex(s, t) == flip(lex(t, s)),
    decreases s.len(),
{
    if s.len() > 0 && t.len() > 0 && s[0] == t[0] {
        lemma_lex_flip(s.skip(1), t.skip(1));
    }
}

pub proof fn lemma_lex_equal(s: Seq<char>, t: Seq<char>)
    ensures
        lex(s, t) == Order::Equal <==> s == t,
    decreases s.len(),
{
    if s.len() > 0 && t.len() > 0 && s[0] == t[0] {
        lemma_lex_equal(s.skip(1), t.skip(1));
        if s.skip(1) == t.skip(1) {
            assert(s =~= seq![s[0]] + s.skip(1));
            assert(t =~= seq![t[0]] + t.skip(1));
        } else if s == t {
            assert(s.skip(1) =~= t.skip(1));
        }
    } else if s.len() > 0 && t.len() > 0 {
        assert(s[0] != t[0]);
    } else if s.len() == 0 && t.len() == 0 {
        assert(s =~= t);
    }
}

pub proof fn lemma_walk_flip(s: Seq<char>, t: Seq<char>)
    ensures
        walk(s, t) == flip(walk(t, s)),
    decreases s.len() + t.len(),
{
    if s.len() > 0 && t.len() > 0 {
        if is_ascii_digit(s[0]) && is_ascii_digit(t[0]) {
            lemma_digit_run_bounds(s);
            lemma_digit_run_bounds(t);
            lemma_walk_flip(s.skip(digit_run(s) as int), t.skip(digit_run(t) as int));
        } else {
            lemma_walk_flip(s.skip(1), t.skip(1));
        }
    }
}

pub proof fn lemma_walk_reflexive(s: Seq<char>)
    ensures
        walk(s, s) == Order::Equal,
    decreases s.len(),
{
    if s.len() > 0 {
        if is_ascii_digit(s[0]) {
            lemma_digit_run_bounds(s);
            lemma_walk_reflexive(s.skip(digit_run(s) as int));
        } else {
            lemma_walk_reflexive(s.skip(1));
        }
    }
}

/// The natural order is antisymmetric: swapping the names swaps the answer.
pub proof fn lemma_natural_order_antisymmetric(a: Seq<char>, b: Seq<char>)
    ensures
        natural_order(a, b) == flip(natural_order(b, a)),
{
    lemma_walk_flip(a, b);
    lemma_lex_flip(a, b);
}

/// The natural order is total: it calls two names equal exactly when they
/// are the same name, so two listings of one directory always agree.
pub proof fn lemma_natural_order_total(a: Seq<char>, b: Seq<char>)
    ensures
        natural_order(a, b) == Order::Equal <==> a == b,
{
    lemma_lex_equal(a, b);
    if a == b {
        lemma_walk_reflexive(a);
    }
}

/// Where a name's first token sorts among the three blocks the walk puts
/// tokens in: characters below `0`, digit runs, characters above `9`.
pub open spec fn block(s: Seq<char>) -> int {
    if is_ascii_digit(s[0]) {
        1
    } else if (lower(s[0]) as int) < ('0' as int) {
        0
    } else {
        2
    }
}

/// A first token's place within its block: a digit run's value, a
/// character's lower-cased code.
pub open spec fn token_key(s: Seq<char>) -> int {
    if is_ascii_digit(s[0]) { run_value(s.take(digit_run(s) as int)) } else { lower(s[0]) as int }
}

/// How many characters a name's first token spans.
pub open spec fn token_len(s: Seq<char>) -> int {
    if is_ascii_digit(s[0]) { digit_run(s) as int } else { 1 }
}

pub open spec fn token_order(s: Seq<char>, t: Seq<char>) -> Order {
    if block(s) < block(t) {
        Order::Less
    } else if block(s) > block(t) {
        Order::Greater
    } else if token_key(s) < token_key(t) {
        Order::Less
    } else if token_key(s) > token_key(t) {
        Order::Greater
    } else {
        Order::Equal
    }
}

proof fn lemma_lower_keeps_blocks(c: char)
    ensures
        is_ascii_digit(c) ==> lower(c) == c,
        !is_ascii_digit(c) ==> !is_ascii_digit(lower(c)),
        !is_ascii_digit(c) ==> (((lower(c) as int) < ('0' as int)) <==> ((c as int) < ('0' as int))),
{
    if is_ascii_upper(c) {
        assert((((c as u32) + 32) as char) as int == c as int + 32);
    }
}

/// One step of the walk, read as a comparison of first tokens.
proof fn lemma_walk_by_tokens(s: Seq<char>, t: Seq<char>)
    requires
        s.len() > 0,
        t.len() > 0,
    ensures
        1 <= token_len(s) <= s.len(),
        1 <= token_len(t) <= t.len(),
        walk(s, t) == match token_order(s, t) {
            Order::Equal => walk(s.skip(token_len(s)), t.skip(token_len(t))),
            o => o,
        },
{
    lemma_digit_run_bounds(s);
    lemma_digit_run_bounds(t);
    lemma_lower_keeps_blocks(s[0]);
    lemma_lower_keeps_blocks(t[0]);
}

/// The walk is transitive: a name before a second, and the second not
/// after a third, puts the first before the third; names it calls equal
/// stay equal along a chain.
pub proof fn lemma_walk_transitive(a: Seq<char>, b: Seq<char>, c: Seq<char>)
    ensures
        (walk(a, b) == Order::Equal && walk(b, c) == Order::Equal) ==> walk(a, c) == Order::Equal,
        (walk(a, b) == Order::Less && walk(b, c) != Order::Greater) ==> walk(a, c) == Order::Less,
        (walk(a, b) != Order::Greater && walk(b, c) == Order::Less) ==> walk(a, c) == Order::Less,
    decreases a.len() + b.len() + c.len(),
{
    if a.len() > 0 && b.len() > 0 && c.len() > 0 {
        lemma_walk_by_tokens(a, b);
        lemma_walk_by_tokens(b, c);
        lemma_walk_by_tokens(a, c);
        if token_order(a, b) == Order::Equal && token_order(b, c) == Order::Equal {
            lemma_walk_transitive(a.skip(token_len(a)), b.skip(token_len(b)), c.skip(token_len(c)));
        }
    }
}

/// Character order is transitive in the same way.
pub proof fn lemma_lex_transitive(a: Seq<char>, b: Seq<char>, c: Seq<char>)
    ensures
        (lex(a, b) != Order::Greater && lex(b, c) != Order::Greater) ==> lex(a, c) != Order::Greater,
        (lex(a, b) == Order::Less && lex(b, c) != Order::Greater) ==> lex(a, c) == Order::Less,
        (lex(a, b) != Order::Greater && lex(b, c) == Order::Less) ==> lex(a, c) == Order::Less,
    decreases a.len(),
{
    if a.len() > 0 && b.len() > 0 && c.len() > 0 && a[0] == b[0] && b[0] == c[0] {
        lemma_lex_transitive(a.skip(1), b.skip(1), c.skip(1));
    }
}

/// The natural order is transitive, so sorting by it is well defined: a
/// name not after a second, the second not after a third, puts the first
/// not after the third — strictly before when either step is strict.
pub proof fn lemma_natural_order_transitive(a: Seq<char>, b: Seq<char>, c: Seq<char>)
    requires
        natural_order(a, b) != Order::Greater,
        natural_order(b, c) != Order::Greater,
    ensures
        natural_order(a, c) != Order::Greater,
        (natural_order(a, b) == Order::Less || natural_order(b, c) == Order::Less) ==> natural_order(a, c) == Order::Less,
{
    lemma_walk_transitive(a, b, c);
    lemma_lex_transitive(a, b, c);
}

/// Names the walk calls equal — the same up to ASCII case and the way a
/// number is written — compare alike with any third name.
pub proof fn lemma_walk_equal_compares_alike(a: Seq<char>, b: Seq<char>, c: Seq<char>)
    requires
        walk(a, b) == Order::Equal,
    ensures
        walk(a, c) == walk(b, c),
{
    lemma_walk_transitive(a, b, c);
    lemma_walk_flip(a, b);
    lemma_walk_flip(b, c);
    lemma_walk_flip(a, c);
    lemma_walk_transitive(c, b, a);
}

} // verus!
