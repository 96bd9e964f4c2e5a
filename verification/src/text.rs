//! Character-level helpers shared by the parsers and formatters: moving
//! between `str` and a `Vec<char>`, building strings a character at a time,
//! and the ASCII predicates the rest of the crate speaks in.

use vstd::prelude::*;

verus! {

/// Appends one character. `String::push` itself.
#[verifier::external_body]
pub(crate) fn push_char(s: &mut String, c: char)
    ensures
        final(s)@ == old(s)@.push(c),
{
    s.push(c);
}

/// The characters of `s`, in order.
pub fn chars_of(s: &str) -> (r: Vec<char>)
    ensures
        r@ == s@,
{
    broadcast use vstd::string::group_string_axioms;
    let mut out: Vec<char> = Vec::new();
    for c in it: s.chars()
        invariant
            out@ == it.seq().take(it.index() as int),
    {
        out.push(c);
    }
    assert(out@ =~= s@);
    out
}

/// A string holding exactly `cs[from..to]`.
pub fn string_of(cs: &Vec<char>, from: usize, to: usize) -> (r: String)
    requires
        from <= to <= cs@.len(),
    ensures
        r@ == cs@.subrange(from as int, to as int),
{
    let mut out = String::new();
    let mut i = from;
    while i < to
        invariant
            from <= i <= to <= cs@.len(),
            out@ == cs@.subrange(from as int, i as int),
        decreases to - i,
    {
        push_char(&mut out, cs[i]);
        i += 1;
        assert(out@ =~= cs@.subrange(from as int, i as int));
    }
    out
}

/// `a` followed by `b`.
pub fn concat(a: &str, b: &str) -> (r: String)
    ensures
        r@ == a@ + b@,
{
    let mut out = String::from_str(a);
    out.append(b);
    out
}

/// `a`, `b` and `c` in a row.
pub fn concat3(a: &str, b: &str, c: &str) -> (r: String)
    ensures
        r@ == a@ + b@ + c@,
{
    let mut out = String::from_str(a);
    out.append(b);
    out.append(c);
    out
}

pub open spec fn is_ascii_digit(c: char) -> bool {
    '0' <= c && c <= '9'
}

pub open spec fn is_ascii_upper(c: char) -> bool {
    'A' <= c && c <= 'Z'
}

/// `char::to_ascii_lowercase`: the 26 capitals move down by 32, nothing else moves.
pub open spec fn lower(c: char) -> char {
    if is_ascii_upper(c) {
        ((c as u32) + 32) as char
    } else {
        c
    }
}

pub fn ascii_lower(c: char) -> (r: char)
    ensures
        r == lower(c),
{
    if 'A' <= c && c <= 'Z' {
        let b: u8 = c as u8;
        (b + 32) as char
    } else {
        c
    }
}

/// The whole sequence with every ASCII capital lowered.
pub open spec fn lower_all(s: Seq<char>) -> Seq<char> {
    Seq::new(s.len(), |i: int| lower(s[i]))
}

pub fn lowercase_chars(s: &Vec<char>) -> (r: Vec<char>)
    ensures
        r@ == lower_all(s@),
{
    let mut out: Vec<char> = Vec::new();
    let mut i: usize = 0;
    while i < s.len()
        invariant
            i <= s@.len(),
            out@ =~= lower_all(s@).take(i as int),
        decreases s@.len() - i,
    {
        let c = ascii_lower(s[i]);
        out.push(c);
        i += 1;
    }
    out
}

/// Whether two character sequences are equal, element by element.
pub fn chars_equal(a: &Vec<char>, b: &Vec<char>) -> (r: bool)
    ensures
        r == (a@ == b@),
{
    if a.len() != b.len() {
        return false;
    }
    let mut i: usize = 0;
    while i < a.len()
        invariant
            a@.len() == b@.len(),
            i <= a@.len(),
            forall|j: int| 0 <= j < i ==> a@[j] == b@[j],
        decreases a@.len() - i,
    {
        if a[i] != b[i] {
            return false;
        }
        i += 1;
    }
    assert(a@ =~= b@);
    true
}

/// Whether two strings hold the same characters.
pub fn str_eq(a: &str, b: &str) -> (r: bool)
    ensures
        r == (a@ == b@),
{
    let x = chars_of(a);
    let y = chars_of(b);
    chars_equal(&x, &y)
}

/// Whether `cs[at..]` begins with `prefix`.
pub open spec fn has_at(cs: Seq<char>, at: int, prefix: Seq<char>) -> bool {
    0 <= at && at + prefix.len() <= cs.len() && cs.subrange(at, at + prefix.len()) == prefix
}

pub fn matches_at(cs: &Vec<char>, at: usize, prefix: &Vec<char>) -> (r: bool)
    ensures
        r == has_at(cs@, at as int, prefix@),
{
    if at > cs.len() || prefix.len() > cs.len() - at {
        return false;
    }
    let mut i: usize = 0;
    while i < prefix.len()
        invariant
            at + prefix@.len() <= cs.len(),
            i <= prefix@.len(),
            forall|j: int| 0 <= j < i ==> cs@[at + j] == prefix@[j],
        decreases prefix@.len() - i,
    {
        if cs[at + i] != prefix[i] {
            assert(cs@.subrange(at as int, at + prefix@.len())[i as int] != prefix@[i as int]);
            return false;
        }
        i += 1;
    }
    assert(cs@.subrange(at as int, at + prefix@.len()) =~= prefix@);
    true
}

/// Whether `s` begins with `prefix`.
pub fn starts_with(s: &str, prefix: &str) -> (r: bool)
    ensures
        r == (prefix@.len() <= s@.len() && s@.take(prefix@.len() as int) == prefix@),
{
    let cs = chars_of(s);
    let ps = chars_of(prefix);
    let r = matches_at(&cs, 0, &ps);
    proof {
        if prefix@.len() <= s@.len() {
            assert(s@.take(prefix@.len() as int) =~= s@.subrange(0, prefix@.len() as int));
        }
    }
    r
}

} // verus!
