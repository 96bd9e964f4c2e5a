//! Splitting text into records: NUL-terminated records (`split('\0')` with
//! the empty ones dropped) and lines (`str::lines`).

use vstd::prelude::*;

verus! {

/// Index of the first `c` in `s`, or -1.
pub open spec fn first_index(s: Seq<char>, c: char) -> int
    decreases s.len(),
{
    if s.len() == 0 {
        -1
    } else if s[0] == c {
        0
    } else {
        let k = first_index(s.skip(1), c);
        if k < 0 {
            -1
        } else {
            k + 1
        }
    }
}

pub proof fn lemma_first_index(s: Seq<char>, c: char)
    ensures
        -1 <= first_index(s, c) < s.len(),
        first_index(s, c) >= 0 ==> s[first_index(s, c)] == c,
        forall|j: int| 0 <= j < s.len() && (first_index(s, c) < 0 || j < first_index(s, c)) ==> s[j] != c,
    decreases s.len(),
{
    if s.len() > 0 && s[0] != c {
        lemma_first_index(s.skip(1), c);
        assert forall|j: int| 0 <= j < s.len() && (first_index(s, c) < 0 || j < first_index(s, c)) implies s[j] != c by {
            if j > 0 {
                assert(s[j] == s.skip(1)[j - 1]);
            }
        }
    }
}

pub proof fn lemma_first_index_at(s: Seq<char>, c: char, k: int)
    requires
        0 <= k <= s.len(),
        forall|j: int| 0 <= j < k ==> s[j] != c,
        k < s.len() ==> s[k] == c,
    ensures
        first_index(s, c) == (if k < s.len() { k } else { -1 }),
    decreases k,
{
    if k > 0 {
        lemma_first_index_at(s.skip(1), c, k - 1);
    }
}

/// The pieces of `s` between `c`s, empty pieces dropped.
pub open spec fn pieces(s: Seq<char>, c: char) -> Seq<Seq<char>>
    decreases s.len(),
{
    let i = first_index(s, c);
    if i < 0 || i >= s.len() {
        if s.len() == 0 {
            Seq::empty()
        } else {
            seq![s]
        }
    } else {
        let rest = pieces(s.skip(i + 1), c);
        if i == 0 {
            rest
        } else {
            seq![s.take(i)] + rest
        }
    }
}

/// `str::lines`: split at `\n`, one trailing `\r` dropped from each
/// terminated line, no empty line after a final terminator.
pub open spec fn lines_of(s: Seq<char>) -> Seq<Seq<char>>
    decreases s.len(),
{
    let i = first_index(s, '\n');
    if s.len() == 0 {
        Seq::empty()
    } else if i < 0 || i >= s.len() {
        seq![s]
    } else {
        let l = s.take(i);
        let l2 = if l.len() > 0 && l.last() == '\r' {
            l.drop_last()
        } else {
            l
        };
        seq![l2] + lines_of(s.skip(i + 1))
    }
}

pub open spec fn views(v: Seq<Vec<char>>) -> Seq<Seq<char>> {
    Seq::new(v.len(), |i: int| v[i]@)
}

pub fn slice_chars(s: &Vec<char>, from: usize, to: usize) -> (r: Vec<char>)
    requires
        from <= to <= s@.len(),
    ensures
        r@ == s@.subrange(from as int, to as int),
{
    let mut out: Vec<char> = Vec::new();
    let mut i = from;
    while i < to
        invariant
            from <= i <= to <= s@.len(),
            out@ == s@.subrange(from as int, i as int),
        decreases to - i,
    {
        out.push(s[i]);
        i += 1;
        assert(out@ =~= s@.subrange(from as int, i as int));
    }
    out
}

/// The non-empty pieces of `s` between `c`s.
pub fn split_pieces(s: &Vec<char>, c: char) -> (r: Vec<Vec<char>>)
    ensures
        views(r@) == pieces(s@, c),
{
    let mut out: Vec<Vec<char>> = Vec::new();
    let mut start: usize = 0;
    let mut i: usize = 0;
    assert(s@.skip(0) =~= s@);
    while i < s.len()
        invariant
            start <= i <= s@.len(),
            forall|j: int| start <= j < i ==> s@[j] != c,
            pieces(s@, c) == views(out@) + pieces(s@.skip(start as int), c),
        decreases s@.len() - i,
    {
        if s[i] == c {
            let ghost t = s@.skip(start as int);
            proof {
                lemma_first_index_at(t, c, i - start);
                assert(t.skip(i - start + 1) =~= s@.skip(i + 1));
                assert(t.take(i - start) =~= s@.subrange(start as int, i as int));
            }
            if i > start {
                let piece = slice_chars(s, start, i);
                let ghost before = out@;
                out.push(piece);
                assert(views(out@) =~= views(before) + seq![s@.subrange(start as int, i as int)]);
            } else {
                assert(views(out@) + pieces(s@.skip(i + 1), c) == views(out@) + pieces(t, c));
            }
            start = i + 1;
        }
        i += 1;
    }
    let ghost t = s@.skip(start as int);
    proof {
        lemma_first_index_at(t, c, t.len() as int);
    }
    if start < s.len() {
        let piece = slice_chars(s, start, s.len());
        let ghost before = out@;
        out.push(piece);
        assert(s@.subrange(start as int, s@.len() as int) =~= t);
        assert(views(out@) =~= views(before) + seq![t]);
    } else {
        assert(t.len() == 0);
        assert(views(out@) + pieces(t, c) =~= views(out@));
    }
    out
}

/// The lines of `s`, as `str::lines` gives them.
pub fn split_lines(s: &Vec<char>) -> (r: Vec<Vec<char>>)
    ensures
        views(r@) == lines_of(s@),
{
    let mut out: Vec<Vec<char>> = Vec::new();
    let mut start: usize = 0;
    let mut i: usize = 0;
    assert(s@.skip(0) =~= s@);
    while i < s.len()
        invariant
            start <= i <= s@.len(),
            forall|j: int| start <= j < i ==> s@[j] != '\n',
            lines_of(s@) == views(out@) + lines_of(s@.skip(start as int)),
        decreases s@.len() - i,
    {
        if s[i] == '\n' {
            let ghost t = s@.skip(start as int);
            proof {
                lemma_first_index_at(t, '\n', i - start);
                assert(t.skip(i - start + 1) =~= s@.skip(i + 1));
                assert(t.take(i - start) =~= s@.subrange(start as int, i as int));
            }
            let end = if i > start && s[i - 1] == '\r' { i - 1 } else { i };
            let piece = slice_chars(s, start, end);
            proof {
                let l = s@.subrange(start as int, i as int);
                if i > start && s@[i - 1] == '\r' {
                    assert(l.drop_last() =~= s@.subrange(start as int, end as int));
                }
            }
            let ghost before = out@;
            out.push(piece);
            assert(views(out@) =~= views(before) + seq![piece@]);
            start = i + 1;
        }
        i += 1;
    }
    let ghost t = s@.skip(start as int);
    proof {
        lemma_first_index_at(t, '\n', t.len() as int);
    }
    if start < s.len() {
        let piece = slice_chars(s, start, s.len());
        let ghost before = out@;
        out.push(piece);
        assert(s@.subrange(start as int, s@.len() as int) =~= t);
        assert(views(out@) =~= views(before) + seq![t]);
    } else {
        assert(t.len() == 0);
        assert(views(out@) + lines_of(t) =~= views(out@));
    }
    out
}

} // verus!
