//! Character-level string operations the connection-string handling rests
//! on: equality, lexicographic order, first-occurrence search and splitting,
//! each specified over the character sequence a string denotes.

use vstd::prelude::*;
use vstd::string::StrSliceExecFns;

verus! {

/// First index at or past `from` where `c` occurs in `s`; the length of `s`
/// when it does not occur.
pub open spec fn find_from(s: Seq<char>, c: char, from: int) -> int
    recommends
        0 <= from,
    decreases s.len() - from,
{
    if from < 0 || from >= s.len() {
        s.len() as int
    } else if s[from] == c {
        from
    } else {
        find_from(s, c, from + 1)
    }
}

pub proof fn lemma_find_from_is(s: Seq<char>, c: char, from: int, i: int)
    requires
        0 <= from <= i <= s.len(),
        forall|k: int| from <= k < i ==> s[k] != c,
        i < s.len() ==> s[i] == c,
    ensures
        find_from(s, c, from) == if i < s.len() {
            i
        } else {
            s.len() as int
        },
    decreases i - from,
{
    if from < i {
        lemma_find_from_is(s, c, from + 1, i);
    }
}

/// Strict lexicographic order on character sequences, by code point, with a
/// proper prefix ordered before what extends it, read from index `i` on.
pub open spec fn seq_lt_from(a: Seq<char>, b: Seq<char>, i: int) -> bool
    recommends
        0 <= i,
    decreases b.len() - i,
{
    if i < 0 || i >= b.len() {
        false
    } else if i >= a.len() {
        true
    } else if a[i] != b[i] {
        (a[i] as u32) < (b[i] as u32)
    } else {
        seq_lt_from(a, b, i + 1)
    }
}

/// Strict lexicographic order on character sequences.
pub open spec fn seq_lt(a: Seq<char>, b: Seq<char>) -> bool {
    seq_lt_from(a, b, 0)
}

/// The character sequences a list of strings denotes.
pub open spec fn views(s: Seq<String>) -> Seq<Seq<char>> {
    s.map_values(|t: String| t@)
}

/// Whether two strings denote the same character sequence.
pub fn str_eq(a: &str, b: &str) -> (r: bool)
    ensures
        r == (a@ == b@),
{
    let an = a.unicode_len();
    let bn = b.unicode_len();
    if an != bn {
        return false;
    }
    let mut i: usize = 0;
    while i < an
        invariant
            0 <= i <= an,
            an == a@.len(),
            an == b@.len(),
            forall|j: int| 0 <= j < i ==> a@[j] == b@[j],
        decreases an - i,
    {
        if a.get_char(i) != b.get_char(i) {
            return false;
        }
        i = i + 1;
    }
    proof {
        assert(a@ =~= b@);
    }
    true
}

/// Whether `a` orders strictly before `b`, lexicographically by code point.
pub fn str_lt(a: &str, b: &str) -> (r: bool)
    ensures
        r == seq_lt(a@, b@),
{
    let an = a.unicode_len();
    let bn = b.unicode_len();
    let mut i: usize = 0;
    while i < an && i < bn && a.get_char(i) == b.get_char(i)
        invariant
            0 <= i <= an,
            0 <= i <= bn,
            an == a@.len(),
            bn == b@.len(),
            seq_lt(a@, b@) == seq_lt_from(a@, b@, i as int),
        decreases an - i,
    {
        i = i + 1;
    }
    if i >= bn {
        false
    } else if i >= an {
        true
    } else {
        (a.get_char(i) as u32) < (b.get_char(i) as u32)
    }
}

/// The pieces of `s` between occurrences of `c`: every string splits into at
/// least one piece, and each separator opens a new piece.
pub open spec fn split_at_char(s: Seq<char>, c: char) -> Seq<Seq<char>>
    decreases s.len(),
{
    let i = find_from(s, c, 0);
    if i < 0 || i >= s.len() {
        seq![s]
    } else {
        seq![s.take(i)] + split_at_char(s.skip(i + 1), c)
    }
}

/// Splits a string at every occurrence of the separator character.
pub fn split_char(s: &str, sep: char) -> (parts: Vec<String>)
    ensures
        views(parts@) == split_at_char(s@, sep),
{
    let n = s.unicode_len();
    let mut parts: Vec<String> = Vec::new();
    let mut pos: usize = 0;
    proof {
        assert(s@.skip(0) =~= s@);
        assert(views(parts@) =~= Seq::<Seq<char>>::empty());
        assert(views(parts@) + split_at_char(s@.skip(0), sep)
            =~= split_at_char(s@, sep));
    }
    loop
        invariant_except_break
            views(parts@) + split_at_char(s@.skip(pos as int), sep)
                =~= split_at_char(s@, sep),
        invariant
            0 <= pos <= n,
            n == s@.len(),
        ensures
            views(parts@) =~= split_at_char(s@, sep),
        decreases n - pos,
    {
        let mut j: usize = pos;
        while j < n && s.get_char(j) != sep
            invariant
                pos <= j <= n,
                n == s@.len(),
                forall|k: int| pos <= k < j ==> s@[k] != sep,
            decreases n - j,
        {
            j = j + 1;
        }
        let ghost old_parts = parts@;
        let piece = s.substring_char(pos, j);
        parts.push(piece.to_owned());
        proof {
            let rem = s@.skip(pos as int);
            assert(views(parts@) =~= views(old_parts)
                .push(piece@));
            assert(forall|k: int| 0 <= k < j - pos ==> rem[k] != sep);
            if j < n {
                assert(rem[j - pos] == sep);
            }
            lemma_find_from_is(rem, sep, 0, j - pos);
            if j < n {
                assert(rem.take(j - pos) =~= s@.subrange(pos as int, j as int));
                assert(rem.skip(j - pos + 1) =~= s@.skip(j + 1));
                assert(split_at_char(rem, sep) == seq![s@.subrange(pos as int, j as int)]
                    + split_at_char(s@.skip(j + 1), sep));
                assert(views(parts@) + split_at_char(s@.skip(j + 1), sep)
                    =~= split_at_char(s@, sep));
            } else {
                assert(rem.take(rem.len() as int) =~= rem);
                assert(split_at_char(rem, sep) == seq![rem]);
                assert(rem =~= s@.subrange(pos as int, j as int));
                assert(views(parts@) =~= split_at_char(s@, sep));
            }
        }
        if j == n {
            break;
        }
        pos = j + 1;
    }
    parts
}

} // verus!
