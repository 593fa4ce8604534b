//! Parsing of the probe range option: the first and last whole numbers
//! found in the text give the smallest and largest worker counts, an empty
//! or numberless text stands for 1..1000, and a single number `n` stands
//! for 1..n. A run of digits too large for the
//! count type is ignored, as a failed number parse is.

use vstd::prelude::*;
use vstd::string::StrSliceExecFns;

verus! {

/// Whether a character is a decimal digit.
pub open spec fn is_digit(c: char) -> bool {
    48 <= c as u32 <= 57
}

/// The numeric value of a digit character.
pub open spec fn digit_val(c: char) -> int {
    c as u32 - 48
}

/// The numeric value of a run of digits, most significant first.
pub open spec fn digits_val(t: Seq<char>) -> int
    decreases t.len(),
{
    if t.len() == 0 {
        0
    } else {
        digits_val(t.drop_last()) * 10 + digit_val(t.last())
    }
}

/// First index at or past `from` holding a digit; the length when none
/// does.
pub open spec fn find_digit(s: Seq<char>, from: int) -> int
    recommends
        0 <= from,
    decreases s.len() - from,
{
    if from < 0 || from >= s.len() {
        s.len() as int
    } else if is_digit(s[from]) {
        from
    } else {
        find_digit(s, from + 1)
    }
}

/// First index at or past `from` holding no digit; the length when all do.
pub open spec fn find_nondigit(s: Seq<char>, from: int) -> int
    recommends
        0 <= from,
    decreases s.len() - from,
{
    if from < 0 || from >= s.len() {
        s.len() as int
    } else if !is_digit(s[from]) {
        from
    } else {
        find_nondigit(s, from + 1)
    }
}

proof fn lemma_find_digit_is(s: Seq<char>, from: int, i: int)
    requires
        0 <= from <= i <= s.len(),
        forall|k: int| from <= k < i ==> !is_digit(s[k]),
        i < s.len() ==> is_digit(s[i]),
    ensures
        find_digit(s, from) == if i < s.len() {
            i
        } else {
            s.len() as int
        },
    decreases i - from,
{
    if from < i {
        lemma_find_digit_is(s, from + 1, i);
    }
}

proof fn lemma_find_nondigit_is(s: Seq<char>, from: int, i: int)
    requires
        0 <= from <= i <= s.len(),
        forall|k: int| from <= k < i ==> is_digit(s[k]),
        i < s.len() ==> !is_digit(s[i]),
    ensures
        find_nondigit(s, from) == if i < s.len() {
            i
        } else {
            s.len() as int
        },
    decreases i - from,
{
    if from < i {
        lemma_find_nondigit_is(s, from + 1, i);
    }
}

/// The values of the maximal digit runs of `s`, in order, keeping only
/// those that fit the count type.
pub open spec fn values_of(s: Seq<char>) -> Seq<int>
    decreases s.len(),
{
    let d = find_digit(s, 0);
    if d < 0 || d >= s.len() {
        Seq::empty()
    } else {
        let e = find_nondigit(s, d);
        let cut = if e < d + 1 {
            d + 1
        } else if e > s.len() {
            s.len() as int
        } else {
            e
        };
        let run = s.subrange(d, cut);
        let rest = values_of(s.skip(cut));
        if digits_val(run) <= u32::MAX {
            seq![digits_val(run)] + rest
        } else {
            rest
        }
    }
}

/// The integer readings of a list of counts.
pub open spec fn counts_of(s: Seq<u32>) -> Seq<int> {
    s.map_values(|x: u32| x as int)
}

/// The worker-count range a range option denotes: the first and last
/// numbers found in it; `(1, 1000)` when it holds none, and 1 as the
/// smallest count when it holds exactly one.
pub open spec fn range_spec(s: Seq<char>) -> (int, int) {
    let vs = values_of(s);
    if vs.len() == 0 {
        (1int, 1000int)
    } else if vs.len() == 1 {
        (1int, vs[0])
    } else {
        (vs[0], vs[vs.len() - 1])
    }
}

/// Parses the inclusive worker-count range out of the range option.
pub fn range_min_max(range: &str) -> (res: (u32, u32))
    ensures
        res.0 == range_spec(range@).0,
        res.1 == range_spec(range@).1,
{
    let n = range.unicode_len();
    let mut values: Vec<u32> = Vec::new();
    let mut pos: usize = 0;
    proof {
        assert(range@.skip(0) =~= range@);
        assert(counts_of(values@) =~= Seq::<int>::empty());
        assert(counts_of(values@) + values_of(range@.skip(0)) =~= values_of(range@));
    }
    loop
        invariant_except_break
            counts_of(values@) + values_of(range@.skip(pos as int)) =~= values_of(range@),
        invariant
            0 <= pos <= n,
            n == range@.len(),
        ensures
            counts_of(values@) =~= values_of(range@),
        decreases n - pos,
    {
        let mut d: usize = pos;
        while d < n && !(48 <= range.get_char(d) as u32 && range.get_char(d) as u32 <= 57)
            invariant
                pos <= d <= n,
                n == range@.len(),
                forall|k: int| pos <= k < d ==> !is_digit(range@[k]),
            decreases n - d,
        {
            d = d + 1;
        }
        proof {
            let rem = range@.skip(pos as int);
            assert(forall|k: int| 0 <= k < d - pos ==> !is_digit(rem[k]));
            if d < n {
                assert(rem[d - pos] == range@[d as int]);
            }
            lemma_find_digit_is(rem, 0, d - pos);
        }
        if d == n {
            proof {
                assert(values_of(range@.skip(pos as int)) =~= Seq::<int>::empty());
            }
            break;
        }
        let mut e: usize = d;
        let mut acc: u64 = 0;
        let mut too_big: bool = false;
        while e < n && 48 <= range.get_char(e) as u32 && range.get_char(e) as u32 <= 57
            invariant
                d <= e <= n,
                n == range@.len(),
                forall|k: int| d <= k < e ==> is_digit(range@[k]),
                !too_big ==> acc == digits_val(range@.subrange(d as int, e as int)) && acc
                    <= u32::MAX,
                too_big ==> digits_val(range@.subrange(d as int, e as int)) > u32::MAX,
            decreases n - e,
        {
            let c = range.get_char(e);
            let dv: u64 = (c as u32 - 48) as u64;
            proof {
                assert(range@.subrange(d as int, e + 1).drop_last() =~= range@.subrange(
                    d as int,
                    e as int,
                ));
                assert(range@.subrange(d as int, e + 1).last() == range@[e as int]);
            }
            if too_big {
                proof {
                    assert(digits_val(range@.subrange(d as int, e + 1)) > u32::MAX);
                }
            } else {
                let next = acc * 10 + dv;
                if next > u32::MAX as u64 {
                    too_big = true;
                } else {
                    acc = next;
                }
                proof {
                    assert(digits_val(range@.subrange(d as int, e + 1)) == digits_val(
                        range@.subrange(d as int, e as int),
                    ) * 10 + digit_val(range@[e as int]));
                }
            }
            e = e + 1;
        }
        proof {
            let rem = range@.skip(pos as int);
            assert(is_digit(range@[d as int]));
            assert(is_digit(rem[d - pos]));
            assert(forall|k: int| d - pos <= k < e - pos ==> is_digit(rem[k]));
            if e < n {
                assert(!is_digit(rem[e - pos]));
            }
            lemma_find_nondigit_is(rem, d - pos, e - pos);
            assert(find_nondigit(rem, d - pos) == if e < n {
                e - pos
            } else {
                rem.len() as int
            });
            assert(rem.subrange(d - pos, e - pos) =~= range@.subrange(d as int, e as int));
            assert(rem.skip(e - pos) =~= range@.skip(e as int));
        }
        let ghost old_values = values@;
        if !too_big {
            values.push(acc as u32);
            proof {
                assert(counts_of(values@) =~= counts_of(old_values).push(acc as int));
            }
        }
        proof {
            assert(counts_of(values@) + values_of(range@.skip(e as int)) =~= values_of(range@));
        }
        pos = e;
    }
    let m = values.len();
    if m == 0 {
        (1, 1000)
    } else if m == 1 {
        (1, values[0])
    } else {
        (values[0], values[m - 1])
    }
}

} // verus!
