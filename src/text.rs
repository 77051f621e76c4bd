//! Character-level helpers: digit tests, whitespace trimming and decimal
//! number parsing.

use vstd::prelude::*;
use vstd::std_specs::iter::IteratorSpec;

verus! {

/// An ASCII decimal digit.
pub open spec fn is_digit_char(c: char) -> bool {
    '0' <= c && c <= '9'
}

/// Every character of `s` is an ASCII decimal digit (true of the empty text).
pub open spec fn all_digits(s: Seq<char>) -> bool {
    forall|i: int| 0 <= i < s.len() ==> #[trigger] is_digit_char(s[i])
}

/// The characters of `s`, in order.
pub fn chars_of(s: &str) -> (r: Vec<char>)
    ensures
        r@ == s@,
{
    let mut it = s.chars();
    let mut v: Vec<char> = Vec::new();
    loop
        invariant
            it.obeys_prophetic_iter_laws(),
            it.decrease() is Some,
            v@ + it.remaining() == s@,
        ensures
            v@ == s@,
        decreases it.decrease()->0,
    {
        match it.next() {
            Some(c) => {
                v.push(c);
            },
            None => {
                assert(v@ + it.remaining() =~= v@);
                break;
            },
        }
    }
    v
}

/// Whether every character of `s` is an ASCII decimal digit.
pub fn is_all_digits(s: &str) -> (r: bool)
    ensures
        r == all_digits(s@),
{
    let cs = chars_of(s);
    let mut i: usize = 0;
    while i < cs.len()
        invariant
            cs@ == s@,
            i <= cs@.len(),
            all_digits(cs@.subrange(0, i as int)),
        decreases cs@.len() - i,
    {
        if !('0' <= cs[i] && cs[i] <= '9') {
            assert(!is_digit_char(s@[i as int]));
            return false;
        }
        assert(all_digits(cs@.subrange(0, i + 1))) by {
            assert forall|j: int| 0 <= j < i + 1 implies #[trigger] is_digit_char(
                cs@.subrange(0, i + 1)[j],
            ) by {
                if j < i {
                    assert(cs@.subrange(0, i + 1)[j] == cs@.subrange(0, i as int)[j]);
                }
            }
        }
        i = i + 1;
    }
    assert(cs@.subrange(0, i as int) == cs@);
    true
}

/// A character with the Unicode `White_Space` property, the set that
/// `char::is_whitespace` and `str::trim` go by.
pub open spec fn is_space_char(c: char) -> bool {
    ('\u{9}' <= c && c <= '\u{d}') || c == ' ' || c == '\u{85}' || c == '\u{a0}'
        || c == '\u{1680}' || ('\u{2000}' <= c && c <= '\u{200a}') || c == '\u{2028}'
        || c == '\u{2029}' || c == '\u{202f}' || c == '\u{205f}' || c == '\u{3000}'
}

/// `s` without its leading whitespace.
pub open spec fn trim_start(s: Seq<char>) -> Seq<char>
    decreases s.len(),
{
    if s.len() > 0 && is_space_char(s[0]) {
        trim_start(s.drop_first())
    } else {
        s
    }
}

/// `s` without its trailing whitespace.
pub open spec fn trim_end(s: Seq<char>) -> Seq<char>
    decreases s.len(),
{
    if s.len() > 0 && is_space_char(s.last()) {
        trim_end(s.drop_last())
    } else {
        s
    }
}

/// `s` without whitespace at either end.
pub open spec fn trim(s: Seq<char>) -> Seq<char> {
    trim_end(trim_start(s))
}

/// The value of a run of decimal digits, most significant first.
pub open spec fn decimal_value(s: Seq<char>) -> nat
    decreases s.len(),
{
    if s.len() == 0 {
        0
    } else {
        decimal_value(s.drop_last()) * 10 + (s.last() as nat - '0' as nat) as nat
    }
}

/// A non-empty run of decimal digits.
pub open spec fn is_numeral(s: Seq<char>) -> bool {
    s.len() > 0 && all_digits(s)
}

/// What `str::parse::<i32>` yields: an optional `+` or `-`, then at least one
/// digit, with a value that fits in 32 bits.
pub open spec fn parse_i32(s: Seq<char>) -> Option<i32> {
    if s.len() > 0 && s[0] == '-' {
        let d = s.drop_first();
        if is_numeral(d) && decimal_value(d) <= 0x8000_0000 {
            Some((-decimal_value(d)) as i32)
        } else {
            None
        }
    } else {
        let d = if s.len() > 0 && s[0] == '+' {
            s.drop_first()
        } else {
            s
        };
        if is_numeral(d) && decimal_value(d) <= i32::MAX {
            Some(decimal_value(d) as i32)
        } else {
            None
        }
    }
}

/// What `str::parse::<usize>` yields: an optional `+`, then at least one
/// digit, with a value that fits in a `usize`.
pub open spec fn parse_usize(s: Seq<char>) -> Option<usize> {
    let d = if s.len() > 0 && s[0] == '+' {
        s.drop_first()
    } else {
        s
    };
    if is_numeral(d) && decimal_value(d) <= usize::MAX {
        Some(decimal_value(d) as usize)
    } else {
        None
    }
}

/// The index of the first `c` in `s`, or -1 where there is none.
pub open spec fn index_of(s: Seq<char>, c: char) -> int
    decreases s.len(),
{
    if s.len() == 0 {
        -1
    } else if s[0] == c {
        0
    } else {
        let p = index_of(s.drop_first(), c);
        if p < 0 {
            -1
        } else {
            p + 1
        }
    }
}

/// Whether `c` is whitespace in the sense of `is_space_char`.
pub fn is_space(c: char) -> (r: bool)
    ensures
        r == is_space_char(c),
{
    ('\u{9}' <= c && c <= '\u{d}') || c == ' ' || c == '\u{85}' || c == '\u{a0}' || c == '\u{1680}'
        || ('\u{2000}' <= c && c <= '\u{200a}') || c == '\u{2028}' || c == '\u{2029}' || c
        == '\u{202f}' || c == '\u{205f}' || c == '\u{3000}'
}

/// The bounds of `cs[lo..hi]` with its surrounding whitespace left out.
pub fn trim_bounds(cs: &Vec<char>, lo: usize, hi: usize) -> (r: (usize, usize))
    requires
        lo <= hi <= cs@.len(),
    ensures
        lo <= r.0 <= r.1 <= hi,
        cs@.subrange(r.0 as int, r.1 as int) == trim(cs@.subrange(lo as int, hi as int)),
{
    let mut a: usize = lo;
    while a < hi && is_space(cs[a])
        invariant
            lo <= a <= hi <= cs@.len(),
            trim_start(cs@.subrange(lo as int, hi as int)) == trim_start(
                cs@.subrange(a as int, hi as int),
            ),
        decreases hi - a,
    {
        assert(cs@.subrange(a as int, hi as int).drop_first() =~= cs@.subrange(
            a + 1,
            hi as int,
        ));
        a = a + 1;
    }
    assert(trim_start(cs@.subrange(a as int, hi as int)) == cs@.subrange(a as int, hi as int));
    let mut b: usize = hi;
    while b > a && is_space(cs[b - 1])
        invariant
            lo <= a <= b <= hi <= cs@.len(),
            trim_end(cs@.subrange(a as int, hi as int)) == trim_end(
                cs@.subrange(a as int, b as int),
            ),
        decreases b - a,
    {
        assert(cs@.subrange(a as int, b as int).drop_last() =~= cs@.subrange(
            a as int,
            b - 1,
        ));
        b = b - 1;
    }
    (a, b)
}

/// A longer run of digits is worth at least as much as any of its prefixes.
pub proof fn lemma_decimal_value_prefix(s: Seq<char>, k: int)
    requires
        0 <= k <= s.len(),
    ensures
        decimal_value(s.subrange(0, k)) <= decimal_value(s),
    decreases s.len(),
{
    if k < s.len() {
        lemma_decimal_value_prefix(s.drop_last(), k);
        assert(s.drop_last().subrange(0, k) =~= s.subrange(0, k));
    } else {
        assert(s.subrange(0, k) =~= s);
    }
}

/// The value of the digits `cs[lo..hi]`, where they are all digits and that
/// value is at most `limit`.
pub fn digits_value_upto(cs: &Vec<char>, lo: usize, hi: usize, limit: u64) -> (r: Option<u64>)
    requires
        lo <= hi <= cs@.len(),
    ensures
        r == (if all_digits(cs@.subrange(lo as int, hi as int)) && decimal_value(
            cs@.subrange(lo as int, hi as int),
        ) <= limit {
            Some(decimal_value(cs@.subrange(lo as int, hi as int)) as u64)
        } else {
            None
        }),
{
    let ghost d = cs@.subrange(lo as int, hi as int);
    let mut acc: u64 = 0;
    let mut i: usize = lo;
    while i < hi
        invariant
            lo <= i <= hi <= cs@.len(),
            d == cs@.subrange(lo as int, hi as int),
            all_digits(d.subrange(0, i - lo)),
            acc == decimal_value(d.subrange(0, i - lo)),
            acc <= limit,
        decreases hi - i,
    {
        let c = cs[i];
        assert(d.subrange(0, i + 1 - lo).drop_last() =~= d.subrange(0, i - lo));
        if !('0' <= c && c <= '9') {
            assert(!is_digit_char(d[i - lo]));
            return None;
        }
        let v: u64 = (c as u32 - '0' as u32) as u64;
        assert(all_digits(d.subrange(0, i + 1 - lo))) by {
            assert forall|j: int| 0 <= j < i + 1 - lo implies #[trigger] is_digit_char(
                d.subrange(0, i + 1 - lo)[j],
            ) by {
                if j < i - lo {
                    assert(d.subrange(0, i + 1 - lo)[j] == d.subrange(0, i - lo)[j]);
                }
            }
        }
        if acc > limit / 10 || v > limit - acc * 10 {
            assert(acc * 10 + v > limit) by (nonlinear_arith)
                requires
                    acc > limit / 10 || (acc <= limit / 10 && v > limit - acc * 10),
            ;
            proof {
                if all_digits(d) {
                    lemma_decimal_value_prefix(d, i + 1 - lo);
                }
            }
            return None;
        }
        assert(acc * 10 <= limit) by (nonlinear_arith)
            requires
                acc <= limit / 10,
        ;
        acc = acc * 10 + v;
        i = i + 1;
    }
    assert(d.subrange(0, i - lo) =~= d);
    Some(acc)
}

/// The index of the first `c` lies inside `s`.
pub proof fn lemma_index_of_bound(s: Seq<char>, c: char)
    ensures
        -1 <= index_of(s, c) < s.len(),
        index_of(s, c) >= 0 ==> s[index_of(s, c)] == c,
    decreases s.len(),
{
    if s.len() > 0 {
        lemma_index_of_bound(s.drop_first(), c);
    }
}

/// Position of the first `c` in `cs`, or `None`.
pub fn find_char(cs: &Vec<char>, c: char) -> (r: Option<usize>)
    ensures
        r == (if index_of(cs@, c) < 0 {
            None::<usize>
        } else {
            Some(index_of(cs@, c) as usize)
        }),
        index_of(cs@, c) < cs@.len(),
{
    proof {
        lemma_index_of_bound(cs@, c);
    }
    let mut i: usize = 0;
    assert(cs@.subrange(0, cs@.len() as int) =~= cs@);
    while i < cs.len()
        invariant
            i <= cs@.len(),
            index_of(cs@, c) == (if index_of(cs@.subrange(i as int, cs@.len() as int), c) < 0 {
                -1
            } else {
                index_of(cs@.subrange(i as int, cs@.len() as int), c) + i
            }),
            index_of(cs@, c) < cs@.len(),
        decreases cs@.len() - i,
    {
        proof {
            lemma_index_of_bound(cs@.subrange(i as int, cs@.len() as int), c);
        }
        assert(cs@.subrange(i as int, cs@.len() as int).drop_first() =~= cs@.subrange(
            i + 1,
            cs@.len() as int,
        ));
        if cs[i] == c {
            return Some(i);
        }
        i = i + 1;
    }
    None
}

} // verus!
