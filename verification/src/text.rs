//! ASCII field handling: space trimming and text-encoded numerics.
//!
//! Every numeric header field is a fixed-width ASCII block; the spec
//! functions here say exactly which byte sequences parse and to what
//! value, and the executable parsers are proved against them.

use vstd::prelude::*;
use crate::rational::{pow10, lemma_pow10_vals, lemma_pow10_mono, lemma_pow10_add, lemma_pow10_pos, Dec};

verus! {

pub open spec fn is_space(b: u8) -> bool {
    b == 32
}

pub open spec fn is_ascii_byte(b: u8) -> bool {
    b <= 127
}

/// Valid text: every byte is ASCII.
pub open spec fn ascii_seq(s: Seq<u8>) -> bool {
    forall|i: int| 0 <= i < s.len() ==> is_ascii_byte(s[i])
}

pub open spec fn is_digit(b: u8) -> bool {
    48 <= b <= 57
}

pub open spec fn all_digits(s: Seq<u8>) -> bool {
    forall|i: int| 0 <= i < s.len() ==> is_digit(s[i])
}

/// The value of a digit string, most significant digit first.
pub open spec fn digits_value(s: Seq<u8>) -> int
    decreases s.len(),
{
    if s.len() == 0 {
        0
    } else {
        digits_value(s.drop_last()) * 10 + (s.last() - 48)
    }
}

pub proof fn lemma_digits_value_bound(s: Seq<u8>)
    requires
        all_digits(s),
    ensures
        0 <= digits_value(s) < pow10(s.len()),
    decreases s.len(),
{
    if s.len() == 0 {
    } else {
        assert(forall|i: int| 0 <= i < s.drop_last().len() ==> s.drop_last()[i] == s[i]);
        lemma_digits_value_bound(s.drop_last());
        lemma_pow10_pos((s.len() - 1) as nat);
        assert(is_digit(s.last()));
    }
}

/// The input with trailing spaces removed.
pub open spec fn trim_end_spec(s: Seq<u8>) -> Seq<u8>
    decreases s.len(),
{
    if s.len() > 0 && is_space(s.last()) {
        trim_end_spec(s.drop_last())
    } else {
        s
    }
}

/// The input with leading spaces removed.
pub open spec fn trim_start_spec(s: Seq<u8>) -> Seq<u8>
    decreases s.len(),
{
    if s.len() > 0 && is_space(s.first()) {
        trim_start_spec(s.skip(1))
    } else {
        s
    }
}

/// The input with spaces removed on both ends.
pub open spec fn trim_spec(s: Seq<u8>) -> Seq<u8> {
    trim_start_spec(trim_end_spec(s))
}

/// Index of the last non-space byte plus one.
pub fn trim_end_range(v: &Vec<u8>) -> (hi: usize)
    ensures
        hi <= v@.len(),
        trim_end_spec(v@) == v@.subrange(0, hi as int),
{
    let mut hi: usize = v.len();
    proof {
        assert(v@.subrange(0, v@.len() as int) =~= v@);
    }
    while hi > 0 && v[hi - 1] == 32
        invariant
            hi <= v@.len(),
            trim_end_spec(v@) == trim_end_spec(v@.subrange(0, hi as int)),
        decreases hi,
    {
        proof {
            let s = v@.subrange(0, hi as int);
            assert(s.drop_last() =~= v@.subrange(0, hi - 1));
            assert(s.last() == v@[hi - 1]);
        }
        hi = hi - 1;
    }
    proof {
        let s = v@.subrange(0, hi as int);
        if hi == 0 {
            assert(s.len() == 0);
        } else {
            assert(s.last() == v@[hi - 1]);
        }
    }
    hi
}

/// The bounds of the input with spaces removed on both ends.
pub fn trim_range(v: &Vec<u8>) -> (r: (usize, usize))
    ensures
        r.0 <= r.1 <= v@.len(),
        trim_spec(v@) == v@.subrange(r.0 as int, r.1 as int),
{
    let hi = trim_end_range(v);
    let mut lo: usize = 0;
    proof {
        assert(v@.subrange(0, hi as int) =~= v@.subrange(0 as int, hi as int));
    }
    while lo < hi && v[lo] == 32
        invariant
            lo <= hi <= v@.len(),
            trim_end_spec(v@) == v@.subrange(0, hi as int),
            trim_start_spec(v@.subrange(0, hi as int)) == trim_start_spec(
                v@.subrange(lo as int, hi as int),
            ),
        decreases hi - lo,
    {
        proof {
            let s = v@.subrange(lo as int, hi as int);
            assert(s.first() == v@[lo as int]);
            assert(s.skip(1) =~= v@.subrange(lo + 1, hi as int));
        }
        lo = lo + 1;
    }
    proof {
        let s = v@.subrange(lo as int, hi as int);
        if lo == hi {
            assert(s.len() == 0);
        } else {
            assert(s.first() == v@[lo as int]);
        }
    }
    (lo, hi)
}

/// Parses `v[lo..hi]` as bare digits; `Some(0)` on an empty range.
pub(crate) fn parse_digits_range(v: &Vec<u8>, lo: usize, hi: usize) -> (r: Option<u64>)
    requires
        lo <= hi <= v@.len(),
        hi - lo <= 9,
    ensures
        match r {
            Some(n) => all_digits(v@.subrange(lo as int, hi as int)) && n as int == digits_value(
                v@.subrange(lo as int, hi as int),
            ) && n < 1_000_000_000 && n < pow10((hi - lo) as nat),
            None => !all_digits(v@.subrange(lo as int, hi as int)),
        },
{
    let mut i: usize = lo;
    let mut val: u64 = 0;
    while i < hi
        invariant
            lo <= i <= hi <= v@.len(),
            hi - lo <= 9,
            forall|k: int| lo <= k < i ==> is_digit(v@[k]),
            val as int == digits_value(v@.subrange(lo as int, i as int)),
            val < 1_000_000_000,
        decreases hi - i,
    {
        let b = v[i];
        if b < 48 || b > 57 {
            proof {
                assert(v@.subrange(lo as int, hi as int)[i - lo] == v@[i as int]);
            }
            return None;
        }
        proof {
            let pre = v@.subrange(lo as int, i as int);
            let pre1 = v@.subrange(lo as int, i + 1);
            assert(pre1.drop_last() =~= pre);
            assert(pre1.last() == v@[i as int]);
            assert(forall|k: int| 0 <= k < pre.len() ==> pre[k] == v@[lo + k]);
            assert(all_digits(pre));
            lemma_digits_value_bound(pre);
            lemma_pow10_mono((i - lo) as nat, 8);
            lemma_pow10_vals();
        }
        val = val * 10 + (b - 48) as u64;
        i = i + 1;
    }
    proof {
        let s = v@.subrange(lo as int, hi as int);
        assert(forall|k: int| 0 <= k < s.len() ==> s[k] == v@[lo + k]);
        assert(all_digits(s));
        lemma_digits_value_bound(s);
    }
    Some(val)
}

/// A non-negative trimmed integer: digits with an optional leading `'+'`.
pub open spec fn parse_uint(s: Seq<u8>) -> Option<int> {
    if s.len() > 0 && s[0] == 43 {
        if s.len() > 1 && all_digits(s.skip(1)) {
            Some(digits_value(s.skip(1)))
        } else {
            None
        }
    } else if s.len() > 0 && all_digits(s) {
        Some(digits_value(s))
    } else {
        None
    }
}

/// A trimmed integer: digits with an optional leading `'+'` or `'-'`.
pub open spec fn parse_int(s: Seq<u8>) -> Option<int> {
    if s.len() > 0 && s[0] == 45 {
        if s.len() > 1 && all_digits(s.skip(1)) {
            Some(-digits_value(s.skip(1)))
        } else {
            None
        }
    } else {
        parse_uint(s)
    }
}

pub fn parse_uint_range(v: &Vec<u8>, lo: usize, hi: usize) -> (r: Option<u64>)
    requires
        lo <= hi <= v@.len(),
        hi - lo <= 9,
    ensures
        match r {
            Some(n) => parse_uint(v@.subrange(lo as int, hi as int)) == Some(n as int) && n
                < 1_000_000_000 && n < pow10((hi - lo) as nat),
            None => parse_uint(v@.subrange(lo as int, hi as int)) is None,
        },
{
    if lo < hi && v[lo] == 43 {
        if lo + 1 == hi {
            return None;
        }
        proof {
            assert(v@.subrange(lo as int, hi as int).skip(1) =~= v@.subrange(lo + 1, hi as int));
            lemma_pow10_mono((hi - lo - 1) as nat, (hi - lo) as nat);
        }
        parse_digits_range(v, lo + 1, hi)
    } else if lo == hi {
        None
    } else {
        parse_digits_range(v, lo, hi)
    }
}

pub fn parse_int_range(v: &Vec<u8>, lo: usize, hi: usize) -> (r: Option<i64>)
    requires
        lo <= hi <= v@.len(),
        hi - lo <= 9,
    ensures
        match r {
            Some(n) => parse_int(v@.subrange(lo as int, hi as int)) == Some(n as int)
                && -1_000_000_000 < n < 1_000_000_000 && -pow10((hi - lo) as nat) < n < pow10(
                (hi - lo) as nat,
            ),
            None => parse_int(v@.subrange(lo as int, hi as int)) is None,
        },
{
    if lo < hi && v[lo] == 45 {
        if lo + 1 == hi {
            return None;
        }
        proof {
            assert(v@.subrange(lo as int, hi as int).skip(1) =~= v@.subrange(lo + 1, hi as int));
            lemma_pow10_mono((hi - lo - 1) as nat, (hi - lo) as nat);
        }
        match parse_digits_range(v, lo + 1, hi) {
            Some(n) => Some(-(n as i64)),
            None => None,
        }
    } else {
        match parse_uint_range(v, lo, hi) {
            Some(n) => Some(n as i64),
            None => None,
        }
    }
}

/// Index of the first `'.'`, or `-1` if there is none.
pub open spec fn first_dot(s: Seq<u8>) -> int
    decreases s.len(),
{
    if s.len() == 0 {
        -1
    } else if s[0] == 46 {
        0
    } else if first_dot(s.skip(1)) == -1 {
        -1
    } else {
        1 + first_dot(s.skip(1))
    }
}

pub proof fn lemma_first_dot_at(s: Seq<u8>, i: int)
    requires
        0 <= i < s.len(),
        s[i] == 46,
        forall|j: int| 0 <= j < i ==> s[j] != 46,
    ensures
        first_dot(s) == i,
    decreases i,
{
    if i == 0 {
    } else {
        assert(s[0] != 46);
        assert(forall|j: int| 0 <= j < s.skip(1).len() ==> s.skip(1)[j] == s[j + 1]);
        lemma_first_dot_at(s.skip(1), i - 1);
    }
}

pub proof fn lemma_first_dot_none(s: Seq<u8>)
    requires
        forall|j: int| 0 <= j < s.len() ==> s[j] != 46,
    ensures
        first_dot(s) == -1,
    decreases s.len(),
{
    if s.len() > 0 {
        assert(forall|j: int| 0 <= j < s.skip(1).len() ==> s.skip(1)[j] == s[j + 1]);
        lemma_first_dot_none(s.skip(1));
    }
}

/// A trimmed decimal number: an optional sign, then digits with at most
/// one `'.'` and at least one digit. The result is a mantissa and the
/// count of fractional digits, so the value is `m / 10^e`.
pub open spec fn parse_dec(s: Seq<u8>) -> Option<(int, int)> {
    let neg = s.len() > 0 && s[0] == 45;
    let t = if s.len() > 0 && (s[0] == 45 || s[0] == 43) {
        s.skip(1)
    } else {
        s
    };
    let dp = first_dot(t);
    if dp == -1 {
        if t.len() > 0 && all_digits(t) {
            Some(((if neg { -digits_value(t) } else { digits_value(t) }), 0))
        } else {
            None
        }
    } else {
        let ip = t.subrange(0, dp);
        let fp = t.subrange(dp + 1, t.len() as int);
        if all_digits(ip) && all_digits(fp) && ip.len() + fp.len() > 0 {
            let m = digits_value(ip) * pow10(fp.len()) + digits_value(fp);
            Some(((if neg { -m } else { m }), fp.len() as int))
        } else {
            None
        }
    }
}

pub fn parse_dec_range(v: &Vec<u8>, lo: usize, hi: usize) -> (r: Option<Dec>)
    requires
        lo <= hi <= v@.len(),
        hi - lo <= 8,
    ensures
        match r {
            Some(dc) => parse_dec(v@.subrange(lo as int, hi as int)) == Some(
                (dc.m as int, dc.e as int),
            ) && dc.wf(),
            None => parse_dec(v@.subrange(lo as int, hi as int)) is None,
        },
{
    let ghost s = v@.subrange(lo as int, hi as int);
    let mut start: usize = lo;
    let mut neg: bool = false;
    if lo < hi && (v[lo] == 45 || v[lo] == 43) {
        neg = v[lo] == 45;
        start = lo + 1;
        proof {
            assert(s.skip(1) =~= v@.subrange(start as int, hi as int));
        }
    }
    let ghost t = v@.subrange(start as int, hi as int);
    let mut i: usize = start;
    while i < hi && v[i] != 46
        invariant
            start <= i <= hi <= v@.len(),
            forall|j: int| start <= j < i ==> v@[j] != 46,
        decreases hi - i,
    {
        i = i + 1;
    }
    proof {
        assert(forall|j: int| 0 <= j < t.len() ==> t[j] == v@[start + j]);
    }
    if i == hi {
        // no dot: plain signed digits
        proof {
            lemma_first_dot_none(t);
        }
        if start == hi {
            return None;
        }
        match parse_digits_range(v, start, hi) {
            Some(n) => {
                proof {
                    lemma_digits_value_bound(t);
                    lemma_pow10_mono((hi - start) as nat, 8);
                    lemma_pow10_vals();
                }
                let m: i64 = if neg {
                    -(n as i64)
                } else {
                    n as i64
                };
                Some(Dec { m, e: 0 })
            },
            None => None,
        }
    } else {
        proof {
            assert(t[i - start] == v@[i as int]);
            lemma_first_dot_at(t, i - start);
            assert(t.subrange(0, i - start) =~= v@.subrange(start as int, i as int));
            assert(t.subrange(i - start + 1, t.len() as int) =~= v@.subrange(i + 1, hi as int));
        }
        let ipr = parse_digits_range(v, start, i);
        let fpr = parse_digits_range(v, i + 1, hi);
        match (ipr, fpr) {
            (Some(ipn), Some(fpn)) => {
                if start == i && i + 1 == hi {
                    return None;
                }
                let fl: usize = hi - i - 1;
                proof {
                    let ip = t.subrange(0, i - start);
                    let fp = t.subrange(i - start + 1, t.len() as int);
                    lemma_digits_value_bound(ip);
                    lemma_digits_value_bound(fp);
                    lemma_pow10_add(ip.len() as nat, fp.len() as nat);
                    lemma_pow10_mono((ip.len() + fp.len()) as nat, 7);
                    lemma_pow10_vals();
                    lemma_pow10_pos(fp.len() as nat);
                    assert(digits_value(ip) * pow10(fp.len()) + digits_value(fp) < pow10(
                        ip.len() + fp.len(),
                    )) by (nonlinear_arith)
                        requires
                            0 <= digits_value(ip) <= pow10(ip.len()) - 1,
                            0 <= digits_value(fp) <= pow10(fp.len()) - 1,
                            pow10(fp.len()) >= 1,
                            pow10(ip.len() + fp.len()) == pow10(ip.len()) * pow10(fp.len()),
                    ;
                }
                let pf: u64 = crate::rational::pow10_i128(fl as u32) as u64;
                let m0: u64 = ipn * pf + fpn;
                let m: i64 = if neg {
                    -(m0 as i64)
                } else {
                    m0 as i64
                };
                Some(Dec { m, e: fl as u32 })
            },
            _ => None,
        }
    }
}

} // verus!
