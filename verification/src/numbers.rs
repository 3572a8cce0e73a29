//! Integers read from text as `str::parse` reads them, and substrings taken by byte
//! range as `str::get` takes them.
use vstd::prelude::*;
use crate::text::{
    all_digits, digits_value, decimal, digit_char, is_digit, is_digit_exec, byte_len, utf8_len_exec,
    is_char_boundary_at, char_index_of, lemma_byte_len_split, lemma_byte_len_one,
    lemma_byte_len_strict, lemma_char_index_of, slice_chars,
};

verus! {

// ---------------------------------------------------------------------------
// Integer texts
// ---------------------------------------------------------------------------

/// The value of an integer text as `str::parse` reads it, before the range check: an
/// optional `+` (or `-` when `signed`), then one or more ASCII digits.
pub open spec fn int_text_value(s: Seq<char>, signed: bool) -> Option<int> {
    if s.len() == 0 {
        None
    } else if (s[0] == '+' || s[0] == '-') && s.len() == 1 {
        None
    } else if s[0] == '+' {
        if all_digits(s.drop_first()) {
            Some(digits_value(s.drop_first()) as int)
        } else {
            None
        }
    } else if s[0] == '-' && signed {
        if all_digits(s.drop_first()) {
            Some(-(digits_value(s.drop_first()) as int))
        } else {
            None
        }
    } else if all_digits(s) {
        Some(digits_value(s) as int)
    } else {
        None
    }
}

/// The value of an integer text when it lies in `[min, max]`.
pub open spec fn parsed_in(s: Seq<char>, signed: bool, min: int, max: int) -> Option<int> {
    match int_text_value(s, signed) {
        Some(v) => if min <= v && v <= max {
            Some(v)
        } else {
            None
        },
        None => None,
    }
}

/// `str::parse::<i32>`.
pub open spec fn parsed_i32(s: Seq<char>) -> Option<int> {
    parsed_in(s, true, i32::MIN as int, i32::MAX as int)
}

/// `str::parse::<u32>`.
pub open spec fn parsed_u32(s: Seq<char>) -> Option<int> {
    parsed_in(s, false, 0, u32::MAX as int)
}

/// `str::parse::<i64>`.
pub open spec fn parsed_i64(s: Seq<char>) -> Option<int> {
    parsed_in(s, true, i64::MIN as int, i64::MAX as int)
}

/// The decimal text of a number is one or more digits that read back as the
/// number.
proof fn lemma_decimal_digits(n: nat)
    ensures
        decimal(n).len() > 0,
        all_digits(decimal(n)),
        digits_value(decimal(n)) == n,
    decreases n,
{
    let s = decimal(n);
    if n < 10 {
        assert(s == seq![digit_char(n)]);
        assert(digit_char(n) as u32 == n + 48);
        assert(s.drop_last() =~= Seq::<char>::empty());
        assert(digits_value(s) == digits_value(s.drop_last()) * 10 + ((s.last() as u32) - 48) as nat);
    } else {
        lemma_decimal_digits(n / 10);
        let d = decimal(n / 10);
        let r: nat = n % 10;
        assert(s == d.push(digit_char(r)));
        assert(digit_char(r) as u32 == r + 48);
        assert(s.drop_last() =~= d);
        assert(s.last() == digit_char(r));
        assert forall|i: int| 0 <= i < s.len() implies is_digit(#[trigger] s[i]) by {
            if i < d.len() {
                assert(s[i] == d[i]);
            }
        }
        assert(digits_value(s) == digits_value(d) * 10 + r);
        assert((n / 10) * 10 + n % 10 == n) by (nonlinear_arith);
    }
}

/// The decimal text of a number is one or more digits that read back as the
/// number, and `str::parse` gives the number back for each integer type that holds
/// it.
pub proof fn lemma_decimal_reads_back(n: nat)
    ensures
        decimal(n).len() > 0,
        all_digits(decimal(n)),
        digits_value(decimal(n)) == n,
        n <= u32::MAX ==> parsed_u32(decimal(n)) == Some(n as int),
        n <= i32::MAX ==> parsed_i32(decimal(n)) == Some(n as int),
        n <= i64::MAX ==> parsed_i64(decimal(n)) == Some(n as int),
{
    lemma_decimal_digits(n);
    let s = decimal(n);
    assert(is_digit(s[0]));
}

/// A longer run of digits is worth at least as much as its prefix.
proof fn lemma_digits_prefix(t: Seq<char>, k: int)
    requires
        0 <= k <= t.len(),
    ensures
        digits_value(t.take(k)) <= digits_value(t),
    decreases t.len(),
{
    if k < t.len() {
        assert(t.drop_last().take(k) =~= t.take(k));
        lemma_digits_prefix(t.drop_last(), k);
    } else {
        assert(t.take(k) =~= t);
    }
}

/// The value of the digits `s[lo..]`, or `None` when it is above `cap`.
fn digits_upto(s: &[char], lo: usize, cap: u64) -> (res: Option<u64>)
    requires
        lo <= s@.len(),
        all_digits(s@.subrange(lo as int, s@.len() as int)),
    ensures
        match res {
            Some(v) => v == digits_value(s@.subrange(lo as int, s@.len() as int)) && v <= cap,
            None => digits_value(s@.subrange(lo as int, s@.len() as int)) > cap,
        },
{
    let ghost t = s@.subrange(lo as int, s@.len() as int);
    let mut acc: u128 = 0;
    let mut k = lo;
    assert(t.take(0) =~= Seq::<char>::empty());
    while k < s.len()
        invariant
            lo <= k <= s@.len(),
            t == s@.subrange(lo as int, s@.len() as int),
            all_digits(t),
            acc == digits_value(t.take(k - lo)),
            acc <= cap,
        decreases s@.len() - k,
    {
        assert(t.take(k + 1 - lo).drop_last() =~= t.take(k - lo));
        assert(t.take(k + 1 - lo).last() == s@[k as int]);
        assert(is_digit(t[k - lo]));
        let d = (s[k] as u32 - 48) as u128;
        acc = acc * 10 + d;
        if acc > cap as u128 {
            proof {
                lemma_digits_prefix(t, k + 1 - lo);
            }
            return None;
        }
        k = k + 1;
    }
    assert(t.take(k - lo) =~= t);
    Some(acc as u64)
}

/// Whether `s[lo..]` is all ASCII digits.
fn digits_from(s: &[char], lo: usize) -> (res: bool)
    requires
        lo <= s@.len(),
    ensures
        res == all_digits(s@.subrange(lo as int, s@.len() as int)),
{
    let mut i = lo;
    while i < s.len()
        invariant
            lo <= i <= s@.len(),
            forall|j: int| lo <= j < i ==> is_digit(#[trigger] s@[j]),
        decreases s@.len() - i,
    {
        if !is_digit_exec(s[i]) {
            proof {
                let t = s@.subrange(lo as int, s@.len() as int);
                assert(t[i - lo] == s@[i as int]);
            }
            return false;
        }
        i = i + 1;
    }
    assert forall|j: int| 0 <= j < s@.len() - lo implies is_digit(
        #[trigger] s@.subrange(lo as int, s@.len() as int)[j],
    ) by {
        assert(s@.subrange(lo as int, s@.len() as int)[j] == s@[lo + j]);
    }
    true
}

/// The sign and the start of the digits of an integer text, when it is one.
fn int_text_parts(s: &[char], signed: bool) -> (res: Option<(bool, usize)>)
    ensures
        match res {
            Some((neg, lo)) => {
                &&& int_text_value(s@, signed) is Some
                &&& lo <= s@.len()
                &&& all_digits(s@.subrange(lo as int, s@.len() as int))
                &&& int_text_value(s@, signed) == Some(
                    if neg {
                        -(digits_value(s@.subrange(lo as int, s@.len() as int)) as int)
                    } else {
                        digits_value(s@.subrange(lo as int, s@.len() as int)) as int
                    },
                )
            },
            None => int_text_value(s@, signed) is None,
        },
{
    if s.len() == 0 {
        return None;
    }
    if (s[0] == '+' || s[0] == '-') && s.len() == 1 {
        return None;
    }
    let (neg, lo): (bool, usize) = if s[0] == '+' {
        (false, 1)
    } else if s[0] == '-' && signed {
        (true, 1)
    } else {
        (false, 0)
    };
    assert(s@.subrange(1, s@.len() as int) =~= s@.drop_first());
    assert(s@.subrange(0, s@.len() as int) =~= s@);
    if !digits_from(s, lo) {
        return None;
    }
    Some((neg, lo))
}

/// `str::parse::<i32>` on a text.
pub fn parse_i32_text(s: &[char]) -> (res: Option<i32>)
    ensures
        match res {
            Some(v) => parsed_i32(s@) == Some(v as int),
            None => parsed_i32(s@) is None,
        },
{
    match int_text_parts(s, true) {
        None => None,
        Some((neg, lo)) => {
            let cap: u64 = if neg {
                2147483648
            } else {
                2147483647
            };
            match digits_upto(s, lo, cap) {
                None => None,
                Some(v) => if neg {
                    Some((0 - (v as i64)) as i32)
                } else {
                    Some(v as i32)
                },
            }
        },
    }
}

/// `str::parse::<u32>` on a text.
pub fn parse_u32_text(s: &[char]) -> (res: Option<u32>)
    ensures
        match res {
            Some(v) => parsed_u32(s@) == Some(v as int),
            None => parsed_u32(s@) is None,
        },
{
    match int_text_parts(s, false) {
        None => None,
        Some((neg, lo)) => match digits_upto(s, lo, 4294967295) {
            None => None,
            Some(v) => Some(v as u32),
        },
    }
}

/// `str::parse::<u64>` on a text.
pub fn parse_u64_text(s: &[char]) -> (res: Option<u64>)
    ensures
        match res {
            Some(v) => parsed_in(s@, false, 0, u64::MAX as int) == Some(v as int),
            None => parsed_in(s@, false, 0, u64::MAX as int) is None,
        },
{
    match int_text_parts(s, false) {
        None => None,
        Some((neg, lo)) => digits_upto(s, lo, u64::MAX),
    }
}

/// The value of a text of one or more ASCII digits that fits a `u64`.
pub fn digits_u64(s: &[char]) -> (res: Option<u64>)
    ensures
        match res {
            Some(v) => s@.len() > 0 && all_digits(s@) && v == digits_value(s@),
            None => !(s@.len() > 0 && all_digits(s@) && digits_value(s@) <= u64::MAX),
        },
{
    if s.len() == 0 {
        return None;
    }
    assert(s@.subrange(0, s@.len() as int) =~= s@);
    if !digits_from(s, 0) {
        return None;
    }
    digits_upto(s, 0, u64::MAX)
}

/// `str::parse::<i64>` on a text.
pub fn parse_i64_text(s: &[char]) -> (res: Option<i64>)
    ensures
        match res {
            Some(v) => parsed_i64(s@) == Some(v as int),
            None => parsed_i64(s@) is None,
        },
{
    match int_text_parts(s, true) {
        None => None,
        Some((neg, lo)) => {
            let cap: u64 = if neg {
                9223372036854775808
            } else {
                9223372036854775807
            };
            match digits_upto(s, lo, cap) {
                None => None,
                Some(v) => if neg {
                    if v == 9223372036854775808 {
                        Some(i64::MIN)
                    } else {
                        Some(0 - (v as i64))
                    }
                } else {
                    Some(v as i64)
                },
            }
        },
    }
}

// ---------------------------------------------------------------------------
// Byte ranges
// ---------------------------------------------------------------------------

/// `str::get(a..b)`: the text between two byte positions, when both are character
/// boundaries in order.
pub open spec fn byte_slice(s: Seq<char>, a: int, b: int) -> Option<Seq<char>> {
    if a <= b && is_char_boundary_at(s, a) && is_char_boundary_at(s, b) {
        Some(s.subrange(char_index_of(s, a), char_index_of(s, b)))
    } else {
        None
    }
}

/// The character position at byte position `b`, when `b` is a boundary.
pub fn char_pos_at(s: &[char], b: usize) -> (res: Option<usize>)
    ensures
        match res {
            Some(k) => is_char_boundary_at(s@, b as int) && k == char_index_of(s@, b as int)
                && k <= s@.len(),
            None => !is_char_boundary_at(s@, b as int),
        },
{
    let mut k: usize = 0;
    let mut rem: usize = b;
    assert(s@.take(0) =~= Seq::<char>::empty());
    while rem > 0 && k < s.len()
        invariant
            k <= s@.len(),
            byte_len(s@.take(k as int)) + rem == b,
        decreases s@.len() - k,
    {
        proof {
            lemma_byte_len_split(s@, 0, k as int, k + 1);
            lemma_byte_len_one(s@, k as int);
            assert(s@.take(k as int) =~= s@.subrange(0, k as int));
            assert(s@.take(k + 1) =~= s@.subrange(0, k + 1));
        }
        let l = utf8_len_exec(s[k]);
        if l > rem {
            proof {
                assert forall|k2: int| 0 <= k2 <= s@.len() implies byte_len(#[trigger] s@.take(k2)) != b by {
                    if k2 < k {
                        lemma_byte_len_strict(s@, k2, k as int);
                    } else if k2 > k + 1 {
                        lemma_byte_len_strict(s@, k + 1, k2);
                    }
                }
            }
            return None;
        }
        rem = rem - l;
        k = k + 1;
    }
    if rem == 0 {
        proof {
            lemma_char_index_of(s@, b as int, k as int);
        }
        Some(k)
    } else {
        proof {
            assert forall|k2: int| 0 <= k2 <= s@.len() implies byte_len(#[trigger] s@.take(k2)) != b by {
                if k2 < k {
                    lemma_byte_len_strict(s@, k2, k as int);
                }
            }
        }
        None
    }
}

/// `str::get(a..b)` on a text.
pub fn byte_slice_exec(s: &[char], a: usize, b: usize) -> (res: Option<Vec<char>>)
    ensures
        match res {
            Some(t) => byte_slice(s@, a as int, b as int) == Some(t@),
            None => byte_slice(s@, a as int, b as int) is None,
        },
{
    if a > b {
        return None;
    }
    match (char_pos_at(s, a), char_pos_at(s, b)) {
        (Some(i), Some(j)) => {
            if i > j {
                proof {
                    lemma_byte_len_strict(s@, j as int, i as int);
                }
                return None;
            }
            Some(slice_chars(s, i, j))
        },
        _ => None,
    }
}

} // verus!
