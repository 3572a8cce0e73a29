//! Small readings of racecard texts: names reduced to keys, non-runners, the course
//! in a race name, times of day, leading numbers, and HTML escaping.
use vstd::prelude::*;
use crate::text::{
    chars_of, trim, trimmed_chars, is_alnum, is_alnum_exec, lower, lower_exec, push_char,
    push_str, find, ch, is_digit, is_digit_exec, byte_len, string_of, slice_chars,
    is_char_boundary_at, char_index_of,
};
use crate::numbers::{byte_slice, byte_slice_exec, parsed_i32, parse_i32_text, parsed_i64, parse_i64_text};
use crate::racecard::{digits_end, digits_end_exec};

verus! {

// ---------------------------------------------------------------------------
// Keys of names
// ---------------------------------------------------------------------------

/// The ASCII letters and digits of a text, lowercased.
pub open spec fn alnum_lower(s: Seq<char>) -> Seq<char>
    decreases s.len(),
{
    if s.len() == 0 {
        Seq::empty()
    } else {
        alnum_lower(s.drop_last()) + if is_alnum(s.last()) {
            seq![lower(s.last())]
        } else {
            Seq::empty()
        }
    }
}

/// A character of a key: a digit or a lowercase ASCII letter.
pub open spec fn key_char(c: char) -> bool {
    is_digit(c) || ('a' <= c && c <= 'z')
}

/// A key holds only digits and lowercase ASCII letters.
proof fn lemma_key_has_key_chars(s: Seq<char>)
    ensures
        forall|j: int| 0 <= j < alnum_lower(s).len() ==> key_char(#[trigger] alnum_lower(s)[j]),
    decreases s.len(),
{
    if s.len() > 0 {
        let d = s.drop_last();
        lemma_key_has_key_chars(d);
        let k0 = alnum_lower(d);
        let k = alnum_lower(s);
        assert forall|j: int| 0 <= j < k.len() implies key_char(#[trigger] k[j]) by {
            if j < k0.len() {
                assert(k[j] == k0[j]);
            } else {
                assert(k[j] == lower(s.last()));
            }
        }
    }
}

/// A text made only of digits and lowercase ASCII letters is its own key.
proof fn lemma_own_key(s: Seq<char>)
    requires
        forall|j: int| 0 <= j < s.len() ==> key_char(#[trigger] s[j]),
    ensures
        alnum_lower(s) == s,
    decreases s.len(),
{
    if s.len() > 0 {
        let d = s.drop_last();
        assert forall|j: int| 0 <= j < d.len() implies key_char(#[trigger] d[j]) by {
            assert(d[j] == s[j]);
        }
        lemma_own_key(d);
        assert(key_char(s[s.len() - 1]));
        assert(d.push(s.last()) =~= s);
    }
}

/// A key holds only digits and lowercase ASCII letters; a text made only of those
/// is its own key, so taking the key of a key changes nothing.
pub proof fn lemma_key_chars(s: Seq<char>)
    ensures
        forall|j: int| 0 <= j < alnum_lower(s).len() ==> key_char(#[trigger] alnum_lower(s)[j]),
        (forall|j: int| 0 <= j < s.len() ==> key_char(#[trigger] s[j])) ==> alnum_lower(s) == s,
        alnum_lower(alnum_lower(s)) == alnum_lower(s),
{
    lemma_key_has_key_chars(s);
    if forall|j: int| 0 <= j < s.len() ==> key_char(#[trigger] s[j]) {
        lemma_own_key(s);
    }
    lemma_own_key(alnum_lower(s));
}

/// The ASCII letters and digits of `s[lo..hi]`, lowercased.
fn alnum_lower_exec(s: &[char]) -> (res: String)
    ensures
        res@ == alnum_lower(s@),
{
    let mut out = String::new();
    let mut i: usize = 0;
    assert(s@.take(0) =~= Seq::<char>::empty());
    while i < s.len()
        invariant
            i <= s@.len(),
            out@ == alnum_lower(s@.take(i as int)),
        decreases s@.len() - i,
    {
        assert(s@.take(i + 1).drop_last() =~= s@.take(i as int));
        assert(s@.take(i + 1).last() == s@[i as int]);
        if is_alnum_exec(s[i]) {
            push_char(&mut out, lower_exec(s[i]));
        }
        assert(out@ =~= alnum_lower(s@.take(i + 1)));
        i = i + 1;
    }
    assert(s@.take(s@.len() as int) =~= s@);
    out
}

/// The key of a name: its ASCII letters and digits, lowercased, after trimming.
pub fn norm_key(s: &str) -> (res: String)
    ensures
        res@ == alnum_lower(trim(s@)),
{
    let c = chars_of(s);
    let t = trimmed_chars(&c, 0, c.len());
    assert(c@.subrange(0, c@.len() as int) =~= c@);
    alnum_lower_exec(&t)
}

/// A field that says the horse is a non-runner: its key is `nonrunner`.
pub fn is_non_runner(s: &str) -> (res: bool)
    ensures
        res == (alnum_lower(trim(s@)) == "nonrunner"@),
{
    let k = norm_key(s);
    let kc = chars_of(k.as_str());
    let nr = chars_of("nonrunner");
    crate::text::chars_eq(&kc, &nr)
}

// ---------------------------------------------------------------------------
// The course in a race name
// ---------------------------------------------------------------------------

/// `s` up to the first `sep`, or all of `s`.
pub open spec fn before_text(s: Seq<char>, sep: Seq<char>) -> Seq<char> {
    match find(s, sep) {
        Some(i) => s.subrange(0, i),
        None => s,
    }
}

/// The course of a race named `HH:MM Course Racecard`: the words after a five-byte
/// time with `:` as third byte; else the fallback, trimmed.
pub open spec fn course_from_race_name(fallback: Seq<char>, race_name: Seq<char>) -> Seq<char> {
    let rn = trim(race_name);
    if rn.len() == 0 {
        trim(fallback)
    } else {
        let left = trim(before_text(rn, " Racecard"@));
        match find(left, ch(' ')) {
            Some(p) => {
                let first = trim(left.subrange(0, p));
                let rest = trim(left.subrange(p + 1, left.len() as int));
                if byte_len(first) == 5 && byte_slice(first, 2, 3) == Some(seq![':']) && rest.len()
                    > 0 {
                    rest
                } else {
                    trim(fallback)
                }
            },
            None => trim(fallback),
        }
    }
}

/// A text of ASCII characters takes one byte each.
proof fn lemma_ascii_byte_len(s: Seq<char>, k: int)
    requires
        0 <= k <= s.len(),
        forall|j: int| 0 <= j < s.len() ==> (#[trigger] s[j] as u32) < 0x80,
    ensures
        byte_len(s.take(k)) == k,
    decreases k,
{
    if k > 0 {
        lemma_ascii_byte_len(s, k - 1);
        assert(s.take(k).drop_last() =~= s.take(k - 1));
        assert(s.take(k).last() == s[k - 1]);
    }
}

/// In `HH:MM <course> Racecard`, with a course of one word that does not begin with
/// `Racecard`, the first ` Racecard` is the one at the end.
pub proof fn lemma_one_word_course_suffix(t: Seq<char>, c: Seq<char>)
    requires
        t.len() == 5,
        is_digit(t[0]) && is_digit(t[1]) && t[2] == ':' && is_digit(t[3]) && is_digit(t[4]),
        forall|j: int| 0 <= j < c.len() ==> !crate::text::is_ws(#[trigger] c[j]),
        !crate::text::starts_with(c, "Racecard"@),
    ensures
        find(t + seq![' '] + c + " Racecard"@, " Racecard"@) == Some((6 + c.len()) as int),
{
    reveal_strlit(" Racecard");
    reveal_strlit("Racecard");
    let sr = " Racecard"@;
    let rn = t + seq![' '] + c + sr;
    let n = (6 + c.len()) as int;
    assert forall|j: int| 0 <= j < 5 implies (#[trigger] t[j]) != ' ' by {
        if j != 2 {
            assert(is_digit(t[j]));
        }
    }
    assert(rn.subrange(n, n + 9) =~= sr);
    assert forall|j: int| 0 <= j < n implies !crate::text::matches_at(rn, j, sr) by {
        if crate::text::matches_at(rn, j, sr) {
            assert(rn.subrange(j, j + 9)[0] == rn[j]);
            assert(rn[j] == ' ');
            if j < 5 {
                assert(rn[j] == t[j]);
            } else if j > 5 {
                assert(rn[j] == c[j - 6]);
            } else {
                if c.len() < 8 {
                    assert(rn.subrange(j, j + 9)[(1 + c.len()) as int] == rn[n]);
                    assert(rn[n] == ' ');
                } else {
                    assert forall|i: int| 0 <= i < 8 implies c.subrange(0, 8)[i] == "Racecard"@[i] by {
                        assert(c.subrange(0, 8)[i] == rn[6 + i]);
                        assert(rn.subrange(j, j + 9)[1 + i] == rn[6 + i]);
                    }
                    assert(c.subrange(0, 8) =~= "Racecard"@);
                }
            }
        }
    }
    crate::text::lemma_find_from_first(rn, 0, sr, n);
}

/// A race named `HH:MM <course> Racecard` is a race at that course, whatever the
/// fallback, for every course that starts and ends with a character other than
/// whitespace and whose ` Racecard` is the first in the name (so every course of one
/// word that does not begin with `Racecard`).
pub proof fn lemma_course_from_timed_name(fallback: Seq<char>, t: Seq<char>, c: Seq<char>)
    requires
        t.len() == 5,
        is_digit(t[0]) && is_digit(t[1]) && t[2] == ':' && is_digit(t[3]) && is_digit(t[4]),
        c.len() > 0,
        !crate::text::is_ws(c[0]) && !crate::text::is_ws(c.last()),
        find(t + seq![' '] + c + " Racecard"@, " Racecard"@) == Some((6 + c.len()) as int),
    ensures
        course_from_race_name(fallback, t + seq![' '] + c + " Racecard"@) == c,
{
    reveal_strlit(" Racecard");
    let sr = " Racecard"@;
    let rn = t + seq![' '] + c + sr;
    let n = (6 + c.len()) as int;
    assert forall|j: int| 0 <= j < 5 implies (#[trigger] t[j]) != ' ' && !crate::text::is_ws(t[j]) && (t[j]
        as u32) < 0x80 by {
        if j != 2 {
            assert(is_digit(t[j]));
        }
    }
    assert(rn[0] == t[0]);
    assert(rn.last() == 'd');
    crate::text::lemma_trim_whole(rn);
    let left = rn.subrange(0, n);
    assert(left =~= t + seq![' '] + c);
    assert(before_text(rn, sr) == left);
    assert(left[0] == t[0]);
    assert(left.last() == c.last());
    crate::text::lemma_trim_whole(left);
    assert(left.subrange(5, 6) =~= ch(' '));
    assert forall|j: int| 0 <= j < 5 implies !crate::text::matches_at(left, j, ch(' ')) by {
        if crate::text::matches_at(left, j, ch(' ')) {
            assert(left.subrange(j, j + 1)[0] == left[j]);
            assert(left[j] == t[j]);
        }
    }
    crate::text::lemma_find_from_first(left, 0, ch(' '), 5);
    assert(left.subrange(0, 5) =~= t);
    assert(left.subrange(6, left.len() as int) =~= c);
    crate::text::lemma_trim_whole(t);
    crate::text::lemma_trim_whole(c);
    lemma_ascii_byte_len(t, 5);
    lemma_ascii_byte_len(t, 2);
    lemma_ascii_byte_len(t, 3);
    assert(t.take(5) =~= t);
    crate::text::lemma_char_index_of(t, 2, 2);
    crate::text::lemma_char_index_of(t, 3, 3);
    assert(t.subrange(2, 3) =~= seq![':']);
}

/// The byte length of a text.
fn byte_len_of(s: &[char]) -> (res: Option<usize>)
    ensures
        match res {
            Some(n) => n == byte_len(s@),
            None => byte_len(s@) > 64,
        },
{
    if crate::text::byte_len_at_most(s, 64) {
        assert(s@.subrange(0, s@.len() as int) =~= s@);
        Some(crate::text::byte_len_range(s, 0, s.len()))
    } else {
        None
    }
}

/// The course of a race from its name `HH:MM Course Racecard`, or the fallback.
pub fn derive_course_from_race_name(fallback_course: &str, race_name: &str) -> (res: String)
    ensures
        res@ == course_from_race_name(fallback_course@, race_name@),
{
    let fc = chars_of(fallback_course);
    let fb = trimmed_chars(&fc, 0, fc.len());
    assert(fc@.subrange(0, fc@.len() as int) =~= fc@);
    assert(fb@.subrange(0, fb@.len() as int) =~= fb@);
    let rc = chars_of(race_name);
    let rn = trimmed_chars(&rc, 0, rc.len());
    assert(rc@.subrange(0, rc@.len() as int) =~= rc@);
    if rn.len() == 0 {
        return string_of(&fb, 0, fb.len());
    }
    let sep = chars_of(" Racecard");
    let cut = match crate::text::find_chars(&rn, 0, &sep) {
        Some(i) => i,
        None => rn.len(),
    };
    let left = trimmed_chars(&rn, 0, cut);
    assert(rn@.subrange(0, rn@.len() as int) =~= rn@);
    let sp: [char; 1] = [' '];
    assert(sp@ =~= ch(' '));
    match crate::text::find_chars(&left, 0, &sp) {
        Some(p) => {
            let first = trimmed_chars(&left, 0, p);
            let rest = trimmed_chars(&left, p + 1, left.len());
            let five = match byte_len_of(&first) {
                Some(n) => n == 5,
                None => false,
            };
            if five && rest.len() > 0 {
                let colon: Vec<char> = vec![':'];
                let ok = match byte_slice_exec(&first, 2, 3) {
                    Some(x) => crate::text::chars_eq(&x, &colon),
                    None => false,
                };
                assert(colon@ =~= seq![':']);
                if ok {
                    assert(rest@.subrange(0, rest@.len() as int) =~= rest@);
                    return string_of(&rest, 0, rest.len());
                }
            }
            string_of(&fb, 0, fb.len())
        },
        None => string_of(&fb, 0, fb.len()),
    }
}

// ---------------------------------------------------------------------------
// Times of day
// ---------------------------------------------------------------------------

/// The minutes since midnight of a date-time text: the two bytes after the first
/// `T` are the hours and bytes three and four after them the minutes; `i32::MAX`
/// when they are not a valid time.
pub open spec fn minutes_of_time(s: Seq<char>) -> int {
    let t = trim(s);
    match find(t, ch('T')) {
        None => i32::MAX as int,
        Some(idx) => {
            let rest = t.subrange(idx + 1, t.len() as int);
            let hh = match byte_slice(rest, 0, 2) {
                Some(x) => parsed_i32(x),
                None => None,
            };
            let mm = match byte_slice(rest, 3, 5) {
                Some(x) => parsed_i32(x),
                None => None,
            };
            match (hh, mm) {
                (Some(h), Some(m)) => if 0 <= h < 24 && 0 <= m < 60 {
                    h * 60 + m
                } else {
                    i32::MAX as int
                },
                _ => i32::MAX as int,
            }
        },
    }
}

/// A time of day read from a date-time text lies within the day: fewer than
/// `24 * 60` minutes after midnight, unless there is none (`i32::MAX`).
pub proof fn lemma_minutes_within_day(s: Seq<char>)
    ensures
        minutes_of_time(s) == i32::MAX || 0 <= minutes_of_time(s) < 24 * 60,
{
}

/// `str::get(a..b)` then `parse::<i32>`.
fn parse_i32_at(s: &[char], a: usize, b: usize) -> (res: Option<i32>)
    ensures
        match res {
            Some(v) => byte_slice(s@, a as int, b as int) matches Some(x) && parsed_i32(x) == Some(
                v as int,
            ),
            None => match byte_slice(s@, a as int, b as int) {
                Some(x) => parsed_i32(x) is None,
                None => true,
            },
        },
{
    match byte_slice_exec(s, a, b) {
        Some(x) => parse_i32_text(&x),
        None => None,
    }
}

/// The minutes since midnight of a date-time text such as `2024-05-01T14:30:00`, or
/// `i32::MAX`.
pub fn time_minutes_since_midnight(s: &str) -> (res: i32)
    ensures
        res as int == minutes_of_time(s@),
        res == i32::MAX || 0 <= res < 24 * 60,
{
    let c = chars_of(s);
    let t = trimmed_chars(&c, 0, c.len());
    assert(c@.subrange(0, c@.len() as int) =~= c@);
    let tt: [char; 1] = ['T'];
    assert(tt@ =~= ch('T'));
    let idx = match crate::text::find_chars(&t, 0, &tt) {
        Some(i) => i,
        None => {
            return i32::MAX;
        },
    };
    let rest = slice_chars(&t, idx + 1, t.len());
    let hh = parse_i32_at(&rest, 0, 2);
    let mm = parse_i32_at(&rest, 3, 5);
    match (hh, mm) {
        (Some(h), Some(m)) => if 0 <= h && h < 24 && 0 <= m && m < 60 {
            h * 60 + m
        } else {
            i32::MAX
        },
        _ => i32::MAX,
    }
}

/// The minutes since midnight of the first `H:MM` in a title, scanning from
/// character `k`, while five bytes remain: a run of digits, a `:`, then the two
/// bytes after it. A run that
/// is not a number, or missing minute bytes, ends the scan with none.
pub open spec fn title_minutes_from(t: Seq<char>, k: int) -> Option<int>
    decreases t.len() - k,
{
    if k < 0 || k >= t.len() || byte_len(t.take(k)) + 5 > byte_len(t) {
        None
    } else if !is_digit(t[k]) {
        title_minutes_from(t, k + 1)
    } else {
        let j = digits_end(t, k);
        if j >= t.len() || t[j] != ':' {
            title_minutes_from(t, k + 1)
        } else {
            match parsed_i32(t.subrange(k, j)) {
                None => None,
                Some(hh) => {
                    match byte_slice(t.subrange(j + 1, t.len() as int), 0, 2) {
                        None => None,
                        Some(ms) => match parsed_i32(ms) {
                            None => None,
                            Some(mm) => if 0 <= hh < 24 && 0 <= mm < 60 {
                                Some(hh * 60 + mm)
                            } else {
                                title_minutes_from(t, k + 1)
                            },
                        },
                    }
                },
            }
        }
    }
}


/// A time of day read from a title lies within the day: fewer than `24 * 60`
/// minutes after midnight.
pub proof fn lemma_title_minutes_within_day(t: Seq<char>, k: int)
    ensures
        title_minutes_from(t, k) matches Some(v) ==> 0 <= v < 24 * 60,
    decreases t.len() - k,
{
    if 0 <= k < t.len() && byte_len(t.take(k)) + 5 <= byte_len(t) {
        lemma_title_minutes_within_day(t, k + 1);
    }
}

/// The minutes since midnight of the first `H:MM` in a trimmed title.
pub fn parse_time_minutes_from_title(title: &str) -> (res: Option<i32>)
    ensures
        match res {
            Some(v) => title_minutes_from(trim(title@), 0) == Some(v as int),
            None => title_minutes_from(trim(title@), 0) is None,
        },
        res matches Some(v) ==> 0 <= v < 24 * 60,
{
    let c = chars_of(title);
    let t = trimmed_chars(&c, 0, c.len());
    assert(c@.subrange(0, c@.len() as int) =~= c@);
    proof {
        lemma_title_minutes_within_day(trim(title@), 0);
    }
    let mut k: usize = 0;
    loop
        invariant
            k <= t@.len(),
            t@ == trim(title@),
            title_minutes_from(t@, 0) == title_minutes_from(t@, k as int),
        decreases t@.len() - k,
    {
        if k >= t.len() {
            return None;
        }
        let e = crate::text::forward_by_bytes(&t, k, 4);
        proof {
            crate::text::lemma_byte_len_split(t@, 0, k as int, t@.len() as int);
            assert(t@.take(k as int) =~= t@.subrange(0, k as int));
            assert(t@.subrange(0, t@.len() as int) =~= t@);
            if e < t@.len() {
                crate::text::lemma_byte_len_split(t@, k as int, e + 1, t@.len() as int);
            }
        }
        if e == t.len() {
            return None;
        }
        if !is_digit_exec(t[k]) {
            k = k + 1;
            continue;
        }
        let j = digits_end_exec(&t, k);
        if j >= t.len() || t[j] != ':' {
            k = k + 1;
            continue;
        }
        let hs = slice_chars(&t, k, j);
        let hh = match parse_i32_text(&hs) {
            None => {
                return None;
            },
            Some(h) => h,
        };
        let tail = slice_chars(&t, j + 1, t.len());
        let ms = match byte_slice_exec(&tail, 0, 2) {
            None => {
                return None;
            },
            Some(x) => x,
        };
        let mm = match parse_i32_text(&ms) {
            None => {
                return None;
            },
            Some(m) => m,
        };
        if 0 <= hh && hh < 24 && 0 <= mm && mm < 60 {
            return Some(hh * 60 + mm);
        }
        k = k + 1;
    }
}

// ---------------------------------------------------------------------------
// Leading numbers
// ---------------------------------------------------------------------------

/// The number the trimmed text begins with: its leading ASCII digits, when there
/// are some and they fit an `i64`.
pub open spec fn leading_number(s: Seq<char>) -> Option<int> {
    let t = trim(s);
    let d = t.subrange(0, digits_end(t, 0));
    if d.len() == 0 {
        None
    } else {
        parsed_i64(d)
    }
}

/// The end of a run of digits lies within the text.
proof fn lemma_digits_end_bounds(s: Seq<char>, i: int)
    requires
        0 <= i <= s.len(),
    ensures
        i <= digits_end(s, i) <= s.len(),
    decreases s.len() - i,
{
    if i < s.len() && is_digit(s[i]) {
        lemma_digits_end_bounds(s, i + 1);
    }
}

/// The number a text begins with, after trimming.
pub fn parse_i64(s: &str) -> (res: Option<i64>)
    ensures
        match res {
            Some(v) => leading_number(s@) == Some(v as int),
            None => leading_number(s@) is None,
        },
{
    let c = chars_of(s);
    let t = trimmed_chars(&c, 0, c.len());
    assert(c@.subrange(0, c@.len() as int) =~= c@);
    proof {
        lemma_digits_end_bounds(t@, 0);
    }
    let j = digits_end_exec(&t, 0);
    if j == 0 {
        return None;
    }
    let d = slice_chars(&t, 0, j);
    parse_i64_text(&d)
}

// ---------------------------------------------------------------------------
// HTML escaping
// ---------------------------------------------------------------------------

/// The HTML text of one character.
pub open spec fn html_char(c: char) -> Seq<char> {
    if c == '&' {
        "&amp;"@
    } else if c == '<' {
        "&lt;"@
    } else if c == '>' {
        "&gt;"@
    } else if c == '"' {
        "&quot;"@
    } else if c == '\'' {
        "&#39;"@
    } else {
        seq![c]
    }
}

/// A text with `&`, `<`, `>`, `"` and `'` written as HTML entities.
pub open spec fn html_escaped(s: Seq<char>) -> Seq<char>
    decreases s.len(),
{
    if s.len() == 0 {
        Seq::empty()
    } else {
        html_escaped(s.drop_last()) + html_char(s.last())
    }
}

/// The text an HTML reader gets from `q`: the entities `&amp;`, `&lt;`, `&gt;`,
/// `&quot;` and `&#39;` read as `&`, `<`, `>`, `"` and `'`, every other character
/// as itself.
pub open spec fn html_unescaped(q: Seq<char>) -> Seq<char>
    decreases q.len(),
{
    if q.len() == 0 {
        Seq::empty()
    } else if crate::text::starts_with(q, seq!['&', 'a', 'm', 'p', ';']) {
        seq!['&'] + html_unescaped(q.subrange(5, q.len() as int))
    } else if crate::text::starts_with(q, seq!['&', 'l', 't', ';']) {
        seq!['<'] + html_unescaped(q.subrange(4, q.len() as int))
    } else if crate::text::starts_with(q, seq!['&', 'g', 't', ';']) {
        seq!['>'] + html_unescaped(q.subrange(4, q.len() as int))
    } else if crate::text::starts_with(q, seq!['&', 'q', 'u', 'o', 't', ';']) {
        seq!['"'] + html_unescaped(q.subrange(6, q.len() as int))
    } else if crate::text::starts_with(q, seq!['&', '#', '3', '9', ';']) {
        seq!['\''] + html_unescaped(q.subrange(5, q.len() as int))
    } else {
        seq![q[0]] + html_unescaped(q.drop_first())
    }
}

/// A character that has a meaning in HTML markup.
pub open spec fn is_markup_char(c: char) -> bool {
    c == '<' || c == '>' || c == '"' || c == '\''
}

/// Reading one escaped character gives it back and goes on after it.
proof fn lemma_unescape_one(c: char, t: Seq<char>)
    ensures
        html_unescaped(html_char(c) + t) == seq![c] + html_unescaped(t),
        forall|j: int| 0 <= j < html_char(c).len() ==> !is_markup_char(#[trigger] html_char(c)[j]),
{
    reveal_strlit("&amp;");
    reveal_strlit("&lt;");
    reveal_strlit("&gt;");
    reveal_strlit("&quot;");
    reveal_strlit("&#39;");
    let q = html_char(c) + t;
    let n = html_char(c).len() as int;
    assert(q.subrange(n, q.len() as int) =~= t);
    if c == '&' {
        assert(q.subrange(0, 5) =~= seq!['&', 'a', 'm', 'p', ';']);
    } else if c == '<' {
        assert(q.len() >= 5 ==> q.subrange(0, 5)[1] == q[1]);
        assert(q.subrange(0, 4) =~= seq!['&', 'l', 't', ';']);
    } else if c == '>' {
        assert(q.len() >= 5 ==> q.subrange(0, 5)[1] == q[1]);
        assert(q.subrange(0, 4)[1] == q[1]);
        assert(q.subrange(0, 4) =~= seq!['&', 'g', 't', ';']);
    } else if c == '"' {
        assert(q.subrange(0, 5)[1] == q[1]);
        assert(q.subrange(0, 4)[1] == q[1]);
        assert(q.subrange(0, 6) =~= seq!['&', 'q', 'u', 'o', 't', ';']);
    } else if c == '\'' {
        assert(q.subrange(0, 5)[1] == q[1]);
        assert(q.subrange(0, 4)[1] == q[1]);
        assert(q.len() >= 6 ==> q.subrange(0, 6)[1] == q[1]);
        assert(q.subrange(0, 5) =~= seq!['&', '#', '3', '9', ';']);
    } else {
        assert(q[0] == c);
        assert(q.len() >= 4 ==> q.subrange(0, 4)[0] == q[0]);
        assert(q.len() >= 5 ==> q.subrange(0, 5)[0] == q[0]);
        assert(q.len() >= 6 ==> q.subrange(0, 6)[0] == q[0]);
        assert(q.drop_first() =~= t);
    }
}

/// Reading an escaped text gives it back and goes on after it.
proof fn lemma_unescape_escaped(s: Seq<char>, t: Seq<char>)
    ensures
        html_unescaped(html_escaped(s) + t) == s + html_unescaped(t),
        forall|j: int| 0 <= j < html_escaped(s).len() ==> !is_markup_char(#[trigger] html_escaped(s)[j]),
    decreases s.len(),
{
    if s.len() == 0 {
        assert(html_escaped(s) + t =~= t);
        assert(s + html_unescaped(t) =~= html_unescaped(t));
    } else {
        let s0 = s.drop_last();
        let c = s.last();
        lemma_unescape_one(c, t);
        lemma_unescape_escaped(s0, html_char(c) + t);
        assert(html_escaped(s) + t =~= html_escaped(s0) + (html_char(c) + t));
        assert(s0 + (seq![c] + html_unescaped(t)) =~= s + html_unescaped(t));
        let e0 = html_escaped(s0);
        assert forall|j: int| 0 <= j < html_escaped(s).len() implies !is_markup_char(
            #[trigger] html_escaped(s)[j],
        ) by {
            if j < e0.len() {
                assert(html_escaped(s)[j] == e0[j]);
            } else {
                assert(html_escaped(s)[j] == html_char(c)[j - e0.len()]);
            }
        }
    }
}

/// An escaped text holds none of `<`, `>`, `"` and `'`, and an HTML reader reads
/// it back as exactly the text that was escaped.
pub proof fn lemma_html_escaped_reads_back(s: Seq<char>)
    ensures
        html_unescaped(html_escaped(s)) == s,
        forall|j: int| 0 <= j < html_escaped(s).len() ==> !is_markup_char(#[trigger] html_escaped(s)[j]),
{
    lemma_unescape_escaped(s, Seq::empty());
    assert(html_escaped(s) + Seq::<char>::empty() =~= html_escaped(s));
    assert(s + Seq::<char>::empty() =~= s);
}

/// A text made safe to stand in HTML.
pub fn html_escape(s: &str) -> (res: String)
    ensures
        res@ == html_escaped(s@),
        html_unescaped(res@) == s@,
        forall|j: int| 0 <= j < res@.len() ==> !is_markup_char(#[trigger] res@[j]),
{
    let c = chars_of(s);
    let mut out = String::new();
    let mut i: usize = 0;
    assert(c@.take(0) =~= Seq::<char>::empty());
    while i < c.len()
        invariant
            i <= c@.len(),
            c@ == s@,
            out@ == html_escaped(c@.take(i as int)),
        decreases c@.len() - i,
    {
        assert(c@.take(i + 1).drop_last() =~= c@.take(i as int));
        assert(c@.take(i + 1).last() == c@[i as int]);
        let x = c[i];
        if x == '&' {
            push_str(&mut out, "&amp;");
        } else if x == '<' {
            push_str(&mut out, "&lt;");
        } else if x == '>' {
            push_str(&mut out, "&gt;");
        } else if x == '"' {
            push_str(&mut out, "&quot;");
        } else if x == '\'' {
            push_str(&mut out, "&#39;");
        } else {
            push_char(&mut out, x);
        }
        assert(out@ =~= html_escaped(c@.take(i + 1)));
        i = i + 1;
    }
    assert(c@.take(c@.len() as int) =~= c@);
    proof {
        lemma_html_escaped_reads_back(s@);
    }
    out
}

} // verus!
