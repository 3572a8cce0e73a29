//! Character-level text primitives: searching, trimming and building strings.
//!
//! Text is modelled as `Seq<char>` (the view of `str` and `String`). Positions are
//! character positions; where byte lengths matter, `byte_len` gives the UTF-8 length.
use vstd::prelude::*;

verus! {

// ---------------------------------------------------------------------------
// Specifications
// ---------------------------------------------------------------------------

/// `p` occurs in `s` starting at position `i`.
pub open spec fn matches_at(s: Seq<char>, i: int, p: Seq<char>) -> bool {
    0 <= i && i + p.len() <= s.len() && s.subrange(i, i + p.len()) == p
}

/// The first position at or after `from` where `p` occurs in `s`.
pub open spec fn find_from(s: Seq<char>, from: int, p: Seq<char>) -> Option<int>
    decreases s.len() + 1 - from,
{
    if from < 0 || from + p.len() > s.len() {
        None
    } else if matches_at(s, from, p) {
        Some(from)
    } else {
        find_from(s, from + 1, p)
    }
}

/// The first position where `p` occurs in `s`.
pub open spec fn find(s: Seq<char>, p: Seq<char>) -> Option<int> {
    find_from(s, 0, p)
}

/// `s` contains `p` somewhere.
pub open spec fn contains(s: Seq<char>, p: Seq<char>) -> bool {
    find(s, p) is Some
}

/// The last position at or before `i` where `p` occurs in `s`.
pub open spec fn rfind_at_or_before(s: Seq<char>, i: int, p: Seq<char>) -> Option<int>
    decreases i + 1,
{
    if i < 0 {
        None
    } else if matches_at(s, i, p) {
        Some(i)
    } else {
        rfind_at_or_before(s, i - 1, p)
    }
}

/// The last position where `p` occurs in `s`.
pub open spec fn rfind(s: Seq<char>, p: Seq<char>) -> Option<int> {
    rfind_at_or_before(s, s.len() - p.len(), p)
}

/// `s` begins with `p`.
pub open spec fn starts_with(s: Seq<char>, p: Seq<char>) -> bool {
    matches_at(s, 0, p)
}

/// `s` ends with `p`.
pub open spec fn ends_with(s: Seq<char>, p: Seq<char>) -> bool {
    p.len() <= s.len() && s.subrange(s.len() - p.len(), s.len() as int) == p
}

/// A single character as a one-character text.
pub open spec fn ch(c: char) -> Seq<char> {
    seq![c]
}

/// Unicode `White_Space`, the property that `char::is_whitespace` tests.
pub open spec fn is_ws(c: char) -> bool {
    let u = c as u32;
    ||| 0x09 <= u <= 0x0D
    ||| u == 0x20
    ||| u == 0x85
    ||| u == 0xA0
    ||| u == 0x1680
    ||| 0x2000 <= u <= 0x200A
    ||| u == 0x2028
    ||| u == 0x2029
    ||| u == 0x202F
    ||| u == 0x205F
    ||| u == 0x3000
}

/// `s` without its leading whitespace.
pub open spec fn trim_start(s: Seq<char>) -> Seq<char>
    decreases s.len(),
{
    if s.len() > 0 && is_ws(s[0]) {
        trim_start(s.drop_first())
    } else {
        s
    }
}

/// `s` without its trailing whitespace.
pub open spec fn trim_end(s: Seq<char>) -> Seq<char>
    decreases s.len(),
{
    if s.len() > 0 && is_ws(s.last()) {
        trim_end(s.drop_last())
    } else {
        s
    }
}

/// `s` without leading and trailing whitespace.
pub open spec fn trim(s: Seq<char>) -> Seq<char> {
    trim_end(trim_start(s))
}

/// An ASCII decimal digit.
pub open spec fn is_digit(c: char) -> bool {
    '0' <= c && c <= '9'
}

/// An ASCII letter or digit.
pub open spec fn is_alnum(c: char) -> bool {
    ||| is_digit(c)
    ||| ('a' <= c && c <= 'z')
    ||| ('A' <= c && c <= 'Z')
}

/// ASCII lower-casing of one character (others are kept).
pub open spec fn lower(c: char) -> char {
    if 'A' <= c && c <= 'Z' {
        ((c as u32) + 32) as char
    } else {
        c
    }
}

/// Every character of `s` is an ASCII digit.
pub open spec fn all_digits(s: Seq<char>) -> bool {
    forall|i: int| 0 <= i < s.len() ==> is_digit(#[trigger] s[i])
}

/// The number of bytes of `c` in UTF-8.
pub open spec fn utf8_len(c: char) -> nat {
    let u = c as u32;
    if u < 0x80 {
        1
    } else if u < 0x800 {
        2
    } else if u < 0x10000 {
        3
    } else {
        4
    }
}

/// The number of bytes of `s` in UTF-8 (what `str::len` returns).
pub open spec fn byte_len(s: Seq<char>) -> nat
    decreases s.len(),
{
    if s.len() == 0 {
        0
    } else {
        byte_len(s.drop_last()) + utf8_len(s.last())
    }
}

/// The decimal value of a text of ASCII digits.
pub open spec fn digits_value(s: Seq<char>) -> nat
    decreases s.len(),
{
    if s.len() == 0 {
        0
    } else {
        digits_value(s.drop_last()) * 10 + ((s.last() as u32) - 48) as nat
    }
}

/// The parts joined with `sep` between neighbours.
pub open spec fn join(parts: Seq<Seq<char>>, sep: Seq<char>) -> Seq<char>
    decreases parts.len(),
{
    if parts.len() == 0 {
        Seq::empty()
    } else if parts.len() == 1 {
        parts[0]
    } else {
        join(parts.drop_last(), sep) + sep + parts.last()
    }
}

/// The pieces of `s` between occurrences of the character `c` (`str::split` with a
/// character): one more piece than there are occurrences.
pub open spec fn split_char(s: Seq<char>, c: char) -> Seq<Seq<char>>
    decreases s.len(),
{
    if s.len() == 0 {
        seq![Seq::empty()]
    } else {
        let p = split_char(s.drop_last(), c);
        if s.last() == c {
            p.push(Seq::empty())
        } else {
            p.update(p.len() - 1, p.last().push(s.last()))
        }
    }
}

/// `s` without the trailing characters equal to `c` (`trim_end_matches`).
pub open spec fn trim_end_char(s: Seq<char>, c: char) -> Seq<char>
    decreases s.len(),
{
    if s.len() > 0 && s.last() == c {
        trim_end_char(s.drop_last(), c)
    } else {
        s
    }
}

/// `s` from `i` on with every non-overlapping occurrence of `from`, scanning left
/// to right, replaced by `to` (`str::replace`).
pub open spec fn replace_from(s: Seq<char>, i: int, from: Seq<char>, to: Seq<char>) -> Seq<char>
    decreases s.len() + 1 - i,
{
    if i < 0 || i > s.len() || from.len() == 0 {
        s.subrange(i, s.len() as int)
    } else {
        match find_from(s, i, from) {
            None => s.subrange(i, s.len() as int),
            Some(k) => {
                proof {
                    lemma_find_from(s, i, from);
                }
                s.subrange(i, k) + to + replace_from(s, k + from.len(), from, to)
            },
        }
    }
}

/// `s` with every occurrence of `from` replaced by `to`.
pub open spec fn replace_all(s: Seq<char>, from: Seq<char>, to: Seq<char>) -> Seq<char> {
    replace_from(s, 0, from, to)
}

/// The decimal digit character for `d < 10`.
pub open spec fn digit_char(d: nat) -> char {
    (d + 48) as char
}

/// The decimal text of `n`, without leading zeros.
pub open spec fn decimal(n: nat) -> Seq<char>
    decreases n,
{
    if n < 10 {
        seq![digit_char(n)]
    } else {
        decimal(n / 10).push(digit_char(n % 10))
    }
}

// ---------------------------------------------------------------------------
// Lemmas
// ---------------------------------------------------------------------------

/// What `find_from` returns: the first match at or after `from`, or none at all.
pub proof fn lemma_find_from(s: Seq<char>, from: int, p: Seq<char>)
    requires
        0 <= from,
    ensures
        find_from(s, from, p) matches Some(i) ==> {
            &&& from <= i
            &&& matches_at(s, i, p)
            &&& forall|j: int| from <= j < i ==> !matches_at(s, j, p)
        },
        find_from(s, from, p) is None ==> forall|j: int| from <= j ==> !matches_at(s, j, p),
    decreases s.len() + 1 - from,
{
    if from + p.len() > s.len() {
    } else if matches_at(s, from, p) {
    } else {
        lemma_find_from(s, from + 1, p);
    }
}

/// A match at `i` with none before it at or after `from` is what `find_from` returns.
pub proof fn lemma_find_from_first(s: Seq<char>, from: int, p: Seq<char>, i: int)
    requires
        0 <= from <= i,
        matches_at(s, i, p),
        forall|j: int| from <= j < i ==> !matches_at(s, j, p),
    ensures
        find_from(s, from, p) == Some(i),
    decreases i - from,
{
    if from < i {
        lemma_find_from_first(s, from + 1, p, i);
    }
}

/// What `rfind_at_or_before` returns.
pub proof fn lemma_rfind(s: Seq<char>, i: int, p: Seq<char>)
    ensures
        rfind_at_or_before(s, i, p) matches Some(k) ==> {
            &&& 0 <= k <= i
            &&& matches_at(s, k, p)
            &&& forall|j: int| k < j <= i ==> !matches_at(s, j, p)
        },
        rfind_at_or_before(s, i, p) is None ==> forall|j: int| j <= i ==> !matches_at(s, j, p),
    decreases i + 1,
{
    if i >= 0 && !matches_at(s, i, p) {
        lemma_rfind(s, i - 1, p);
    }
}

/// `trim_start` drops a prefix of whitespace and keeps the rest.
pub proof fn lemma_trim_start(s: Seq<char>)
    ensures
        exists|k: int|
            0 <= k <= s.len() && trim_start(s) == s.subrange(k, s.len() as int) && (forall|j: int|
                0 <= j < k ==> is_ws(#[trigger] s[j])) && (k < s.len() ==> !is_ws(s[k])),
    decreases s.len(),
{
    if s.len() > 0 && is_ws(s[0]) {
        lemma_trim_start(s.drop_first());
        let k = choose|k: int|
            0 <= k <= s.drop_first().len() && trim_start(s.drop_first()) == s.drop_first().subrange(
                k,
                s.drop_first().len() as int,
            ) && (forall|j: int| 0 <= j < k ==> is_ws(#[trigger] s.drop_first()[j])) && (k
                < s.drop_first().len() ==> !is_ws(s.drop_first()[k]));
        assert(s.drop_first().subrange(k, s.drop_first().len() as int) =~= s.subrange(
            k + 1,
            s.len() as int,
        ));
        assert forall|j: int| 0 <= j < k + 1 implies is_ws(#[trigger] s[j]) by {
            if j > 0 {
                assert(s[j] == s.drop_first()[j - 1]);
            }
        }
        assert(k + 1 < s.len() ==> s[k + 1] == s.drop_first()[k]);
    } else {
        assert(s.subrange(0, s.len() as int) =~= s);
    }
}

/// Trimming the end keeps a prefix that is empty or ends with a non-whitespace
/// character.
pub proof fn lemma_trim_end(s: Seq<char>)
    ensures
        exists|k: int|
            0 <= k <= s.len() && trim_end(s) == s.take(k) && (k > 0 ==> !is_ws(s[k - 1])),
    decreases s.len(),
{
    if s.len() > 0 && is_ws(s.last()) {
        lemma_trim_end(s.drop_last());
        let k = choose|k: int|
            0 <= k <= s.drop_last().len() && trim_end(s.drop_last()) == s.drop_last().take(k) && (k
                > 0 ==> !is_ws(s.drop_last()[k - 1]));
        assert(s.drop_last().take(k) =~= s.take(k));
        assert(k > 0 ==> s[k - 1] == s.drop_last()[k - 1]);
    } else {
        assert(s.take(s.len() as int) =~= s);
    }
}

/// Trimming a text that neither starts nor ends with whitespace keeps it whole.
pub proof fn lemma_trim_whole(s: Seq<char>)
    requires
        s.len() > 0 ==> !is_ws(s[0]) && !is_ws(s.last()),
    ensures
        trim(s) == s,
{
}

/// Byte position `b` of `s` falls between two characters.
pub open spec fn is_char_boundary_at(s: Seq<char>, b: int) -> bool {
    exists|k: int| 0 <= k <= s.len() && byte_len(s.take(k)) == b
}

/// The character position at byte position `b`.
pub open spec fn char_index_of(s: Seq<char>, b: int) -> int {
    choose|k: int| 0 <= k <= s.len() && byte_len(s.take(k)) == b
}

/// Byte length adds up over a split.
pub proof fn lemma_byte_len_split(s: Seq<char>, a: int, m: int, b: int)
    requires
        0 <= a <= m <= b <= s.len(),
    ensures
        byte_len(s.subrange(a, b)) == byte_len(s.subrange(a, m)) + byte_len(s.subrange(m, b)),
    decreases b - m,
{
    if m < b {
        lemma_byte_len_split(s, a, m, b - 1);
        assert(s.subrange(a, b).drop_last() =~= s.subrange(a, b - 1));
        assert(s.subrange(m, b).drop_last() =~= s.subrange(m, b - 1));
    } else {
        assert(s.subrange(m, b) =~= Seq::<char>::empty());
    }
}

/// A one-character text has the byte length of that character.
pub proof fn lemma_byte_len_one(s: Seq<char>, i: int)
    requires
        0 <= i < s.len(),
    ensures
        byte_len(s.subrange(i, i + 1)) == utf8_len(s[i]),
{
    let t = s.subrange(i, i + 1);
    assert(t.drop_last() =~= Seq::<char>::empty());
    assert(t.last() == s[i]);
    assert(byte_len(t.drop_last()) == 0);
}

/// Byte positions of character positions grow strictly.
pub proof fn lemma_byte_len_strict(s: Seq<char>, j: int, k: int)
    requires
        0 <= j < k <= s.len(),
    ensures
        byte_len(s.take(j)) < byte_len(s.take(k)),
{
    lemma_byte_len_split(s, 0, j, k);
    lemma_byte_len_split(s, j, j + 1, k);
    lemma_byte_len_one(s, j);
    assert(s.take(j) =~= s.subrange(0, j));
    assert(s.take(k) =~= s.subrange(0, k));
}

/// The character position of a byte boundary is unique.
pub proof fn lemma_char_index_of(s: Seq<char>, b: int, k: int)
    requires
        0 <= k <= s.len(),
        byte_len(s.take(k)) == b,
    ensures
        is_char_boundary_at(s, b),
        char_index_of(s, b) == k,
{
    let k2 = char_index_of(s, b);
    if k2 < k {
        lemma_byte_len_strict(s, k2, k);
    } else if k < k2 {
        lemma_byte_len_strict(s, k, k2);
    }
}

/// `a` comes before `b` in lexicographic order of code points, which is the order of
/// `String` (byte-wise UTF-8 order ranks text as code point order does).
pub open spec fn lex_lt(a: Seq<char>, b: Seq<char>) -> bool {
    exists|k: int| #[trigger] lex_split(a, b, k)
}

/// `a` and `b` agree before position `k`, and at `k` either `a` ends while `b` goes
/// on, or `a` has the smaller character.
pub open spec fn lex_split(a: Seq<char>, b: Seq<char>, k: int) -> bool {
    &&& 0 <= k <= a.len()
    &&& k <= b.len()
    &&& a.take(k) == b.take(k)
    &&& ((k == a.len() && k < b.len()) || (k < a.len() && k < b.len() && a[k] < b[k]))
}

/// The first position at or after `k` where `a` and `b` differ (or the shorter length).
pub proof fn lemma_common_prefix_from(a: Seq<char>, b: Seq<char>, k: int) -> (r: int)
    requires
        0 <= k <= a.len(),
        k <= b.len(),
        a.take(k) == b.take(k),
    ensures
        k <= r <= a.len(),
        r <= b.len(),
        a.take(r) == b.take(r),
        r == a.len() || r == b.len() || a[r] != b[r],
    decreases a.len() - k,
{
    if k < a.len() && k < b.len() && a[k] == b[k] {
        assert(a.take(k + 1) =~= a.take(k).push(a[k]));
        assert(b.take(k + 1) =~= b.take(k).push(b[k]));
        lemma_common_prefix_from(a, b, k + 1)
    } else {
        k
    }
}

/// The first position where `a` and `b` differ (or the shorter length).
pub proof fn lemma_common_prefix(a: Seq<char>, b: Seq<char>) -> (k: int)
    ensures
        0 <= k <= a.len(),
        k <= b.len(),
        a.take(k) == b.take(k),
        k < a.len() && k < b.len() ==> a[k] != b[k],
        k == a.len() || k == b.len() || a[k] != b[k],
{
    assert(a.take(0) =~= b.take(0));
    lemma_common_prefix_from(a, b, 0)
}

/// Two texts agreeing up to a split point are the same split.
proof fn lemma_lex_split_unique(a: Seq<char>, b: Seq<char>, k: int, j: int)
    requires
        0 <= j <= a.len(),
        j <= b.len(),
        a.take(j) == b.take(j),
        j < a.len() && j < b.len() ==> a[j] != b[j],
        0 <= k <= a.len(),
        k <= b.len(),
        a.take(k) == b.take(k),
        k < a.len() && k < b.len() ==> a[k] != b[k],
    ensures
        j == k,
{
    if j < k {
        assert(a.take(k)[j] == a[j]);
        assert(b.take(k)[j] == b[j]);
    } else if k < j {
        assert(a.take(j)[k] == a[k]);
        assert(b.take(j)[k] == b[k]);
    }
}

/// Lexicographic order is a strict total order.
pub proof fn lemma_lex_total(a: Seq<char>, b: Seq<char>)
    ensures
        !lex_lt(a, a),
        lex_lt(a, b) ==> !lex_lt(b, a),
        a != b ==> lex_lt(a, b) || lex_lt(b, a),
        lex_lt(a, b) ==> a != b,
{
    let k = lemma_common_prefix(a, b);
    if lex_lt(a, b) {
        let k1 = choose|k1: int| #[trigger] lex_split(a, b, k1);
        if k1 < a.len() && k1 < b.len() {
            lemma_lex_split_unique(a, b, k, k1);
        } else {
            lemma_lex_split_unique(a, b, k, k1);
        }
    }
    if lex_lt(b, a) {
        let k2 = choose|k2: int| #[trigger] lex_split(b, a, k2);
        lemma_lex_split_unique(a, b, k, k2);
    }
    if a != b {
        if k == a.len() && k == b.len() {
            assert(a =~= a.take(k));
            assert(b =~= b.take(k));
        } else if k == a.len() {
            assert(lex_split(a, b, k));
        } else if k == b.len() {
            assert(lex_split(b, a, k));
        } else if a[k] < b[k] {
            assert(lex_split(a, b, k));
        } else {
            assert(lex_split(b, a, k));
        }
    }
    if lex_lt(a, a) {
        let k1 = choose|k1: int| #[trigger] lex_split(a, a, k1);
    }
}

/// Lexicographic order is transitive.
pub proof fn lemma_lex_trans(a: Seq<char>, b: Seq<char>, c: Seq<char>)
    requires
        lex_lt(a, b),
        lex_lt(b, c),
    ensures
        lex_lt(a, c),
{
    let i = choose|i: int| #[trigger] lex_split(a, b, i);
    let j = choose|j: int| #[trigger] lex_split(b, c, j);
    let m = if i < j { i } else { j };
    assert(a.take(m) =~= b.take(i).take(m));
    assert(c.take(m) =~= b.take(j).take(m));
    assert(a.take(m) =~= c.take(m));
    if i < j {
        assert(b.take(j)[i] == b[i]);
        assert(c.take(j)[i] == c[i]);
        assert(lex_split(a, c, i));
    } else if j < i {
        assert(a.take(i)[j] == a[j]);
        assert(b.take(i)[j] == b[j]);
        assert(lex_split(a, c, j));
    } else {
        assert(lex_split(a, c, i));
    }
}

// ---------------------------------------------------------------------------
// Executable primitives
// ---------------------------------------------------------------------------

/// Appends one character to a string.
#[verifier::external_body]
pub(crate) fn push_char(s: &mut String, c: char)
    ensures
        final(s)@ == old(s)@.push(c),
{
    s.push(c);
}

/// Appends a string slice to a string.
#[verifier::external_body]
pub(crate) fn push_str(s: &mut String, t: &str)
    ensures
        final(s)@ == old(s)@ + t@,
{
    s.push_str(t);
}

/// The characters of a string slice, in order.
pub fn chars_of(s: &str) -> (res: Vec<char>)
    ensures
        res@ == s@,
{
    let mut out: Vec<char> = Vec::new();
    for c in it: s.chars()
        invariant
            out@ == it.seq().take(it.index() as int),
            it.seq() == s@,
    {
        out.push(c);
    }
    out
}

/// A string made of the characters `s[lo..hi]`.
pub fn string_of(s: &[char], lo: usize, hi: usize) -> (res: String)
    requires
        lo <= hi <= s@.len(),
    ensures
        res@ == s@.subrange(lo as int, hi as int),
{
    let mut out = String::new();
    let mut i = lo;
    while i < hi
        invariant
            lo <= i <= hi <= s@.len(),
            out@ == s@.subrange(lo as int, i as int),
        decreases hi - i,
    {
        push_char(&mut out, s[i]);
        assert(s@.subrange(lo as int, i + 1) =~= s@.subrange(lo as int, i as int).push(s@[i as int]));
        i = i + 1;
    }
    out
}

/// A vector of the characters `s[lo..hi]`.
pub fn slice_chars(s: &[char], lo: usize, hi: usize) -> (res: Vec<char>)
    requires
        lo <= hi <= s@.len(),
    ensures
        res@ == s@.subrange(lo as int, hi as int),
{
    let mut out: Vec<char> = Vec::new();
    let mut i = lo;
    while i < hi
        invariant
            lo <= i <= hi <= s@.len(),
            out@ == s@.subrange(lo as int, i as int),
        decreases hi - i,
    {
        out.push(s[i]);
        assert(s@.subrange(lo as int, i + 1) =~= s@.subrange(lo as int, i as int).push(s@[i as int]));
        i = i + 1;
    }
    out
}

/// Whether `p` occurs in `s` at position `i`.
pub fn matches_at_exec(s: &[char], i: usize, p: &[char]) -> (res: bool)
    ensures
        res == matches_at(s@, i as int, p@),
{
    if i > s.len() || p.len() > s.len() - i {
        return false;
    }
    let mut k: usize = 0;
    while k < p.len()
        invariant
            i + p@.len() <= s@.len(),
            p@.len() == p.len(),
            s@.len() == s.len(),
            0 <= k <= p@.len(),
            forall|j: int| 0 <= j < k ==> s@[i + j] == p@[j],
        decreases p@.len() - k,
    {
        if s[i + k] != p[k] {
            assert(s@.subrange(i as int, i + p@.len())[k as int] != p@[k as int]);
            return false;
        }
        k = k + 1;
    }
    assert(s@.subrange(i as int, i + p@.len()) =~= p@);
    true
}

/// The first position at or after `from` where `p` occurs in `s`.
pub fn find_chars(s: &[char], from: usize, p: &[char]) -> (res: Option<usize>)
    ensures
        res matches Some(i) ==> find_from(s@, from as int, p@) == Some(i as int) && from <= i && i
            + p@.len() <= s.len(),
        res is None ==> find_from(s@, from as int, p@) is None,
{
    if from > s.len() || p.len() > s.len() - from {
        return None;
    }
    if p.len() == 0 {
        assert(matches_at(s@, from as int, p@)) by {
            assert(s@.subrange(from as int, from as int) =~= p@);
        }
        return Some(from);
    }
    let mut i = from;
    while p.len() <= s.len() - i
        invariant
            from <= i,
            i <= s@.len(),
            1 <= p@.len() <= s@.len(),
            p@.len() == p.len(),
            s@.len() == s.len(),
            find_from(s@, from as int, p@) == find_from(s@, i as int, p@),
        decreases s@.len() - i,
    {
        if matches_at_exec(s, i, p) {
            return Some(i);
        }
        i = i + 1;
    }
    None
}

/// The last position where `p` occurs within `s[..end]`.
pub fn rfind_chars(s: &[char], end: usize, p: &[char]) -> (res: Option<usize>)
    requires
        end <= s@.len(),
    ensures
        res matches Some(i) ==> rfind(s@.take(end as int), p@) == Some(i as int) && i + p@.len()
            <= end,
        res is None ==> rfind(s@.take(end as int), p@) is None,
{
    let ghost t = s@.take(end as int);
    assert(t.len() == end);
    if p.len() > end {
        assert(rfind_at_or_before(t, t.len() - p@.len(), p@) is None);
        return None;
    }
    let mut i: usize = end - p.len();
    loop
        invariant
            i + p@.len() <= end <= s@.len(),
            t == s@.take(end as int),
            rfind(t, p@) == rfind_at_or_before(t, i as int, p@),
        decreases i,
    {
        let m = matches_at_exec(s, i, p);
        assert(m == matches_at(t, i as int, p@)) by {
            assert(t.subrange(i as int, i + p@.len()) =~= s@.subrange(i as int, i + p@.len()));
        }
        if m {
            return Some(i);
        }
        if i == 0 {
            assert(rfind_at_or_before(t, -1, p@) is None);
            return None;
        }
        i = i - 1;
    }
}

/// Whether `c` is Unicode whitespace (`char::is_whitespace`).
pub fn is_ws_exec(c: char) -> (res: bool)
    ensures
        res == is_ws(c),
{
    let u = c as u32;
    (0x09 <= u && u <= 0x0D) || u == 0x20 || u == 0x85 || u == 0xA0 || u == 0x1680 || (0x2000 <= u
        && u <= 0x200A) || u == 0x2028 || u == 0x2029 || u == 0x202F || u == 0x205F || u == 0x3000
}

/// Whether `c` is an ASCII digit.
pub fn is_digit_exec(c: char) -> (res: bool)
    ensures
        res == is_digit(c),
{
    '0' <= c && c <= '9'
}

/// Whether `c` is an ASCII letter or digit.
pub fn is_alnum_exec(c: char) -> (res: bool)
    ensures
        res == is_alnum(c),
{
    ('0' <= c && c <= '9') || ('a' <= c && c <= 'z') || ('A' <= c && c <= 'Z')
}

/// ASCII lower-casing of one character: `A`..=`Z` to `a`..=`z`, every other
/// character kept.
pub(crate) fn lower_exec(c: char) -> (res: char)
    ensures
        res == lower(c),
{
    if 'A' <= c && c <= 'Z' {
        let b: u8 = c as u8;
        assert(b == c as u32);
        ((b + 32) as char)
    } else {
        c
    }
}

/// The bounds `(a, b)` of `trim(s[lo..hi])` within `s`.
pub fn trim_bounds(s: &[char], lo: usize, hi: usize) -> (res: (usize, usize))
    requires
        lo <= hi <= s@.len(),
    ensures
        lo <= res.0 <= res.1 <= hi,
        s@.subrange(res.0 as int, res.1 as int) == trim(s@.subrange(lo as int, hi as int)),
{
    let mut a = lo;
    while a < hi && is_ws_exec(s[a])
        invariant
            lo <= a <= hi <= s@.len(),
            trim_start(s@.subrange(lo as int, hi as int)) == trim_start(
                s@.subrange(a as int, hi as int),
            ),
        decreases hi - a,
    {
        assert(s@.subrange(a as int, hi as int).drop_first() =~= s@.subrange(a + 1, hi as int));
        a = a + 1;
    }
    assert(trim_start(s@.subrange(a as int, hi as int)) == s@.subrange(a as int, hi as int));
    let mut b = hi;
    while b > a && is_ws_exec(s[b - 1])
        invariant
            lo <= a <= b <= hi <= s@.len(),
            trim(s@.subrange(lo as int, hi as int)) == trim_end(s@.subrange(a as int, b as int)),
        decreases b - a,
    {
        assert(s@.subrange(a as int, b as int).drop_last() =~= s@.subrange(a as int, b - 1));
        b = b - 1;
    }
    (a, b)
}

/// `trim(s[lo..hi])` as a string.
pub fn trimmed_string(s: &[char], lo: usize, hi: usize) -> (res: String)
    requires
        lo <= hi <= s@.len(),
    ensures
        res@ == trim(s@.subrange(lo as int, hi as int)),
{
    let (a, b) = trim_bounds(s, lo, hi);
    string_of(s, a, b)
}

/// `trim(s[lo..hi])` as a vector of characters.
pub fn trimmed_chars(s: &[char], lo: usize, hi: usize) -> (res: Vec<char>)
    requires
        lo <= hi <= s@.len(),
    ensures
        res@ == trim(s@.subrange(lo as int, hi as int)),
{
    let (a, b) = trim_bounds(s, lo, hi);
    slice_chars(s, a, b)
}

/// The number of UTF-8 bytes of `c` (`char::len_utf8`).
pub fn utf8_len_exec(c: char) -> (res: usize)
    ensures
        res == utf8_len(c),
{
    let u = c as u32;
    if u < 0x80 {
        1
    } else if u < 0x800 {
        2
    } else if u < 0x10000 {
        3
    } else {
        4
    }
}

/// Whether two character sequences are equal.
pub fn chars_eq(a: &[char], b: &[char]) -> (res: bool)
    ensures
        res == (a@ == b@),
{
    if a.len() != b.len() {
        return false;
    }
    let r = matches_at_exec(a, 0, b);
    proof {
        if r {
            assert(a@.subrange(0, b@.len() as int) =~= a@);
        } else {
            assert(a@.subrange(0, a@.len() as int) =~= a@);
        }
    }
    r
}

/// The character position at byte position `b`, which must be a boundary.
pub fn char_pos_of_byte(s: &[char], b: usize) -> (res: usize)
    requires
        is_char_boundary_at(s@, b as int),
    ensures
        res <= s@.len(),
        byte_len(s@.take(res as int)) == b,
        res == char_index_of(s@, b as int),
{
    let ghost k0 = char_index_of(s@, b as int);
    let mut k: usize = 0;
    let mut acc: usize = 0;
    while acc < b
        invariant
            k <= s@.len(),
            0 <= k0 <= s@.len(),
            byte_len(s@.take(k0)) == b,
            acc == byte_len(s@.take(k as int)),
            acc <= b,
            k <= k0,
        decreases b - acc,
    {
        proof {
            if k == k0 {
                assert(false);
            }
            lemma_byte_len_split(s@, 0, k as int, k + 1);
            lemma_byte_len_one(s@, k as int);
            assert(s@.take(k as int) =~= s@.subrange(0, k as int));
            assert(s@.take(k + 1) =~= s@.subrange(0, k + 1));
            if k + 1 < k0 {
                lemma_byte_len_strict(s@, k + 1, k0);
            }
        }
        acc = acc + utf8_len_exec(s[k]);
        k = k + 1;
    }
    proof {
        if k < k0 {
            lemma_byte_len_strict(s@, k as int, k0);
        }
        lemma_char_index_of(s@, b as int, k as int);
    }
    k
}

/// The character position from which at most `limit` bytes remain before `idx`:
/// the first `w` with `byte_len(s[w..idx]) <= limit`.
pub fn back_by_bytes(s: &[char], idx: usize, limit: usize) -> (res: usize)
    requires
        idx <= s@.len(),
        limit < usize::MAX - 4,
    ensures
        res <= idx,
        byte_len(s@.subrange(res as int, idx as int)) <= limit,
        res > 0 ==> byte_len(s@.subrange(res - 1, idx as int)) > limit,
{
    let mut w = idx;
    let mut acc: usize = 0;
    assert(s@.subrange(idx as int, idx as int) =~= Seq::<char>::empty());
    while w > 0 && acc + utf8_len_exec(s[w - 1]) <= limit
        invariant
            w <= idx <= s@.len(),
            limit < usize::MAX - 4,
            acc == byte_len(s@.subrange(w as int, idx as int)),
            acc <= limit,
        decreases w,
    {
        proof {
            lemma_byte_len_split(s@, w - 1, w as int, idx as int);
            lemma_byte_len_one(s@, w - 1);
        }
        acc = acc + utf8_len_exec(s[w - 1]);
        w = w - 1;
    }
    proof {
        if w > 0 {
            lemma_byte_len_split(s@, w - 1, w as int, idx as int);
            lemma_byte_len_one(s@, w - 1);
        }
    }
    w
}

/// Three-way lexicographic comparison: negative, zero or positive.
pub fn lex_order(a: &[char], b: &[char]) -> (res: i8)
    ensures
        res < 0 <==> lex_lt(a@, b@),
        res == 0 <==> a@ == b@,
        res > 0 <==> lex_lt(b@, a@),
{
    let mut k: usize = 0;
    while k < a.len() && k < b.len() && a[k] == b[k]
        invariant
            0 <= k <= a@.len(),
            k <= b@.len(),
            a@.take(k as int) == b@.take(k as int),
        decreases a@.len() - k,
    {
        assert(a@.take(k + 1) =~= a@.take(k as int).push(a@[k as int]));
        assert(b@.take(k + 1) =~= b@.take(k as int).push(b@[k as int]));
        k = k + 1;
    }
    proof {
        lemma_lex_total(a@, b@);
    }
    if k == a.len() && k == b.len() {
        assert(a@ =~= a@.take(k as int));
        assert(b@ =~= b@.take(k as int));
        0
    } else if k == a.len() {
        assert(lex_split(a@, b@, k as int));
        -1
    } else if k == b.len() {
        assert(lex_split(b@, a@, k as int));
        1
    } else if a[k] < b[k] {
        assert(lex_split(a@, b@, k as int));
        -1
    } else {
        assert(lex_split(b@, a@, k as int));
        1
    }
}

/// The view of a vector of character vectors.
pub open spec fn vecs_view(v: Seq<Vec<char>>) -> Seq<Seq<char>> {
    v.map_values(|x: Vec<char>| x@)
}

/// The pieces of `s` between occurrences of `c`.
pub fn split_chars(s: &[char], c: char) -> (res: Vec<Vec<char>>)
    ensures
        vecs_view(res@) == split_char(s@, c),
        res@.len() >= 1,
{
    let mut out: Vec<Vec<char>> = Vec::new();
    let mut cur: Vec<char> = Vec::new();
    let mut i: usize = 0;
    while i < s.len()
        invariant
            0 <= i <= s@.len(),
            vecs_view(out@).push(cur@) == split_char(s@.take(i as int), c),
        decreases s@.len() - i,
    {
        let x = s[i];
        let ghost before = vecs_view(out@).push(cur@);
        assert(s@.take(i + 1).drop_last() =~= s@.take(i as int));
        proof {
            lemma_split_len(s@.take(i as int), c);
        }
        if x == c {
            let done = cur;
            out.push(done);
            cur = Vec::new();
            assert(vecs_view(out@).push(cur@) =~= before.push(Seq::empty()));
        } else {
            cur.push(x);
            assert(vecs_view(out@).push(cur@) =~= before.update(
                before.len() - 1,
                before.last().push(x),
            ));
        }
        i = i + 1;
    }
    assert(s@.take(s@.len() as int) =~= s@);
    let ghost before = vecs_view(out@);
    out.push(cur);
    assert(vecs_view(out@) =~= before.push(cur@));
    out
}

/// The length of `split_char` is at least one.
pub proof fn lemma_split_len(s: Seq<char>, c: char)
    ensures
        split_char(s, c).len() >= 1,
    decreases s.len(),
{
    if s.len() > 0 {
        lemma_split_len(s.drop_last(), c);
    }
}

/// Appending text without `c` extends the last piece of the split.
pub proof fn lemma_split_extend(s: Seq<char>, b: Seq<char>, c: char)
    requires
        !b.contains(c),
    ensures
        split_char(s + b, c) == split_char(s, c).update(
            split_char(s, c).len() - 1,
            split_char(s, c).last() + b,
        ),
    decreases b.len(),
{
    lemma_split_len(s, c);
    if b.len() == 0 {
        assert(s + b =~= s);
        assert(split_char(s, c).last() + b =~= split_char(s, c).last());
        assert(split_char(s, c).update(split_char(s, c).len() - 1, split_char(s, c).last())
            =~= split_char(s, c));
    } else {
        let b0 = b.drop_last();
        assert(!b0.contains(c)) by {
            if b0.contains(c) {
                let k = choose|k: int| 0 <= k < b0.len() && b0[k] == c;
                assert(b[k] == c);
            }
        }
        assert(b[b.len() - 1] != c);
        lemma_split_extend(s, b0, c);
        assert((s + b).drop_last() =~= s + b0);
        assert((s + b).last() == b.last());
        let p = split_char(s, c);
        assert(p.last() + b =~= (p.last() + b0).push(b.last()));
        assert(split_char(s + b, c) =~= p.update(p.len() - 1, p.last() + b));
    }
}

/// Splitting at `c` undoes joining with `c` pieces that hold no `c`.
pub proof fn lemma_split_join(parts: Seq<Seq<char>>, c: char)
    requires
        parts.len() >= 1,
        forall|i: int| 0 <= i < parts.len() ==> !(#[trigger] parts[i]).contains(c),
    ensures
        split_char(join(parts, seq![c]), c) == parts,
    decreases parts.len(),
{
    if parts.len() == 1 {
        let e = Seq::<char>::empty();
        lemma_split_extend(e, parts[0], c);
        assert(e + parts[0] =~= parts[0]);
        assert(split_char(e, c) =~= seq![e]);
        assert(e + parts[0] =~= parts[0]);
        assert(seq![e].update(0, e + parts[0]) =~= parts);
    } else {
        let front = parts.drop_last();
        lemma_split_join(front, c);
        let j = join(front, seq![c]);
        let jc = j + seq![c];
        assert(jc.drop_last() =~= j);
        assert(jc.last() == c);
        lemma_split_len(j, c);
        assert(split_char(jc, c) == front.push(Seq::<char>::empty()));
        lemma_split_extend(jc, parts.last(), c);
        assert(join(parts, seq![c]) == jc + parts.last());
        assert(Seq::<char>::empty() + parts.last() =~= parts.last());
        assert(front.push(Seq::<char>::empty()).update(front.len() as int, parts.last()) =~= parts);
    }
}

/// `s` without trailing `c` characters.
pub fn trim_end_char_chars(s: &[char], c: char) -> (res: usize)
    ensures
        res <= s@.len(),
        s@.subrange(0, res as int) == trim_end_char(s@, c),
{
    let mut b = s.len();
    assert(s@.subrange(0, b as int) =~= s@);
    while b > 0 && s[b - 1] == c
        invariant
            b <= s@.len(),
            trim_end_char(s@, c) == trim_end_char(s@.subrange(0, b as int), c),
        decreases b,
    {
        assert(s@.subrange(0, b as int).drop_last() =~= s@.subrange(0, b - 1));
        b = b - 1;
    }
    b
}

/// The decimal text of `n`.
pub fn decimal_exec(n: usize) -> (res: Vec<char>)
    ensures
        res@ == decimal(n as nat),
    decreases n,
{
    if n < 10 {
        let d = ((n as u8) + 48) as char;
        assert(d == digit_char(n as nat));
        vec![d]
    } else {
        let mut v = decimal_exec(n / 10);
        let d = (((n % 10) as u8) + 48) as char;
        assert(d == digit_char((n % 10) as nat));
        v.push(d);
        v
    }
}

/// `s` with every occurrence of `from` replaced by `to`.
pub fn replace_chars(s: &[char], from: &[char], to: &[char]) -> (res: Vec<char>)
    ensures
        res@ == replace_all(s@, from@, to@),
{
    if from.len() == 0 {
        return slice_chars(s, 0, s.len());
    }
    let mut out: Vec<char> = Vec::new();
    let mut i: usize = 0;
    loop
        invariant
            i <= s@.len(),
            from@.len() > 0,
            out@ + replace_from(s@, i as int, from@, to@) == replace_all(s@, from@, to@),
        decreases s@.len() - i,
    {
        match find_chars(s, i, from) {
            None => {
                let rest = slice_chars(s, i, s.len());
                let ghost o = out@;
                let mut r = rest;
                out.append(&mut r);
                assert(out@ =~= o + s@.subrange(i as int, s@.len() as int));
                return out;
            },
            Some(k) => {
                proof {
                    lemma_find_from(s@, i as int, from@);
                }
                let mut mid = slice_chars(s, i, k);
                let mut t = slice_chars(to, 0, to.len());
                assert(to@.subrange(0, to@.len() as int) =~= to@);
                let ghost o = out@;
                out.append(&mut mid);
                out.append(&mut t);
                assert(out@ =~= o + s@.subrange(i as int, k as int) + to@);
                assert(replace_from(s@, i as int, from@, to@) == s@.subrange(i as int, k as int)
                    + to@ + replace_from(s@, k + from@.len(), from@, to@));
                i = k + from.len();
            },
        }
    }
}

/// The character position up to which at most `limit` bytes follow `idx`: the last
/// `e` with `byte_len(s[idx..e]) <= limit`.
pub fn forward_by_bytes(s: &[char], idx: usize, limit: usize) -> (res: usize)
    requires
        idx <= s@.len(),
        limit < usize::MAX - 4,
    ensures
        idx <= res <= s@.len(),
        byte_len(s@.subrange(idx as int, res as int)) <= limit,
        res < s@.len() ==> byte_len(s@.subrange(idx as int, res + 1)) > limit,
{
    let mut e = idx;
    let mut acc: usize = 0;
    assert(s@.subrange(idx as int, idx as int) =~= Seq::<char>::empty());
    while e < s.len() && acc + utf8_len_exec(s[e]) <= limit
        invariant
            idx <= e <= s@.len(),
            limit < usize::MAX - 4,
            acc == byte_len(s@.subrange(idx as int, e as int)),
            acc <= limit,
        decreases s@.len() - e,
    {
        proof {
            lemma_byte_len_split(s@, idx as int, e as int, e + 1);
            lemma_byte_len_one(s@, e as int);
        }
        acc = acc + utf8_len_exec(s[e]);
        e = e + 1;
    }
    proof {
        if e < s@.len() {
            lemma_byte_len_split(s@, idx as int, e as int, e + 1);
            lemma_byte_len_one(s@, e as int);
        }
    }
    e
}


/// Whether `s` takes at most `limit` bytes in UTF-8.
pub fn byte_len_at_most(s: &[char], limit: usize) -> (res: bool)
    requires
        limit < usize::MAX - 4,
    ensures
        res == (byte_len(s@) <= limit),
{
    let e = forward_by_bytes(s, 0, limit);
    proof {
        assert(s@.subrange(0, s@.len() as int) =~= s@);
        if e < s@.len() {
            lemma_byte_len_split(s@, 0, e + 1, s@.len() as int);
        }
    }
    e == s.len()
}


/// The number of UTF-8 bytes of `s[lo..hi]`.
pub fn byte_len_range(s: &[char], lo: usize, hi: usize) -> (res: usize)
    requires
        lo <= hi <= s@.len(),
        byte_len(s@.subrange(lo as int, hi as int)) <= usize::MAX,
    ensures
        res == byte_len(s@.subrange(lo as int, hi as int)),
{
    let mut k = lo;
    let mut acc: usize = 0;
    assert(s@.subrange(lo as int, lo as int) =~= Seq::<char>::empty());
    while k < hi
        invariant
            lo <= k <= hi <= s@.len(),
            acc == byte_len(s@.subrange(lo as int, k as int)),
            byte_len(s@.subrange(lo as int, hi as int)) <= usize::MAX,
        decreases hi - k,
    {
        proof {
            lemma_byte_len_split(s@, lo as int, k as int, k + 1);
            lemma_byte_len_one(s@, k as int);
            lemma_byte_len_split(s@, lo as int, k + 1, hi as int);
        }
        acc = acc + utf8_len_exec(s[k]);
        k = k + 1;
    }
    acc
}


/// Appends the parts joined with `sep` between neighbours.
pub fn push_joined(out: &mut String, parts: &[String], sep: &str)
    ensures
        final(out)@ == old(out)@ + join(parts@.map_values(|p: String| p@), sep@),
{
    let ghost start = out@;
    let ghost views = parts@.map_values(|p: String| p@);
    let mut i: usize = 0;
    while i < parts.len()
        invariant
            0 <= i <= parts@.len(),
            views == parts@.map_values(|p: String| p@),
            out@ == start + join(views.take(i as int), sep@),
        decreases parts@.len() - i,
    {
        assert(views.take(i + 1).drop_last() =~= views.take(i as int));
        if i > 0 {
            push_str(out, sep);
        } else {
            assert(views.take(0) =~= Seq::<Seq<char>>::empty());
        }
        push_str(out, parts[i].as_str());
        assert(out@ =~= start + join(views.take(i + 1), sep@));
        i = i + 1;
    }
    assert(views.take(parts@.len() as int) =~= views);
}

} // verus!
