//! Extraction of (course, full-result url) pairs from a results time-order page.
use vstd::prelude::*;
use crate::text::{
    byte_len, ch, char_index_of, char_pos_of_byte, chars_eq, chars_of, find, find_chars, find_from,
    is_char_boundary_at, lemma_byte_len_split, lemma_byte_len_strict, lemma_char_index_of,
    lemma_find_from, lemma_rfind, matches_at, rfind, rfind_chars, slice_chars, starts_with,
    string_of, matches_at_exec, back_by_bytes, utf8_len_exec,
};
use crate::utils::{stripped, stripped_chars, svg_removed, svg_removed_chars};
use crate::text::{contains, lex_lt, lex_order, lemma_lex_total, lemma_lex_trans};

verus! {

// ---------------------------------------------------------------------------
// Specifications
// ---------------------------------------------------------------------------

/// How many bytes before a button the course name is looked for.
pub open spec fn course_window_bytes() -> int {
    20000
}

/// The byte window before `idx` can be cut at a character boundary: either it
/// reaches the start of the text, or the byte `course_window_bytes()` before `idx`
/// starts a character.
pub open spec fn window_ok(h: Seq<char>, idx: int) -> bool {
    byte_len(h.take(idx)) <= course_window_bytes() || is_char_boundary_at(
        h,
        byte_len(h.take(idx)) - course_window_bytes(),
    )
}

/// Character position where the window before `idx` starts.
pub open spec fn window_start(h: Seq<char>, idx: int) -> int {
    if byte_len(h.take(idx)) <= course_window_bytes() {
        0
    } else {
        char_index_of(h, byte_len(h.take(idx)) - course_window_bytes())
    }
}

/// The anchor of a race name in the time-order view.
pub open spec fn race_name_anchor() -> Seq<char> {
    "data-test-selector=\"text-raceNameTimeView\""@
}

/// The course name in a window of text: the content of the link after the last
/// race-name anchor, SVG blocks removed, tags stripped; `unknown` when it cannot be
/// found or is blank.
pub open spec fn course_name_in(win: Seq<char>) -> Seq<char> {
    match rfind(win, race_name_anchor()) {
        None => "unknown"@,
        Some(a) => match find_from(win, a, ch('>')) {
            None => "unknown"@,
            Some(g) => match find_from(win, g + 1, "</a>"@) {
                None => "unknown"@,
                Some(e) => {
                    let name = stripped(svg_removed(win.subrange(g + 1, e), 0));
                    if name.len() == 0 {
                        "unknown"@
                    } else {
                        name
                    }
                },
            },
        },
    }
}

/// A course name is never empty: a name that cannot be found, or is blank, is
/// `unknown`.
pub proof fn lemma_course_name_not_empty(win: Seq<char>)
    ensures
        course_name_in(win).len() > 0,
{
    reveal_strlit("unknown");
}

/// The course name for a button at character position `idx`.
pub open spec fn course_name_at(h: Seq<char>, idx: int) -> Seq<char> {
    course_name_in(h.subrange(window_start(h, idx), idx))
}

/// The non-empty value of the first `href="..."` attribute of a tag.
pub open spec fn href_of(tag: Seq<char>) -> Option<Seq<char>> {
    match find(tag, "href=\""@) {
        None => None,
        Some(p) => match find_from(tag, p + "href=\""@.len(), "\""@) {
            None => None,
            Some(e) => if e == p + "href=\""@.len() {
                None
            } else {
                Some(tag.subrange(p + "href=\""@.len(), e))
            },
        },
    }
}

/// An absolute url: kept when it already has a scheme, the site prepended when it is
/// a path, kept otherwise.
pub open spec fn normalized_url(href: Seq<char>) -> Seq<char> {
    if starts_with(href, "http://"@) || starts_with(href, "https://"@) {
        href
    } else if starts_with(href, "/"@) {
        "https://www.racingpost.com"@ + href
    } else {
        href
    }
}

/// A link given as a path (starting with `/`) becomes the site's `https` url of that
/// path, and one with an `http` or `https` scheme is kept as it is: either way the
/// url has a scheme and ends with the link.
pub proof fn lemma_normalized_url(href: Seq<char>)
    ensures
        starts_with(href, "/"@) || starts_with(href, "http://"@) || starts_with(href, "https://"@)
            ==> starts_with(normalized_url(href), "http://"@) || starts_with(normalized_url(href), "https://"@),
        starts_with(href, "/"@) && !starts_with(href, "http://"@) && !starts_with(href, "https://"@)
            ==> normalized_url(href) == "https://www.racingpost.com"@ + href,
        normalized_url(href).len() >= href.len(),
        normalized_url(href).subrange(normalized_url(href).len() - href.len(), normalized_url(href).len() as int) == href,
{
    reveal_strlit("https://www.racingpost.com");
    reveal_strlit("https://");
    let site = "https://www.racingpost.com"@;
    let u = normalized_url(href);
    if starts_with(href, "/"@) && !starts_with(href, "http://"@) && !starts_with(href, "https://"@) {
        assert((site + href).subrange(0, 8) =~= "https://"@);
        assert(u.subrange(u.len() - href.len(), u.len() as int) =~= href);
    } else {
        assert(u.subrange(0, u.len() as int) =~= href);
    }
}

/// The url of the link that contains a button at `idx`: the last `<a` before it,
/// its tag cut at the first `>` (or at `idx`), and the normalized `href`.
pub open spec fn url_before(h: Seq<char>, idx: int) -> Option<Seq<char>> {
    match rfind(h.take(idx), "<a"@) {
        None => None,
        Some(a) => {
            let tag_end = match find_from(h, a, ch('>')) {
                Some(r) => r,
                None => idx,
            };
            let end = if tag_end < idx {
                tag_end
            } else {
                idx
            };
            match href_of(h.subrange(a, end)) {
                None => None,
                Some(href) => Some(normalized_url(href)),
            }
        },
    }
}

/// The (course, url) pairs for the occurrences of `needle` from `start` on, in order;
/// an occurrence without a link url gives no pair.
pub open spec fn needle_hits(h: Seq<char>, needle: Seq<char>, start: int) -> Seq<(Seq<char>, Seq<char>)>
    decreases h.len() + 1 - start,
{
    if start < 0 || start > h.len() || needle.len() == 0 {
        Seq::empty()
    } else {
        match find_from(h, start, needle) {
            None => Seq::empty(),
            Some(idx) => {
                proof {
                    lemma_find_from(h, start, needle);
                }
                let rest = needle_hits(h, needle, idx + needle.len());
                match url_before(h, idx) {
                    Some(u) => seq![(course_name_at(h, idx), u)] + rest,
                    None => rest,
                }
            },
        }
    }
}

/// The key a pair is deduplicated by: course, `::`, url.
pub open spec fn pair_key(p: (Seq<char>, Seq<char>)) -> Seq<char> {
    p.0 + "::"@ + p.1
}

/// The pairs in order, each kept only when no earlier pair has the same key.
pub open spec fn dedup_pairs(ps: Seq<(Seq<char>, Seq<char>)>) -> Seq<(Seq<char>, Seq<char>)>
    decreases ps.len(),
{
    if ps.len() == 0 {
        Seq::empty()
    } else {
        let d = dedup_pairs(ps.drop_last());
        if exists|j: int| 0 <= j < ps.len() - 1 && pair_key(#[trigger] ps[j]) == pair_key(ps.last()) {
            d
        } else {
            d.push(ps.last())
        }
    }
}

/// The distinct (course, url) pairs found with `needle`.
pub open spec fn pairs_with_needle(h: Seq<char>, needle: Seq<char>) -> Seq<(Seq<char>, Seq<char>)> {
    dedup_pairs(needle_hits(h, needle, 0))
}

/// Every occurrence of `needle` has a usable course window.
pub open spec fn windows_ok(h: Seq<char>, needle: Seq<char>) -> bool {
    forall|k: int| #[trigger] matches_at(h, k, needle) ==> window_ok(h, k)
}

/// The primary, secondary and last-resort button needles.
pub open spec fn needle1() -> Seq<char> {
    "data-test-selector=\"button-fullResult\""@
}

pub open spec fn needle2() -> Seq<char> {
    "button-fullResult"@
}

pub open spec fn needle3() -> Seq<char> {
    "fullResult"@
}

/// The pairs of a time-order page: those found with the primary needle, else with
/// the secondary, else with the last resort.
pub open spec fn time_order_pairs(h: Seq<char>) -> Seq<(Seq<char>, Seq<char>)> {
    if pairs_with_needle(h, needle1()).len() > 0 {
        pairs_with_needle(h, needle1())
    } else if pairs_with_needle(h, needle2()).len() > 0 {
        pairs_with_needle(h, needle2())
    } else {
        pairs_with_needle(h, needle3())
    }
}

/// The pages on which scanning never cuts a character in two.
pub open spec fn time_order_page_ok(h: Seq<char>) -> bool {
    &&& windows_ok(h, needle1())
    &&& (pairs_with_needle(h, needle1()).len() == 0 ==> windows_ok(h, needle2()))
    &&& (pairs_with_needle(h, needle1()).len() == 0 && pairs_with_needle(h, needle2()).len() == 0
        ==> windows_ok(h, needle3()))
}

/// Keeping pairs only when no earlier pair has their key leaves no two with one key.
proof fn lemma_dedup_distinct(ps: Seq<(Seq<char>, Seq<char>)>)
    ensures
        forall|i: int, j: int|
            0 <= i < j < dedup_pairs(ps).len() ==> pair_key(#[trigger] dedup_pairs(ps)[i]) != pair_key(
                #[trigger] dedup_pairs(ps)[j],
            ),
    decreases ps.len(),
{
    if ps.len() > 0 {
        let pre = ps.drop_last();
        lemma_dedup_distinct(pre);
        let d0 = dedup_pairs(pre);
        let d = dedup_pairs(ps);
        if !(exists|j: int| 0 <= j < ps.len() - 1 && pair_key(#[trigger] ps[j]) == pair_key(ps.last())) {
            assert(d == d0.push(ps.last()));
            lemma_dedup_keys(pre, pair_key(ps.last()));
            assert forall|i: int, j: int| 0 <= i < j < d.len() implies pair_key(#[trigger] d[i]) != pair_key(
                #[trigger] d[j],
            ) by {
                assert(d[i] == d0[i]);
                if j < d0.len() {
                    assert(d[j] == d0[j]);
                } else {
                    if pair_key(d0[i]) == pair_key(ps.last()) {
                        let jj = choose|jj: int| 0 <= jj < pre.len() && pair_key(#[trigger] pre[jj]) == pair_key(ps.last());
                        assert(ps[jj] == pre[jj]);
                    }
                }
            }
        }
    }
}

/// The (course, url) pairs of a time-order page come without repeats: no two of them
/// have the same course and url.
pub proof fn lemma_time_order_pairs_distinct(h: Seq<char>)
    ensures
        forall|i: int, j: int|
            0 <= i < j < time_order_pairs(h).len() ==> pair_key(#[trigger] time_order_pairs(h)[i])
                != pair_key(#[trigger] time_order_pairs(h)[j]),
        forall|i: int, j: int|
            0 <= i < j < time_order_pairs(h).len() ==> #[trigger] time_order_pairs(h)[i]
                != #[trigger] time_order_pairs(h)[j],
{
    lemma_dedup_distinct(needle_hits(h, needle1(), 0));
    lemma_dedup_distinct(needle_hits(h, needle2(), 0));
    lemma_dedup_distinct(needle_hits(h, needle3(), 0));
    let tp = time_order_pairs(h);
    assert forall|i: int, j: int| 0 <= i < j < tp.len() implies #[trigger] tp[i] != #[trigger] tp[j] by {
        assert(pair_key(tp[i]) != pair_key(tp[j]));
    }
}

/// The view of a list of string pairs.
pub open spec fn pairs_view(v: Seq<(String, String)>) -> Seq<(Seq<char>, Seq<char>)> {
    v.map_values(|p: (String, String)| (p.0@, p.1@))
}

// ---------------------------------------------------------------------------
// Lemmas
// ---------------------------------------------------------------------------

/// A text is at least as many bytes long as it has characters.
pub proof fn lemma_byte_len_ge_len(s: Seq<char>)
    ensures
        byte_len(s) >= s.len(),
    decreases s.len(),
{
    if s.len() > 0 {
        lemma_byte_len_ge_len(s.drop_last());
    }
}

/// The backward walk stops exactly at the window start.
pub proof fn lemma_window(h: Seq<char>, idx: int, w: int)
    requires
        0 <= w <= idx <= h.len(),
        window_ok(h, idx),
        byte_len(h.subrange(w, idx)) <= course_window_bytes(),
        w > 0 ==> byte_len(h.subrange(w - 1, idx)) > course_window_bytes(),
    ensures
        w == window_start(h, idx),
{
    let b = byte_len(h.take(idx));
    assert(h.take(idx) =~= h.subrange(0, idx));
    if b <= course_window_bytes() {
        if w > 0 {
            lemma_byte_len_split(h, 0, w - 1, idx);
        }
    } else {
        let k0 = char_index_of(h, b - course_window_bytes());
        assert(h.take(k0) =~= h.subrange(0, k0));
        if k0 >= idx {
            if k0 > idx {
                lemma_byte_len_strict(h, idx, k0);
            }
        }
        lemma_byte_len_split(h, 0, k0, idx);
        if w < k0 {
            lemma_byte_len_split(h, w, k0, idx);
            lemma_byte_len_ge_len(h.subrange(w, k0));
        } else if w > k0 {
            lemma_byte_len_split(h, k0, w - 1, idx);
        }
    }
}

/// The keys kept by deduplication are exactly the keys present.
pub proof fn lemma_dedup_keys(ps: Seq<(Seq<char>, Seq<char>)>, k: Seq<char>)
    ensures
        (exists|i: int| 0 <= i < dedup_pairs(ps).len() && pair_key(#[trigger] dedup_pairs(ps)[i]) == k)
            <==> (exists|j: int| 0 <= j < ps.len() && pair_key(#[trigger] ps[j]) == k),
    decreases ps.len(),
{
    if ps.len() > 0 {
        let pre = ps.drop_last();
        lemma_dedup_keys(pre, k);
        let d = dedup_pairs(ps);
        if exists|j: int| 0 <= j < ps.len() && pair_key(#[trigger] ps[j]) == k {
            let j = choose|j: int| 0 <= j < ps.len() && pair_key(#[trigger] ps[j]) == k;
            if j < ps.len() - 1 {
                assert(pre[j] == ps[j]);
                let i = choose|i: int|
                    0 <= i < dedup_pairs(pre).len() && pair_key(#[trigger] dedup_pairs(pre)[i])
                        == k;
                assert(d[i] == dedup_pairs(pre)[i]);
            } else {
                if exists|j2: int|
                    0 <= j2 < ps.len() - 1 && pair_key(#[trigger] ps[j2]) == pair_key(ps.last()) {
                    let j2 = choose|j2: int|
                        0 <= j2 < ps.len() - 1 && pair_key(#[trigger] ps[j2]) == pair_key(
                            ps.last(),
                        );
                    assert(pre[j2] == ps[j2]);
                    let i = choose|i: int|
                        0 <= i < dedup_pairs(pre).len() && pair_key(
                            #[trigger] dedup_pairs(pre)[i],
                        ) == k;
                    assert(d[i] == dedup_pairs(pre)[i]);
                } else {
                    assert(d[d.len() - 1] == ps.last());
                }
            }
        }
        if exists|i: int| 0 <= i < d.len() && pair_key(#[trigger] d[i]) == k {
            let i = choose|i: int| 0 <= i < d.len() && pair_key(#[trigger] d[i]) == k;
            if i < dedup_pairs(pre).len() {
                assert(d[i] == dedup_pairs(pre)[i]);
                let j = choose|j: int| 0 <= j < pre.len() && pair_key(#[trigger] pre[j]) == k;
                assert(ps[j] == pre[j]);
            } else {
                assert(pair_key(ps[ps.len() - 1]) == k);
            }
        }
    }
}

// ---------------------------------------------------------------------------
// Executable functions
// ---------------------------------------------------------------------------

/// The non-empty `href` value of a tag.
fn extract_href(tag: &[char]) -> (res: Option<Vec<char>>)
    ensures
        res matches Some(r) ==> href_of(tag@) == Some(r@),
        res is None ==> href_of(tag@) is None,
{
    let pat = chars_of("href=\"");
    let quote = chars_of("\"");
    proof {
        reveal_strlit("href=\"");
    }
    match find_chars(tag, 0, &pat) {
        None => None,
        Some(p) => {
            let start = p + 6;
            match find_chars(tag, start, &quote) {
                None => None,
                Some(e) => {
                    if e == start {
                        None
                    } else {
                        Some(slice_chars(tag, start, e))
                    }
                },
            }
        },
    }
}

/// Whether `s` starts with the literal `p`.
pub(crate) fn starts_with_lit(s: &[char], p: &str) -> (res: bool)
    ensures
        res == starts_with(s@, p@),
{
    let pc = chars_of(p);
    matches_at_exec(s, 0, &pc)
}

/// An absolute url for `href`.
fn normalize_racingpost_url(href: &[char]) -> (res: String)
    ensures
        res@ == normalized_url(href@),
{
    if starts_with_lit(href, "http://") || starts_with_lit(href, "https://") {
        string_of(href, 0, href.len())
    } else if starts_with_lit(href, "/") {
        let mut out = String::from_str("https://www.racingpost.com");
        let rest = string_of(href, 0, href.len());
        crate::text::push_str(&mut out, rest.as_str());
        out
    } else {
        string_of(href, 0, href.len())
    }
}

/// The url of the link around a button at character position `idx`.
fn url_before_chars(h: &[char], idx: usize) -> (res: Option<String>)
    requires
        idx <= h@.len(),
    ensures
        res matches Some(r) ==> url_before(h@, idx as int) == Some(r@),
        res is None ==> url_before(h@, idx as int) is None,
{
    let a_open = chars_of("<a");
    let gt = vec!['>'];
    assert(gt@ == ch('>'));
    match rfind_chars(h, idx, &a_open) {
        None => None,
        Some(a) => {
            let tag_end = match find_chars(h, a, &gt) {
                Some(r) => r,
                None => idx,
            };
            let end = if tag_end < idx {
                tag_end
            } else {
                idx
            };
            let tag = slice_chars(h, a, end);
            match extract_href(&tag) {
                None => None,
                Some(href) => {
                    assert(href@ == href_of(h@.subrange(a as int, end as int))->0);
                    Some(normalize_racingpost_url(&href))
                },
            }
        },
    }
}

/// The url of the link that holds the button at byte position `idx`: the last `<a`
/// tag before it, cut at its first `>` (or at `idx`), its non-empty `href`, made
/// absolute.
pub fn full_result_url_before_idx(html: &str, idx: usize) -> (res: Option<String>)
    requires
        is_char_boundary_at(html@, idx as int),
    ensures
        res matches Some(r) ==> url_before(html@, char_index_of(html@, idx as int)) == Some(r@),
        res is None ==> url_before(html@, char_index_of(html@, idx as int)) is None,
{
    let h = chars_of(html);
    let k = char_pos_of_byte(&h, idx);
    url_before_chars(&h, k)
}

/// The course name for a button at character position `idx`.
fn course_name_chars(h: &[char], idx: usize) -> (res: String)
    requires
        idx <= h@.len(),
        window_ok(h@, idx as int),
    ensures
        res@ == course_name_at(h@, idx as int),
{
    let w = back_by_bytes(h, idx, 20000);
    proof {
        lemma_window(h@, idx as int, w as int);
    }
    let win = slice_chars(h, w, idx);
    let anchor = chars_of("data-test-selector=\"text-raceNameTimeView\"");
    let gt = vec!['>'];
    assert(gt@ == ch('>'));
    let a_close = chars_of("</a>");
    assert(win@.take(win@.len() as int) =~= win@);
    match rfind_chars(&win, win.len(), &anchor) {
        None => String::from_str("unknown"),
        Some(a) => match find_chars(&win, a, &gt) {
            None => String::from_str("unknown"),
            Some(g) => match find_chars(&win, g + 1, &a_close) {
                None => String::from_str("unknown"),
                Some(e) => {
                    let inner = slice_chars(&win, g + 1, e);
                    let cleaned = svg_removed_chars(&inner);
                    let name = stripped_chars(&cleaned);
                    if name.len() == 0 {
                        String::from_str("unknown")
                    } else {
                        string_of(&name, 0, name.len())
                    }
                },
            },
        },
    }
}

/// The course name before the button at byte position `idx`: within the 20000 bytes
/// before it, the content of the link after the last race-name anchor, with SVG
/// blocks removed and tags stripped; `unknown` when not found or blank.
pub fn course_name_before_idx(html: &str, idx: usize) -> (res: String)
    requires
        is_char_boundary_at(html@, idx as int),
        window_ok(html@, char_index_of(html@, idx as int)),
    ensures
        res@ == course_name_at(html@, char_index_of(html@, idx as int)),
{
    let h = chars_of(html);
    let k = char_pos_of_byte(&h, idx);
    let r = course_name_chars(&h, k);
    assert(r@.subrange(0, r@.len() as int) =~= r@);
    r
}

/// The chars of `course` + `::` + `url`.
fn key_chars(course: &String, url: &String) -> (res: Vec<char>)
    ensures
        res@ == pair_key((course@, url@)),
{
    let mut k = String::new();
    crate::text::push_str(&mut k, course.as_str());
    crate::text::push_str(&mut k, "::");
    crate::text::push_str(&mut k, url.as_str());
    chars_of(k.as_str())
}

/// Whether a key is among the keys seen.
fn seen_contains(seen: &Vec<Vec<char>>, key: &Vec<char>) -> (res: bool)
    ensures
        res == exists|i: int| 0 <= i < seen@.len() && (#[trigger] seen@[i])@ == key@,
{
    let mut i: usize = 0;
    while i < seen.len()
        invariant
            0 <= i <= seen@.len(),
            forall|j: int| 0 <= j < i ==> (#[trigger] seen@[j])@ != key@,
        decreases seen@.len() - i,
    {
        if chars_eq(&seen[i], key) {
            return true;
        }
        i = i + 1;
    }
    false
}

/// The distinct (course, url) pairs found with `needle`.
fn extract_with_needle(h: &[char], needle: &[char]) -> (res: Vec<(String, String)>)
    requires
        needle@.len() > 0,
        windows_ok(h@, needle@),
    ensures
        pairs_view(res@) == pairs_with_needle(h@, needle@),
{
    let mut out: Vec<(String, String)> = Vec::new();
    let mut seen: Vec<Vec<char>> = Vec::new();
    let mut start: usize = 0;
    let ghost mut hits: Seq<(Seq<char>, Seq<char>)> = Seq::empty();
    loop
        invariant
            start <= h@.len(),
            needle@.len() > 0,
            windows_ok(h@, needle@),
            hits + needle_hits(h@, needle@, start as int) == needle_hits(h@, needle@, 0),
            pairs_view(out@) == dedup_pairs(hits),
            seen@.len() == out@.len(),
            forall|i: int|
                0 <= i < seen@.len() ==> (#[trigger] seen@[i])@ == pair_key(pairs_view(out@)[i]),
        ensures
            needle_hits(h@, needle@, start as int) == Seq::<(Seq<char>, Seq<char>)>::empty(),
        decreases h@.len() - start,
    {
        let idx = match find_chars(h, start, needle) {
            None => {
                break;
            },
            Some(idx) => idx,
        };
        proof {
            lemma_find_from(h@, start as int, needle@);
        }
        let next = idx + needle.len();
        let ghost rest = needle_hits(h@, needle@, next as int);
        match url_before_chars(h, idx) {
            None => {
                assert(needle_hits(h@, needle@, start as int) == rest);
            },
            Some(url) => {
                let course = course_name_chars(h, idx);
                let key = key_chars(&course, &url);
                let ghost p = (course@, url@);
                assert(needle_hits(h@, needle@, start as int) == seq![p] + rest);
                assert(hits + (seq![p] + rest) =~= hits.push(p) + rest);
                let ghost old_hits = hits;
                proof {
                    hits = hits.push(p);
                    assert(hits.drop_last() =~= old_hits);
                    lemma_dedup_keys(old_hits, key@);
                }
                let found = seen_contains(&seen, &key);
                if !found {
                    proof {
                        if exists|j: int| 0 <= j < hits.len() - 1 && pair_key(#[trigger] hits[j]) == pair_key(hits.last()) {
                            let j = choose|j: int| 0 <= j < hits.len() - 1 && pair_key(#[trigger] hits[j]) == pair_key(hits.last());
                            assert(old_hits[j] == hits[j]);
                            let i = choose|i: int| 0 <= i < dedup_pairs(old_hits).len() && pair_key(#[trigger] dedup_pairs(old_hits)[i]) == key@;
                            assert(seen@[i]@ == key@);
                        }
                    }
                    let ghost before = out@;
                    out.push((course, url));
                    seen.push(key);
                    assert(pairs_view(out@) =~= pairs_view(before).push(p));
                } else {
                    proof {
                        let i = choose|i: int| 0 <= i < seen@.len() && (#[trigger] seen@[i])@ == key@;
                        assert(pair_key(dedup_pairs(old_hits)[i]) == key@);
                        let j = choose|j: int| 0 <= j < old_hits.len() && pair_key(#[trigger] old_hits[j]) == key@;
                        assert(hits[j] == old_hits[j]);
                    }
                }
            },
        }
        start = next;
    }
    assert(hits =~= needle_hits(h@, needle@, 0));
    out
}

/// The (course, full-result url) pairs of a results time-order page, without
/// repeats: found with the `button-fullResult` test selector, else with
/// `button-fullResult`, else with `fullResult`.
pub fn extract_time_order_course_and_full_result_urls(html: &str) -> (res: Vec<(String, String)>)
    requires
        time_order_page_ok(html@),
    ensures
        pairs_view(res@) == time_order_pairs(html@),
{
    let h = chars_of(html);
    let n1 = chars_of("data-test-selector=\"button-fullResult\"");
    proof {
        reveal_strlit("data-test-selector=\"button-fullResult\"");
        reveal_strlit("button-fullResult");
        reveal_strlit("fullResult");
    }
    let out = extract_with_needle(&h, &n1);
    if out.len() > 0 {
        return out;
    }
    let n2 = chars_of("button-fullResult");
    let out = extract_with_needle(&h, &n2);
    if out.len() > 0 {
        return out;
    }
    let n3 = chars_of("fullResult");
    extract_with_needle(&h, &n3)
}

/// Whether every occurrence of `needle` in `h` has a usable course window.
fn windows_ok_exec(h: &[char], needle: &[char]) -> (res: bool)
    requires
        needle@.len() > 0,
    ensures
        res == windows_ok(h@, needle@),
{
    let mut k: usize = 0;
    let mut b: u128 = 0;
    let mut j: usize = 0;
    let mut bj: u128 = 0;
    assert(h@.take(0) =~= Seq::<char>::empty());
    while k < h.len()
        invariant
            k <= h@.len(),
            j <= k,
            b == byte_len(h@.take(k as int)),
            b <= 4 * k,
            bj == byte_len(h@.take(j as int)),
            forall|j2: int| 0 <= j2 < j ==> byte_len(h@.take(j2)) + course_window_bytes() < b,
            forall|k2: int| 0 <= k2 < k && #[trigger] matches_at(h@, k2, needle@) ==> window_ok(h@, k2),
        decreases h@.len() - k,
    {
        let mut ok = true;
        if b > 20000 {
            let target: u128 = b - 20000;
            while bj < target
                invariant
                    k < h@.len(),
                    j <= k,
                    b == byte_len(h@.take(k as int)),
                    target + course_window_bytes() == b,
                    bj == byte_len(h@.take(j as int)),
                    forall|j2: int| 0 <= j2 < j ==> byte_len(h@.take(j2)) < target,
                decreases k - j,
            {
                proof {
                    if j == k {
                        assert(false);
                    }
                    assert(h@.take(j + 1).drop_last() =~= h@.take(j as int));
                }
                bj = bj + utf8_len_exec(h[j]) as u128;
                j = j + 1;
            }
            ok = bj == target;
            proof {
                if ok {
                    lemma_char_index_of(h@, target as int, j as int);
                } else {
                    assert forall|k2: int| 0 <= k2 <= h@.len() implies byte_len(#[trigger] h@.take(k2)) != target by {
                        if j < k2 {
                            lemma_byte_len_strict(h@, j as int, k2);
                        }
                    }
                }
            }
        }
        if !ok && matches_at_exec(h, k, needle) {
            return false;
        }
        proof {
            assert(h@.take(k + 1).drop_last() =~= h@.take(k as int));
        }
        b = b + utf8_len_exec(h[k]) as u128;
        k = k + 1;
    }
    proof {
        assert forall|k2: int| #[trigger] matches_at(h@, k2, needle@) implies window_ok(h@, k2) by {
            assert(k2 < h@.len());
        }
    }
    true
}

/// The (course, full-result url) pairs of a results time-order page, or `None` for
/// a page on which a course window would cut a character in two.
pub fn time_order_pairs_checked(html: &str) -> (res: Option<Vec<(String, String)>>)
    ensures
        res is None <==> !time_order_page_ok(html@),
        res matches Some(v) ==> pairs_view(v@) == time_order_pairs(html@),
{
    let h = chars_of(html);
    let n1 = chars_of("data-test-selector=\"button-fullResult\"");
    proof {
        reveal_strlit("data-test-selector=\"button-fullResult\"");
        reveal_strlit("button-fullResult");
        reveal_strlit("fullResult");
    }
    if !windows_ok_exec(&h, &n1) {
        return None;
    }
    let out = extract_with_needle(&h, &n1);
    if out.len() > 0 {
        return Some(out);
    }
    let n2 = chars_of("button-fullResult");
    if !windows_ok_exec(&h, &n2) {
        return None;
    }
    let out = extract_with_needle(&h, &n2);
    if out.len() > 0 {
        return Some(out);
    }
    let n3 = chars_of("fullResult");
    if !windows_ok_exec(&h, &n3) {
        return None;
    }
    Some(extract_with_needle(&h, &n3))
}

// ---------------------------------------------------------------------------
// Grouping by course
// ---------------------------------------------------------------------------

/// A course of another country: it names a country in brackets, and not `(IRE)`.
pub open spec fn is_foreign_course(c: Seq<char>) -> bool {
    contains(c, ch('(')) && contains(c, ch(')')) && !contains(c, "(IRE)"@)
}

/// The urls listed under course `c`, in input order.
pub open spec fn urls_for(input: Seq<(Seq<char>, Seq<char>)>, c: Seq<char>) -> Seq<Seq<char>>
    decreases input.len(),
{
    if input.len() == 0 {
        Seq::empty()
    } else {
        urls_for(input.drop_last(), c) + if input.last().0 == c {
            seq![input.last().1]
        } else {
            Seq::empty()
        }
    }
}

/// `g` groups the input's urls by course, as a map ordered by course would: courses
/// strictly increasing, foreign courses left out, every other course of the input
/// present, each with its urls in input order.
pub open spec fn is_grouping(
    input: Seq<(Seq<char>, Seq<char>)>,
    g: Seq<(Seq<char>, Seq<Seq<char>>)>,
) -> bool {
    &&& forall|i: int, j: int| 0 <= i < j < g.len() ==> lex_lt(#[trigger] g[i].0, #[trigger] g[j].0)
    &&& forall|i: int|
        0 <= i < g.len() ==> !is_foreign_course(#[trigger] g[i].0) && g[i].1 == urls_for(
            input,
            g[i].0,
        ) && g[i].1.len() > 0
    &&& forall|j: int|
        0 <= j < input.len() && !is_foreign_course(#[trigger] input[j].0) ==> exists|i: int|
            0 <= i < g.len() && (#[trigger] g[i]).0 == input[j].0
}

/// The view of a grouping.
pub open spec fn grouping_view(v: Seq<(String, Vec<String>)>) -> Seq<(Seq<char>, Seq<Seq<char>>)> {
    v.map_values(|e: (String, Vec<String>)| (e.0@, e.1.deep_view()))
}

/// One more input pair adds its url to its own course only.
proof fn lemma_urls_for_push(input: Seq<(Seq<char>, Seq<char>)>, p: (Seq<char>, Seq<char>), c: Seq<char>)
    ensures
        urls_for(input.push(p), c) == urls_for(input, c) + if p.0 == c {
            seq![p.1]
        } else {
            Seq::empty()
        },
{
    assert(input.push(p).drop_last() =~= input);
}

/// Whether `c` names a foreign course.
fn is_foreign_country_course(c: &[char]) -> (res: bool)
    ensures
        res == is_foreign_course(c@),
{
    let open = vec!['('];
    let close = vec![')'];
    assert(open@ == ch('('));
    assert(close@ == ch(')'));
    let ire = chars_of("(IRE)");
    let has_country = find_chars(c, 0, &open).is_some() && find_chars(c, 0, &close).is_some();
    let is_ire = find_chars(c, 0, &ire).is_some();
    has_country && !is_ire
}

/// Where course `c` belongs among sorted keys: the first key not before it.
fn group_position(g: &Vec<(String, Vec<String>)>, c: &[char]) -> (res: usize)
    ensures
        res <= g@.len(),
        forall|i: int| 0 <= i < res ==> lex_lt(#[trigger] g@[i].0@, c@),
        res < g@.len() ==> !lex_lt(g@[res as int].0@, c@),
{
    let mut pos: usize = 0;
    while pos < g.len()
        invariant_except_break
            pos <= g@.len(),
            forall|i: int| 0 <= i < pos ==> lex_lt(#[trigger] g@[i].0@, c@),
        ensures
            pos <= g@.len(),
            forall|i: int| 0 <= i < pos ==> lex_lt(#[trigger] g@[i].0@, c@),
            pos < g@.len() ==> !lex_lt(g@[pos as int].0@, c@),
        decreases g@.len() - pos,
    {
        let k = chars_of(g[pos].0.as_str());
        if lex_order(&k, c) >= 0 {
            break;
        }
        pos = pos + 1;
    }
    pos
}

/// A foreign course leaves the grouping as it is.
proof fn lemma_group_skip(
    pre: Seq<(Seq<char>, Seq<char>)>,
    p: (Seq<char>, Seq<char>),
    gv: Seq<(Seq<char>, Seq<Seq<char>>)>,
)
    requires
        is_grouping(pre, gv),
        is_foreign_course(p.0),
    ensures
        is_grouping(pre.push(p), gv),
{
    let post = pre.push(p);
    assert forall|i: int| 0 <= i < gv.len() implies !is_foreign_course(#[trigger] gv[i].0)
        && gv[i].1 == urls_for(post, gv[i].0) && gv[i].1.len() > 0 by {
        lemma_urls_for_push(pre, p, gv[i].0);
    }
    assert forall|j: int| 0 <= j < post.len() && !is_foreign_course(#[trigger] post[j].0) implies exists|i: int|
        0 <= i < gv.len() && (#[trigger] gv[i]).0 == post[j].0 by {
        assert(post[j] == pre[j]);
    }
}

/// A url of a course already grouped joins that course's list.
proof fn lemma_group_update(
    pre: Seq<(Seq<char>, Seq<char>)>,
    p: (Seq<char>, Seq<char>),
    gv: Seq<(Seq<char>, Seq<Seq<char>>)>,
    pos: int,
)
    requires
        is_grouping(pre, gv),
        0 <= pos < gv.len(),
        gv[pos].0 == p.0,
    ensures
        is_grouping(pre.push(p), gv.update(pos, (p.0, gv[pos].1.push(p.1)))),
{
    let post = pre.push(p);
    let g2 = gv.update(pos, (p.0, gv[pos].1.push(p.1)));
    assert forall|i: int| 0 <= i < g2.len() implies !is_foreign_course(#[trigger] g2[i].0)
        && g2[i].1 == urls_for(post, g2[i].0) && g2[i].1.len() > 0 by {
        lemma_urls_for_push(pre, p, g2[i].0);
        assert(g2[i].0 == gv[i].0);
        if i != pos {
            assert(gv[i].0 != p.0) by {
                if i < pos {
                    lemma_lex_total(gv[i].0, gv[pos].0);
                } else {
                    lemma_lex_total(gv[pos].0, gv[i].0);
                }
            }
        }
    }
    assert forall|i: int, j: int| 0 <= i < j < g2.len() implies lex_lt(
        #[trigger] g2[i].0,
        #[trigger] g2[j].0,
    ) by {
        assert(g2[i].0 == gv[i].0);
        assert(g2[j].0 == gv[j].0);
    }
    assert forall|j: int| 0 <= j < post.len() && !is_foreign_course(#[trigger] post[j].0) implies exists|i: int|
        0 <= i < g2.len() && (#[trigger] g2[i]).0 == post[j].0 by {
        if j < pre.len() {
            assert(post[j] == pre[j]);
            let i = choose|i: int| 0 <= i < gv.len() && (#[trigger] gv[i]).0 == pre[j].0;
            assert(g2[i].0 == gv[i].0);
        } else {
            assert(g2[pos].0 == post[j].0);
        }
    }
}

/// A new course is inserted at its place in course order.
proof fn lemma_group_insert(
    pre: Seq<(Seq<char>, Seq<char>)>,
    p: (Seq<char>, Seq<char>),
    gv: Seq<(Seq<char>, Seq<Seq<char>>)>,
    pos: int,
)
    requires
        is_grouping(pre, gv),
        !is_foreign_course(p.0),
        0 <= pos <= gv.len(),
        forall|i: int| 0 <= i < pos ==> lex_lt(#[trigger] gv[i].0, p.0),
        pos < gv.len() ==> lex_lt(p.0, gv[pos].0),
    ensures
        is_grouping(pre.push(p), gv.insert(pos, (p.0, seq![p.1]))),
{
    let post = pre.push(p);
    let g2 = gv.insert(pos, (p.0, seq![p.1]));
    assert forall|i: int| pos <= i < gv.len() implies lex_lt(p.0, #[trigger] gv[i].0) by {
        if i > pos {
            lemma_lex_trans(p.0, gv[pos].0, gv[i].0);
        }
    }
    assert forall|i: int| 0 <= i < gv.len() implies #[trigger] gv[i].0 != p.0 by {
        lemma_lex_total(gv[i].0, p.0);
    }
    assert(urls_for(pre, p.0).len() == 0) by {
        if urls_for(pre, p.0).len() > 0 {
            lemma_urls_for_nonempty(pre, p.0);
            let j = choose|j: int| 0 <= j < pre.len() && pre[j].0 == p.0;
            let i = choose|i: int| 0 <= i < gv.len() && (#[trigger] gv[i]).0 == pre[j].0;
        }
    }
    assert forall|i: int| 0 <= i < g2.len() implies !is_foreign_course(#[trigger] g2[i].0)
        && g2[i].1 == urls_for(post, g2[i].0) && g2[i].1.len() > 0 by {
        lemma_urls_for_push(pre, p, g2[i].0);
        if i == pos {
            assert(urls_for(pre, p.0) =~= Seq::<Seq<char>>::empty());
            assert(urls_for(post, p.0) =~= seq![p.1]);
        } else if i < pos {
            assert(g2[i] == gv[i]);
        } else {
            assert(g2[i] == gv[i - 1]);
        }
    }
    assert forall|i: int, j: int| 0 <= i < j < g2.len() implies lex_lt(
        #[trigger] g2[i].0,
        #[trigger] g2[j].0,
    ) by {
        if j < pos {
            assert(g2[i] == gv[i]);
            assert(g2[j] == gv[j]);
        } else if j == pos {
            assert(g2[i] == gv[i]);
        } else if i < pos {
            assert(g2[i] == gv[i]);
            assert(g2[j] == gv[j - 1]);
            lemma_lex_trans(gv[i].0, p.0, gv[j - 1].0);
        } else if i == pos {
            assert(g2[j] == gv[j - 1]);
        } else {
            assert(g2[i] == gv[i - 1]);
            assert(g2[j] == gv[j - 1]);
        }
    }
    assert forall|j: int| 0 <= j < post.len() && !is_foreign_course(#[trigger] post[j].0) implies exists|i: int|
        0 <= i < g2.len() && (#[trigger] g2[i]).0 == post[j].0 by {
        if j < pre.len() {
            assert(post[j] == pre[j]);
            let i = choose|i: int| 0 <= i < gv.len() && (#[trigger] gv[i]).0 == pre[j].0;
            if i < pos {
                assert(g2[i] == gv[i]);
            } else {
                assert(g2[i + 1] == gv[i]);
            }
        } else {
            assert(g2[pos].0 == post[j].0);
        }
    }
}

/// The urls grouped by course, in course order, with courses of other countries
/// (a bracketed country other than `(IRE)`) left out; each course keeps its urls in
/// input order.
pub fn group_and_filter_course_urls(course_urls: Vec<(String, String)>) -> (res: Vec<(String, Vec<String>)>)
    ensures
        is_grouping(pairs_view(course_urls@), grouping_view(res@)),
{
    let ghost input = pairs_view(course_urls@);
    let mut g: Vec<(String, Vec<String>)> = Vec::new();
    let mut n: usize = 0;
    while n < course_urls.len()
        invariant
            0 <= n <= course_urls@.len(),
            input == pairs_view(course_urls@),
            is_grouping(input.take(n as int), grouping_view(g@)),
        decreases course_urls@.len() - n,
    {
        let course = course_urls[n].0.clone();
        let url = course_urls[n].1.clone();
        let cc = chars_of(course.as_str());
        let ghost pre = input.take(n as int);
        let ghost p = input[n as int];
        let ghost gv0 = grouping_view(g@);
        assert(input.take(n + 1) =~= pre.push(p));
        assert(p == (course@, url@));
        if is_foreign_country_course(&cc) {
            proof {
                lemma_group_skip(pre, p, gv0);
            }
        } else {
            let pos = group_position(&g, &cc);
            assert forall|i: int| 0 <= i < pos implies lex_lt(#[trigger] gv0[i].0, p.0) by {
                assert(gv0[i].0 == g@[i].0@);
            }
            let exists_here = if pos < g.len() {
                let k = chars_of(g[pos].0.as_str());
                crate::text::chars_eq(&k, &cc)
            } else {
                false
            };
            if exists_here {
                assert(gv0[pos as int].0 == p.0);
                let (k, mut us) = g.remove(pos);
                let ghost old_us = us.deep_view();
                assert(gv0[pos as int] == (k@, old_us));
                us.push(url);
                assert(us.deep_view() =~= old_us.push(p.1));
                g.insert(pos, (k, us));
                proof {
                    lemma_group_update(pre, p, gv0, pos as int);
                    assert(grouping_view(g@) =~= gv0.update(
                        pos as int,
                        (p.0, gv0[pos as int].1.push(p.1)),
                    ));
                }
            } else {
                proof {
                    if pos < g@.len() {
                        lemma_lex_total(gv0[pos as int].0, p.0);
                        assert(gv0[pos as int].0 == g@[pos as int].0@);
                    }
                }
                let mut us: Vec<String> = Vec::new();
                us.push(url);
                assert(us.deep_view() =~= seq![p.1]);
                g.insert(pos, (course, us));
                proof {
                    lemma_group_insert(pre, p, gv0, pos as int);
                    assert(grouping_view(g@) =~= gv0.insert(pos as int, (p.0, seq![p.1])));
                }
            }
        }
        n = n + 1;
    }
    assert(input.take(course_urls@.len() as int) =~= input);
    g
}

/// A course with urls occurs in the input.
proof fn lemma_urls_for_nonempty(input: Seq<(Seq<char>, Seq<char>)>, c: Seq<char>)
    requires
        urls_for(input, c).len() > 0,
    ensures
        exists|j: int| 0 <= j < input.len() && input[j].0 == c,
    decreases input.len(),
{
    if input.last().0 != c {
        lemma_urls_for_nonempty(input.drop_last(), c);
        let j = choose|j: int| 0 <= j < input.drop_last().len() && input.drop_last()[j].0 == c;
        assert(input[j] == input.drop_last()[j]);
    }
}

} // verus!
