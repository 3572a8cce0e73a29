//! Small text utilities: tag stripping, SVG removal and file-name slugs.
use vstd::prelude::*;
use crate::text::{
    chars_of, find_from, is_alnum, is_alnum_exec, is_ws, is_ws_exec, lemma_find_from, lower,
    lower_exec, push_char, string_of, trim, trim_bounds,
};

verus! {

// ---------------------------------------------------------------------------
// Tag stripping
// ---------------------------------------------------------------------------

/// State of the tag stripper: text so far, inside a tag, last kept character was space.
pub type StripState = (Seq<char>, bool, bool);

/// One character through the tag stripper: `<` opens a tag and `>` closes it, both
/// dropped; characters inside a tag are dropped; a run of whitespace outside tags
/// becomes one space; other characters are kept.
pub open spec fn strip_step(st: StripState, c: char) -> StripState {
    let (out, in_tag, prev_ws) = st;
    if c == '<' {
        (out, true, prev_ws)
    } else if c == '>' {
        (out, false, prev_ws)
    } else if in_tag {
        st
    } else if is_ws(c) {
        if !prev_ws {
            (out.push(' '), in_tag, true)
        } else {
            st
        }
    } else {
        (out.push(c), in_tag, false)
    }
}

/// The tag stripper run over all of `s`.
pub open spec fn strip_run(s: Seq<char>) -> StripState
    decreases s.len(),
{
    if s.len() == 0 {
        (Seq::empty(), false, false)
    } else {
        strip_step(strip_run(s.drop_last()), s.last())
    }
}

/// `s` with tags removed, whitespace runs collapsed to single spaces, and trimmed.
pub open spec fn stripped(s: Seq<char>) -> Seq<char> {
    trim(strip_run(s).0)
}

/// The stripper never keeps a `<` or a `>`, nor two whitespace characters in a row.
pub proof fn lemma_strip_run(s: Seq<char>)
    ensures
        forall|i: int|
            0 <= i < strip_run(s).0.len() ==> #[trigger] strip_run(s).0[i] != '<'
                && strip_run(s).0[i] != '>',
        forall|i: int|
            0 <= i < strip_run(s).0.len() && is_ws(#[trigger] strip_run(s).0[i]) ==> strip_run(
                s,
            ).0[i] == ' ',
        strip_run(s).2 <==> (strip_run(s).0.len() > 0 && strip_run(s).0.last() == ' '),
        forall|i: int|
            0 <= i < strip_run(s).0.len() - 1 && #[trigger] strip_run(s).0[i] == ' ' ==> strip_run(
                s,
            ).0[i + 1] != ' ',
    decreases s.len(),
{
    if s.len() > 0 {
        lemma_strip_run(s.drop_last());
    }
}

/// The shape of stripped text: no `<` or `>`, whitespace only as single spaces, and
/// neither leading nor trailing whitespace.
pub open spec fn strip_shaped(t: Seq<char>) -> bool {
    &&& forall|i: int| 0 <= i < t.len() ==> #[trigger] t[i] != '<' && t[i] != '>'
    &&& forall|i: int| 0 <= i < t.len() && is_ws(#[trigger] t[i]) ==> t[i] == ' '
    &&& forall|i: int| 0 <= i < t.len() - 1 && #[trigger] t[i] == ' ' ==> t[i + 1] != ' '
    &&& t.len() > 0 ==> !is_ws(t[0]) && !is_ws(t.last())
}

/// The stripper passes a text with no angle brackets and only single spaces through
/// unchanged.
proof fn lemma_strip_run_keeps(t: Seq<char>)
    requires
        forall|i: int| 0 <= i < t.len() ==> #[trigger] t[i] != '<' && t[i] != '>',
        forall|i: int| 0 <= i < t.len() && is_ws(#[trigger] t[i]) ==> t[i] == ' ',
        forall|i: int| 0 <= i < t.len() - 1 && #[trigger] t[i] == ' ' ==> t[i + 1] != ' ',
    ensures
        strip_run(t) == (t, false, t.len() > 0 && t.last() == ' '),
    decreases t.len(),
{
    if t.len() > 0 {
        let f = t.drop_last();
        assert forall|i: int| 0 <= i < f.len() implies #[trigger] f[i] != '<' && f[i] != '>' by {
            assert(f[i] == t[i]);
        }
        assert forall|i: int| 0 <= i < f.len() && is_ws(#[trigger] f[i]) implies f[i] == ' ' by {
            assert(f[i] == t[i]);
        }
        assert forall|i: int| 0 <= i < f.len() - 1 && #[trigger] f[i] == ' ' implies f[i + 1] != ' ' by {
            assert(f[i] == t[i]);
            assert(f[i + 1] == t[i + 1]);
        }
        lemma_strip_run_keeps(f);
        let c = t.last();
        assert(c == t[t.len() - 1]);
        if f.len() > 0 {
            assert(f.last() == t[t.len() - 2]);
        }
        assert(f.push(c) =~= t);
    } else {
        assert(t =~= Seq::<char>::empty());
    }
}

/// Stripped text has the stripped shape, and stripping it again changes nothing.
pub proof fn lemma_stripped_idempotent(s: Seq<char>)
    ensures
        strip_shaped(stripped(s)),
        stripped(stripped(s)) == stripped(s),
{
    let x = strip_run(s).0;
    lemma_strip_run(s);
    crate::text::lemma_trim_start(x);
    let k = choose|k: int|
        0 <= k <= x.len() && crate::text::trim_start(x) == x.subrange(k, x.len() as int) && (forall|j: int|
            0 <= j < k ==> is_ws(#[trigger] x[j])) && (k < x.len() ==> !is_ws(x[k]));
    let y = crate::text::trim_start(x);
    crate::text::lemma_trim_end(y);
    let e = choose|e: int| 0 <= e <= y.len() && crate::text::trim_end(y) == y.take(e) && (e > 0 ==> !is_ws(y[e - 1]));
    let r = stripped(s);
    assert(r == y.take(e));
    assert forall|i: int| 0 <= i < r.len() implies r[i] == x[k + i] by {
        assert(r[i] == y[i]);
    }
    assert forall|i: int| 0 <= i < r.len() implies #[trigger] r[i] != '<' && r[i] != '>' by {
        assert(r[i] == x[k + i]);
    }
    assert forall|i: int| 0 <= i < r.len() && is_ws(#[trigger] r[i]) implies r[i] == ' ' by {
        assert(r[i] == x[k + i]);
    }
    assert forall|i: int| 0 <= i < r.len() - 1 && #[trigger] r[i] == ' ' implies r[i + 1] != ' ' by {
        assert(r[i] == x[k + i]);
        assert(r[i + 1] == x[k + i + 1]);
    }
    if r.len() > 0 {
        assert(r[0] == x[k]);
        assert(r.last() == y[e - 1]);
    }
    lemma_strip_run_keeps(r);
    crate::text::lemma_trim_whole(r);
}

/// Tags removed, whitespace collapsed, trimmed (`inner` run over the text).
fn strip_inner(s: &[char]) -> (res: Vec<char>)
    ensures
        res@ == strip_run(s@).0,
{
    let mut out: Vec<char> = Vec::new();
    let mut in_tag = false;
    let mut prev_ws = false;
    let mut i: usize = 0;
    while i < s.len()
        invariant
            0 <= i <= s@.len(),
            strip_run(s@.take(i as int)) == (out@, in_tag, prev_ws),
        decreases s@.len() - i,
    {
        let c = s[i];
        assert(s@.take(i + 1).drop_last() =~= s@.take(i as int));
        if c == '<' {
            in_tag = true;
        } else if c == '>' {
            in_tag = false;
        } else if in_tag {
        } else if is_ws_exec(c) {
            if !prev_ws {
                out.push(' ');
                prev_ws = true;
            }
        } else {
            out.push(c);
            prev_ws = false;
        }
        i = i + 1;
    }
    assert(s@.take(s@.len() as int) =~= s@);
    out
}

/// The text of an HTML fragment: tags removed, each run of whitespace collapsed to
/// one space, and leading and trailing whitespace trimmed. The result holds no `<`
/// or `>`.
pub fn strip_tags_and_collapse_ws(s: &str) -> (res: String)
    ensures
        res@ == stripped(s@),
        forall|i: int| 0 <= i < res@.len() ==> #[trigger] res@[i] != '<' && res@[i] != '>',
        strip_shaped(res@),
        stripped(res@) == res@,
{
    proof {
        lemma_stripped_idempotent(s@);
    }
    let c = chars_of(s);
    let v = stripped_chars(&c);
    assert(v@.subrange(0, v@.len() as int) =~= v@);
    string_of(&v, 0, v.len())
}

/// Tags removed, whitespace collapsed and trimmed (characters version).
pub fn stripped_chars(c: &[char]) -> (res: Vec<char>)
    ensures
        res@ == stripped(c@),
        forall|i: int| 0 <= i < res@.len() ==> #[trigger] res@[i] != '<' && res@[i] != '>',
{
    let inner = strip_inner(c);
    let (a, b) = trim_bounds(&inner, 0, inner.len());
    assert(inner@.subrange(0, inner@.len() as int) =~= inner@);
    proof {
        lemma_strip_run(c@);
    }
    let r = crate::text::slice_chars(&inner, a, b);
    assert forall|i: int| 0 <= i < r@.len() implies #[trigger] r@[i] != '<' && r@[i] != '>' by {
        assert(r@[i] == strip_run(c@).0[a + i]);
    }
    r
}

// ---------------------------------------------------------------------------
// SVG removal
// ---------------------------------------------------------------------------

/// `s` from `i` on with every `<svg`...`</svg>` block removed; an `<svg` with no
/// closing tag removes everything from it on.
pub open spec fn svg_removed(s: Seq<char>, i: int) -> Seq<char>
    decreases s.len() + 1 - i,
{
    if i < 0 || i > s.len() {
        Seq::empty()
    } else {
        match find_from(s, i, "<svg"@) {
            None => s.subrange(i, s.len() as int),
            Some(st) => match find_from(s, st, "</svg>"@) {
                None => s.subrange(i, st),
                Some(e) => {
                    proof {
                        lemma_svg_advances(s, i, st, e);
                    }
                    s.subrange(i, st) + svg_removed(s, e + "</svg>"@.len())
                },
            },
        }
    }
}

/// Each removed block ends after the point where the search started.
pub proof fn lemma_svg_advances(s: Seq<char>, i: int, st: int, e: int)
    requires
        0 <= i <= s.len(),
        find_from(s, i, "<svg"@) == Some(st),
        find_from(s, st, "</svg>"@) == Some(e),
    ensures
        i <= st <= e,
        i < e + "</svg>"@.len() <= s.len(),
{
    reveal_strlit("</svg>");
    lemma_find_from(s, i, "<svg"@);
    lemma_find_from(s, st, "</svg>"@);
}

/// `s` with every `<svg ...>...</svg>` block removed. When an `<svg` has no closing
/// tag, the text from that `<svg` on is dropped.
pub fn remove_svg_blocks(s: &str) -> (res: String)
    ensures
        res@ == svg_removed(s@, 0),
{
    let h = chars_of(s);
    let out = svg_removed_chars(&h);
    assert(out@.subrange(0, out@.len() as int) =~= out@);
    string_of(&out, 0, out.len())
}

/// `h` with every SVG block removed (characters version).
pub fn svg_removed_chars(h: &[char]) -> (res: Vec<char>)
    ensures
        res@ == svg_removed(h@, 0),
{
    let open = chars_of("<svg");
    let close = chars_of("</svg>");
    proof {
        reveal_strlit("</svg>");
    }
    let mut out: Vec<char> = Vec::new();
    let mut i: usize = 0;
    loop
        invariant
            i <= h@.len(),
            open@ == "<svg"@,
            close@ == "</svg>"@,
            close@.len() == 6,
            out@ + svg_removed(h@, i as int) == svg_removed(h@, 0),
        decreases h@.len() - i,
    {
        match crate::text::find_chars(h, i, &open) {
            None => {
                let mut k = i;
                let ghost base = out@;
                while k < h.len()
                    invariant
                        i <= k <= h@.len(),
                        out@ == base + h@.subrange(i as int, k as int),
                        base + svg_removed(h@, i as int) == svg_removed(h@, 0),
                    decreases h@.len() - k,
                {
                    out.push(h[k]);
                    assert(h@.subrange(i as int, k + 1) =~= h@.subrange(i as int, k as int).push(
                        h@[k as int],
                    ));
                    k = k + 1;
                }
                assert(svg_removed(h@, i as int) == h@.subrange(i as int, h@.len() as int));
                return out;
            },
            Some(st) => {
                let mut k = i;
                let ghost base = out@;
                while k < st
                    invariant
                        i <= k <= st <= h@.len(),
                        out@ == base + h@.subrange(i as int, k as int),
                        base + svg_removed(h@, i as int) == svg_removed(h@, 0),
                    decreases st - k,
                {
                    out.push(h[k]);
                    assert(h@.subrange(i as int, k + 1) =~= h@.subrange(i as int, k as int).push(
                        h@[k as int],
                    ));
                    k = k + 1;
                }
                match crate::text::find_chars(h, st, &close) {
                    None => {
                        assert(svg_removed(h@, i as int) == h@.subrange(i as int, st as int));
                        return out;
                    },
                    Some(e) => {
                        proof {
                            lemma_svg_advances(h@, i as int, st as int, e as int);
                        }
                        assert(svg_removed(h@, i as int) == h@.subrange(i as int, st as int)
                            + svg_removed(h@, e + 6));
                        i = e + 6;
                    },
                }
            },
        }
    }
}

// ---------------------------------------------------------------------------
// File-name slugs
// ---------------------------------------------------------------------------

/// One character of a slug: ASCII letters and digits lower-cased, all else `_`.
pub open spec fn slug_char(c: char) -> char {
    if is_alnum(c) {
        lower(c)
    } else {
        '_'
    }
}

/// `s` without leading and trailing underscores.
pub open spec fn trim_underscores(s: Seq<char>) -> Seq<char>
    decreases s.len(),
{
    if s.len() > 0 && s[0] == '_' {
        trim_underscores(s.drop_first())
    } else if s.len() > 0 && s.last() == '_' {
        trim_underscores(s.drop_last())
    } else {
        s
    }
}

/// A file-name component made from `s`: each character mapped by `slug_char`, then
/// underscores trimmed from both ends.
pub open spec fn sanitized(s: Seq<char>) -> Seq<char> {
    trim_underscores(s.map_values(|c: char| slug_char(c)))
}

/// The slug of a course, or `unknown` when it is empty.
pub open spec fn slug_or_unknown_spec(course: Seq<char>) -> Seq<char> {
    if sanitized(course).len() == 0 {
        "unknown"@
    } else {
        sanitized(course)
    }
}

/// Trimming underscores from both ends keeps the middle that starts and ends with
/// a non-underscore.
proof fn lemma_trim_underscores(s: Seq<char>, a: int, b: int)
    requires
        0 <= a <= b <= s.len(),
        forall|j: int| 0 <= j < a ==> s[j] == '_',
        forall|j: int| b <= j < s.len() ==> s[j] == '_',
        a == b || (s[a] != '_' && s[b - 1] != '_'),
    ensures
        trim_underscores(s) == s.subrange(a, b),
    decreases s.len(),
{
    if s.len() > 0 && s[0] == '_' {
        if a == 0 {
            assert(a == b);
            assert(b == s.len() || s[b] == '_');
            lemma_all_underscores(s);
            assert(s.subrange(a, b) =~= Seq::<char>::empty());
        } else {
            lemma_trim_underscores(s.drop_first(), a - 1, b - 1);
            assert(s.drop_first().subrange(a - 1, b - 1) =~= s.subrange(a, b));
        }
    } else if s.len() > 0 && s.last() == '_' {
        if b == s.len() {
            assert(a == b);
            lemma_all_underscores(s);
            assert(s.subrange(a, b) =~= Seq::<char>::empty());
        } else {
            lemma_trim_underscores(s.drop_last(), a, b);
            assert(s.drop_last().subrange(a, b) =~= s.subrange(a, b));
        }
    } else {
        if a == b && s.len() > 0 {
            assert(a < s.len() || b > 0);
        }
        assert(s.subrange(a, b) =~= s);
    }
}

/// A text of underscores trims to nothing.
proof fn lemma_all_underscores(s: Seq<char>)
    requires
        forall|j: int| 0 <= j < s.len() ==> s[j] == '_',
    ensures
        trim_underscores(s) == Seq::<char>::empty(),
    decreases s.len(),
{
    if s.len() > 0 {
        lemma_all_underscores(s.drop_first());
    }
}

/// The characters a slug may hold: lower-case ASCII letters, digits and `_`.
pub open spec fn slug_safe_char(c: char) -> bool {
    ('a' <= c && c <= 'z') || crate::text::is_digit(c) || c == '_'
}

/// Trimming underscores keeps a stretch of the text that is empty or starts and
/// ends with something else.
proof fn lemma_trim_underscores_shape(s: Seq<char>)
    ensures
        exists|a: int, b: int| 0 <= a <= b <= s.len() && trim_underscores(s) == s.subrange(a, b),
        trim_underscores(s).len() > 0 ==> trim_underscores(s)[0] != '_' && trim_underscores(s).last() != '_',
    decreases s.len(),
{
    if s.len() > 0 && s[0] == '_' {
        let t = s.drop_first();
        lemma_trim_underscores_shape(t);
        let (a, b) = choose|a: int, b: int| 0 <= a <= b <= t.len() && trim_underscores(t) == t.subrange(a, b);
        assert(t.subrange(a, b) =~= s.subrange(a + 1, b + 1));
    } else if s.len() > 0 && s.last() == '_' {
        let t = s.drop_last();
        lemma_trim_underscores_shape(t);
        let (a, b) = choose|a: int, b: int| 0 <= a <= b <= t.len() && trim_underscores(t) == t.subrange(a, b);
        assert(t.subrange(a, b) =~= s.subrange(a, b));
    } else {
        assert(s.subrange(0, s.len() as int) =~= s);
    }
}

/// A file-name component holds only lower-case ASCII letters, digits and `_`, and
/// neither starts nor ends with `_`; a course's slug is never empty.
pub proof fn lemma_sanitized_safe(s: Seq<char>)
    ensures
        forall|i: int| 0 <= i < sanitized(s).len() ==> slug_safe_char(#[trigger] sanitized(s)[i]),
        sanitized(s).len() > 0 ==> sanitized(s)[0] != '_' && sanitized(s).last() != '_',
        slug_or_unknown_spec(s).len() > 0,
{
    reveal_strlit("unknown");
    let m = s.map_values(|c: char| slug_char(c));
    assert forall|j: int| 0 <= j < m.len() implies slug_safe_char(#[trigger] m[j]) by {
        let c = s[j];
        if 'A' <= c && c <= 'Z' {
            assert(('a' <= lower(c) && lower(c) <= 'z'));
        }
    }
    lemma_trim_underscores_shape(m);
    let (a, b) = choose|a: int, b: int| 0 <= a <= b <= m.len() && trim_underscores(m) == m.subrange(a, b);
    assert forall|i: int| 0 <= i < sanitized(s).len() implies slug_safe_char(#[trigger] sanitized(s)[i]) by {
        assert(sanitized(s)[i] == m[a + i]);
    }
}

/// A file-name component: ASCII letters and digits lower-cased, every other
/// character replaced by `_`, and underscores trimmed from both ends.
pub fn sanitize_filename_component(s: &str) -> (res: String)
    ensures
        res@ == sanitized(s@),
{
    let c = chars_of(s);
    let mut m: Vec<char> = Vec::new();
    let mut i: usize = 0;
    while i < c.len()
        invariant
            0 <= i <= c@.len(),
            m@ == c@.take(i as int).map_values(|c: char| slug_char(c)),
        decreases c@.len() - i,
    {
        let x = c[i];
        let y = if is_alnum_exec(x) {
            lower_exec(x)
        } else {
            '_'
        };
        m.push(y);
        assert(c@.take(i + 1).map_values(|c: char| slug_char(c)) =~= c@.take(i as int).map_values(
            |c: char| slug_char(c),
        ).push(y));
        i = i + 1;
    }
    assert(c@.take(c@.len() as int) =~= c@);
    let mut a: usize = 0;
    while a < m.len() && m[a] == '_'
        invariant
            0 <= a <= m@.len(),
            forall|j: int| 0 <= j < a ==> m@[j] == '_',
        decreases m@.len() - a,
    {
        a = a + 1;
    }
    let mut b: usize = m.len();
    while b > a && m[b - 1] == '_'
        invariant
            a <= b <= m@.len(),
            forall|j: int| b <= j < m@.len() ==> m@[j] == '_',
        decreases b - a,
    {
        b = b - 1;
    }
    proof {
        lemma_trim_underscores(m@, a as int, b as int);
    }
    string_of(&m, a, b)
}

/// The slug of a course for file names, or `unknown` when the slug is empty.
pub fn slug_or_unknown(course: &str) -> (res: String)
    ensures
        res@ == slug_or_unknown_spec(course@),
{
    let s = sanitize_filename_component(course);
    if s.as_str().is_empty() {
        String::from_str("unknown")
    } else {
        s
    }
}


// ---------------------------------------------------------------------------
// Pauses of varying length
// ---------------------------------------------------------------------------

/// The number `mixed` picks in `min..=max`: `min` for an empty range.
pub open spec fn in_range_pick(min: u64, max: u64, mixed: u64) -> int {
    if max <= min {
        min as int
    } else {
        min + (mixed as int) % (max - min + 1)
    }
}

/// The pick lies in `min..=max` (is `min` for an empty range), and every number of
/// the range is picked by some mix: `v - min` picks `v`.
pub proof fn lemma_pick_covers_range(min: u64, max: u64, mixed: u64, v: u64)
    ensures
        max <= min ==> in_range_pick(min, max, mixed) == min,
        min < max ==> min <= in_range_pick(min, max, mixed) <= max,
        min < max && min <= v <= max ==> in_range_pick(min, max, (v - min) as u64) == v,
{
    if min < max {
        let span: int = max - min + 1;
        assert(0 <= (mixed as int) % span < span);
        if min <= v <= max {
            assert(((v - min) as u64) as int == v - min);
            assert((v - min) % span == v - min) by (nonlinear_arith)
                requires
                    0 <= v - min < span,
            ;
        }
    }
}

/// The number `mixed` picks in `min..=max`; the range may not be all of `u64`.
pub fn pick_in_range(min_ms: u64, max_ms: u64, mixed: u64) -> (res: u64)
    requires
        max_ms <= min_ms || max_ms - min_ms < u64::MAX,
    ensures
        res == in_range_pick(min_ms, max_ms, mixed),
        max_ms <= min_ms ==> res == min_ms,
        min_ms < max_ms ==> min_ms <= res <= max_ms,
{
    proof {
        lemma_pick_covers_range(min_ms, max_ms, mixed, min_ms);
    }
    if max_ms <= min_ms {
        return min_ms;
    }
    let span = max_ms - min_ms + 1;
    min_ms + (mixed % span)
}

/// The time since the Unix epoch by the system clock
/// (`SystemTime::now().duration_since(UNIX_EPOCH)`), as whole nanoseconds and whole
/// seconds; `None` when the clock is before the epoch. It depends on when it is
/// called, so nothing is stated of it.
#[verifier::external_body]
fn clock_since_epoch() -> (res: Option<(u128, u64)>) {
    match std::time::SystemTime::now().duration_since(std::time::UNIX_EPOCH) {
        Ok(d) => Some((d.as_nanos(), d.as_secs())),
        Err(_) => None,
    }
}

/// The number a clock reading picks in `min..=max`: the reading's nanoseconds,
/// cut to 64 bits, mixed with its seconds by exclusive or.
pub fn pick_from_clock(min_ms: u64, max_ms: u64, nanos: u128, secs: u64) -> (res: u64)
    requires
        max_ms <= min_ms || max_ms - min_ms < u64::MAX,
    ensures
        res == in_range_pick(min_ms, max_ms, (nanos as u64) ^ secs),
{
    let mixed: u64 = (nanos as u64) ^ secs;
    pick_in_range(min_ms, max_ms, mixed)
}

/// A number in `min..=max` picked by the clock's reading (a reading of zero when
/// the clock is before the epoch), for pauses of varying length.
pub fn pseudo_random_in_range(min_ms: u64, max_ms: u64) -> (res: u64)
    requires
        max_ms <= min_ms || max_ms - min_ms < u64::MAX,
    ensures
        max_ms <= min_ms ==> res == min_ms,
        min_ms < max_ms ==> min_ms <= res <= max_ms,
{
    let (nanos, secs) = match clock_since_epoch() {
        Some(reading) => reading,
        None => (0, 0),
    };
    pick_from_clock(min_ms, max_ms, nanos, secs)
}

} // verus!
