//! The racecard urls of the time-order page: what counts as a racecard url, what it
//! names, and where its page is saved.
use vstd::prelude::*;
use crate::text::{
    join, chars_of, find, find_chars, trim, trimmed_chars, trim_end_char, starts_with, is_ws,
    is_ws_exec, is_digit, is_digit_exec, all_digits, string_of, slice_chars, push_str, ch,
    vecs_view,
};
use crate::racecard::{strip_prefix, strip_prefix_chars, path_parts, path_parts_exec};
use crate::racingpost::starts_with_lit;
use crate::sorted::{sorted_set, sorted_unique, strings_view, strictly_sorted, same_texts, lemma_sorted_unique};

verus! {

/// The site prefix of absolute racecard urls.
pub open spec fn site() -> Seq<char> {
    "https://www.racingpost.com"@
}

/// `s` up to the first `c`, or all of `s`.
pub open spec fn before_char(s: Seq<char>, c: char) -> Seq<char> {
    match find(s, ch(c)) {
        Some(i) => s.subrange(0, i),
        None => s,
    }
}

/// A racecards link made absolute: trimmed, without fragment and query, without
/// trailing `/`; an empty link is none.
pub open spec fn normalized_racecards_url(raw: Seq<char>) -> Option<Seq<char>> {
    let t = trim_end_char(before_char(before_char(trim(raw), '#'), '?'), '/');
    if t.len() == 0 {
        None
    } else if starts_with(t, "http://"@) || starts_with(t, "https://"@) {
        Some(t)
    } else {
        Some(site() + t)
    }
}

/// `s` up to the first `c`.
fn before_char_exec(s: &[char], c: char) -> (res: Vec<char>)
    ensures
        res@ == before_char(s@, c),
{
    let cc: [char; 1] = [c];
    assert(cc@ =~= ch(c));
    match find_chars(s, 0, &cc) {
        Some(i) => slice_chars(s, 0, i),
        None => {
            proof {
                assert(s@.subrange(0, s@.len() as int) =~= s@);
            }
            slice_chars(s, 0, s.len())
        },
    }
}

/// A racecards link made absolute, or `None` when nothing is left of it.
pub fn normalize_racecards_url(raw: &str) -> (res: Option<String>)
    ensures
        match res {
            Some(u) => normalized_racecards_url(raw@) == Some(u@),
            None => normalized_racecards_url(raw@) is None,
        },
{
    let rc = chars_of(raw);
    let t = trimmed_chars(&rc, 0, rc.len());
    assert(rc@.subrange(0, rc@.len() as int) =~= rc@);
    let a = before_char_exec(&t, '#');
    let b = before_char_exec(&a, '?');
    let e = crate::text::trim_end_char_chars(&b, '/');
    let no_q = slice_chars(&b, 0, e);
    if no_q.len() == 0 {
        return None;
    }
    if starts_with_lit(&no_q, "http://") || starts_with_lit(&no_q, "https://") {
        assert(no_q@.subrange(0, no_q@.len() as int) =~= no_q@);
        Some(string_of(&no_q, 0, no_q.len()))
    } else {
        let mut out = String::new();
        push_str(&mut out, "https://www.racingpost.com");
        let tail = string_of(&no_q, 0, no_q.len());
        assert(no_q@.subrange(0, no_q@.len() as int) =~= no_q@);
        push_str(&mut out, tail.as_str());
        Some(out)
    }
}

/// The path of a url: without the site prefix when it has it.
pub open spec fn url_path(url: Seq<char>) -> Seq<char> {
    match strip_prefix(url, site()) {
        Some(p) => p,
        None => url,
    }
}

/// A date text `YYYY-MM-DD`.
pub open spec fn is_date_text(d: Seq<char>) -> bool {
    &&& d.len() == 10
    &&& d[4] == '-' && d[7] == '-'
    &&& forall|i: int| 0 <= i < 10 && i != 4 && i != 7 ==> is_digit(#[trigger] d[i])
}

/// A racecard detail path: `racecards/<course no>/<course slug>/<date>/<race id>`,
/// with a numeric course number and race id, in its non-empty parts.
pub open spec fn is_detail_path(path: Seq<char>) -> bool {
    let p = path_parts(path);
    &&& p.len() == 5
    &&& p[0] == "racecards"@
    &&& all_digits(p[1])
    &&& p[2].len() > 0
    &&& is_date_text(p[3])
    &&& all_digits(p[4])
}

/// Whether a text is all ASCII digits.
pub fn all_digits_chars(s: &[char]) -> (res: bool)
    ensures
        res == all_digits(s@),
{
    let mut i: usize = 0;
    while i < s.len()
        invariant
            i <= s@.len(),
            forall|j: int| 0 <= j < i ==> is_digit(#[trigger] s@[j]),
        decreases s@.len() - i,
    {
        if !is_digit_exec(s[i]) {
            return false;
        }
        i = i + 1;
    }
    true
}

/// Whether a text is a date `YYYY-MM-DD`.
fn is_date_chars(d: &[char]) -> (res: bool)
    ensures
        res == is_date_text(d@),
{
    if d.len() != 10 || d[4] != '-' || d[7] != '-' {
        return false;
    }
    let mut i: usize = 0;
    while i < 10
        invariant
            i <= 10,
            d@.len() == 10,
            forall|j: int| 0 <= j < i && j != 4 && j != 7 ==> is_digit(#[trigger] d@[j]),
        decreases 10 - i,
    {
        if i != 4 && i != 7 && !is_digit_exec(d[i]) {
            return false;
        }
        i = i + 1;
    }
    true
}

/// Whether a path is a racecard detail path.
pub fn is_racecard_detail_path(path: &[char]) -> (res: bool)
    ensures
        res == is_detail_path(path@),
{
    let parts = path_parts_exec(path);
    let ghost pv = vecs_view(parts@);
    if parts.len() != 5 {
        return false;
    }
    assert(pv[0] == parts@[0]@ && pv[1] == parts@[1]@ && pv[2] == parts@[2]@);
    assert(pv[3] == parts@[3]@ && pv[4] == parts@[4]@);
    let rc = chars_of("racecards");
    if !crate::text::chars_eq(&parts[0], &rc) {
        return false;
    }
    if !all_digits_chars(&parts[1]) {
        return false;
    }
    if parts[2].len() == 0 {
        return false;
    }
    if !is_date_chars(&parts[3]) {
        return false;
    }
    all_digits_chars(&parts[4])
}

/// The path of a url, without the site prefix when it has it.
fn url_path_exec(url: &[char]) -> (res: Vec<char>)
    ensures
        res@ == url_path(url@),
{
    match strip_prefix_chars(url, "https://www.racingpost.com") {
        Some(p) => p,
        None => {
            assert(url@.subrange(0, url@.len() as int) =~= url@);
            slice_chars(url, 0, url.len())
        },
    }
}

/// A url kept when its path is a racecard detail path.
pub fn filter_racecard_detail_url(url: String) -> (res: Option<String>)
    ensures
        res matches Some(u) ==> u@ == url@ && is_detail_path(url_path(url@)),
        res is None <==> !is_detail_path(url_path(url@)),
{
    let c = chars_of(url.as_str());
    let p = url_path_exec(&c);
    if is_racecard_detail_path(&p) {
        Some(url)
    } else {
        None
    }
}

/// What a racecard url names.
pub struct RacecardInfo {
    pub course_no: String,
    pub course_slug: String,
    pub race_date: String,
    pub race_id: String,
}

/// The four names of a racecard url as texts.
pub type InfoView = (Seq<char>, Seq<char>, Seq<char>, Seq<char>);

impl RacecardInfo {
    pub open spec fn view_of(&self) -> InfoView {
        (self.course_no@, self.course_slug@, self.race_date@, self.race_id@)
    }
}

/// What a url names when its path has five parts and begins with `racecards`.
pub open spec fn racecard_info_of(url: Seq<char>) -> Option<InfoView> {
    let p = path_parts(url_path(url));
    if p.len() == 5 && p[0] == "racecards"@ {
        Some((p[1], p[2], p[3], p[4]))
    } else {
        None
    }
}

/// Dropping the empty pieces of an empty piece followed by non-empty ones leaves
/// those.
pub proof fn lemma_non_empty_after_empty(xs: Seq<Seq<char>>)
    requires
        forall|i: int| 0 <= i < xs.len() ==> (#[trigger] xs[i]).len() > 0,
    ensures
        crate::racecard::non_empty(seq![Seq::<char>::empty()] + xs) == xs,
    decreases xs.len(),
{
    let e = seq![Seq::<char>::empty()];
    if xs.len() == 0 {
        assert(e + xs =~= e);
        assert(e.drop_last() =~= Seq::<Seq<char>>::empty());
        assert(crate::racecard::non_empty(Seq::<Seq<char>>::empty()) == Seq::<Seq<char>>::empty());
        assert(e.last() == Seq::<char>::empty());
        assert(crate::racecard::non_empty(e) =~= xs);
    } else {
        let d = xs.drop_last();
        assert forall|i: int| 0 <= i < d.len() implies (#[trigger] d[i]).len() > 0 by {
            assert(d[i] == xs[i]);
        }
        lemma_non_empty_after_empty(d);
        assert((e + xs).drop_last() =~= e + d);
        assert((e + xs).last() == xs.last());
        assert(xs.last() == xs[xs.len() - 1]);
        assert(d.push(xs.last()) =~= xs);
    }
}

/// A racecard url `<site>/racecards/<course no>/<course slug>/<date>/<race id>`
/// names those four parts in that order, and its page is saved in `out_dir` as
/// `<date>-<course no>-<course slug>-<race id>.html`.
pub proof fn lemma_racecard_url_names(
    out_dir: Seq<char>,
    no: Seq<char>,
    slug: Seq<char>,
    date: Seq<char>,
    id: Seq<char>,
    seq: nat,
)
    requires
        no.len() > 0 && !no.contains('/'),
        slug.len() > 0 && !slug.contains('/'),
        date.len() > 0 && !date.contains('/'),
        id.len() > 0 && !id.contains('/'),
    ensures
        racecard_info_of(site() + "/racecards/"@ + no + "/"@ + slug + "/"@ + date + "/"@ + id) == Some(
            (no, slug, date, id),
        ),
        racecard_html_path_of(
            out_dir,
            site() + "/racecards/"@ + no + "/"@ + slug + "/"@ + date + "/"@ + id,
            seq,
        ) == trim_end_char(out_dir, '/') + "/"@ + date + "-"@ + no + "-"@ + slug + "-"@ + id + ".html"@,
{
    let sl = seq!['/'];
    let rc = "racecards"@;
    let e = Seq::<char>::empty();
    let parts = seq![e, rc, no, slug, date, id];
    let rest = seq![rc, no, slug, date, id];
    let path = "/racecards/"@ + no + "/"@ + slug + "/"@ + date + "/"@ + id;
    let url = site() + "/racecards/"@ + no + "/"@ + slug + "/"@ + date + "/"@ + id;
    assert(url =~= site() + path);
    assert(join(parts, sl) == path) by {
        reveal_strlit("/racecards/");
        reveal_strlit("/");
        reveal_strlit("racecards");
        let p1 = seq![e];
        let p2 = seq![e, rc];
        let p3 = seq![e, rc, no];
        let p4 = seq![e, rc, no, slug];
        let p5 = seq![e, rc, no, slug, date];
        assert(p2.drop_last() =~= p1);
        assert(p3.drop_last() =~= p2);
        assert(p4.drop_last() =~= p3);
        assert(p5.drop_last() =~= p4);
        assert(parts.drop_last() =~= p5);
        assert(join(p1, sl) == e);
        assert(join(p2, sl) == e + sl + rc);
        assert(join(p3, sl) == join(p2, sl) + sl + no);
        assert(join(p4, sl) == join(p3, sl) + sl + slug);
        assert(join(p5, sl) == join(p4, sl) + sl + date);
        assert(join(parts, sl) == join(p5, sl) + sl + id);
        assert(join(parts, sl) =~= path);
    }
    assert(crate::text::split_char(path, '/') == parts) by {
        assert(!rc.contains('/')) by {
            reveal_strlit("racecards");
            if rc.contains('/') {
                let k = choose|k: int| 0 <= k < rc.len() && rc[k] == '/';
            }
        }
        assert(!e.contains('/'));
        assert forall|i: int| 0 <= i < parts.len() implies !(#[trigger] parts[i]).contains('/') by {}
        crate::text::lemma_split_join(parts, '/');
    }
    assert(crate::racecard::path_parts(path) == rest) by {
        assert(rc.len() > 0) by {
            reveal_strlit("racecards");
        }
        assert(parts =~= seq![e] + rest);
        assert forall|i: int| 0 <= i < rest.len() implies (#[trigger] rest[i]).len() > 0 by {}
        lemma_non_empty_after_empty(rest);
    }
    assert(url_path(url) == path) by {
        assert(url.subrange(0, site().len() as int) =~= site());
        assert(url.subrange(site().len() as int, url.len() as int) =~= path);
    }
    assert(racecard_info_of(url) == Some((no, slug, date, id)));
}

/// Course number, course slug, date and race id of a racecard url.
pub fn parse_racecard_detail_url(url: &str) -> (res: Option<RacecardInfo>)
    ensures
        match res {
            Some(i) => racecard_info_of(url@) == Some(i.view_of()),
            None => racecard_info_of(url@) is None,
        },
{
    let c = chars_of(url);
    let p = url_path_exec(&c);
    let parts = path_parts_exec(&p);
    let ghost pv = vecs_view(parts@);
    if parts.len() != 5 {
        return None;
    }
    assert(pv[0] == parts@[0]@ && pv[1] == parts@[1]@ && pv[2] == parts@[2]@);
    assert(pv[3] == parts@[3]@ && pv[4] == parts@[4]@);
    let rc = chars_of("racecards");
    if !crate::text::chars_eq(&parts[0], &rc) {
        return None;
    }
    assert(parts@[1]@.subrange(0, parts@[1]@.len() as int) =~= parts@[1]@);
    assert(parts@[2]@.subrange(0, parts@[2]@.len() as int) =~= parts@[2]@);
    assert(parts@[3]@.subrange(0, parts@[3]@.len() as int) =~= parts@[3]@);
    assert(parts@[4]@.subrange(0, parts@[4]@.len() as int) =~= parts@[4]@);
    Some(
        RacecardInfo {
            course_no: string_of(&parts[1], 0, parts[1].len()),
            course_slug: string_of(&parts[2], 0, parts[2].len()),
            race_date: string_of(&parts[3], 0, parts[3].len()),
            race_id: string_of(&parts[4], 0, parts[4].len()),
        },
    )
}


// ---------------------------------------------------------------------------
// The racecard urls of a page
// ---------------------------------------------------------------------------

/// A character that ends a link in the page text.
pub open spec fn is_url_stop(c: char) -> bool {
    c == '"' || c == '\'' || is_ws(c) || c == '<' || c == '>'
}

/// The first link end at or after `i`, or the end of the text.
pub open spec fn url_stop_from(h: Seq<char>, i: int) -> int
    decreases h.len() - i,
{
    if i < 0 || i >= h.len() {
        h.len() as int
    } else if is_url_stop(h[i]) {
        i
    } else {
        url_stop_from(h, i + 1)
    }
}

/// A racecard detail url made from a link.
pub open spec fn racecard_link(raw: Seq<char>) -> Option<Seq<char>> {
    match normalized_racecards_url(raw) {
        Some(u) => if is_detail_path(url_path(u)) {
            Some(u)
        } else {
            None
        },
        None => None,
    }
}

/// The racecard detail urls of the links from `start` on, in page order: each link
/// runs from a `/racecards/` to the next link end.
pub open spec fn racecard_links_from(h: Seq<char>, start: int) -> Seq<Seq<char>>
    decreases h.len() - start,
{
    if start < 0 || start > h.len() {
        Seq::empty()
    } else {
        match crate::text::find_from(h, start, "/racecards/"@) {
            None => Seq::empty(),
            Some(idx) => {
                let end = url_stop_from(h, idx);
                if end <= start || end > h.len() {
                    Seq::empty()
                } else {
                    (match racecard_link(h.subrange(idx, end)) {
                        Some(u) => seq![u],
                        None => Seq::empty(),
                    }) + racecard_links_from(h, end)
                }
            },
        }
    }
}

/// The link end from `i` is at or after `i`.
pub proof fn lemma_url_stop_ge(h: Seq<char>, i: int)
    requires
        0 <= i,
    ensures
        url_stop_from(h, i) >= i || i > h.len(),
    decreases h.len() - i,
{
    if i < h.len() && !is_url_stop(h[i]) {
        lemma_url_stop_ge(h, i + 1);
    }
}

/// Whether a character ends a link.
fn is_url_stop_exec(c: char) -> (res: bool)
    ensures
        res == is_url_stop(c),
{
    c == '"' || c == '\'' || is_ws_exec(c) || c == '<' || c == '>'
}

/// The end of the link that starts at `idx`.
pub(crate) fn url_stop_exec(h: &[char], idx: usize) -> (res: usize)
    requires
        idx <= h@.len(),
    ensures
        res == url_stop_from(h@, idx as int),
        idx <= res <= h@.len(),
{
    let mut j = idx;
    while j < h.len() && !is_url_stop_exec(h[j])
        invariant
            idx <= j <= h@.len(),
            url_stop_from(h@, idx as int) == url_stop_from(h@, j as int),
        decreases h@.len() - j,
    {
        j = j + 1;
    }
    j
}

/// The racecard detail urls linked from the page, each once, sorted.
pub fn extract_racecard_urls(html: &str) -> (res: Vec<String>)
    ensures
        strings_view(res@) == sorted_set(racecard_links_from(html@, 0)),
        strictly_sorted(strings_view(res@)),
        same_texts(strings_view(res@), racecard_links_from(html@, 0)),
        forall|i: int| 0 <= i < res@.len() ==> is_detail_path(url_path(#[trigger] res@[i]@)),
{
    let h = chars_of(html);
    let needle = chars_of("/racecards/");
    proof {
        reveal_strlit("/racecards/");
    }
    let mut found: Vec<String> = Vec::new();
    let mut start: usize = 0;
    loop
        invariant
            start <= h@.len(),
            h@ == html@,
            needle@ == "/racecards/"@,
            strings_view(found@) + racecard_links_from(h@, start as int) == racecard_links_from(h@, 0),
        ensures
            strings_view(found@) == racecard_links_from(html@, 0),
        decreases h@.len() - start,
    {
        let idx = match find_chars(&h, start, &needle) {
            None => {
                assert(strings_view(found@) =~= racecard_links_from(h@, 0));
                break;
            },
            Some(i) => i,
        };
        proof {
            reveal_strlit("/racecards/");
            crate::text::lemma_find_from(h@, start as int, needle@);
            assert(h@.subrange(idx as int, idx + 11) == needle@);
            assert(h@[idx as int] == h@.subrange(idx as int, idx + 11)[0]);
        }
        let end = url_stop_exec(&h, idx);
        assert(end > idx) by {
            assert(h@[idx as int] == '/');
            lemma_url_stop_ge(h@, idx + 1);
        }
        let raw = slice_chars(&h, idx, end);
        let raw_s = string_of(&raw, 0, raw.len());
        assert(raw@.subrange(0, raw@.len() as int) =~= raw@);
        let ghost before = strings_view(found@);
        let ghost rest = racecard_links_from(h@, end as int);
        match normalize_racecards_url(raw_s.as_str()) {
            Some(u) => match filter_racecard_detail_url(u) {
                Some(v) => {
                    let ghost vv = v@;
                    found.push(v);
                    assert(strings_view(found@) =~= before.push(vv));
                    assert(before.push(vv) + rest =~= before + (seq![vv] + rest));
                },
                None => {
                    assert(Seq::<Seq<char>>::empty() + rest =~= rest);
                },
            },
            None => {
                assert(Seq::<Seq<char>>::empty() + rest =~= rest);
            },
        }
        start = end;
    }
    let out = sorted_unique(&found);
    proof {
        let q = strings_view(out@);
        let vals = strings_view(found@);
        let q2 = sorted_set(vals);
        assert(strictly_sorted(q) && same_texts(q, vals));
        lemma_sorted_unique(q, q2);
        lemma_links_are_details(html@, 0);
        assert forall|i: int| 0 <= i < out@.len() implies is_detail_path(url_path(#[trigger] out@[i]@)) by {
            assert(q[i] == out@[i]@);
            assert(q.contains(q[i]));
        }
    }
    out
}

/// Every link the page scan keeps is a racecard detail url.
proof fn lemma_links_are_details(h: Seq<char>, start: int)
    ensures
        forall|u: Seq<char>| racecard_links_from(h, start).contains(u) ==> is_detail_path(url_path(u)),
    decreases h.len() - start,
{
    if 0 <= start <= h.len() {
        match crate::text::find_from(h, start, "/racecards/"@) {
            None => {},
            Some(idx) => {
                let end = url_stop_from(h, idx);
                if start < end <= h.len() {
                    lemma_links_are_details(h, end);
                    let head = match racecard_link(h.subrange(idx, end)) {
                        Some(u) => seq![u],
                        None => Seq::<Seq<char>>::empty(),
                    };
                    let rest = racecard_links_from(h, end);
                    assert(racecard_links_from(h, start) == head + rest);
                    assert forall|u: Seq<char>| racecard_links_from(h, start).contains(u) implies is_detail_path(url_path(u)) by {
                        let k = choose|k: int| 0 <= k < (head + rest).len() && (head + rest)[k] == u;
                        if k >= head.len() {
                            assert(rest[k - head.len()] == u);
                            assert(rest.contains(u));
                        }
                    }
                }
            },
        }
    }
}

// ---------------------------------------------------------------------------
// Where a racecard page is saved
// ---------------------------------------------------------------------------

/// The names of a racecard url, or `unknown` ones with the position `seq` as race id.
pub open spec fn info_or_unknown(url: Seq<char>, seq: nat) -> InfoView {
    match racecard_info_of(url) {
        Some(i) => i,
        None => ("unknown"@, "unknown"@, "unknown"@, crate::text::decimal(seq)),
    }
}

/// The file of a racecard page: `<date>-<course no>-<course slug>-<race id>.html` in
/// `out_dir`.
pub open spec fn racecard_html_path_of(out_dir: Seq<char>, url: Seq<char>, seq: nat) -> Seq<char> {
    let i = info_or_unknown(url, seq);
    trim_end_char(out_dir, '/') + "/"@ + i.2 + "-"@ + i.0 + "-"@ + i.1 + "-"@ + i.3 + ".html"@
}

/// The file a racecard page is saved to; `seq` is the url's position, counted from 1.
pub fn racecard_html_path(out_dir: &str, url: &str, seq: usize) -> (res: String)
    ensures
        res@ == racecard_html_path_of(out_dir@, url@, seq as nat),
{
    let (no, slug, date, id) = match parse_racecard_detail_url(url) {
        Some(i) => (i.course_no, i.course_slug, i.race_date, i.race_id),
        None => {
            let d = crate::text::decimal_exec(seq);
            assert(d@.subrange(0, d@.len() as int) =~= d@);
            ("unknown".to_string(), "unknown".to_string(), "unknown".to_string(), string_of(&d, 0, d.len()))
        },
    };
    let oc = chars_of(out_dir);
    let e = crate::text::trim_end_char_chars(&oc, '/');
    let mut out = string_of(&oc, 0, e);
    push_str(&mut out, "/");
    push_str(&mut out, date.as_str());
    push_str(&mut out, "-");
    push_str(&mut out, no.as_str());
    push_str(&mut out, "-");
    push_str(&mut out, slug.as_str());
    push_str(&mut out, "-");
    push_str(&mut out, id.as_str());
    push_str(&mut out, ".html");
    assert(out@ =~= racecard_html_path_of(out_dir@, url@, seq as nat));
    out
}

} // verus!
