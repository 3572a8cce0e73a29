//! The rows of the full-results table: one per runner, read from the runner JSON
//! objects of a results page; and the date folders of stored tables.
use vstd::prelude::*;
use crate::text::{chars_of, trim, trim_bounds, replace_all, replace_chars, split_chars, vecs_view};
use crate::json::{JsonValue, member_get, get_member, json_text_value};
use crate::numbers::{parsed_i32, parsed_u32, parse_i32_text, parse_u32_text};
use crate::racecard::strip_prefix;

verus! {

/// One runner of a results page, as stored.
pub struct FullResultRow {
    pub url: String,
    pub course: String,
    pub title: String,
    pub race_id: String,
    pub going: String,
    pub position: String,
    pub horse: String,
    pub jockey: String,
    pub trainer: String,
    pub age: String,
    pub weight_st: String,
    pub weight_lb: String,
    pub or_rating: String,
    pub ts: String,
    pub rpr: String,
}

/// The string member `key` of an object, or the empty text.
pub open spec fn json_text_field(v: JsonValue, key: Seq<char>) -> Seq<char> {
    match v {
        JsonValue::Object(o) => match member_get(o@, key) {
            Some(JsonValue::Str(s)) => s@,
            _ => Seq::empty(),
        },
        _ => Seq::empty(),
    }
}

/// The string member `key` of an object, or an empty string.
pub fn json_field(v: &JsonValue, key: &str) -> (res: String)
    ensures
        res@ == json_text_field(*v, key@),
{
    match v {
        JsonValue::Object(o) => match get_member(o, key) {
            Some(JsonValue::Str(s)) => s.clone(),
            _ => String::new(),
        },
        _ => String::new(),
    }
}

impl FullResultRow {
    /// The row of a runner object, with the race's url, course, title, id and going.
    pub fn from_json(url: &str, course: &str, title: &str, race_id: &str, going: &str, v: &JsonValue) -> (res: FullResultRow)
        ensures
            res.url@ == url@,
            res.course@ == course@,
            res.title@ == title@,
            res.race_id@ == race_id@,
            res.going@ == going@,
            res.position@ == json_text_field(*v, "position"@),
            res.horse@ == json_text_field(*v, "horse"@),
            res.jockey@ == json_text_field(*v, "jockey"@),
            res.trainer@ == json_text_field(*v, "trainer"@),
            res.age@ == json_text_field(*v, "age"@),
            res.weight_st@ == json_text_field(*v, "weight_st"@),
            res.weight_lb@ == json_text_field(*v, "weight_lb"@),
            res.or_rating@ == json_text_field(*v, "or"@),
            res.ts@ == json_text_field(*v, "ts"@),
            res.rpr@ == json_text_field(*v, "rpr"@),
    {
        FullResultRow {
            url: url.to_string(),
            course: course.to_string(),
            title: title.to_string(),
            race_id: race_id.to_string(),
            going: going.to_string(),
            position: json_field(v, "position"),
            horse: json_field(v, "horse"),
            jockey: json_field(v, "jockey"),
            trainer: json_field(v, "trainer"),
            age: json_field(v, "age"),
            weight_st: json_field(v, "weight_st"),
            weight_lb: json_field(v, "weight_lb"),
            or_rating: json_field(v, "or"),
            ts: json_field(v, "ts"),
            rpr: json_field(v, "rpr"),
        }
    }
}

impl FullResultRow {
    /// The fifteen texts of the row, in column order.
    pub open spec fn texts(&self) -> Seq<Seq<char>> {
        seq![
            self.url@,
            self.course@,
            self.title@,
            self.race_id@,
            self.going@,
            self.position@,
            self.horse@,
            self.jockey@,
            self.trainer@,
            self.age@,
            self.weight_st@,
            self.weight_lb@,
            self.or_rating@,
            self.ts@,
            self.rpr@,
        ]
    }
}

/// The texts of the row of a runner object.
pub open spec fn row_texts_of(
    url: Seq<char>,
    course: Seq<char>,
    title: Seq<char>,
    race_id: Seq<char>,
    going: Seq<char>,
    v: JsonValue,
) -> Seq<Seq<char>> {
    seq![
        url,
        course,
        title,
        race_id,
        going,
        json_text_field(v, "position"@),
        json_text_field(v, "horse"@),
        json_text_field(v, "jockey"@),
        json_text_field(v, "trainer"@),
        json_text_field(v, "age"@),
        json_text_field(v, "weight_st"@),
        json_text_field(v, "weight_lb"@),
        json_text_field(v, "or"@),
        json_text_field(v, "ts"@),
        json_text_field(v, "rpr"@),
    ]
}

/// The rows of the runner objects that parse as JSON, in order.
pub open spec fn rows_of_objects(
    url: Seq<char>,
    course: Seq<char>,
    title: Seq<char>,
    race_id: Seq<char>,
    going: Seq<char>,
    objects: Seq<Seq<char>>,
) -> Seq<Seq<Seq<char>>>
    decreases objects.len(),
{
    if objects.len() == 0 {
        Seq::empty()
    } else {
        rows_of_objects(url, course, title, race_id, going, objects.drop_last()) + match json_text_value(
            objects.last(),
        ) {
            Some(v) => seq![row_texts_of(url, course, title, race_id, going, v)],
            None => Seq::empty(),
        }
    }
}

/// The rows of a results page: one per runner object of the page, with the page's
/// title, race id and going.
pub open spec fn page_rows(html: Seq<char>, url: Seq<char>, course: Seq<char>) -> Seq<Seq<Seq<char>>> {
    rows_of_objects(
        url,
        course,
        crate::full_result_parse::title_of(html),
        crate::full_result_parse::race_id_of(html),
        crate::full_result_parse::going_of(html),
        crate::full_result_parse::runners_json(html),
    )
}

/// Every row made from runner objects holds the given url, course, title, race id
/// and going in its first five columns.
proof fn lemma_rows_of_objects_race_columns(
    url: Seq<char>,
    course: Seq<char>,
    title: Seq<char>,
    race_id: Seq<char>,
    going: Seq<char>,
    objects: Seq<Seq<char>>,
)
    ensures
        forall|i: int|
            0 <= i < rows_of_objects(url, course, title, race_id, going, objects).len() ==> {
                let r = #[trigger] rows_of_objects(url, course, title, race_id, going, objects)[i];
                &&& r.len() == 15
                &&& r[0] == url
                &&& r[1] == course
                &&& r[2] == title
                &&& r[3] == race_id
                &&& r[4] == going
            },
    decreases objects.len(),
{
    if objects.len() > 0 {
        lemma_rows_of_objects_race_columns(url, course, title, race_id, going, objects.drop_last());
        let prev = rows_of_objects(url, course, title, race_id, going, objects.drop_last());
        let tail: Seq<Seq<Seq<char>>> = match json_text_value(objects.last()) {
            Some(v) => seq![row_texts_of(url, course, title, race_id, going, v)],
            None => Seq::empty(),
        };
        let all = rows_of_objects(url, course, title, race_id, going, objects);
        assert(all == prev + tail);
        assert forall|i: int| 0 <= i < all.len() implies {
            let r = #[trigger] all[i];
            &&& r.len() == 15
            &&& r[0] == url
            &&& r[1] == course
            &&& r[2] == title
            &&& r[3] == race_id
            &&& r[4] == going
        } by {
            if i < prev.len() {
                assert(all[i] == prev[i]);
            } else {
                assert(all[i] == tail[i - prev.len()]);
            }
        }
    }
}

/// Every row of a results page holds the url and course it was read with, the
/// page's trimmed `<title>` text as its title, the page's race id, and the page's
/// going, each in its own column (url, course, title, race id, going, then the
/// runner's fields).
pub proof fn lemma_page_rows_race_columns(html: Seq<char>, url: Seq<char>, course: Seq<char>)
    ensures
        forall|i: int|
            0 <= i < page_rows(html, url, course).len() ==> {
                let r = #[trigger] page_rows(html, url, course)[i];
                &&& r.len() == 15
                &&& r[0] == url
                &&& r[1] == course
                &&& r[2] == crate::full_result_parse::title_of(html)
                &&& r[3] == crate::full_result_parse::race_id_of(html)
                &&& r[4] == crate::full_result_parse::going_of(html)
            },
{
    lemma_rows_of_objects_race_columns(
        url,
        course,
        crate::full_result_parse::title_of(html),
        crate::full_result_parse::race_id_of(html),
        crate::full_result_parse::going_of(html),
        crate::full_result_parse::runners_json(html),
    );
}

/// The texts of rows.
pub open spec fn rows_texts(v: Seq<FullResultRow>) -> Seq<Seq<Seq<char>>> {
    v.map_values(|r: FullResultRow| r.texts())
}

/// The stored rows of a saved results page.
pub fn result_rows_of_page(html: &str, url: &str, course: &str) -> (res: Vec<FullResultRow>)
    ensures
        rows_texts(res@) == page_rows(html@, url@, course@),
        forall|i: int|
            0 <= i < res@.len() ==> {
                &&& (#[trigger] res@[i]).url@ == url@
                &&& res@[i].course@ == course@
                &&& res@[i].title@ == crate::full_result_parse::title_of(html@)
                &&& res@[i].race_id@ == crate::full_result_parse::race_id_of(html@)
                &&& res@[i].going@ == crate::full_result_parse::going_of(html@)
            },
{
    let title = crate::full_result_parse::extract_title(html);
    let race_id = crate::full_result_parse::extract_race_id(html);
    let going = crate::full_result_parse::extract_going(html);
    let runners = crate::full_result_parse::extract_runners_json(html);
    let ghost objs = runners.deep_view();
    let mut out: Vec<FullResultRow> = Vec::new();
    let mut i: usize = 0;
    assert(objs.take(0) =~= Seq::<Seq<char>>::empty());
    while i < runners.len()
        invariant
            i <= runners@.len(),
            objs == runners.deep_view(),
            rows_texts(out@) == rows_of_objects(url@, course@, title@, race_id@, going@, objs.take(i as int)),
            title@ == crate::full_result_parse::title_of(html@),
            race_id@ == crate::full_result_parse::race_id_of(html@),
            going@ == crate::full_result_parse::going_of(html@),
            forall|k: int|
                0 <= k < out@.len() ==> {
                    &&& (#[trigger] out@[k]).url@ == url@
                    &&& out@[k].course@ == course@
                    &&& out@[k].title@ == title@
                    &&& out@[k].race_id@ == race_id@
                    &&& out@[k].going@ == going@
                },
        decreases runners@.len() - i,
    {
        assert(objs.take(i + 1).drop_last() =~= objs.take(i as int));
        assert(objs.take(i + 1).last() == runners@[i as int]@);
        let ghost before = rows_texts(out@);
        match crate::json::parse_json_text(runners[i].as_str()) {
            Some(v) => {
                let row = FullResultRow::from_json(url, course, title.as_str(), race_id.as_str(), going.as_str(), &v);
                let ghost t = row.texts();
                out.push(row);
                assert(t =~= row_texts_of(url@, course@, title@, race_id@, going@, v));
                assert(rows_texts(out@) =~= before.push(t));
            },
            None => {},
        }
        i = i + 1;
    }
    assert(objs.take(runners@.len() as int) =~= objs);
    out
}

/// A text trimmed, or none when nothing is left.
pub fn opt(s: &str) -> (res: Option<&str>)
    ensures
        match res {
            Some(t) => trim(s@).len() > 0 && t@ == trim(s@),
            None => trim(s@).len() == 0,
        },
{
    let c = chars_of(s);
    let (a, b) = trim_bounds(&c, 0, c.len());
    assert(c@.subrange(0, c@.len() as int) =~= c@);
    if a == b {
        None
    } else {
        Some(s.substring_char(a, b))
    }
}

// ---------------------------------------------------------------------------
// Date folders
// ---------------------------------------------------------------------------

/// A leap year of the proleptic Gregorian calendar.
pub open spec fn is_leap(y: int) -> bool {
    (y % 4 == 0 && y % 100 != 0) || y % 400 == 0
}

/// The days of a month.
pub open spec fn days_in_month(y: int, m: int) -> int {
    if m == 2 {
        if is_leap(y) {
            29
        } else {
            28
        }
    } else if m == 4 || m == 6 || m == 9 || m == 11 {
        30
    } else {
        31
    }
}

/// A date that `NaiveDate` can hold: a real calendar day within its years.
pub open spec fn valid_ymd(y: int, m: int, d: int) -> bool {
    &&& -262143 <= y <= 262142
    &&& 1 <= m <= 12
    &&& 1 <= d <= days_in_month(y, m)
}

/// `chrono::NaiveDate::from_ymd_opt(y, m, d).is_some()`: the day exists in the
/// proleptic Gregorian calendar and the year lies within chrono's
/// `MIN_YEAR..=MAX_YEAR` (`-262143..=262142` in the version used).
#[verifier::external_body]
fn date_exists(y: i32, m: u32, d: u32) -> (res: bool)
    ensures
        res == valid_ymd(y as int, m as int, d as int),
{
    chrono::NaiveDate::from_ymd_opt(y, m, d).is_some()
}

/// The value of the last `key=` part of a path (`None` when that part does not
/// parse), or `None` when no part has the key.
pub open spec fn key_value_from(parts: Seq<Seq<char>>, key: Seq<char>, signed: bool) -> Option<Option<int>>
    decreases parts.len(),
{
    if parts.len() == 0 {
        None
    } else {
        match strip_prefix(parts.last(), key) {
            Some(rest) => Some(
                if signed {
                    parsed_i32(rest)
                } else {
                    parsed_u32(rest)
                },
            ),
            None => key_value_from(parts.drop_last(), key, signed),
        }
    }
}

/// The date named by the `year=`, `month=` and `day=` folders of a path, when the
/// last of each parses and they make a real date.
pub open spec fn partition_ymd_of(path: Seq<char>) -> Option<(int, int, int)> {
    let parts = crate::text::split_char(replace_all(path, "\\"@, "/"@), '/');
    match (
        key_value_from(parts, "year="@, true),
        key_value_from(parts, "month="@, false),
        key_value_from(parts, "day="@, false),
    ) {
        (Some(Some(y)), Some(Some(m)), Some(Some(d))) => if valid_ymd(y, m, d) {
            Some((y, m, d))
        } else {
            None
        },
        _ => None,
    }
}

/// Two texts that lack a character make a text that lacks it.
proof fn lemma_concat_lacks(a: Seq<char>, b: Seq<char>, x: char)
    requires
        !a.contains(x),
        !b.contains(x),
    ensures
        !(a + b).contains(x),
{
    if (a + b).contains(x) {
        let k = choose|k: int| 0 <= k < (a + b).len() && (a + b)[k] == x;
        if k < a.len() {
            assert(a[k] == x);
        } else {
            assert(b[k - a.len()] == x);
        }
    }
}

/// Splitting at `/` after one more `/` and a piece without `/` adds that piece.
proof fn lemma_split_slash(s: Seq<char>, b: Seq<char>)
    requires
        !b.contains('/'),
    ensures
        crate::text::split_char(s + seq!['/'] + b, '/') == crate::text::split_char(s, '/').push(b),
{
    let t = s + seq!['/'];
    assert(t.drop_last() =~= s);
    assert(t.last() == '/');
    crate::text::lemma_split_len(s, '/');
    assert(crate::text::split_char(t, '/') == crate::text::split_char(s, '/').push(Seq::<char>::empty()));
    crate::text::lemma_split_extend(t, b, '/');
    assert(Seq::<char>::empty() + b =~= b);
    let p = crate::text::split_char(s, '/');
    assert(p.push(Seq::<char>::empty()).update(p.len() as int, b) =~= p.push(b));
}

/// A text of digits holds no `/` nor `\`.
proof fn lemma_digits_plain(x: Seq<char>)
    requires
        crate::text::all_digits(x),
    ensures
        !x.contains('/'),
        !x.contains('\\'),
{
    if x.contains('/') {
        let k = choose|k: int| 0 <= k < x.len() && x[k] == '/';
        assert(crate::text::is_digit(x[k]));
    }
    if x.contains('\\') {
        let k = choose|k: int| 0 <= k < x.len() && x[k] == '\\';
        assert(crate::text::is_digit(x[k]));
    }
}

/// Replacing `\\` in a text followed by one without `\\` replaces it in the text
/// alone.
proof fn lemma_replace_before_plain(a: Seq<char>, b: Seq<char>, i: int)
    requires
        0 <= i <= a.len(),
        !b.contains('\\'),
    ensures
        crate::text::replace_from(a + b, i, "\\"@, "/"@) == crate::text::replace_from(a, i, "\\"@, "/"@)
            + b,
    decreases a.len() - i,
{
    reveal_strlit("\\");
    let f = "\\"@;
    let s = a + b;
    crate::text::lemma_find_from(s, i, f);
    crate::text::lemma_find_from(a, i, f);
    assert forall|j: int| i <= j implies crate::text::matches_at(s, j, f) == (j < a.len()
        && crate::text::matches_at(a, j, f)) by {
        if j < a.len() {
            if crate::text::matches_at(s, j, f) {
                assert(s.subrange(j, j + 1)[0] == s[j]);
                assert(a.subrange(j, j + 1) =~= s.subrange(j, j + 1));
            }
            if crate::text::matches_at(a, j, f) {
                assert(a.subrange(j, j + 1) =~= s.subrange(j, j + 1));
            }
        } else if crate::text::matches_at(s, j, f) {
            assert(s.subrange(j, j + 1)[0] == s[j]);
            assert(s[j] == b[j - a.len()]);
        }
    }
    match crate::text::find_from(a, i, f) {
        Some(k) => {
            crate::text::lemma_find_from_first(s, i, f, k);
            lemma_replace_before_plain(a, b, k + 1);
            assert(s.subrange(i, k) =~= a.subrange(i, k));
            assert(crate::text::replace_from(s, i, f, "/"@) =~= a.subrange(i, k) + "/"@
                + crate::text::replace_from(a, k + 1, f, "/"@) + b);
        },
        None => {
            assert(crate::text::find_from(s, i, f) is None) by {
                if crate::text::find_from(s, i, f) is Some {
                    let k = crate::text::find_from(s, i, f)->0;
                    assert(crate::text::matches_at(s, k, f));
                }
            }
            assert(s.subrange(i, s.len() as int) =~= a.subrange(i, a.len() as int) + b);
        },
    }
}

/// A non-empty text of digits is read by `str::parse` as its value, when that
/// lies in the range asked for.
proof fn lemma_digits_parse(x: Seq<char>, signed: bool, min: int, max: int)
    requires
        x.len() > 0,
        crate::text::all_digits(x),
        min <= crate::text::digits_value(x) <= max,
    ensures
        crate::numbers::parsed_in(x, signed, min, max) == Some(crate::text::digits_value(x) as int),
{
    assert(crate::text::is_digit(x[0]));
}

/// The date of a stored table is read back from the folders it is written under:
/// for a real date whose year, month and day are written in digits, the file
/// `<out>/year=<y>/month=<m>/day=<d>/full-results-runners.parquet` (the one the
/// results parser writes) names that date, whatever folders `out` names.
pub proof fn lemma_partition_reads_back(out: Seq<char>, y: Seq<char>, m: Seq<char>, d: Seq<char>)
    requires
        y.len() > 0 && crate::text::all_digits(y),
        m.len() > 0 && crate::text::all_digits(m),
        d.len() > 0 && crate::text::all_digits(d),
        valid_ymd(
            crate::text::digits_value(y) as int,
            crate::text::digits_value(m) as int,
            crate::text::digits_value(d) as int,
        ),
    ensures
        partition_ymd_of(
            out + "/year="@ + y + "/month="@ + m + "/day="@ + d + "/full-results-runners.parquet"@,
        ) == Some(
            (
                crate::text::digits_value(y) as int,
                crate::text::digits_value(m) as int,
                crate::text::digits_value(d) as int,
            ),
        ),
{
    reveal_strlit("/year=");
    reveal_strlit("/month=");
    reveal_strlit("/day=");
    reveal_strlit("/full-results-runners.parquet");
    reveal_strlit("year=");
    reveal_strlit("month=");
    reveal_strlit("day=");
    reveal_strlit("\\");
    reveal_strlit("/");
    let path = out + "/year="@ + y + "/month="@ + m + "/day="@ + d + "/full-results-runners.parquet"@;
    let ky = "year="@;
    let km = "month="@;
    let kd = "day="@;
    let f = "full-results-runners.parquet"@;
    let y1 = ky + y;
    let m1 = km + m;
    let d1 = kd + d;
    let sl = seq!['/'];
    reveal_strlit("full-results-runners.parquet");
    assert("/full-results-runners.parquet"@ =~= seq!['/'] + f);
    assert(path =~= out + sl + y1 + sl + m1 + sl + d1 + sl + f);
    lemma_digits_plain(y);
    lemma_digits_plain(m);
    lemma_digits_plain(d);
    let tail = sl + y1 + sl + m1 + sl + d1 + sl + f;
    assert(!tail.contains('\\')) by {
        let pieces = seq![sl, ky, y, sl, km, m, sl, kd, d, sl, f];
        assert forall|i: int| 0 <= i < pieces.len() implies !(#[trigger] pieces[i]).contains('\\') by {
            let w = pieces[i];
            if w.contains('\\') && i != 2 && i != 5 && i != 8 {
                let k = choose|k: int| 0 <= k < w.len() && w[k] == '\\';
            }
        }
        assert(!sl.contains('\\') && !ky.contains('\\') && !km.contains('\\') && !kd.contains('\\')
            && !f.contains('\\')) by {
            assert(pieces[0] == sl && pieces[1] == ky && pieces[4] == km && pieces[7] == kd && pieces[10] == f);
        }
        lemma_concat_lacks(sl, ky, '\\');
        lemma_concat_lacks(sl + ky, y, '\\');
        lemma_concat_lacks(sl + ky + y, sl, '\\');
        lemma_concat_lacks(sl + ky + y + sl, km, '\\');
        lemma_concat_lacks(sl + ky + y + sl + km, m, '\\');
        lemma_concat_lacks(sl + ky + y + sl + km + m, sl, '\\');
        lemma_concat_lacks(sl + ky + y + sl + km + m + sl, kd, '\\');
        lemma_concat_lacks(sl + ky + y + sl + km + m + sl + kd, d, '\\');
        lemma_concat_lacks(sl + ky + y + sl + km + m + sl + kd + d, sl, '\\');
        lemma_concat_lacks(sl + ky + y + sl + km + m + sl + kd + d + sl, f, '\\');
        assert(tail =~= sl + ky + y + sl + km + m + sl + kd + d + sl + f);
    }
    let out2 = crate::text::replace_all(out, "\\"@, "/"@);
    assert(crate::text::replace_all(path, "\\"@, "/"@) == out2 + tail) by {
        assert(path =~= out + tail);
        lemma_replace_before_plain(out, tail, 0);
    }
    assert(!y1.contains('/') && !m1.contains('/') && !d1.contains('/') && !f.contains('/')) by {
        assert(!ky.contains('/') && !km.contains('/') && !kd.contains('/')) by {
            if ky.contains('/') {
                let k = choose|k: int| 0 <= k < ky.len() && ky[k] == '/';
            }
            if km.contains('/') {
                let k = choose|k: int| 0 <= k < km.len() && km[k] == '/';
            }
            if kd.contains('/') {
                let k = choose|k: int| 0 <= k < kd.len() && kd[k] == '/';
            }
        }
        lemma_concat_lacks(ky, y, '/');
        lemma_concat_lacks(km, m, '/');
        lemma_concat_lacks(kd, d, '/');
        if f.contains('/') {
            let k = choose|k: int| 0 <= k < f.len() && f[k] == '/';
        }
    }
    let p0 = crate::text::split_char(out2, '/');
    lemma_split_slash(out2, y1);
    lemma_split_slash(out2 + sl + y1, m1);
    lemma_split_slash(out2 + sl + y1 + sl + m1, d1);
    lemma_split_slash(out2 + sl + y1 + sl + m1 + sl + d1, f);
    let parts = p0.push(y1).push(m1).push(d1).push(f);
    assert(out2 + tail =~= out2 + sl + y1 + sl + m1 + sl + d1 + sl + f);
    assert(crate::text::split_char(crate::text::replace_all(path, "\\"@, "/"@), '/') == parts);
    assert(parts.drop_last() == p0.push(y1).push(m1).push(d1));
    assert(parts.drop_last().drop_last() == p0.push(y1).push(m1));
    assert(parts.drop_last().drop_last().drop_last() == p0.push(y1));
    assert(y1.subrange(0, 5) =~= ky);
    assert(y1.subrange(5, y1.len() as int) =~= y);
    assert(m1.subrange(0, 6) =~= km);
    assert(m1.subrange(6, m1.len() as int) =~= m);
    assert(d1.subrange(0, 4) =~= kd);
    assert(d1.subrange(4, d1.len() as int) =~= d);
    assert(strip_prefix(f, ky) is None) by {
        assert(f.subrange(0, 5)[0] == f[0]);
    }
    assert(strip_prefix(f, km) is None) by {
        assert(f.subrange(0, 6)[0] == f[0]);
    }
    assert(strip_prefix(f, kd) is None) by {
        assert(f.subrange(0, 4)[0] == f[0]);
    }
    assert(strip_prefix(d1, ky) is None) by {
        assert(d1.subrange(0, 5)[0] == d1[0]);
    }
    assert(strip_prefix(d1, km) is None) by {
        if d1.len() >= 6 {
            assert(d1.subrange(0, 6)[0] == d1[0]);
        }
    }
    assert(strip_prefix(m1, ky) is None) by {
        assert(m1.subrange(0, 5)[0] == m1[0]);
    }
    assert(strip_prefix(d1, kd) == Some(d));
    assert(strip_prefix(m1, km) == Some(m));
    assert(strip_prefix(y1, ky) == Some(y));
    let yv = crate::text::digits_value(y) as int;
    let mv = crate::text::digits_value(m) as int;
    let dv = crate::text::digits_value(d) as int;
    lemma_digits_parse(y, true, i32::MIN as int, i32::MAX as int);
    lemma_digits_parse(m, false, 0, u32::MAX as int);
    lemma_digits_parse(d, false, 0, u32::MAX as int);
    let q1 = parts.drop_last();
    let q2 = q1.drop_last();
    let q3 = q2.drop_last();
    assert(parts.last() == f && q1.last() == d1 && q2.last() == m1 && q3.last() == y1);
    assert(key_value_from(q3, ky, true) == Some(Some(yv)));
    assert(key_value_from(q2, ky, true) == key_value_from(q3, ky, true));
    assert(key_value_from(q1, ky, true) == key_value_from(q2, ky, true));
    assert(key_value_from(parts, ky, true) == key_value_from(q1, ky, true));
    assert(key_value_from(q2, km, false) == Some(Some(mv)));
    assert(key_value_from(q1, km, false) == key_value_from(q2, km, false));
    assert(key_value_from(parts, km, false) == key_value_from(q1, km, false));
    assert(key_value_from(q1, kd, false) == Some(Some(dv)));
    assert(key_value_from(parts, kd, false) == key_value_from(q1, kd, false));
}

/// The date of a stored table from its `year=/month=/day=` folders.
pub fn extract_partition_ymd(path: &str) -> (res: Option<(i32, u32, u32)>)
    ensures
        match res {
            Some((y, m, d)) => partition_ymd_of(path@) == Some((y as int, m as int, d as int)),
            None => partition_ymd_of(path@) is None,
        },
{
    let c = chars_of(path);
    let bs = chars_of("\\");
    let sl = chars_of("/");
    let p = replace_chars(&c, &bs, &sl);
    let parts = split_chars(&p, '/');
    let ghost pv = vecs_view(parts@);
    let mut y: Option<Option<i32>> = None;
    let mut m: Option<Option<u32>> = None;
    let mut d: Option<Option<u32>> = None;
    let mut i: usize = 0;
    assert(pv.take(0) =~= Seq::<Seq<char>>::empty());
    while i < parts.len()
        invariant
            i <= parts@.len(),
            pv == vecs_view(parts@),
            key_value_from(pv.take(i as int), "year="@, true) == match y {
                Some(Some(v)) => Some(Some(v as int)),
                Some(None) => Some(None::<int>),
                None => None::<Option<int>>,
            },
            key_value_from(pv.take(i as int), "month="@, false) == match m {
                Some(Some(v)) => Some(Some(v as int)),
                Some(None) => Some(None::<int>),
                None => None::<Option<int>>,
            },
            key_value_from(pv.take(i as int), "day="@, false) == match d {
                Some(Some(v)) => Some(Some(v as int)),
                Some(None) => Some(None::<int>),
                None => None::<Option<int>>,
            },
        decreases parts@.len() - i,
    {
        assert(pv.take(i + 1).drop_last() =~= pv.take(i as int));
        assert(pv.take(i + 1).last() == parts@[i as int]@);
        let part = &parts[i];
        proof {
            reveal_strlit("year=");
            reveal_strlit("month=");
            reveal_strlit("day=");
            let pp = parts@[i as int]@;
            if crate::text::starts_with(pp, "year="@) {
                assert(pp.subrange(0, 5) == "year="@);
                assert(pp.subrange(0, 5)[0] == pp[0]);
                assert(pp[0] == 'y');
                assert(!crate::text::starts_with(pp, "month="@));
                assert(!crate::text::starts_with(pp, "day="@));
            }
            if crate::text::starts_with(pp, "month="@) {
                assert(pp.subrange(0, 6) == "month="@);
                assert(pp.subrange(0, 6)[0] == pp[0]);
                assert(pp[0] == 'm');
                assert(!crate::text::starts_with(pp, "day="@));
            }
        }
        match crate::racecard::strip_prefix_chars(part, "year=") {
            Some(rest) => {
                y = Some(parse_i32_text(&rest));
            },
            None => match crate::racecard::strip_prefix_chars(part, "month=") {
                Some(rest) => {
                    m = Some(parse_u32_text(&rest));
                },
                None => match crate::racecard::strip_prefix_chars(part, "day=") {
                    Some(rest) => {
                        d = Some(parse_u32_text(&rest));
                    },
                    None => {},
                },
            },
        }
        i = i + 1;
    }
    assert(pv.take(parts@.len() as int) =~= pv);
    match (y, m, d) {
        (Some(Some(yy)), Some(Some(mm)), Some(Some(dd))) => if date_exists(yy, mm, dd) {
            Some((yy, mm, dd))
        } else {
            None
        },
        _ => None,
    }
}

} // verus!
