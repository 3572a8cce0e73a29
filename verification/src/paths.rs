//! Where the parsers read and write: output paths made from input paths, and the
//! pieces of a path that they need.
use vstd::prelude::*;
use crate::text::{
    join, chars_of, trim_end_char, trim_end_char_chars, string_of, push_str, replace_all,
    replace_chars, find, ch, rfind,
};
use crate::racecard::{opt_view, strip_prefix};
use crate::race_text::before_text;
use crate::history_sql::{ymd_of_path, infer_ymd_from_path};

verus! {

// ---------------------------------------------------------------------------
// Pieces of a path
// ---------------------------------------------------------------------------

/// The last component of a path, as `Path::file_name` gives it.
pub uninterp spec fn path_file_name(p: Seq<char>) -> Option<Seq<char>>;

/// The last component of a path without its extension, as `Path::file_stem` gives it.
pub uninterp spec fn path_file_stem(p: Seq<char>) -> Option<Seq<char>>;

/// The path without its last component, as `Path::parent` gives it.
pub uninterp spec fn path_parent(p: Seq<char>) -> Option<Seq<char>>;

/// `std::path::Path::file_name` of the text, as text (`OsStr::to_str`). The
/// contract names the result, which depends on the text alone.
#[verifier::external_body]
fn file_name_text(p: &str) -> (res: Option<String>)
    ensures
        opt_view(res) == path_file_name(p@),
{
    match std::path::Path::new(p).file_name() {
        Some(n) => match n.to_str() {
            Some(s) => Some(s.to_string()),
            None => None,
        },
        None => None,
    }
}

/// `std::path::Path::file_stem` of the text, as text. The contract names the
/// result, which depends on the text alone.
#[verifier::external_body]
fn file_stem_text(p: &str) -> (res: Option<String>)
    ensures
        opt_view(res) == path_file_stem(p@),
{
    match std::path::Path::new(p).file_stem() {
        Some(n) => match n.to_str() {
            Some(s) => Some(s.to_string()),
            None => None,
        },
        None => None,
    }
}

/// `std::path::Path::parent` of the text, as text. The contract names the result,
/// which depends on the text alone.
#[verifier::external_body]
fn parent_text(p: &str) -> (res: Option<String>)
    ensures
        opt_view(res) == path_parent(p@),
{
    match std::path::Path::new(p).parent() {
        Some(n) => match n.to_str() {
            Some(s) => Some(s.to_string()),
            None => None,
        },
        None => None,
    }
}

/// `s` without trailing `/`, as a string.
fn without_trailing_slashes(s: &str) -> (res: String)
    ensures
        res@ == trim_end_char(s@, '/'),
{
    let c = chars_of(s);
    let e = trim_end_char_chars(&c, '/');
    string_of(&c, 0, e)
}

// ---------------------------------------------------------------------------
// Output paths
// ---------------------------------------------------------------------------

/// The JSON file of a urls file's results: its name with
/// `-time-order-full-result-urls.tsv` made `-time-order-full-results.json`, in
/// `out_dir`.
pub open spec fn json_path_of(input: Seq<char>, out_dir: Seq<char>) -> Seq<char> {
    json_path_from(path_file_name(input), out_dir)
}

/// The JSON file for a urls file whose name (when it has one) is `file_name`.
pub open spec fn json_path_from(file_name: Option<Seq<char>>, out_dir: Seq<char>) -> Seq<char> {
    let name = match file_name {
        Some(n) => replace_all(n, "-time-order-full-result-urls.tsv"@, "-time-order-full-results.json"@),
        None => "racingpost-time-order-full-results.json"@,
    };
    trim_end_char(out_dir, '/') + "/"@ + name
}

/// The JSON file for the results of a urls file.
pub fn output_json_path(input_path: &str, out_dir: &str) -> (res: String)
    ensures
        res@ == json_path_of(input_path@, out_dir@),
{
    let name = file_name_text(input_path);
    json_path_for_name(&name, out_dir)
}

/// The JSON file for the results of a urls file named `file_name` (when it has a
/// name).
pub fn json_path_for_name(file_name: &Option<String>, out_dir: &str) -> (res: String)
    ensures
        res@ == json_path_from(opt_view(*file_name), out_dir@),
{
    let name = match file_name {
        Some(n) => {
            let nc = chars_of(n.as_str());
            let from = chars_of("-time-order-full-result-urls.tsv");
            let to = chars_of("-time-order-full-results.json");
            let r = replace_chars(&nc, &from, &to);
            assert(r@.subrange(0, r@.len() as int) =~= r@);
            string_of(&r, 0, r.len())
        },
        None => "racingpost-time-order-full-results.json".to_string(),
    };
    let mut out = without_trailing_slashes(out_dir);
    push_str(&mut out, "/");
    push_str(&mut out, name.as_str());
    out
}

/// The results date of a urls file named `racingpost-results-<date>-time-order-...`
/// (`unknown` otherwise) and the folder of its pages beside it.
pub open spec fn html_dir_and_date_of(input: Seq<char>) -> (Seq<char>, Seq<char>) {
    html_dir_and_date_from(path_file_name(input), path_parent(input))
}

/// The results date and pages folder of a urls file with name `file_name` in the
/// folder `parent` (each when the path has one).
pub open spec fn html_dir_and_date_from(file_name: Option<Seq<char>>, parent: Option<Seq<char>>) -> (Seq<char>, Seq<char>) {
    let filename = match file_name {
        Some(n) => n,
        None => Seq::empty(),
    };
    let date = match strip_prefix(filename, "racingpost-results-"@) {
        Some(rest) => before_text(rest, "-time-order-full-result-urls.tsv"@),
        None => "unknown"@,
    };
    let parent = match parent {
        Some(p) => p,
        None => "."@,
    };
    (
        trim_end_char(parent, '/') + "/racingpost-results-"@ + date
            + "-time-order-full-results-html"@,
        date,
    )
}

/// A date written with digits and `-` only, as `YYYY-MM-DD`.
pub open spec fn date_text(d: Seq<char>) -> bool {
    forall|j: int| 0 <= j < d.len() ==> crate::text::is_digit(#[trigger] d[j]) || d[j] == '-'
}

/// A date of digits and `-` ends where the urls file's suffix after it begins: the
/// suffix first occurs right after the date.
pub proof fn lemma_date_text_before_suffix(date: Seq<char>)
    requires
        date_text(date),
    ensures
        crate::text::find(date + "-time-order-full-result-urls.tsv"@, "-time-order-full-result-urls.tsv"@)
            == Some(date.len() as int),
{
    reveal_strlit("-time-order-full-result-urls.tsv");
    let suf = "-time-order-full-result-urls.tsv"@;
    let rest = date + suf;
    let k = date.len() as int;
    assert(rest.subrange(k, k + suf.len()) =~= suf);
    assert forall|j: int| 0 <= j < k implies !crate::text::matches_at(rest, j, suf) by {
        if crate::text::matches_at(rest, j, suf) {
            assert(rest.subrange(j, j + suf.len())[0] == rest[j]);
            assert(rest.subrange(j, j + suf.len())[1] == rest[j + 1]);
            assert(rest[j] == '-');
            assert(rest[j + 1] == 't');
            if j + 1 < k {
                assert(rest[j + 1] == date[j + 1]);
            } else {
                assert(rest[j + 1] == suf[0]);
            }
        }
    }
    crate::text::lemma_find_from_first(rest, 0, suf, k);
}

/// The urls file that the scraper writes for a date (named
/// `racingpost-results-<date>-time-order-full-result-urls.tsv`), read by the results
/// parser from a folder, gives back that date, and the pages folder the parser reads
/// is the one the scraper saves the pages of that date to in the same folder; this
/// holds for every date but one in which the file's suffix starts earlier than after
/// it (so a date of digits and `-` always).
pub proof fn lemma_urls_file_names_its_pages(parent: Seq<char>, date: Seq<char>)
    requires
        crate::text::find(date + "-time-order-full-result-urls.tsv"@, "-time-order-full-result-urls.tsv"@)
            == Some(date.len() as int),
    ensures
        html_dir_and_date_from(
            Some("racingpost-results-"@ + date + "-time-order-full-result-urls.tsv"@),
            Some(parent),
        ) == (crate::scrape::full_results_dir(trim_end_char(parent, '/') + "/"@, date), date),
{
    reveal_strlit("racingpost-results-");
    reveal_strlit("/racingpost-results-");
    reveal_strlit("/");
    let pre = "racingpost-results-"@;
    let suf = "-time-order-full-result-urls.tsv"@;
    let name = pre + date + suf;
    assert(name.subrange(0, pre.len() as int) =~= pre);
    assert(crate::text::starts_with(name, pre));
    let rest = name.subrange(pre.len() as int, name.len() as int);
    assert(rest =~= date + suf);
    let k = date.len() as int;
    assert(rest.subrange(0, k) =~= date);
    let dir = trim_end_char(parent, '/');
    assert(dir + "/racingpost-results-"@ + date + "-time-order-full-results-html"@ =~= crate::scrape::full_results_dir(
        dir + "/"@,
        date,
    ));
}

/// The folder of a urls file's pages and its results date.
pub fn infer_html_dir_and_date(input_path: &str) -> (res: (String, String))
    ensures
        (res.0@, res.1@) == html_dir_and_date_of(input_path@),
{
    let name = file_name_text(input_path);
    let parent = parent_text(input_path);
    html_dir_and_date_for(&name, &parent)
}

/// The folder of the pages of a urls file named `file_name` in the folder `parent`,
/// and its results date.
pub fn html_dir_and_date_for(file_name: &Option<String>, parent: &Option<String>) -> (res: (String, String))
    ensures
        (res.0@, res.1@) == html_dir_and_date_from(opt_view(*file_name), opt_view(*parent)),
{
    let filename = match file_name {
        Some(n) => n.clone(),
        None => String::new(),
    };
    let fc = chars_of(filename.as_str());
    let date = match crate::racecard::strip_prefix_chars(&fc, "racingpost-results-") {
        Some(rest) => {
            let sep = chars_of("-time-order-full-result-urls.tsv");
            let cut = match crate::text::find_chars(&rest, 0, &sep) {
                Some(i) => i,
                None => rest.len(),
            };
            assert(rest@.subrange(0, rest@.len() as int) =~= rest@);
            string_of(&rest, 0, cut)
        },
        None => "unknown".to_string(),
    };
    let parent = match parent {
        Some(p) => p.clone(),
        None => ".".to_string(),
    };
    let mut html_dir = without_trailing_slashes(parent.as_str());
    push_str(&mut html_dir, "/racingpost-results-");
    push_str(&mut html_dir, date.as_str());
    push_str(&mut html_dir, "-time-order-full-results-html");
    (html_dir, date)
}

/// The course in a page file's name: its stem up to the last `-`.
pub open spec fn course_of_filename(path: Seq<char>) -> Option<Seq<char>> {
    match path_file_stem(path) {
        None => None,
        Some(stem) => course_of_stem(stem),
    }
}

/// The course in a file stem `<course>-<index>`: the stem up to its last `-`.
pub open spec fn course_of_stem(stem: Seq<char>) -> Option<Seq<char>> {
    match rfind(stem, ch('-')) {
        Some(i) => Some(stem.subrange(0, i)),
        None => None,
    }
}

/// The course read from the stem of a saved page's name is the part the page was
/// saved under: for `<part>-<index>` (the stem of `full_result_html_path(dir, part,
/// index)`), the text before the last `-` is `part`, whatever `-` it holds itself.
pub proof fn lemma_saved_page_course(part: Seq<char>, idx: nat)
    ensures
        course_of_stem(part + "-"@ + crate::text::decimal(idx)) == Some(part),
{
    reveal_strlit("-");
    let dgt = crate::text::decimal(idx);
    let stem = part + "-"@ + dgt;
    let k = part.len() as int;
    crate::numbers::lemma_decimal_reads_back(idx);
    assert(stem.subrange(k, k + 1) =~= ch('-'));
    assert(crate::text::matches_at(stem, k, ch('-')));
    crate::text::lemma_rfind(stem, stem.len() - 1, ch('-'));
    assert forall|j: int| k < j <= stem.len() - 1 implies !crate::text::matches_at(stem, j, ch('-')) by {
        assert(stem[j] == dgt[j - k - 1]);
        assert(crate::text::is_digit(dgt[j - k - 1]));
        if crate::text::matches_at(stem, j, ch('-')) {
            assert(stem.subrange(j, j + 1)[0] == stem[j]);
        }
    }
    assert(stem.subrange(0, k) =~= part);
}

/// The course in a page file's name `<course>-<index>.html`.
pub fn infer_course_from_filename(path: &str) -> (res: Option<String>)
    ensures
        opt_view(res) == course_of_filename(path@),
{
    match file_stem_text(path) {
        None => None,
        Some(stem) => course_from_stem(stem.as_str()),
    }
}

/// The course in a file stem `<course>-<index>`.
pub fn course_from_stem(stem: &str) -> (res: Option<String>)
    ensures
        opt_view(res) == course_of_stem(stem@),
{
    let sc = chars_of(stem);
    let dash: [char; 1] = ['-'];
    assert(dash@ =~= ch('-'));
    assert(sc@.take(sc@.len() as int) =~= sc@);
    match crate::text::rfind_chars(&sc, sc.len(), &dash) {
        Some(i) => Some(string_of(&sc, 0, i)),
        None => None,
    }
}

/// The parquet file of a day's results: under `year=/month=/day=` folders when the
/// pages folder names a date.
pub open spec fn parquet_path_of(html_dir: Seq<char>, out_dir: Seq<char>) -> Seq<char> {
    let base = trim_end_char(out_dir, '/');
    match ymd_of_path(html_dir) {
        Some((y, m, d)) => base + "/year="@ + y + "/month="@ + m + "/day="@ + d
            + "/full-results-runners.parquet"@,
        None => base + "/full-results-runners.parquet"@,
    }
}

/// The date found in a path is a four-digit year, a two-digit month and a
/// two-digit day.
proof fn lemma_first_ymd_ok(parts: Seq<Seq<char>>, i: int)
    ensures
        crate::history_sql::first_ymd(parts, i) matches Some((y, m, d)) ==> crate::history_sql::ymd_ok(
            y,
            m,
            d,
        ),
    decreases parts.len() - i,
{
    if !(i < 0 || i + 3 > parts.len()) && !crate::history_sql::ymd_ok(parts[i], parts[i + 1], parts[i + 2]) {
        lemma_first_ymd_ok(parts, i + 1);
    }
}

/// The pages folder the scraper makes for a date `<y>-<m>-<d>` (four, two and two
/// digits) names that date to the results parser: the year, month and day folders
/// of `/data/<y>/<m>/<d>/` are the first date in its path.
pub proof fn lemma_pages_folder_names_date(y: Seq<char>, m: Seq<char>, d: Seq<char>)
    requires
        crate::history_sql::ymd_ok(y, m, d),
    ensures
        ymd_of_path(
            crate::scrape::full_results_dir(
                crate::scrape::base_dir(y + "-"@ + m + "-"@ + d),
                y + "-"@ + m + "-"@ + d,
            ),
        ) == Some((y, m, d)),
{
    reveal_strlit("-");
    reveal_strlit("/");
    reveal_strlit("/data/");
    reveal_strlit("data");
    reveal_strlit("racingpost-results-");
    reveal_strlit("-time-order-full-results-html");
    reveal_strlit("\\");
    let date = y + "-"@ + m + "-"@ + d;
    let dash = seq!['-'];
    let sl = seq!['/'];
    assert forall|x: Seq<char>| crate::text::all_digits(x) implies !x.contains('-') && !x.contains('/')
        && !x.contains('\\') by {
        if x.contains('-') {
            let k = choose|k: int| 0 <= k < x.len() && x[k] == '-';
            assert(crate::text::is_digit(x[k]));
        }
        if x.contains('/') {
            let k = choose|k: int| 0 <= k < x.len() && x[k] == '/';
            assert(crate::text::is_digit(x[k]));
        }
        if x.contains('\\') {
            let k = choose|k: int| 0 <= k < x.len() && x[k] == '\\';
            assert(crate::text::is_digit(x[k]));
        }
    }
    assert(crate::text::split_char(date, '-') == seq![y, m, d]) by {
        let ps = seq![y, m, d];
        assert(ps.drop_last() =~= seq![y, m]);
        assert(seq![y, m].drop_last() =~= seq![y]);
        assert("-"@ =~= dash);
        assert(join(seq![y], dash) == y);
        assert(join(seq![y, m], dash) == join(seq![y], dash) + dash + m);
        assert(join(ps, dash) == join(seq![y, m], dash) + dash + d);
        assert(join(ps, dash) =~= date);
        assert forall|i: int| 0 <= i < ps.len() implies !(#[trigger] ps[i]).contains('-') by {}
        crate::text::lemma_split_join(ps, '-');
    }
    assert(crate::scrape::base_dir(date) == "/data/"@ + y + "/"@ + m + "/"@ + d + "/"@);
    let x = "racingpost-results-"@ + date + "-time-order-full-results-html"@;
    let path = crate::scrape::full_results_dir(crate::scrape::base_dir(date), date);
    let e = Seq::<char>::empty();
    let data = "data"@;
    let parts = seq![e, data, y, m, d, x];
    assert(!x.contains('/') && !x.contains('\\')) by {
        assert forall|k: int| 0 <= k < x.len() implies x[k] != '/' && x[k] != '\\' by {
            if 19 <= k < 19 + date.len() {
                assert(x[k] == date[k - 19]);
                let j = k - 19;
                if j < 4 {
                    assert(date[j] == y[j]);
                } else if 5 <= j < 7 {
                    assert(date[j] == m[j - 5]);
                } else if 8 <= j < 10 {
                    assert(date[j] == d[j - 8]);
                }
            }
        }
    }
    assert(join(parts, sl) =~= path) by {
        let p1 = seq![e];
        let p2 = seq![e, data];
        let p3 = seq![e, data, y];
        let p4 = seq![e, data, y, m];
        let p5 = seq![e, data, y, m, d];
        assert(p2.drop_last() =~= p1);
        assert(p3.drop_last() =~= p2);
        assert(p4.drop_last() =~= p3);
        assert(p5.drop_last() =~= p4);
        assert(parts.drop_last() =~= p5);
        assert(join(p1, sl) == e);
        assert(join(p2, sl) == e + sl + data);
        assert(join(p3, sl) == join(p2, sl) + sl + y);
        assert(join(p4, sl) == join(p3, sl) + sl + m);
        assert(join(p5, sl) == join(p4, sl) + sl + d);
        assert(join(parts, sl) == join(p5, sl) + sl + x);
    }
    assert(!path.contains('\\')) by {
        if path.contains('\\') {
            let k = choose|k: int| 0 <= k < path.len() && path[k] == '\\';
            assert(join(parts, sl)[k] == '\\');
            let q = join(parts, sl);
            assert(q =~= sl + data + sl + y + sl + m + sl + d + sl + x);
            if k >= 6 && k < 10 {
                assert(q[k] == y[k - 6]);
            } else if k >= 11 && k < 13 {
                assert(q[k] == m[k - 11]);
            } else if k >= 14 && k < 16 {
                assert(q[k] == d[k - 14]);
            } else if k >= 17 {
                assert(q[k] == x[k - 17]);
            }
        }
    }
    assert(replace_all(path, "\\"@, "/"@) == path) by {
        crate::text::lemma_find_from(path, 0, "\\"@);
        if crate::text::find_from(path, 0, "\\"@) is Some {
            let k = crate::text::find_from(path, 0, "\\"@)->0;
            assert(path.subrange(k, k + 1)[0] == path[k]);
        }
        assert(path.subrange(0, path.len() as int) =~= path);
    }
    assert(!data.contains('/')) by {
        if data.contains('/') {
            let k = choose|k: int| 0 <= k < data.len() && data[k] == '/';
        }
    }
    assert forall|i: int| 0 <= i < parts.len() implies !(#[trigger] parts[i]).contains('/') by {}
    crate::text::lemma_split_join(parts, '/');
    let rest = seq![data, y, m, d, x];
    assert(parts =~= seq![e] + rest);
    assert forall|i: int| 0 <= i < rest.len() implies (#[trigger] rest[i]).len() > 0 by {}
    crate::racecard_urls::lemma_non_empty_after_empty(rest);
    assert(crate::racecard::path_parts(path) == rest);
    assert(!crate::text::all_digits(data)) by {
        assert(!crate::text::is_digit(data[0]));
    }
    assert(crate::history_sql::first_ymd(rest, 0) == crate::history_sql::first_ymd(rest, 1));
}

/// The table written for a pages folder that names a real date is filed under the
/// `year=/month=/day=` folders that read back as that date.
pub proof fn lemma_parquet_path_names_date(html_dir: Seq<char>, out_dir: Seq<char>)
    requires
        ymd_of_path(html_dir) matches Some((y, m, d)) && crate::result_rows::valid_ymd(
            crate::text::digits_value(y) as int,
            crate::text::digits_value(m) as int,
            crate::text::digits_value(d) as int,
        ),
    ensures
        ymd_of_path(html_dir) matches Some((y, m, d)) && crate::result_rows::partition_ymd_of(
            parquet_path_of(html_dir, out_dir),
        ) == Some(
            (
                crate::text::digits_value(y) as int,
                crate::text::digits_value(m) as int,
                crate::text::digits_value(d) as int,
            ),
        ),
{
    let parts = crate::racecard::path_parts(replace_all(html_dir, "\\"@, "/"@));
    lemma_first_ymd_ok(parts, 0);
    let (y, m, d) = ymd_of_path(html_dir)->0;
    crate::result_rows::lemma_partition_reads_back(trim_end_char(out_dir, '/'), y, m, d);
}

/// The parquet file for the results read from a pages folder.
pub fn output_parquet_path(html_dir: &str, out_dir: &str) -> (res: String)
    ensures
        res@ == parquet_path_of(html_dir@, out_dir@),
{
    let mut out = without_trailing_slashes(out_dir);
    match infer_ymd_from_path(html_dir) {
        Some((y, m, d)) => {
            push_str(&mut out, "/year=");
            push_str(&mut out, y.as_str());
            push_str(&mut out, "/month=");
            push_str(&mut out, m.as_str());
            push_str(&mut out, "/day=");
            push_str(&mut out, d.as_str());
            push_str(&mut out, "/full-results-runners.parquet");
        },
        None => {
            push_str(&mut out, "/full-results-runners.parquet");
        },
    }
    out
}

/// The query file of a day, beside the racecards output (in `/data` when that has
/// no folder).
pub open spec fn history_sql_path_of(out_path: Seq<char>, y: Seq<char>, m: Seq<char>, d: Seq<char>) -> Seq<char> {
    history_sql_path_from(path_parent(out_path), y, m, d)
}

/// The query file of a day in the folder `parent` (in `/data` when there is none).
pub open spec fn history_sql_path_from(parent: Option<Seq<char>>, y: Seq<char>, m: Seq<char>, d: Seq<char>) -> Seq<char> {
    let dir = match parent {
        Some(p) => p,
        None => "/data"@,
    };
    trim_end_char(dir, '/') + "/racingpost-racecards-"@ + y + "-"@ + m + "-"@ + d + "-history.sql"@
}

/// The query file of a day, beside the racecards output.
pub fn history_sql_path(out_path: &str, year: &str, month: &str, day: &str) -> (res: String)
    ensures
        res@ == history_sql_path_of(out_path@, year@, month@, day@),
{
    let parent = parent_text(out_path);
    history_sql_path_in(&parent, year, month, day)
}

/// The query file of a day in the folder `parent`, or in `/data` without one.
pub fn history_sql_path_in(parent: &Option<String>, year: &str, month: &str, day: &str) -> (res: String)
    ensures
        res@ == history_sql_path_from(opt_view(*parent), year@, month@, day@),
{
    let dir = match parent {
        Some(p) => p.clone(),
        None => "/data".to_string(),
    };
    let mut out = without_trailing_slashes(dir.as_str());
    push_str(&mut out, "/racingpost-racecards-");
    push_str(&mut out, year);
    push_str(&mut out, "-");
    push_str(&mut out, month);
    push_str(&mut out, "-");
    push_str(&mut out, day);
    push_str(&mut out, "-history.sql");
    out
}


/// The saved page of the `idx`-th url (from 1) of a course, in the pages folder.
pub open spec fn local_page_path_of(html_dir: Seq<char>, course: Seq<char>, idx: nat) -> Seq<char> {
    trim_end_char(html_dir, '/') + "/"@ + crate::utils::slug_or_unknown_spec(course) + "-"@
        + crate::text::decimal(idx) + ".html"@
}

/// The page read for the `idx`-th url of a course is the file the scraper saved it
/// to: in the pages folder (without trailing slashes), named by the course's slug
/// (or `unknown`), a hyphen, the index and `.html`.
pub proof fn lemma_local_page_is_saved_page(html_dir: Seq<char>, course: Seq<char>, idx: nat)
    ensures
        local_page_path_of(html_dir, course, idx) == crate::scrape::full_result_html_path(
            trim_end_char(html_dir, '/'),
            crate::utils::slug_or_unknown_spec(course),
            idx,
        ),
{
}

/// The saved page of the `idx`-th url of a course.
pub fn local_page_path(html_dir: &str, course: &str, idx: usize) -> (res: String)
    ensures
        res@ == local_page_path_of(html_dir@, course@, idx as nat),
        res@ == crate::scrape::full_result_html_path(
            trim_end_char(html_dir@, '/'),
            crate::utils::slug_or_unknown_spec(course@),
            idx as nat,
        ),
{
    let dir = without_trailing_slashes(html_dir);
    let part = crate::utils::slug_or_unknown(course);
    crate::scrape::full_result_html_file(dir.as_str(), part.as_str(), idx)
}

} // verus!
