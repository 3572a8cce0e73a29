//! Names of the files a scrape writes, and the url list it writes.
use vstd::prelude::*;
use crate::text::{chars_of, decimal, decimal_exec, push_str, split_char, split_chars, string_of, vecs_view};
use crate::racingpost::grouping_view;
use crate::utils::{slug_or_unknown, slug_or_unknown_spec};

verus! {

/// The url list as tab-separated lines: for each course in order, one line
/// `course<TAB>url` per url, in order.
pub open spec fn tsv_lines(g: Seq<(Seq<char>, Seq<Seq<char>>)>) -> Seq<Seq<char>>
    decreases g.len(),
{
    if g.len() == 0 {
        Seq::empty()
    } else {
        tsv_lines(g.drop_last()) + g.last().1.map_values(|u: Seq<char>| g.last().0 + "\t"@ + u)
    }
}

/// Piece `i` of the date split at `-`, or `unknown` when there is no such piece.
pub open spec fn ymd_part(date: Seq<char>, i: int) -> Seq<char> {
    if i < split_char(date, '-').len() {
        split_char(date, '-')[i]
    } else {
        "unknown"@
    }
}

/// The directory of a results date: `/data/<year>/<month>/<day>/`.
pub open spec fn base_dir(date: Seq<char>) -> Seq<char> {
    "/data/"@ + ymd_part(date, 0) + "/"@ + ymd_part(date, 1) + "/"@ + ymd_part(date, 2) + "/"@
}

/// The file of one course's urls.
pub open spec fn per_course_path(base: Seq<char>, date: Seq<char>, course: Seq<char>) -> Seq<char> {
    base + "racingpost-results-"@ + date + "-time-order-full-result-urls-"@ + slug_or_unknown_spec(
        course,
    ) + ".txt"@
}

/// The file of all urls as tab-separated lines.
pub open spec fn tsv_path(base: Seq<char>, date: Seq<char>) -> Seq<char> {
    base + "racingpost-results-"@ + date + "-time-order-full-result-urls.tsv"@
}

/// The file of the saved time-order page.
pub open spec fn time_order_path(base: Seq<char>, date: Seq<char>) -> Seq<char> {
    base + "racingpost-results-"@ + date + ".html"@
}

/// The directory of the saved full-result pages.
pub open spec fn full_results_dir(base: Seq<char>, date: Seq<char>) -> Seq<char> {
    base + "racingpost-results-"@ + date + "-time-order-full-results-html"@
}

/// The file of the `idx`-th full-result page of a course.
pub open spec fn full_result_html_path(dir: Seq<char>, course_part: Seq<char>, idx: nat) -> Seq<char> {
    dir + "/"@ + course_part + "-"@ + decimal(idx) + ".html"@
}

/// The url list as tab-separated lines, one per (course, url), in course order and
/// url order.
pub fn build_url_tsv_lines(grouped: &Vec<(String, Vec<String>)>) -> (res: Vec<String>)
    ensures
        res.deep_view() == tsv_lines(grouping_view(grouped@)),
{
    let ghost gv = grouping_view(grouped@);
    let mut lines: Vec<String> = Vec::new();
    let mut i: usize = 0;
    while i < grouped.len()
        invariant
            0 <= i <= grouped@.len(),
            gv == grouping_view(grouped@),
            lines.deep_view() == tsv_lines(gv.take(i as int)),
        decreases grouped@.len() - i,
    {
        let course = &grouped[i].0;
        let urls = &grouped[i].1;
        let ghost base = lines.deep_view();
        let ghost mk = |u: Seq<char>| course@ + "\t"@ + u;
        let mut j: usize = 0;
        while j < urls.len()
            invariant
                0 <= j <= urls@.len(),
                lines.deep_view() == base + urls.deep_view().take(j as int).map_values(mk),
                mk == (|u: Seq<char>| course@ + "\t"@ + u),
            decreases urls@.len() - j,
        {
            let mut line = String::new();
            push_str(&mut line, course.as_str());
            push_str(&mut line, "\t");
            push_str(&mut line, urls[j].as_str());
            let ghost before = lines.deep_view();
            lines.push(line);
            assert(lines.deep_view() =~= before.push(line@));
            assert(urls.deep_view().take(j + 1).map_values(mk) =~= urls.deep_view().take(
                j as int,
            ).map_values(mk).push(mk(urls@[j as int]@)));
            j = j + 1;
        }
        assert(urls.deep_view().take(urls@.len() as int) =~= urls.deep_view());
        assert(gv.take(i + 1).drop_last() =~= gv.take(i as int));
        assert(gv.take(i + 1).last() == gv[i as int]);
        assert(gv[i as int] == (course@, urls.deep_view()));
        assert(gv[i as int].1.map_values(|u: Seq<char>| gv[i as int].0 + "\t"@ + u) =~= urls.deep_view().map_values(mk));
        i = i + 1;
    }
    assert(gv.take(grouped@.len() as int) =~= gv);
    lines
}

/// Piece `i` of a date split at `-`, or `unknown`.
fn ymd_piece(pieces: &Vec<Vec<char>>, i: usize) -> (res: String)
    ensures
        i < pieces@.len() ==> res@ == pieces@[i as int]@,
        i >= pieces@.len() ==> res@ == "unknown"@,
{
    if i < pieces.len() {
        string_of(&pieces[i], 0, pieces[i].len())
    } else {
        String::from_str("unknown")
    }
}

/// The year, month and day pieces of a `YYYY-MM-DD` date, each `unknown` when missing.
pub fn split_ymd(date: &str) -> (res: (String, String, String))
    ensures
        res.0@ == ymd_part(date@, 0),
        res.1@ == ymd_part(date@, 1),
        res.2@ == ymd_part(date@, 2),
{
    let d = chars_of(date);
    let pieces = split_chars(&d, '-');
    let y = ymd_piece(&pieces, 0);
    let m = ymd_piece(&pieces, 1);
    let dd = ymd_piece(&pieces, 2);
    proof {
        let v = vecs_view(pieces@);
        assert(v.len() == pieces@.len());
        if 0 < pieces@.len() {
            assert(v[0] == pieces@[0]@);
        }
        if 1 < pieces@.len() {
            assert(v[1] == pieces@[1]@);
        }
        if 2 < pieces@.len() {
            assert(v[2] == pieces@[2]@);
        }
    }
    (y, m, dd)
}

/// The directory for a results date: `/data/<year>/<month>/<day>/`.
pub fn out_base_dir_for_date(results_date: &str) -> (res: String)
    ensures
        res@ == base_dir(results_date@),
{
    let (y, m, d) = split_ymd(results_date);
    let mut out = String::from_str("/data/");
    push_str(&mut out, y.as_str());
    push_str(&mut out, "/");
    push_str(&mut out, m.as_str());
    push_str(&mut out, "/");
    push_str(&mut out, d.as_str());
    push_str(&mut out, "/");
    assert(out@ =~= base_dir(results_date@));
    out
}

/// The file that lists the urls of one course.
pub fn per_course_urls_path(out_base_dir: &str, results_date: &str, course: &str) -> (res: String)
    ensures
        res@ == per_course_path(out_base_dir@, results_date@, course@),
{
    let slug = slug_or_unknown(course);
    let mut out = String::from_str(out_base_dir);
    push_str(&mut out, "racingpost-results-");
    push_str(&mut out, results_date);
    push_str(&mut out, "-time-order-full-result-urls-");
    push_str(&mut out, slug.as_str());
    push_str(&mut out, ".txt");
    assert(out@ =~= per_course_path(out_base_dir@, results_date@, course@));
    out
}

/// The file that lists all urls as tab-separated lines.
pub fn urls_tsv_path(out_base_dir: &str, results_date: &str) -> (res: String)
    ensures
        res@ == tsv_path(out_base_dir@, results_date@),
{
    let mut out = String::from_str(out_base_dir);
    push_str(&mut out, "racingpost-results-");
    push_str(&mut out, results_date);
    push_str(&mut out, "-time-order-full-result-urls.tsv");
    assert(out@ =~= tsv_path(out_base_dir@, results_date@));
    out
}

/// The file the time-order page is saved to.
pub fn time_order_html_path(out_base_dir: &str, results_date: &str) -> (res: String)
    ensures
        res@ == time_order_path(out_base_dir@, results_date@),
{
    let mut out = String::from_str(out_base_dir);
    push_str(&mut out, "racingpost-results-");
    push_str(&mut out, results_date);
    push_str(&mut out, ".html");
    assert(out@ =~= time_order_path(out_base_dir@, results_date@));
    out
}

/// The directory the full-result pages are saved to.
pub fn full_results_html_dir(out_base_dir: &str, results_date: &str) -> (res: String)
    ensures
        res@ == full_results_dir(out_base_dir@, results_date@),
{
    let mut out = String::from_str(out_base_dir);
    push_str(&mut out, "racingpost-results-");
    push_str(&mut out, results_date);
    push_str(&mut out, "-time-order-full-results-html");
    assert(out@ =~= full_results_dir(out_base_dir@, results_date@));
    out
}

/// The file of the `idx`-th full-result page of a course: `<dir>/<course>-<idx>.html`.
pub fn full_result_html_file(dir: &str, course_part: &str, idx: usize) -> (res: String)
    ensures
        res@ == full_result_html_path(dir@, course_part@, idx as nat),
{
    let digits = decimal_exec(idx);
    let n = string_of(&digits, 0, digits.len());
    assert(digits@.subrange(0, digits@.len() as int) =~= digits@);
    let mut out = String::from_str(dir);
    push_str(&mut out, "/");
    push_str(&mut out, course_part);
    push_str(&mut out, "-");
    push_str(&mut out, n.as_str());
    push_str(&mut out, ".html");
    assert(out@ =~= full_result_html_path(dir@, course_part@, idx as nat));
    out
}


// ---------------------------------------------------------------------------
// The urls file read back
// ---------------------------------------------------------------------------

/// A line without one final carriage return.
pub open spec fn strip_cr(l: Seq<char>) -> Seq<char> {
    if l.len() > 0 && l.last() == '\r' {
        l.drop_last()
    } else {
        l
    }
}

/// The lines of a text as `str::lines` gives them: split at `\n`, each line ended
/// by `\n` without a `\r` before it, and no empty last line.
pub open spec fn text_lines(s: Seq<char>) -> Seq<Seq<char>> {
    let p = split_char(s, '\n');
    let ended = Seq::new((p.len() - 1) as nat, |i: int| strip_cr(p[i]));
    if p.last().len() > 0 {
        ended.push(p.last())
    } else {
        ended
    }
}

/// The course and url of a line: its first two tab-separated fields.
pub open spec fn tsv_fields(line: Seq<char>) -> (Seq<char>, Seq<char>) {
    let f = split_char(line, '\t');
    (f[0], if f.len() > 1 { f[1] } else { Seq::empty() })
}

/// The (course, url) pairs of the lines that have a url, in order.
pub open spec fn tsv_pairs(lines: Seq<Seq<char>>) -> Seq<(Seq<char>, Seq<char>)>
    decreases lines.len(),
{
    if lines.len() == 0 {
        Seq::empty()
    } else {
        tsv_pairs(lines.drop_last()) + if tsv_fields(lines.last()).1.len() > 0 {
            seq![tsv_fields(lines.last())]
        } else {
            Seq::empty()
        }
    }
}

/// The pairs of a list as texts.
pub open spec fn pairs_text(v: Seq<(String, String)>) -> Seq<(Seq<char>, Seq<char>)> {
    v.map_values(|p: (String, String)| (p.0@, p.1@))
}

/// A line without its final carriage return.
fn strip_cr_exec(l: &Vec<char>) -> (res: Vec<char>)
    ensures
        res@ == strip_cr(l@),
{
    if l.len() > 0 && l[l.len() - 1] == '\r' {
        crate::text::slice_chars(l, 0, l.len() - 1)
    } else {
        crate::text::slice_chars(l, 0, l.len())
    }
}

/// The course and url of a line.
fn tsv_fields_exec(line: &Vec<char>) -> (res: (String, String))
    ensures
        (res.0@, res.1@) == tsv_fields(line@),
{
    let f = split_chars(line, '\t');
    proof {
        crate::text::lemma_split_len(line@, '\t');
    }
    assert(vecs_view(f@)[0] == f@[0]@);
    assert(f@[0]@.subrange(0, f@[0]@.len() as int) =~= f@[0]@);
    let course = string_of(&f[0], 0, f[0].len());
    let url = if f.len() > 1 {
        assert(vecs_view(f@)[1] == f@[1]@);
        assert(f@[1]@.subrange(0, f@[1]@.len() as int) =~= f@[1]@);
        string_of(&f[1], 0, f[1].len())
    } else {
        String::new()
    };
    (course, url)
}

/// The (course, url) pairs of a urls file's text: one per line that has a url after
/// its tab.
pub fn parse_tsv_lines(contents: &str) -> (res: Vec<(String, String)>)
    ensures
        pairs_text(res@) == tsv_pairs(text_lines(contents@)),
{
    let c = chars_of(contents);
    let p = split_chars(&c, '\n');
    proof {
        crate::text::lemma_split_len(c@, '\n');
    }
    let ghost pv = vecs_view(p@);
    let ghost lines = text_lines(contents@);
    let mut out: Vec<(String, String)> = Vec::new();
    let mut i: usize = 0;
    assert(lines.take(0) =~= Seq::<Seq<char>>::empty());
    while i < p.len()
        invariant
            i <= p@.len(),
            p@.len() >= 1,
            pv == vecs_view(p@),
            pv == split_char(contents@, '\n'),
            lines == text_lines(contents@),
            i < p@.len() ==> pairs_text(out@) == tsv_pairs(lines.take(i as int)),
            i == p@.len() ==> pairs_text(out@) == tsv_pairs(lines),
        decreases p@.len() - i,
    {
        assert(pv[i as int] == p@[i as int]@);
        let last = i + 1 == p.len();
        if last && p[i].len() == 0 {
            assert(lines.len() == i);
            assert(lines.take(i as int) =~= lines);
            i = i + 1;
            continue;
        }
        let line = if last {
            crate::text::slice_chars(&p[i], 0, p[i].len())
        } else {
            strip_cr_exec(&p[i])
        };
        assert(p@[i as int]@.subrange(0, p@[i as int]@.len() as int) =~= p@[i as int]@);
        assert(lines[i as int] == line@);
        assert(lines.take(i + 1).drop_last() =~= lines.take(i as int));
        assert(lines.take(i + 1).last() == line@);
        let (course, url) = tsv_fields_exec(&line);
        let ghost before = pairs_text(out@);
        if !url.as_str().is_empty() {
            out.push((course, url));
            assert(pairs_text(out@) =~= before.push(tsv_fields(line@)));
        }
        assert(pairs_text(out@) =~= tsv_pairs(lines.take(i + 1)));
        if last {
            assert(lines.len() == i + 1);
            assert(lines.take(i + 1) =~= lines);
        }
        i = i + 1;
    }
    out
}

// ---------------------------------------------------------------------------
// What the urls file gives back
// ---------------------------------------------------------------------------

/// The (course, url) pairs of a grouping, course by course and url by url.
pub open spec fn grouped_pairs(g: Seq<(Seq<char>, Seq<Seq<char>>)>) -> Seq<(Seq<char>, Seq<char>)>
    decreases g.len(),
{
    if g.len() == 0 {
        Seq::empty()
    } else {
        grouped_pairs(g.drop_last()) + g.last().1.map_values(|u: Seq<char>| (g.last().0, u))
    }
}

/// A url the urls file carries unchanged: not empty, without a tab or a line
/// break, and not ending with a carriage return.
pub open spec fn tsv_url_ok(u: Seq<char>) -> bool {
    u.len() > 0 && !u.contains('\t') && !u.contains('\n') && u.last() != '\r'
}

/// A grouping the urls file carries unchanged: no course holds a tab or a line
/// break, and every url is carried unchanged.
pub open spec fn tsv_safe(g: Seq<(Seq<char>, Seq<Seq<char>>)>) -> bool {
    forall|i: int|
        0 <= i < g.len() ==> {
            &&& !(#[trigger] g[i]).0.contains('\t')
            &&& !g[i].0.contains('\n')
            &&& forall|j: int| 0 <= j < g[i].1.len() ==> tsv_url_ok(#[trigger] g[i].1[j])
        }
}

proof fn lemma_tsv_pairs_concat(a: Seq<Seq<char>>, b: Seq<Seq<char>>)
    ensures
        tsv_pairs(a + b) == tsv_pairs(a) + tsv_pairs(b),
    decreases b.len(),
{
    if b.len() == 0 {
        assert(a + b =~= a);
        assert(tsv_pairs(a) + tsv_pairs(b) =~= tsv_pairs(a));
    } else {
        lemma_tsv_pairs_concat(a, b.drop_last());
        assert((a + b).drop_last() =~= a + b.drop_last());
        assert((a + b).last() == b.last());
    }
}

/// A line `course<TAB>url` reads back as its course and url.
proof fn lemma_tsv_fields_line(course: Seq<char>, url: Seq<char>)
    requires
        !course.contains('\t'),
        !url.contains('\t'),
    ensures
        tsv_fields(course + "\t"@ + url) == (course, url),
{
    reveal_strlit("\t");
    let parts = seq![course, url];
    crate::text::lemma_split_join(parts, '\t');
    assert(parts.drop_last() =~= seq![course]);
    assert(crate::text::join(parts.drop_last(), seq!['\t']) == course);
    assert("\t"@ =~= seq!['\t']);
    assert(course + "\t"@ + url =~= crate::text::join(parts, seq!['\t']));
}

/// The lines of one course read back as its pairs.
proof fn lemma_course_lines(c: Seq<char>, us: Seq<Seq<char>>)
    requires
        !c.contains('\t'),
        forall|j: int| 0 <= j < us.len() ==> tsv_url_ok(#[trigger] us[j]),
    ensures
        tsv_pairs(us.map_values(|u: Seq<char>| c + "\t"@ + u)) == us.map_values(|u: Seq<char>| (c, u)),
    decreases us.len(),
{
    if us.len() > 0 {
        let front = us.drop_last();
        lemma_course_lines(c, front);
        let ls = us.map_values(|u: Seq<char>| c + "\t"@ + u);
        assert(ls.drop_last() =~= front.map_values(|u: Seq<char>| c + "\t"@ + u));
        assert(tsv_url_ok(us[us.len() - 1]));
        lemma_tsv_fields_line(c, us.last());
        assert(us.map_values(|u: Seq<char>| (c, u)) =~= front.map_values(|u: Seq<char>| (c, u)).push(
            (c, us.last()),
        ));
    } else {
        assert(us.map_values(|u: Seq<char>| c + "\t"@ + u) =~= Seq::<Seq<char>>::empty());
        assert(us.map_values(|u: Seq<char>| (c, u)) =~= Seq::<(Seq<char>, Seq<char>)>::empty());
    }
}

/// The lines of a grouping read back as its pairs.
proof fn lemma_tsv_lines_pairs(g: Seq<(Seq<char>, Seq<Seq<char>>)>)
    requires
        tsv_safe(g),
    ensures
        tsv_pairs(tsv_lines(g)) == grouped_pairs(g),
    decreases g.len(),
{
    if g.len() == 0 {
        assert(tsv_lines(g) =~= Seq::<Seq<char>>::empty());
    } else {
        let front = g.drop_last();
        assert(tsv_safe(front)) by {
            assert forall|i: int| 0 <= i < front.len() implies {
                &&& !(#[trigger] front[i]).0.contains('\t')
                &&& !front[i].0.contains('\n')
                &&& forall|j: int| 0 <= j < front[i].1.len() ==> tsv_url_ok(#[trigger] front[i].1[j])
            } by {
                assert(front[i] == g[i]);
            }
        }
        lemma_tsv_lines_pairs(front);
        let last = g[g.len() - 1];
        lemma_course_lines(last.0, last.1);
        lemma_tsv_pairs_concat(tsv_lines(front), last.1.map_values(|u: Seq<char>| last.0 + "\t"@ + u));
    }
}

/// Every line of a grouping is non-empty, holds no line break, and does not end
/// with a carriage return.
proof fn lemma_tsv_lines_shape(g: Seq<(Seq<char>, Seq<Seq<char>>)>)
    requires
        tsv_safe(g),
    ensures
        forall|k: int|
            0 <= k < tsv_lines(g).len() ==> {
                &&& (#[trigger] tsv_lines(g)[k]).len() > 0
                &&& !tsv_lines(g)[k].contains('\n')
                &&& tsv_lines(g)[k].last() != '\r'
            },
    decreases g.len(),
{
    reveal_strlit("\t");
    if g.len() > 0 {
        let front = g.drop_last();
        assert(tsv_safe(front)) by {
            assert forall|i: int| 0 <= i < front.len() implies {
                &&& !(#[trigger] front[i]).0.contains('\t')
                &&& !front[i].0.contains('\n')
                &&& forall|j: int| 0 <= j < front[i].1.len() ==> tsv_url_ok(#[trigger] front[i].1[j])
            } by {
                assert(front[i] == g[i]);
            }
        }
        lemma_tsv_lines_shape(front);
        let last = g[g.len() - 1];
        let tail = last.1.map_values(|u: Seq<char>| last.0 + "\t"@ + u);
        let a = tsv_lines(front);
        assert forall|k: int| 0 <= k < tsv_lines(g).len() implies {
            &&& (#[trigger] tsv_lines(g)[k]).len() > 0
            &&& !tsv_lines(g)[k].contains('\n')
            &&& tsv_lines(g)[k].last() != '\r'
        } by {
            if k < a.len() {
                assert(tsv_lines(g)[k] == a[k]);
            } else {
                let u = last.1[k - a.len()];
                assert(tsv_url_ok(u));
                let line = last.0 + "\t"@ + u;
                assert(tsv_lines(g)[k] == line);
                assert(line.last() == u.last());
                assert(!line.contains('\n')) by {
                    if line.contains('\n') {
                        let m = choose|m: int| 0 <= m < line.len() && line[m] == '\n';
                        if m < last.0.len() {
                            assert(last.0[m] == '\n');
                        } else if m > last.0.len() {
                            assert(u[m - last.0.len() - 1] == '\n');
                        }
                    }
                }
            }
        }
    }
}

/// `str::lines` undoes joining with `\n` lines that are non-empty, hold no line
/// break and do not end with a carriage return.
proof fn lemma_text_lines_join(ls: Seq<Seq<char>>)
    requires
        forall|k: int|
            0 <= k < ls.len() ==> {
                &&& (#[trigger] ls[k]).len() > 0
                &&& !ls[k].contains('\n')
                &&& ls[k].last() != '\r'
            },
    ensures
        text_lines(crate::text::join(ls, "\n"@)) == ls,
{
    reveal_strlit("\n");
    assert("\n"@ =~= seq!['\n']);
    if ls.len() == 0 {
        assert(split_char(Seq::<char>::empty(), '\n') =~= seq![Seq::<char>::empty()]);
        assert(text_lines(crate::text::join(ls, "\n"@)) =~= ls);
    } else {
        crate::text::lemma_split_join(ls, '\n');
        let p = split_char(crate::text::join(ls, "\n"@), '\n');
        assert(p == ls);
        let ended = Seq::new((p.len() - 1) as nat, |i: int| strip_cr(p[i]));
        assert(ended.push(p.last()) =~= ls);
    }
}

/// Reading back the urls file of a grouping gives its (course, url) pairs, course
/// by course and url by url, when no course holds a tab or a line break and every
/// url is non-empty, holds neither, and does not end with a carriage return.
pub proof fn lemma_url_list_read_back(g: Seq<(Seq<char>, Seq<Seq<char>>)>)
    requires
        tsv_safe(g),
    ensures
        tsv_pairs(text_lines(crate::text::join(tsv_lines(g), "\n"@))) == grouped_pairs(g),
{
    lemma_tsv_lines_shape(g);
    lemma_text_lines_join(tsv_lines(g));
    lemma_tsv_lines_pairs(g);
}

// ---------------------------------------------------------------------------
// Scrolling the time-order page
// ---------------------------------------------------------------------------

/// The most scrolls made on the time-order page.
pub const SCROLL_ROUNDS: u32 = 12;

/// What to do after a scroll: stop, or wait and scroll again (while rounds remain)
/// remembering the height.
pub enum ScrollStep {
    Stop,
    Again(i64),
}

/// The next step after a scroll reached `height`, the last height being `prev`:
/// stop when the page stopped growing.
pub fn scroll_step(prev: i64, height: i64) -> (res: ScrollStep)
    ensures
        res matches ScrollStep::Stop <==> height == prev,
        res matches ScrollStep::Again(h) ==> h == height,
{
    if height == prev {
        ScrollStep::Stop
    } else {
        ScrollStep::Again(height)
    }
}

// ---------------------------------------------------------------------------
// Fetching a page, with retries
// ---------------------------------------------------------------------------

/// How many times a page is tried.
pub const FETCH_ATTEMPTS: u32 = 3;

/// What follows an attempt at a page: stop with it, try again (the number of the
/// next attempt), or give the page up.
pub enum AttemptStep {
    Done,
    Again(u32),
    GiveUp,
}

/// The next step after attempt number `attempt` (counted from 1): done when it
/// succeeded, else another attempt while fewer than `FETCH_ATTEMPTS` were made,
/// else give up.
pub fn after_attempt(attempt: u32, succeeded: bool) -> (res: AttemptStep)
    ensures
        succeeded ==> res matches AttemptStep::Done,
        !succeeded && attempt < FETCH_ATTEMPTS ==> (res matches AttemptStep::Again(n) && n == attempt + 1),
        !succeeded && attempt >= FETCH_ATTEMPTS ==> res matches AttemptStep::GiveUp,
{
    if succeeded {
        AttemptStep::Done
    } else if attempt < FETCH_ATTEMPTS {
        AttemptStep::Again(attempt + 1)
    } else {
        AttemptStep::GiveUp
    }
}


// ---------------------------------------------------------------------------
// Output documents
// ---------------------------------------------------------------------------

/// The races as one JSON array: `[` and the objects joined by `,` and `]`.
pub fn json_array_text(parts: &Vec<String>) -> (res: String)
    ensures
        res@ == "["@ + crate::text::join(parts@.map_values(|p: String| p@), ","@) + "]"@,
{
    let mut out = String::new();
    push_str(&mut out, "[");
    crate::text::push_joined(&mut out, parts.as_slice(), ",");
    push_str(&mut out, "]");
    out
}

/// Lines joined by `\n`, without a final one.
pub fn lines_text(lines: &Vec<String>) -> (res: String)
    ensures
        res@ == crate::text::join(lines@.map_values(|p: String| p@), "\n"@),
{
    let mut out = String::new();
    crate::text::push_joined(&mut out, lines.as_slice(), "\n");
    assert(out@ =~= crate::text::join(lines@.map_values(|p: String| p@), "\n"@));
    out
}

} // verus!
