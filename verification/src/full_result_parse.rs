//! Parsing of a downloaded full-result page into a JSON line.
use vstd::prelude::*;
use crate::text::{
    ch, chars_of, find, find_chars, find_from, join, lemma_find_from, lemma_rfind, push_char, push_str,
    rfind, rfind_chars, slice_chars, string_of, trim, trim_bounds, trimmed_chars, trimmed_string,
};

verus! {

// ---------------------------------------------------------------------------
// Specifications
// ---------------------------------------------------------------------------

/// Bounds of the text between the first `start` and the first `end` after it.
pub open spec fn between_bounds(h: Seq<char>, start: Seq<char>, end: Seq<char>) -> Option<(int, int)> {
    match find(h, start) {
        None => None,
        Some(i) => match find_from(h, i + start.len(), end) {
            None => None,
            Some(j) => Some((i + start.len(), j)),
        },
    }
}

/// The text between the first `start` and the first `end` after it.
pub open spec fn between(h: Seq<char>, start: Seq<char>, end: Seq<char>) -> Option<Seq<char>> {
    match between_bounds(h, start, end) {
        None => None,
        Some((a, b)) => Some(h.subrange(a, b)),
    }
}

/// Bounds of the text of the element that follows the first `marker`:
/// from just after the next `>` up to the next `<`.
pub open spec fn text_after_bounds(h: Seq<char>, marker: Seq<char>) -> Option<(int, int)> {
    match find(h, marker) {
        None => None,
        Some(p) => match find_from(h, p + marker.len(), ch('>')) {
            None => None,
            Some(g) => match find_from(h, g + 1, ch('<')) {
                None => None,
                Some(l) => Some((g + 1, l)),
            },
        },
    }
}

/// The trimmed text of the element that follows the first `marker`.
pub open spec fn text_after(h: Seq<char>, marker: Seq<char>) -> Option<Seq<char>> {
    match text_after_bounds(h, marker) {
        None => None,
        Some((a, b)) => Some(trim(h.subrange(a, b))),
    }
}

/// The text after the first `marker`, or the empty text.
pub open spec fn text_after_or_empty(h: Seq<char>, marker: Seq<char>) -> Seq<char> {
    match text_after(h, marker) {
        None => Seq::empty(),
        Some(t) => t,
    }
}

/// How one character is written inside a JSON string.
pub open spec fn escape_char(c: char) -> Seq<char> {
    if c == '"' {
        seq!['\\', '"']
    } else if c == '\\' {
        seq!['\\', '\\']
    } else if c == '\n' {
        seq!['\\', 'n']
    } else if c == '\r' {
        seq!['\\', 'r']
    } else if c == '\t' {
        seq!['\\', 't']
    } else {
        seq![c]
    }
}

/// `s` escaped for a JSON string: quote, backslash, newline, carriage return and
/// tab are escaped, every other character is kept.
pub open spec fn json_escaped(s: Seq<char>) -> Seq<char>
    decreases s.len(),
{
    if s.len() == 0 {
        Seq::empty()
    } else {
        json_escaped(s.drop_last()) + escape_char(s.last())
    }
}

/// The character an escape `\e` inside a JSON string stands for.
pub open spec fn unescape_char(e: char) -> char {
    if e == 'n' {
        '\n'
    } else if e == 'r' {
        '\r'
    } else if e == 't' {
        '\t'
    } else {
        e
    }
}

/// Reads the inside of a JSON string, just after its opening quote: the text it
/// stands for, with `\"`, `\\`, `\n`, `\r` and `\t` read as the characters they
/// stand for, up to the first unescaped `"`; and the position of that closing
/// quote (the length when there is none).
pub open spec fn json_string_body(q: Seq<char>) -> (Seq<char>, int)
    decreases q.len(),
{
    if q.len() == 0 || q[0] == '"' {
        (Seq::empty(), 0)
    } else if q[0] == '\\' && q.len() >= 2 {
        let (t, e) = json_string_body(q.subrange(2, q.len() as int));
        (seq![unescape_char(q[1])] + t, e + 2)
    } else {
        let (t, e) = json_string_body(q.subrange(1, q.len() as int));
        (seq![q[0]] + t, e + 1)
    }
}

/// Reading through an escaped text gives the text back and goes on after it.
proof fn lemma_json_body_escaped(s: Seq<char>, t: Seq<char>)
    ensures
        json_string_body(json_escaped(s) + t) == (
            s + json_string_body(t).0,
            json_escaped(s).len() + json_string_body(t).1,
        ),
    decreases s.len(),
{
    if s.len() == 0 {
        assert(json_escaped(s) + t =~= t);
        assert(s + json_string_body(t).0 =~= json_string_body(t).0);
    } else {
        let s0 = s.drop_last();
        let c = s.last();
        let t2 = escape_char(c) + t;
        lemma_json_body_escaped(s0, t2);
        assert(json_escaped(s) + t =~= json_escaped(s0) + t2);
        if escape_char(c).len() == 2 {
            assert(t2.subrange(2, t2.len() as int) =~= t);
        } else {
            assert(t2.subrange(1, t2.len() as int) =~= t);
        }
        assert(s0 + (seq![c] + json_string_body(t).0) =~= s + json_string_body(t).0);
    }
}

/// A JSON string written as `"` + `json_escape(s)` + `"` reads back exactly as
/// `s`, and ends at its closing quote: no quote inside it ends it early.
pub proof fn lemma_json_string_reads_back(s: Seq<char>)
    ensures
        json_string_body(json_escaped(s) + seq!['"']) == (s, json_escaped(s).len() as int),
{
    lemma_json_body_escaped(s, seq!['"']);
    assert(json_string_body(seq!['"']) == (Seq::<char>::empty(), 0int));
    assert(s + Seq::<char>::empty() =~= s);
}

/// The selector that marks a runner's row.
pub open spec fn row_selector() -> Seq<char> {
    "data-test-selector=\"table-row\""@
}

/// The separator before a runner's official rating.
pub open spec fn or_separator() -> Seq<char> {
    "data-ending=\"OR\""@
}

/// The second piece of `row` split at `sep`: between its first and second occurrence.
pub open spec fn second_piece(row: Seq<char>, sep: Seq<char>) -> Option<Seq<char>> {
    match find(row, sep) {
        None => None,
        Some(i) => {
            let a = i + sep.len();
            match find_from(row, a, sep) {
                None => Some(row.subrange(a, row.len() as int)),
                Some(j) => Some(row.subrange(a, j)),
            }
        },
    }
}

/// The official rating of a runner row: the element text after the first `>` of the
/// piece that follows `data-ending="OR"`, or the empty text.
pub open spec fn or_rating(row: Seq<char>) -> Seq<char> {
    match second_piece(row, or_separator()) {
        None => Seq::empty(),
        Some(piece) => text_after_or_empty(piece, ch('>')),
    }
}

/// One runner as a JSON object, from the field values in order.
#[verifier::opaque]
pub open spec fn runner_object(f: Seq<Seq<char>>) -> Seq<char> {
    "{\"position\":\""@ + json_escaped(f[0]) + "\",\"horse\":\""@ + json_escaped(f[1])
        + "\",\"jockey\":\""@ + json_escaped(f[2]) + "\",\"trainer\":\""@ + json_escaped(f[3])
        + "\",\"age\":\""@ + json_escaped(f[4]) + "\",\"weight_st\":\""@ + json_escaped(f[5])
        + "\",\"weight_lb\":\""@ + json_escaped(f[6]) + "\",\"or\":\""@ + json_escaped(f[7])
        + "\",\"ts\":\""@ + json_escaped(f[8]) + "\",\"rpr\":\""@ + json_escaped(f[9]) + "\"}"@
}

/// The field values of a runner row: position, horse, jockey, trainer, age,
/// weight stones, weight pounds, official rating, topspeed and RPR.
pub open spec fn runner_fields(row: Seq<char>) -> Seq<Seq<char>> {
    seq![
        text_after_or_empty(row, "data-test-selector=\"text-horsePosition\""@),
        text_after_or_empty(row, "data-test-selector=\"link-horseName\""@),
        text_after_or_empty(row, "data-test-selector=\"link-jockeyName\""@),
        text_after_or_empty(row, "data-test-selector=\"link-trainerName\""@),
        text_after_or_empty(row, "data-test-selector=\"horse-age\""@),
        text_after_or_empty(row, "data-test-selector=\"horse-weight-st\""@),
        text_after_or_empty(row, "data-test-selector=\"horse-weight-lb\""@),
        or_rating(row),
        text_after_or_empty(row, "data-test-selector=\"full-result-topspeed\""@),
        text_after_or_empty(row, "data-test-selector=\"full-result-rpr\""@),
    ]
}

/// A runner row as its JSON object.
pub open spec fn runner_json(row: Seq<char>) -> Seq<char> {
    runner_object(runner_fields(row))
}

/// Start of the row around a selector at `idx`: the last `<tr` before it, else `idx`.
pub open spec fn row_start(h: Seq<char>, idx: int) -> int {
    match rfind(h.take(idx), "<tr"@) {
        Some(k) => k,
        None => idx,
    }
}

/// End of the row around a selector at `idx`: just after the next `</tr>`, else the end.
pub open spec fn row_end(h: Seq<char>, idx: int) -> int {
    match find_from(h, idx, "</tr>"@) {
        Some(r) => r + "</tr>"@.len(),
        None => h.len() as int,
    }
}

/// The rows of runners found from `search` on: each row selector, with the row
/// around it, and the search going on after that row.
pub open spec fn runner_rows(h: Seq<char>, search: int) -> Seq<Seq<char>>
    decreases h.len() + 1 - search,
{
    if search < 0 || search > h.len() {
        Seq::empty()
    } else {
        match find_from(h, search, row_selector()) {
            None => Seq::empty(),
            Some(idx) => {
                proof {
                    lemma_row_end_advances(h, search, idx);
                }
                seq![h.subrange(row_start(h, idx), row_end(h, idx))] + runner_rows(
                    h,
                    row_end(h, idx),
                )
            },
        }
    }
}

/// The runners of a page as JSON objects, in page order.
pub open spec fn runners_json(h: Seq<char>) -> Seq<Seq<char>> {
    runner_rows(h, 0).map_values(|row: Seq<char>| runner_json(row))
}

/// A race as a JSON object.
pub open spec fn race_json(
    title: Seq<char>,
    race_id: Seq<char>,
    runners: Seq<Seq<char>>,
    url: Seq<char>,
    course: Seq<char>,
) -> Seq<char> {
    "{\"url\":\""@ + json_escaped(url) + "\",\"course\":\""@ + json_escaped(course)
        + "\",\"title\":\""@ + json_escaped(title) + "\",\"race_id\":\""@ + json_escaped(race_id)
        + "\",\"runners\":["@ + join(runners, ","@) + "]}"@
}

/// The page title, trimmed, or the empty text.
pub open spec fn title_of(h: Seq<char>) -> Seq<char> {
    match between(h, "<title>"@, "</title>"@) {
        Some(t) => trim(t),
        None => Seq::empty(),
    }
}

/// The `data-race-id` attribute of the page, or the empty text.
pub open spec fn race_id_of(h: Seq<char>) -> Seq<char> {
    match between(h, "data-race-id=\""@, "\""@) {
        Some(t) => t,
        None => Seq::empty(),
    }
}

/// The marker that opens the page's Next.js data.
pub open spec fn next_data_marker() -> Seq<char> {
    "<script id=\"__NEXT_DATA__\" type=\"application/json\">"@
}

/// The going found in the page's Next.js data, under `goingDescription` or else
/// `going`, trimmed.
pub open spec fn going_in_next_data(h: Seq<char>) -> Option<Seq<char>> {
    match between(h, next_data_marker(), "</script>"@) {
        None => None,
        Some(next) => match between(next, "\"goingDescription\":\""@, "\""@) {
            Some(g) => Some(trim(g)),
            None => match between(next, "\"going\":\""@, "\""@) {
                Some(g) => Some(trim(g)),
                None => None,
            },
        },
    }
}

/// The going of a page: from the Next.js data if it is there and not blank, else
/// the text after the `Going` label if not blank, else the empty text.
pub open spec fn going_of(h: Seq<char>) -> Seq<char> {
    match going_in_next_data(h) {
        Some(g) if g.len() > 0 => g,
        _ => match between(h, "Going</span>"@, "</"@) {
            Some(g) if trim(g).len() > 0 => trim(g),
            _ => Seq::empty(),
        },
    }
}

// ---------------------------------------------------------------------------
// Lemmas
// ---------------------------------------------------------------------------

/// The row found at `idx` ends after `search`, so the scan moves forward.
pub proof fn lemma_row_end_advances(h: Seq<char>, search: int, idx: int)
    requires
        0 <= search <= h.len(),
        find_from(h, search, row_selector()) == Some(idx),
    ensures
        search <= idx < row_end(h, idx) <= h.len(),
{
    reveal_strlit("data-test-selector=\"table-row\"");
    reveal_strlit("</tr>");
    lemma_find_from(h, search, row_selector());
    lemma_find_from(h, idx, "</tr>"@);
}

// ---------------------------------------------------------------------------
// Executable functions
// ---------------------------------------------------------------------------

/// Bounds of the text between the first `start` and the first `end` after it.
pub fn between_bounds_exec(h: &[char], start: &[char], end: &[char]) -> (res: Option<(usize, usize)>)
    ensures
        res matches Some((a, b)) ==> between_bounds(h@, start@, end@) == Some((a as int, b as int))
            && a <= b <= h@.len(),
        res is None ==> between_bounds(h@, start@, end@) is None,
{
    match find_chars(h, 0, start) {
        None => None,
        Some(i) => {
            proof {
                lemma_find_from(h@, 0, start@);
            }
            let a = i + start.len();
            match find_chars(h, a, end) {
                None => None,
                Some(j) => {
                    proof {
                        lemma_find_from(h@, a as int, end@);
                    }
                    Some((a, j))
                },
            }
        },
    }
}

/// The text between the first `start_pat` and the first `end_pat` after it.
pub fn find_between<'a>(haystack: &'a str, start_pat: &str, end_pat: &str) -> (res: Option<&'a str>)
    ensures
        res matches Some(r) ==> between(haystack@, start_pat@, end_pat@) == Some(r@),
        res is None ==> between(haystack@, start_pat@, end_pat@) is None,
{
    let h = chars_of(haystack);
    let s = chars_of(start_pat);
    let e = chars_of(end_pat);
    match between_bounds_exec(&h, &s, &e) {
        None => None,
        Some((a, b)) => Some(haystack.substring_char(a, b)),
    }
}

/// Bounds of the element text after the first `marker`.
pub fn text_after_bounds_exec(h: &[char], marker: &[char]) -> (res: Option<(usize, usize)>)
    ensures
        res matches Some((a, b)) ==> text_after_bounds(h@, marker@) == Some((a as int, b as int))
            && a <= b <= h@.len(),
        res is None ==> text_after_bounds(h@, marker@) is None,
{
    let gt = vec!['>'];
    let lt = vec!['<'];
    assert(gt@ == ch('>'));
    assert(lt@ == ch('<'));
    match find_chars(h, 0, marker) {
        None => None,
        Some(p) => {
            proof {
                lemma_find_from(h@, 0, marker@);
            }
            match find_chars(h, p + marker.len(), &gt) {
                None => None,
                Some(g) => {
                    proof {
                        lemma_find_from(h@, p + marker@.len(), gt@);
                    }
                    match find_chars(h, g + 1, &lt) {
                        None => None,
                        Some(l) => {
                            proof {
                                lemma_find_from(h@, g + 1, lt@);
                            }
                            Some((g + 1, l))
                        },
                    }
                },
            }
        },
    }
}

/// The trimmed element text after the first `marker` (characters version).
pub fn text_after_chars(h: &[char], marker: &[char]) -> (res: Option<Vec<char>>)
    ensures
        res matches Some(r) ==> text_after(h@, marker@) == Some(r@),
        res is None ==> text_after(h@, marker@) is None,
{
    match text_after_bounds_exec(h, marker) {
        None => None,
        Some((a, b)) => Some(trimmed_chars(h, a, b)),
    }
}

/// The trimmed text of the element that follows the first `marker`: from just after
/// the next `>` up to the next `<`.
pub fn extract_text_after(haystack: &str, marker: &str) -> (res: Option<String>)
    ensures
        res matches Some(r) ==> text_after(haystack@, marker@) == Some(r@),
        res is None ==> text_after(haystack@, marker@) is None,
{
    let h = chars_of(haystack);
    let m = chars_of(marker);
    match text_after_bounds_exec(&h, &m) {
        None => None,
        Some((a, b)) => Some(trimmed_string(&h, a, b)),
    }
}

/// Appends `s` escaped for a JSON string.
pub fn push_json_escaped(out: &mut String, s: &[char])
    ensures
        final(out)@ == old(out)@ + json_escaped(s@),
{
    let ghost start = out@;
    let mut i: usize = 0;
    while i < s.len()
        invariant
            0 <= i <= s@.len(),
            out@ == start + json_escaped(s@.take(i as int)),
        decreases s@.len() - i,
    {
        let c = s[i];
        assert(s@.take(i + 1).drop_last() =~= s@.take(i as int));
        if c == '"' {
            push_char(out, '\\');
            push_char(out, '"');
        } else if c == '\\' {
            push_char(out, '\\');
            push_char(out, '\\');
        } else if c == '\n' {
            push_char(out, '\\');
            push_char(out, 'n');
        } else if c == '\r' {
            push_char(out, '\\');
            push_char(out, 'r');
        } else if c == '\t' {
            push_char(out, '\\');
            push_char(out, 't');
        } else {
            push_char(out, c);
        }
        assert(out@ =~= start + json_escaped(s@.take(i + 1)));
        i = i + 1;
    }
    assert(s@.take(s@.len() as int) =~= s@);
}

/// `s` escaped for use inside a JSON string.
pub fn json_escape(s: &str) -> (res: String)
    ensures
        res@ == json_escaped(s@),
        json_string_body(res@ + seq!['"']) == (s@, res@.len() as int),
{
    let c = chars_of(s);
    let mut out = String::new();
    push_json_escaped(&mut out, &c);
    assert(out@ =~= json_escaped(s@));
    proof {
        lemma_json_string_reads_back(s@);
    }
    out
}

/// The element text after `marker` in `row`, or the empty text.
fn val(row: &[char], marker: &str) -> (res: Vec<char>)
    ensures
        res@ == text_after_or_empty(row@, marker@),
{
    let m = chars_of(marker);
    match text_after_chars(row, &m) {
        Some(v) => v,
        None => Vec::new(),
    }
}

/// The official rating of a runner row, or the empty text.
fn or_rating_exec(row: &[char]) -> (res: Vec<char>)
    ensures
        res@ == or_rating(row@),
{
    let sep = chars_of("data-ending=\"OR\"");
    match find_chars(row, 0, &sep) {
        None => Vec::new(),
        Some(i) => {
            proof {
                lemma_find_from(row@, 0, sep@);
            }
            let a = i + sep.len();
            let piece = match find_chars(row, a, &sep) {
                None => slice_chars(row, a, row.len()),
                Some(j) => {
                    proof {
                        lemma_find_from(row@, a as int, sep@);
                    }
                    slice_chars(row, a, j)
                },
            };
            let gt = vec!['>'];
            assert(gt@ == ch('>'));
            match text_after_chars(&piece, &gt) {
                Some(v) => v,
                None => Vec::new(),
            }
        },
    }
}

/// Appends `"` + `key` + `":"` style literal text, then the escaped value.
fn push_field(out: &mut String, lit: &str, value: &[char])
    ensures
        final(out)@ == old(out)@ + lit@ + json_escaped(value@),
{
    push_str(out, lit);
    push_json_escaped(out, value);
}

/// A runner row as a JSON object.
fn parse_runner_row(row: &[char]) -> (res: String)
    ensures
        res@ == runner_json(row@),
{
    let position = val(row, "data-test-selector=\"text-horsePosition\"");
    let horse = val(row, "data-test-selector=\"link-horseName\"");
    let jockey = val(row, "data-test-selector=\"link-jockeyName\"");
    let trainer = val(row, "data-test-selector=\"link-trainerName\"");
    let age = val(row, "data-test-selector=\"horse-age\"");
    let w_st = val(row, "data-test-selector=\"horse-weight-st\"");
    let w_lb = val(row, "data-test-selector=\"horse-weight-lb\"");
    let ts = val(row, "data-test-selector=\"full-result-topspeed\"");
    let rpr = val(row, "data-test-selector=\"full-result-rpr\"");
    let or_r = or_rating_exec(row);
    let mut out = String::new();
    push_field(&mut out, "{\"position\":\"", &position);
    push_field(&mut out, "\",\"horse\":\"", &horse);
    push_field(&mut out, "\",\"jockey\":\"", &jockey);
    push_field(&mut out, "\",\"trainer\":\"", &trainer);
    push_field(&mut out, "\",\"age\":\"", &age);
    push_field(&mut out, "\",\"weight_st\":\"", &w_st);
    push_field(&mut out, "\",\"weight_lb\":\"", &w_lb);
    push_field(&mut out, "\",\"or\":\"", &or_r);
    push_field(&mut out, "\",\"ts\":\"", &ts);
    push_field(&mut out, "\",\"rpr\":\"", &rpr);
    push_str(&mut out, "\"}");
    proof {
        reveal(runner_object);
    }
    assert(out@ =~= runner_json(row@));
    out
}

/// Start of the row around the selector at `idx`.
fn row_start_exec(h: &[char], idx: usize, tr_open: &[char]) -> (res: usize)
    requires
        idx <= h@.len(),
        tr_open@ == "<tr"@,
    ensures
        res == row_start(h@, idx as int),
        res <= idx,
{
    match rfind_chars(h, idx, tr_open) {
        Some(k) => k,
        None => idx,
    }
}

/// End of the row around the selector at `idx`.
fn row_end_exec(h: &[char], idx: usize, tr_close: &[char]) -> (res: usize)
    requires
        idx <= h@.len(),
        tr_close@ == "</tr>"@,
    ensures
        res == row_end(h@, idx as int),
        res <= h@.len(),
{
    proof {
        reveal_strlit("</tr>");
    }
    match find_chars(h, idx, tr_close) {
        Some(r) => r + 5,
        None => h.len(),
    }
}

/// One step of the scan for rows.
proof fn lemma_runner_rows_step(h: Seq<char>, search: int, idx: int)
    requires
        0 <= search <= h.len(),
        find_from(h, search, row_selector()) == Some(idx),
    ensures
        runner_rows(h, search).map_values(|row: Seq<char>| runner_json(row)) == seq![
            runner_json(h.subrange(row_start(h, idx), row_end(h, idx))),
        ] + runner_rows(h, row_end(h, idx)).map_values(|row: Seq<char>| runner_json(row)),
{
    let row = h.subrange(row_start(h, idx), row_end(h, idx));
    let rest = runner_rows(h, row_end(h, idx));
    assert(runner_rows(h, search) == seq![row] + rest);
    assert((seq![row] + rest).map_values(|row: Seq<char>| runner_json(row)) =~= seq![
        runner_json(row),
    ] + rest.map_values(|row: Seq<char>| runner_json(row)));
}

/// The runners of a page as JSON objects, in page order (characters version).
pub fn runners_json_chars(h: &[char]) -> (res: Vec<String>)
    ensures
        res.deep_view() == runners_json(h@),
{
    let sel = chars_of("data-test-selector=\"table-row\"");
    let tr_open = chars_of("<tr");
    let tr_close = chars_of("</tr>");
    let mut out: Vec<String> = Vec::new();
    let mut search: usize = 0;
    let ghost all = runners_json(h@);
    loop
        invariant
            search <= h@.len(),
            sel@ == row_selector(),
            tr_open@ == "<tr"@,
            tr_close@ == "</tr>"@,
            all == runners_json(h@),
            out.deep_view() + runner_rows(h@, search as int).map_values(
                |row: Seq<char>| runner_json(row),
            ) == all,
        ensures
            runner_rows(h@, search as int) == Seq::<Seq<char>>::empty(),
        decreases h@.len() - search,
    {
        let found = find_chars(h, search, &sel);
        let idx = match found {
            None => {
                break;
            },
            Some(idx) => idx,
        };
        proof {
            lemma_row_end_advances(h@, search as int, idx as int);
            lemma_runner_rows_step(h@, search as int, idx as int);
        }
        let rs = row_start_exec(h, idx, &tr_open);
        let re = row_end_exec(h, idx, &tr_close);
        let row = slice_chars(h, rs, re);
        let j = parse_runner_row(&row);
        let ghost rest = runner_rows(h@, re as int).map_values(|row: Seq<char>| runner_json(row));
        let ghost before = out.deep_view();
        out.push(j);
        assert(out.deep_view() =~= before.push(runner_json(row@)));
        assert(out.deep_view() + rest =~= before + (seq![runner_json(row@)] + rest));
        search = re;
    }
    assert(out.deep_view() =~= runners_json(h@));
    out
}

/// The runners of a full-result page as JSON objects, in page order.
pub fn extract_runners_json(html: &str) -> (res: Vec<String>)
    ensures
        res.deep_view() == runners_json(html@),
{
    let h = chars_of(html);
    runners_json_chars(&h)
}

/// The page title, trimmed, or the empty text.
pub fn extract_title(html: &str) -> (res: String)
    ensures
        res@ == title_of(html@),
{
    let h = chars_of(html);
    let s = chars_of("<title>");
    let e = chars_of("</title>");
    match between_bounds_exec(&h, &s, &e) {
        Some((a, b)) => trimmed_string(&h, a, b),
        None => String::new(),
    }
}

/// The race id attribute of the page, or the empty text.
pub fn extract_race_id(html: &str) -> (res: String)
    ensures
        res@ == race_id_of(html@),
{
    let h = chars_of(html);
    let s = chars_of("data-race-id=\"");
    let e = chars_of("\"");
    match between_bounds_exec(&h, &s, &e) {
        Some((a, b)) => string_of(&h, a, b),
        None => String::new(),
    }
}

/// The going found in the page's Next.js data, trimmed.
fn going_in_next_data_exec(h: &[char]) -> (res: Option<Vec<char>>)
    ensures
        res matches Some(g) ==> going_in_next_data(h@) == Some(g@),
        res is None ==> going_in_next_data(h@) is None,
{
    let marker = chars_of("<script id=\"__NEXT_DATA__\" type=\"application/json\">");
    let close = chars_of("</script>");
    match between_bounds_exec(h, &marker, &close) {
        None => None,
        Some((a, b)) => {
            let next = slice_chars(h, a, b);
            let quote = chars_of("\"");
            let k1 = chars_of("\"goingDescription\":\"");
            match between_bounds_exec(&next, &k1, &quote) {
                Some((c, d)) => Some(trimmed_chars(&next, c, d)),
                None => {
                    let k2 = chars_of("\"going\":\"");
                    match between_bounds_exec(&next, &k2, &quote) {
                        Some((c, d)) => Some(trimmed_chars(&next, c, d)),
                        None => None,
                    }
                },
            }
        },
    }
}

/// The going of a page: from the Next.js data when present and not blank, else the
/// text after the `Going` label when not blank, else the empty text.
pub fn extract_going(html: &str) -> (res: String)
    ensures
        res@ == going_of(html@),
{
    let h = chars_of(html);
    if let Some(g) = going_in_next_data_exec(&h) {
        if g.len() > 0 {
            return string_of(&g, 0, g.len());
        }
    }
    let s = chars_of("Going</span>");
    let e = chars_of("</");
    match between_bounds_exec(&h, &s, &e) {
        Some((a, b)) => {
            let (c, d) = trim_bounds(&h, a, b);
            if c < d {
                string_of(&h, c, d)
            } else {
                String::new()
            }
        },
        None => String::new(),
    }
}

/// A race as a JSON object: url, course, title, race id and the runners' objects.
pub fn build_race_json(
    title: &str,
    race_id: &str,
    runners_json: &[String],
    url: &str,
    course_from_list: &str,
) -> (res: String)
    ensures
        res@ == race_json(
            title@,
            race_id@,
            runners_json@.map_values(|p: String| p@),
            url@,
            course_from_list@,
        ),
{
    let u = chars_of(url);
    let c = chars_of(course_from_list);
    let t = chars_of(title);
    let r = chars_of(race_id);
    let mut out = String::new();
    push_field(&mut out, "{\"url\":\"", &u);
    push_field(&mut out, "\",\"course\":\"", &c);
    push_field(&mut out, "\",\"title\":\"", &t);
    push_field(&mut out, "\",\"race_id\":\"", &r);
    push_str(&mut out, "\",\"runners\":[");
    crate::text::push_joined(&mut out, runners_json, ",");
    push_str(&mut out, "]}");
    assert(out@ =~= race_json(
        title@,
        race_id@,
        runners_json@.map_values(|p: String| p@),
        url@,
        course_from_list@,
    ));
    out
}

/// A full-result page as one JSON object: the race built from the page's title,
/// race id and runners, with the url and course it was listed under.
pub fn parse_full_result_page(html: &str, url: &str, course_from_list: &str) -> (res: String)
    ensures
        res@ == race_json(
            title_of(html@),
            race_id_of(html@),
            runners_json(html@),
            url@,
            course_from_list@,
        ),
{
    let title = extract_title(html);
    let race_id = extract_race_id(html);
    let runners = extract_runners_json(html);
    assert(runners@.map_values(|p: String| p@) =~= runners.deep_view());
    build_race_json(title.as_str(), race_id.as_str(), runners.as_slice(), url, course_from_list)
}

// ---------------------------------------------------------------------------
// A race's JSON read back
// ---------------------------------------------------------------------------

/// Reads a JSON string that starts at `i` (just after its opening quote), then
/// expects `lit`, which starts with the closing quote: the string read and the
/// position after `lit`.
#[verifier::opaque]
pub open spec fn read_string_then(q: Seq<char>, i: int, lit: Seq<char>) -> Option<(Seq<char>, int)> {
    if 0 <= i <= q.len() {
        let (t, e) = json_string_body(q.subrange(i, q.len() as int));
        let j = i + e;
        if 0 <= j && j + lit.len() <= q.len() && q.subrange(j, j + lit.len()) == lit {
            Some((t, j + lit.len()))
        } else {
            None
        }
    } else {
        None
    }
}

/// Reads the layout of a race object: `{"url":"`, a string, `","course":"`, a
/// string, `","title":"`, a string, `","race_id":"`, a string, `","runners":[`;
/// the four strings as a JSON reader reads them, and the text after the `[`.
pub open spec fn read_race_fields(q: Seq<char>) -> Option<(Seq<char>, Seq<char>, Seq<char>, Seq<char>, Seq<char>)> {
    let l1 = "{\"url\":\""@;
    if !(l1.len() <= q.len() && q.subrange(0, l1.len() as int) == l1) {
        None
    } else {
        match read_string_then(q, l1.len() as int, "\",\"course\":\""@) {
            None => None,
            Some((url, p1)) => match read_string_then(q, p1, "\",\"title\":\""@) {
                None => None,
                Some((course, p2)) => match read_string_then(q, p2, "\",\"race_id\":\""@) {
                    None => None,
                    Some((title, p3)) => match read_string_then(q, p3, "\",\"runners\":["@) {
                        None => None,
                        Some((race_id, p4)) => Some((url, course, title, race_id, q.subrange(p4, q.len() as int))),
                    },
                },
            },
        }
    }
}

/// Reading through an escaped string followed by `lit` (starting with a quote).
pub proof fn lemma_read_string_then(p: Seq<char>, f: Seq<char>, lit: Seq<char>, rest: Seq<char>)
    requires
        lit.len() > 0,
        lit[0] == '"',
    ensures
        read_string_then(p + json_escaped(f) + lit + rest, p.len() as int, lit) == Some(
            (f, (p.len() + json_escaped(f).len() + lit.len()) as int),
        ),
{
    reveal(read_string_then);
    let q = p + json_escaped(f) + lit + rest;
    let i = p.len() as int;
    let t = lit + rest;
    assert(q.subrange(i, q.len() as int) =~= json_escaped(f) + t);
    lemma_json_body_escaped(f, t);
    assert(t[0] == '"');
    assert(json_string_body(t) == (Seq::<char>::empty(), 0int));
    assert(f + Seq::<char>::empty() =~= f);
    let j = i + json_escaped(f).len();
    assert(q.subrange(j, j + lit.len()) =~= lit);
}

/// The JSON text of a race reads back as its url, course, title and race id,
/// each string ending exactly at its closing quote, followed by the runners
/// joined with `,` and the closing `]}`.
#[verifier::spinoff_prover]
pub proof fn lemma_race_json_reads_back(
    title: Seq<char>,
    race_id: Seq<char>,
    runners: Seq<Seq<char>>,
    url: Seq<char>,
    course: Seq<char>,
)
    ensures
        read_race_fields(race_json(title, race_id, runners, url, course)) == Some(
            (url, course, title, race_id, join(runners, ","@) + "]}"@),
        ),
{
    reveal_strlit("{\"url\":\"");
    reveal_strlit("\",\"course\":\"");
    reveal_strlit("\",\"title\":\"");
    reveal_strlit("\",\"race_id\":\"");
    reveal_strlit("\",\"runners\":[");
    let l1 = "{\"url\":\""@;
    let l2 = "\",\"course\":\""@;
    let l3 = "\",\"title\":\""@;
    let l4 = "\",\"race_id\":\""@;
    let l5 = "\",\"runners\":["@;
    let tail = join(runners, ","@) + "]}"@;
    let eu = json_escaped(url);
    let ec = json_escaped(course);
    let et = json_escaped(title);
    let er = json_escaped(race_id);
    let q = race_json(title, race_id, runners, url, course);
    let p1 = l1 + eu + l2;
    let p2 = p1 + ec + l3;
    let p3 = p2 + et + l4;
    let p4 = p3 + er + l5;
    assert(q =~= p4 + tail);
    assert(read_string_then(q, l1.len() as int, l2) == Some((url, p1.len() as int))) by {
        assert(q =~= l1 + eu + l2 + (ec + l3 + et + l4 + er + l5 + tail));
        lemma_read_string_then(l1, url, l2, ec + l3 + et + l4 + er + l5 + tail);
    }
    assert(read_string_then(q, p1.len() as int, l3) == Some((course, p2.len() as int))) by {
        assert(q =~= p1 + ec + l3 + (et + l4 + er + l5 + tail));
        lemma_read_string_then(p1, course, l3, et + l4 + er + l5 + tail);
    }
    assert(read_string_then(q, p2.len() as int, l4) == Some((title, p3.len() as int))) by {
        assert(q =~= p2 + et + l4 + (er + l5 + tail));
        lemma_read_string_then(p2, title, l4, er + l5 + tail);
    }
    assert(read_string_then(q, p3.len() as int, l5) == Some((race_id, p4.len() as int))) by {
        assert(q =~= p3 + er + l5 + tail);
        lemma_read_string_then(p3, race_id, l5, tail);
    }
    assert(q.subrange(0, l1.len() as int) =~= l1);
    assert(q.subrange(p4.len() as int, q.len() as int) =~= tail);
}

// ---------------------------------------------------------------------------
// The runner objects read back
// ---------------------------------------------------------------------------

/// The texts around the ten strings of a runner object: the opening up to the first
/// string, each `","key":"` between two strings, and the closing `"}`.
pub open spec fn runner_lits() -> Seq<Seq<char>> {
    seq![
        "{\"position\":\""@,
        "\",\"horse\":\""@,
        "\",\"jockey\":\""@,
        "\",\"trainer\":\""@,
        "\",\"age\":\""@,
        "\",\"weight_st\":\""@,
        "\",\"weight_lb\":\""@,
        "\",\"or\":\""@,
        "\",\"ts\":\""@,
        "\",\"rpr\":\""@,
        "\"}"@,
    ]
}

/// The strings `fs[k..]`, each escaped and followed by `lits[k + 1]`.
pub open spec fn fields_text(fs: Seq<Seq<char>>, lits: Seq<Seq<char>>, k: int) -> Seq<char>
    decreases fs.len() - k,
{
    if k < 0 || k >= fs.len() {
        Seq::empty()
    } else {
        json_escaped(fs[k]) + lits[k + 1] + fields_text(fs, lits, k + 1)
    }
}

/// Reads strings `k..n` from `pos`, string `j` followed by `lits[j + 1]`: the
/// strings and the position after the last text.
pub open spec fn read_fields_from(q: Seq<char>, pos: int, lits: Seq<Seq<char>>, k: int, n: int) -> Option<(Seq<Seq<char>>, int)>
    decreases n - k,
{
    if k < 0 || k >= n {
        Some((Seq::empty(), pos))
    } else {
        match read_string_then(q, pos, lits[k + 1]) {
            None => None,
            Some((t, p)) => match read_fields_from(q, p, lits, k + 1, n) {
                None => None,
                Some((ts, e)) => Some((seq![t] + ts, e)),
            },
        }
    }
}

/// Reads a runner object at `i`: its ten strings and the position after its `}`.
pub open spec fn read_runner(q: Seq<char>, i: int) -> Option<(Seq<Seq<char>>, int)> {
    let open = runner_lits()[0];
    if 0 <= i && i + open.len() <= q.len() && q.subrange(i, i + open.len()) == open {
        read_fields_from(q, i + open.len(), runner_lits(), 0, 10)
    } else {
        None
    }
}

/// Reads runner objects separated by `,` from `i`, up to a `]`: the strings of each
/// and the position of the `]`.
pub open spec fn read_runner_items(q: Seq<char>, i: int) -> Option<(Seq<Seq<Seq<char>>>, int)>
    decreases q.len() - i,
{
    match read_runner(q, i) {
        None => None,
        Some((fs, e)) => if !(i < e < q.len()) {
            None
        } else if q[e] == ']' {
            Some((seq![fs], e))
        } else if q[e] == ',' {
            match read_runner_items(q, e + 1) {
                None => None,
                Some((rest, end)) => Some((seq![fs] + rest, end)),
            }
        } else {
            None
        },
    }
}

/// Reads the inside of a runners array from `i` (just after its `[`): the strings
/// of each runner object and the position of the closing `]`.
pub open spec fn read_runner_list(q: Seq<char>, i: int) -> Option<(Seq<Seq<Seq<char>>>, int)> {
    if 0 <= i < q.len() && q[i] == ']' {
        Some((Seq::empty(), i))
    } else {
        read_runner_items(q, i)
    }
}

/// Reading the strings of a layout gives them back and goes on after it.
proof fn lemma_read_fields(p: Seq<char>, fs: Seq<Seq<char>>, lits: Seq<Seq<char>>, k: int, rest: Seq<char>)
    requires
        0 <= k <= fs.len(),
        lits.len() == fs.len() + 1,
        forall|j: int| 0 < j < lits.len() ==> (#[trigger] lits[j]).len() > 0 && lits[j][0] == '"',
    ensures
        read_fields_from(p + fields_text(fs, lits, k) + rest, p.len() as int, lits, k, fs.len() as int)
            == Some((fs.subrange(k, fs.len() as int), (p.len() + fields_text(fs, lits, k).len()) as int)),
    decreases fs.len() - k,
{
    let q = p + fields_text(fs, lits, k) + rest;
    if k == fs.len() {
        assert(fs.subrange(k, fs.len() as int) =~= Seq::<Seq<char>>::empty());
    } else {
        let e = json_escaped(fs[k]);
        let lit = lits[k + 1];
        let t2 = fields_text(fs, lits, k + 1);
        assert(fields_text(fs, lits, k) == e + lit + t2);
        assert(q =~= p + e + lit + (t2 + rest));
        lemma_read_string_then(p, fs[k], lit, t2 + rest);
        let p2 = p + e + lit;
        assert(q =~= p2 + t2 + rest);
        lemma_read_fields(p2, fs, lits, k + 1, rest);
        assert(seq![fs[k]] + fs.subrange(k + 1, fs.len() as int) =~= fs.subrange(k, fs.len() as int));
    }
}

/// One step of the layout: the text so far followed by the rest of the layout.
pub proof fn lemma_layout_step(pre: Seq<char>, f: Seq<Seq<char>>, l: Seq<Seq<char>>, k: int)
    requires
        0 <= k < f.len(),
    ensures
        pre + fields_text(f, l, k) == (pre + json_escaped(f[k]) + l[k + 1]) + fields_text(f, l, k + 1),
{
    assert(fields_text(f, l, k) == json_escaped(f[k]) + l[k + 1] + fields_text(f, l, k + 1));
    assert(pre + fields_text(f, l, k) =~= (pre + json_escaped(f[k]) + l[k + 1]) + fields_text(f, l, k + 1));
}

/// A runner object is its opening text followed by its strings' layout.
#[verifier::spinoff_prover]
proof fn lemma_runner_object_layout(f: Seq<Seq<char>>)
    requires
        f.len() == 10,
    ensures
        runner_object(f) == runner_lits()[0] + fields_text(f, runner_lits(), 0),
{
    let l = runner_lits();
    let p1 = l[0] + json_escaped(f[0]) + l[1];
    let p2 = p1 + json_escaped(f[1]) + l[2];
    let p3 = p2 + json_escaped(f[2]) + l[3];
    let p4 = p3 + json_escaped(f[3]) + l[4];
    let p5 = p4 + json_escaped(f[4]) + l[5];
    let p6 = p5 + json_escaped(f[5]) + l[6];
    let p7 = p6 + json_escaped(f[6]) + l[7];
    let p8 = p7 + json_escaped(f[7]) + l[8];
    let p9 = p8 + json_escaped(f[8]) + l[9];
    let p10 = p9 + json_escaped(f[9]) + l[10];
    reveal(runner_object);
    lemma_layout_step(l[0], f, l, 0);
    lemma_layout_step(p1, f, l, 1);
    lemma_layout_step(p2, f, l, 2);
    lemma_layout_step(p3, f, l, 3);
    lemma_layout_step(p4, f, l, 4);
    lemma_layout_step(p5, f, l, 5);
    lemma_layout_step(p6, f, l, 6);
    lemma_layout_step(p7, f, l, 7);
    lemma_layout_step(p8, f, l, 8);
    lemma_layout_step(p9, f, l, 9);
    assert(fields_text(f, l, 10) == Seq::<char>::empty());
    assert(p10 + Seq::<char>::empty() =~= p10);
    assert(runner_object(f) == p10);
}

/// The separators of a runner object each start with a quote.
proof fn lemma_runner_lits()
    ensures
        runner_lits().len() == 11,
        runner_lits()[0].len() > 0,
        forall|j: int| 0 < j < runner_lits().len() ==> (#[trigger] runner_lits()[j]).len() > 0 && runner_lits()[j][0] == '"',
{
    reveal_strlit("{\"position\":\"");
    reveal_strlit("\",\"horse\":\"");
    reveal_strlit("\",\"jockey\":\"");
    reveal_strlit("\",\"trainer\":\"");
    reveal_strlit("\",\"age\":\"");
    reveal_strlit("\",\"weight_st\":\"");
    reveal_strlit("\",\"weight_lb\":\"");
    reveal_strlit("\",\"or\":\"");
    reveal_strlit("\",\"ts\":\"");
    reveal_strlit("\",\"rpr\":\"");
    reveal_strlit("\"}");
}

/// The names of a runner object's members, in order.
spec fn runner_keys() -> Seq<Seq<char>> {
    seq![
        "position"@,
        "horse"@,
        "jockey"@,
        "trainer"@,
        "age"@,
        "weight_st"@,
        "weight_lb"@,
        "or"@,
        "ts"@,
        "rpr"@,
    ]
}

/// Each text around a runner object's strings holds the next member's name.
proof fn lemma_runner_lits_name_keys()
    ensures
        runner_lits().len() == 11,
        runner_keys().len() == 10,
        runner_lits()[0] == seq!['{'] + (seq!['"'] + runner_keys()[0] + seq!['"', ':', '"']),
        forall|j: int|
            1 <= j < 10 ==> #[trigger] runner_lits()[j] == seq!['"', ','] + seq!['"'] + runner_keys()[j]
                + seq!['"', ':', '"'],
        runner_lits()[10] == seq!['"', '}'],
        forall|j: int| 0 <= j < 10 ==> crate::racecard::plain_text(#[trigger] runner_keys()[j]),
{
    reveal_strlit("{\"position\":\"");
    reveal_strlit("\",\"horse\":\"");
    reveal_strlit("\",\"jockey\":\"");
    reveal_strlit("\",\"trainer\":\"");
    reveal_strlit("\",\"age\":\"");
    reveal_strlit("\",\"weight_st\":\"");
    reveal_strlit("\",\"weight_lb\":\"");
    reveal_strlit("\",\"or\":\"");
    reveal_strlit("\",\"ts\":\"");
    reveal_strlit("\",\"rpr\":\"");
    reveal_strlit("\"}");
    reveal_strlit("position");
    reveal_strlit("horse");
    reveal_strlit("jockey");
    reveal_strlit("trainer");
    reveal_strlit("age");
    reveal_strlit("weight_st");
    reveal_strlit("weight_lb");
    reveal_strlit("or");
    reveal_strlit("ts");
    reveal_strlit("rpr");
    let l = runner_lits();
    let k = runner_keys();
    let q = seq!['"'];
    let c = seq!['"', ':', '"'];
    let sp = seq!['"', ','];
    assert(l[0] =~= seq!['{'] + (q + k[0] + c));
    assert(l[1] =~= sp + q + k[1] + c);
    assert(l[2] =~= sp + q + k[2] + c);
    assert(l[3] =~= sp + q + k[3] + c);
    assert(l[4] =~= sp + q + k[4] + c);
    assert(l[5] =~= sp + q + k[5] + c);
    assert(l[6] =~= sp + q + k[6] + c);
    assert(l[7] =~= sp + q + k[7] + c);
    assert(l[8] =~= sp + q + k[8] + c);
    assert(l[9] =~= sp + q + k[9] + c);
    assert(l[10] =~= seq!['"', '}']);
    assert forall|j: int| 0 <= j < 10 implies crate::racecard::plain_text(#[trigger] runner_keys()[j]) by {
        let w = runner_keys()[j];
        assert forall|i: int| 0 <= i < w.len() implies escape_char(#[trigger] w[i]) == seq![w[i]] by {
            assert('a' <= w[i] <= 'z' || w[i] == '_');
        }
    }
}

/// Read as a JSON object, the object of a runner row gives ten string members in
/// order, each the row's text for the field of its name: `position`, `horse`,
/// `jockey`, `trainer`, `age`, `weight_st` and `weight_lb` the texts after the
/// test selectors of those fields, `or` the rating after `data-ending="OR"`, `ts`
/// and `rpr` the texts after the topspeed and RPR selectors; whatever characters
/// they hold.
#[verifier::spinoff_prover]
pub proof fn lemma_runner_json_members(row: Seq<char>)
    ensures
        crate::racecard::read_string_object(runner_json(row)) == Some(
            seq![
                ("position"@, text_after_or_empty(row, "data-test-selector=\"text-horsePosition\""@)),
                ("horse"@, text_after_or_empty(row, "data-test-selector=\"link-horseName\""@)),
                ("jockey"@, text_after_or_empty(row, "data-test-selector=\"link-jockeyName\""@)),
                ("trainer"@, text_after_or_empty(row, "data-test-selector=\"link-trainerName\""@)),
                ("age"@, text_after_or_empty(row, "data-test-selector=\"horse-age\""@)),
                ("weight_st"@, text_after_or_empty(row, "data-test-selector=\"horse-weight-st\""@)),
                ("weight_lb"@, text_after_or_empty(row, "data-test-selector=\"horse-weight-lb\""@)),
                ("or"@, or_rating(row)),
                ("ts"@, text_after_or_empty(row, "data-test-selector=\"full-result-topspeed\""@)),
                ("rpr"@, text_after_or_empty(row, "data-test-selector=\"full-result-rpr\""@)),
            ],
        ),
{
    let f = runner_fields(row);
    let keys = runner_keys();
    let lits = runner_lits();
    lemma_runner_lits_name_keys();
    lemma_runner_object_layout(f);
    crate::racecard::lemma_layout_reads_as_object(keys, f, lits);
    assert(crate::racecard::paired(keys, f) =~= seq![
        ("position"@, text_after_or_empty(row, "data-test-selector=\"text-horsePosition\""@)),
        ("horse"@, text_after_or_empty(row, "data-test-selector=\"link-horseName\""@)),
        ("jockey"@, text_after_or_empty(row, "data-test-selector=\"link-jockeyName\""@)),
        ("trainer"@, text_after_or_empty(row, "data-test-selector=\"link-trainerName\""@)),
        ("age"@, text_after_or_empty(row, "data-test-selector=\"horse-age\""@)),
        ("weight_st"@, text_after_or_empty(row, "data-test-selector=\"horse-weight-st\""@)),
        ("weight_lb"@, text_after_or_empty(row, "data-test-selector=\"horse-weight-lb\""@)),
        ("or"@, or_rating(row)),
        ("ts"@, text_after_or_empty(row, "data-test-selector=\"full-result-topspeed\""@)),
        ("rpr"@, text_after_or_empty(row, "data-test-selector=\"full-result-rpr\""@)),
    ]);
}

/// A runner object reads back as its ten strings, and ends just after its `}`.
pub proof fn lemma_runner_object_reads_back(p: Seq<char>, f: Seq<Seq<char>>, rest: Seq<char>)
    requires
        f.len() == 10,
    ensures
        read_runner(p + runner_object(f) + rest, p.len() as int) == Some(
            (f, (p.len() + runner_object(f).len()) as int),
        ),
        runner_object(f).len() > 0,
        runner_object(f)[0] == '{',
{
    lemma_runner_lits();
    lemma_runner_object_layout(f);
    assert(runner_lits()[0][0] == '{') by {
        reveal_strlit("{\"position\":\"");
    }
    assert(runner_object(f)[0] == runner_lits()[0][0]);
    let l = runner_lits();
    let q = p + runner_object(f) + rest;
    let p2 = p + l[0];
    assert(q =~= p2 + fields_text(f, l, 0) + rest);
    lemma_read_fields(p2, f, l, 0, rest);
    assert(q.subrange(p.len() as int, (p.len() + l[0].len()) as int) =~= l[0]);
    assert(f.subrange(0, 10) =~= f);
}

/// `join` seen from its front.
proof fn lemma_join_front(parts: Seq<Seq<char>>, sep: Seq<char>)
    requires
        parts.len() >= 2,
    ensures
        join(parts, sep) == parts[0] + sep + join(parts.drop_first(), sep),
    decreases parts.len(),
{
    let d = parts.drop_last();
    if parts.len() == 2 {
        assert(join(d, sep) == parts[0]);
        assert(parts.drop_first() =~= seq![parts[1]]);
        assert(join(parts.drop_first(), sep) == parts[1]);
    } else {
        lemma_join_front(d, sep);
        assert(d.drop_first() =~= parts.drop_first().drop_last());
        assert(parts.drop_first().last() == parts.last());
        assert(join(parts.drop_first(), sep) == join(d.drop_first(), sep) + sep + parts.last());
    }
}

/// Runner objects joined with `,` and followed by `]` read back as their strings.
#[verifier::spinoff_prover]
#[verifier::rlimit(50)]
proof fn lemma_runner_items(p: Seq<char>, fl: Seq<Seq<Seq<char>>>, rest: Seq<char>)
    requires
        fl.len() >= 1,
        forall|j: int| 0 <= j < fl.len() ==> (#[trigger] fl[j]).len() == 10,
    ensures
        read_runner_items(
            p + join(fl.map_values(|f: Seq<Seq<char>>| runner_object(f)), ","@) + seq![']'] + rest,
            p.len() as int,
        ) == Some((fl, (p.len() + join(fl.map_values(|f: Seq<Seq<char>>| runner_object(f)), ","@).len()) as int)),
    decreases fl.len(),
{
    reveal_strlit(",");
    let objs = fl.map_values(|f: Seq<Seq<char>>| runner_object(f));
    let o0 = runner_object(fl[0]);
    let i = p.len() as int;
    if fl.len() == 1 {
        assert(join(objs, ","@) == o0);
        let q = p + join(objs, ","@) + seq![']'] + rest;
        assert(q =~= p + o0 + (seq![']'] + rest));
        lemma_runner_object_reads_back(p, fl[0], seq![']'] + rest);
        assert(q[i + o0.len()] == ']');
        assert(seq![fl[0]] =~= fl);
    } else {
        lemma_join_front(objs, ","@);
        let tl = fl.drop_first();
        let tobjs = tl.map_values(|f: Seq<Seq<char>>| runner_object(f));
        assert(objs.drop_first() =~= tobjs);
        let jt = join(tobjs, ","@);
        let q = p + join(objs, ","@) + seq![']'] + rest;
        assert(join(objs, ","@) == o0 + ","@ + jt);
        assert(q =~= p + o0 + (","@ + jt + seq![']'] + rest));
        lemma_runner_object_reads_back(p, fl[0], ","@ + jt + seq![']'] + rest);
        let e = i + o0.len();
        assert(q[e] == ',');
        let p2 = p + o0 + ","@;
        assert(q =~= p2 + jt + seq![']'] + rest);
        assert forall|j: int| 0 <= j < tl.len() implies (#[trigger] tl[j]).len() == 10 by {
            assert(tl[j] == fl[j + 1]);
        }
        lemma_runner_items(p2, tl, rest);
        assert(p2.len() == e + 1);
        assert(seq![fl[0]] + tl =~= fl);
    }
}

/// The runners array of a race's JSON text reads back as the strings of its runner
/// objects, up to the closing `]` that ends the text with `}`.
pub proof fn lemma_runners_read_back(fl: Seq<Seq<Seq<char>>>)
    requires
        forall|j: int| 0 <= j < fl.len() ==> (#[trigger] fl[j]).len() == 10,
    ensures
        ({
            let t = join(fl.map_values(|f: Seq<Seq<char>>| runner_object(f)), ","@) + "]}"@;
            &&& read_runner_list(t, 0) matches Some((got, end))
            &&& got == fl
            &&& t.subrange(end, t.len() as int) == "]}"@
        }),
{
    reveal_strlit("]}");
    let objs = fl.map_values(|f: Seq<Seq<char>>| runner_object(f));
    let j = join(objs, ","@);
    let t = j + "]}"@;
    if fl.len() == 0 {
        assert(j =~= Seq::<char>::empty());
        assert(t[0] == ']');
        assert(fl =~= Seq::<Seq<Seq<char>>>::empty());
        assert(t.subrange(0, t.len() as int) =~= t);
    } else {
        let e = Seq::<char>::empty();
        assert(t =~= e + j + seq![']'] + seq!['}']);
        lemma_runner_items(e, fl, seq!['}']);
        lemma_runner_lits();
        assert(objs[0] == runner_object(fl[0]));
        lemma_runner_object_layout(fl[0]);
        if fl.len() >= 2 {
            lemma_join_front(objs, ","@);
        }
        lemma_runner_object_reads_back(e, fl[0], e);
        assert(t[0] == objs[0][0]);
        assert(t.subrange(j.len() as int, t.len() as int) =~= "]}"@);
    }
}

/// The JSON text of a race whose runners are runner objects reads back as its url,
/// course, title and race id, and a runners array whose objects read back as the
/// strings of each runner, in order.
#[verifier::spinoff_prover]
pub proof fn lemma_race_rows_read_back(
    title: Seq<char>,
    race_id: Seq<char>,
    fl: Seq<Seq<Seq<char>>>,
    url: Seq<char>,
    course: Seq<char>,
)
    requires
        forall|j: int| 0 <= j < fl.len() ==> (#[trigger] fl[j]).len() == 10,
    ensures
        ({
            let q = race_json(title, race_id, fl.map_values(|f: Seq<Seq<char>>| runner_object(f)), url, course);
            &&& read_race_fields(q) matches Some((u, c, t, r, rest))
            &&& u == url && c == course && t == title && r == race_id
            &&& read_runner_list(rest, 0) matches Some((got, end))
            &&& got == fl
            &&& rest.subrange(end, rest.len() as int) == "]}"@
        }),
{
    let objs = fl.map_values(|f: Seq<Seq<char>>| runner_object(f));
    lemma_race_json_reads_back(title, race_id, objs, url, course);
    lemma_runners_read_back(fl);
}

/// The JSON text of a full-results page reads back as its url, course, title and
/// race id, and a runners array whose objects read back as the ten strings of each
/// runner row, in page order.
#[verifier::spinoff_prover]
pub proof fn lemma_full_result_page_reads_back(html: Seq<char>, url: Seq<char>, course: Seq<char>)
    ensures
        ({
            let q = race_json(title_of(html), race_id_of(html), runners_json(html), url, course);
            let rows = runner_rows(html, 0).map_values(|row: Seq<char>| runner_fields(row));
            &&& read_race_fields(q) matches Some((u, c, t, r, rest))
            &&& u == url && c == course && t == title_of(html) && r == race_id_of(html)
            &&& read_runner_list(rest, 0) matches Some((got, end))
            &&& got == rows
            &&& rest.subrange(end, rest.len() as int) == "]}"@
        }),
{
    let rows = runner_rows(html, 0).map_values(|row: Seq<char>| runner_fields(row));
    assert(runners_json(html) == rows.map_values(|f: Seq<Seq<char>>| runner_object(f))) by {
        assert(runners_json(html) =~= rows.map_values(|f: Seq<Seq<char>>| runner_object(f)));
    }
    assert forall|j: int| 0 <= j < rows.len() implies (#[trigger] rows[j]).len() == 10 by {}
    lemma_race_rows_read_back(title_of(html), race_id_of(html), rows, url, course);
}

// ---------------------------------------------------------------------------
// Any JSON values in the runners array read back
// ---------------------------------------------------------------------------

/// A character that ends a bare JSON value (a number, `true`, `false`, `null`).
pub open spec fn ends_bare_value(c: char) -> bool {
    c == ',' || c == ']' || c == '}' || crate::text::is_ws(c)
}

/// The position after the closing quote of a JSON string whose text starts at `j`.
pub open spec fn string_end(q: Seq<char>, j: int) -> Option<int> {
    if 0 <= j <= q.len() {
        let e = j + json_string_body(q.subrange(j, q.len() as int)).1;
        if e < q.len() {
            Some(e + 1)
        } else {
            None
        }
    } else {
        None
    }
}

/// Where a bare value that starts at `i` ends: at the first character that ends it,
/// or at the end of the text.
pub open spec fn bare_end(q: Seq<char>, i: int) -> int
    decreases q.len() - i,
{
    if i < 0 || i >= q.len() || ends_bare_value(q[i]) {
        i
    } else {
        bare_end(q, i + 1)
    }
}

/// The position after the bracket that closes an array or object, scanning from
/// `j` with `d` brackets open; strings are skipped whole.
pub open spec fn nested_end(q: Seq<char>, j: int, d: nat) -> Option<int>
    decreases q.len() - j,
{
    if j < 0 || j >= q.len() {
        None
    } else if q[j] == '"' {
        match string_end(q, j + 1) {
            None => None,
            Some(k) => if j < k <= q.len() {
                nested_end(q, k, d)
            } else {
                None
            },
        }
    } else if q[j] == '[' || q[j] == '{' {
        nested_end(q, j + 1, d + 1)
    } else if q[j] == ']' || q[j] == '}' {
        if d <= 1 {
            Some(j + 1)
        } else {
            nested_end(q, j + 1, (d - 1) as nat)
        }
    } else {
        nested_end(q, j + 1, d)
    }
}

/// Where the JSON value that starts at `i` ends, as a reader delimits values: a
/// string at its closing quote, an array or object at its closing bracket, a bare
/// value before the character that ends it.
pub open spec fn value_end(q: Seq<char>, i: int) -> Option<int> {
    if !(0 <= i < q.len()) {
        None
    } else if q[i] == '"' {
        string_end(q, i + 1)
    } else if q[i] == '[' || q[i] == '{' {
        nested_end(q, i + 1, 1)
    } else {
        Some(bare_end(q, i))
    }
}

/// A text that the reader reads as one whole JSON value.
pub open spec fn whole_value(t: Seq<char>) -> bool {
    value_end(t, 0) == Some(t.len() as int)
}

/// Reads values separated by `,` from `i`, up to a `]`: the text of each value and
/// the position of the `]`.
pub open spec fn read_items(q: Seq<char>, i: int) -> Option<(Seq<Seq<char>>, int)>
    decreases q.len() - i,
{
    match value_end(q, i) {
        None => None,
        Some(e) => if !(i < e < q.len()) {
            None
        } else if q[e] == ']' {
            Some((seq![q.subrange(i, e)], e))
        } else if q[e] == ',' {
            match read_items(q, e + 1) {
                None => None,
                Some((rest, end)) => Some((seq![q.subrange(i, e)] + rest, end)),
            }
        } else {
            None
        },
    }
}

/// Reads the inside of an array from `i` (just after its `[`): the text of each
/// value and the position of the closing `]`.
pub open spec fn read_array_items(q: Seq<char>, i: int) -> Option<(Seq<Seq<char>>, int)> {
    if 0 <= i < q.len() && q[i] == ']' {
        Some((Seq::empty(), i))
    } else {
        read_items(q, i)
    }
}

/// Text after the closing quote does not change how a string is read.
proof fn lemma_body_extend(x: Seq<char>, y: Seq<char>)
    requires
        json_string_body(x).1 < x.len(),
    ensures
        json_string_body(x + y) == json_string_body(x),
    decreases x.len(),
{
    let xy = x + y;
    if x.len() == 0 || x[0] == '"' {
        assert(xy[0] == x[0]);
    } else if x[0] == '\\' && x.len() >= 2 {
        let x2 = x.subrange(2, x.len() as int);
        lemma_body_extend(x2, y);
        assert(xy.subrange(2, xy.len() as int) =~= x2 + y);
        assert(xy[1] == x[1]);
    } else {
        let x1 = x.subrange(1, x.len() as int);
        if x.len() == 1 {
            assert(x1 =~= Seq::<char>::empty());
        }
        lemma_body_extend(x1, y);
        assert(xy.subrange(1, xy.len() as int) =~= x1 + y);
        assert(xy[0] == x[0]);
    }
}

/// A string that closes inside `t` closes at the same place inside a text that
/// holds `t` at `off`.
proof fn lemma_string_end_shift(t: Seq<char>, q: Seq<char>, off: int, j: int)
    requires
        0 <= off,
        off + t.len() <= q.len(),
        q.subrange(off, off + t.len()) == t,
        0 <= j <= t.len(),
        string_end(t, j) is Some,
    ensures
        string_end(q, off + j) == Some(string_end(t, j)->0 + off),
{
    let x = t.subrange(j, t.len() as int);
    let y = q.subrange(off + t.len(), q.len() as int);
    lemma_body_extend(x, y);
    assert(q.subrange(off + j, q.len() as int) =~= x + y);
}

/// A bracketed value that closes inside `t` closes at the same place inside a text
/// that holds `t` at `off`.
proof fn lemma_nested_shift(t: Seq<char>, q: Seq<char>, off: int, j: int, d: nat)
    requires
        0 <= off,
        off + t.len() <= q.len(),
        q.subrange(off, off + t.len()) == t,
        nested_end(t, j, d) is Some,
    ensures
        nested_end(q, off + j, d) == Some(nested_end(t, j, d)->0 + off),
    decreases t.len() - j,
{
    assert(0 <= j < t.len());
    assert(q[off + j] == t[j]);
    if t[j] == '"' {
        lemma_string_end_shift(t, q, off, j + 1);
        let k = string_end(t, j + 1)->0;
        lemma_nested_shift(t, q, off, k, d);
    } else if t[j] == '[' || t[j] == '{' {
        lemma_nested_shift(t, q, off, j + 1, d + 1);
    } else if t[j] == ']' || t[j] == '}' {
        if d > 1 {
            lemma_nested_shift(t, q, off, j + 1, (d - 1) as nat);
        }
    } else {
        lemma_nested_shift(t, q, off, j + 1, d);
    }
}

/// A bare value that runs to the end of `t` runs to the same place inside a text
/// that holds `t` at `off` and goes on with a character that ends it.
proof fn lemma_bare_shift(t: Seq<char>, q: Seq<char>, off: int, j: int)
    requires
        0 <= off,
        off + t.len() < q.len(),
        q.subrange(off, off + t.len()) == t,
        ends_bare_value(q[off + t.len()]),
        0 <= j <= t.len(),
        bare_end(t, j) == t.len(),
    ensures
        bare_end(q, off + j) == off + t.len(),
    decreases t.len() - j,
{
    if j < t.len() {
        assert(q[off + j] == t[j]);
        lemma_bare_shift(t, q, off, j + 1);
    }
}

/// A whole value, followed by a character that ends values, is read to its end.
proof fn lemma_value_end_shift(p: Seq<char>, t: Seq<char>, rest: Seq<char>)
    requires
        whole_value(t),
        rest.len() > 0,
        rest[0] == ',' || rest[0] == ']',
    ensures
        value_end(p + t + rest, p.len() as int) == Some((p.len() + t.len()) as int),
{
    let q = p + t + rest;
    let off = p.len() as int;
    assert(q.subrange(off, off + t.len()) =~= t);
    assert(t.len() > 0);
    assert(q[off] == t[0]);
    if t[0] == '"' {
        lemma_string_end_shift(t, q, off, 1);
    } else if t[0] == '[' || t[0] == '{' {
        lemma_nested_shift(t, q, off, 1, 1);
    } else {
        assert(q[off + t.len()] == rest[0]);
        lemma_bare_shift(t, q, off, 0);
    }
}

/// Whole values joined with `,` and followed by `]` read back as those values.
#[verifier::spinoff_prover]
proof fn lemma_items(p: Seq<char>, ts: Seq<Seq<char>>, rest: Seq<char>)
    requires
        ts.len() >= 1,
        forall|j: int| 0 <= j < ts.len() ==> whole_value(#[trigger] ts[j]),
    ensures
        read_items(p + join(ts, ","@) + seq![']'] + rest, p.len() as int) == Some(
            (ts, (p.len() + join(ts, ","@).len()) as int),
        ),
    decreases ts.len(),
{
    reveal_strlit(",");
    let t0 = ts[0];
    let i = p.len() as int;
    assert(whole_value(t0));
    if ts.len() == 1 {
        assert(join(ts, ","@) == t0);
        let q = p + join(ts, ","@) + seq![']'] + rest;
        assert(q =~= p + t0 + (seq![']'] + rest));
        lemma_value_end_shift(p, t0, seq![']'] + rest);
        let e = i + t0.len();
        assert(q[e] == ']');
        assert(q.subrange(i, e) =~= t0);
        assert(seq![t0] =~= ts);
    } else {
        lemma_join_front(ts, ","@);
        let tl = ts.drop_first();
        let jt = join(tl, ","@);
        let q = p + join(ts, ","@) + seq![']'] + rest;
        assert(q =~= p + t0 + (","@ + jt + seq![']'] + rest));
        lemma_value_end_shift(p, t0, ","@ + jt + seq![']'] + rest);
        let e = i + t0.len();
        assert(q[e] == ',');
        assert(q.subrange(i, e) =~= t0);
        let p2 = p + t0 + ","@;
        assert(q =~= p2 + jt + seq![']'] + rest);
        assert forall|j: int| 0 <= j < tl.len() implies whole_value(#[trigger] tl[j]) by {
            assert(tl[j] == ts[j + 1]);
        }
        lemma_items(p2, tl, rest);
        assert(p2.len() == e + 1);
        assert(seq![t0] + tl =~= ts);
    }
}

/// Whole JSON values joined with `,` and closed with `]}` read back, as the inside
/// of an array, as exactly those values, up to the `]`.
pub proof fn lemma_array_values_read_back(ts: Seq<Seq<char>>)
    requires
        forall|j: int| 0 <= j < ts.len() ==> whole_value(#[trigger] ts[j]),
    ensures
        read_array_items(join(ts, ","@) + "]}"@, 0) == Some((ts, join(ts, ","@).len() as int)),
        (join(ts, ","@) + "]}"@).subrange(join(ts, ","@).len() as int, (join(ts, ","@).len() + 2) as int) == "]}"@,
{
    reveal_strlit("]}");
    let j = join(ts, ","@);
    let t = j + "]}"@;
    assert(t.subrange(j.len() as int, (j.len() + 2) as int) =~= "]}"@);
    if ts.len() == 0 {
        assert(j =~= Seq::<char>::empty());
        assert(t[0] == ']');
        assert(ts =~= Seq::<Seq<char>>::empty());
    } else {
        let e = Seq::<char>::empty();
        assert(t =~= e + j + seq![']'] + seq!['}']);
        lemma_items(e, ts, seq!['}']);
        assert(whole_value(ts[0]));
        if ts.len() >= 2 {
            lemma_join_front(ts, ","@);
            assert(t[0] == ts[0][0]);
        } else {
            assert(t[0] == ts[0][0]);
        }
        assert(ts[0][0] != ']');
    }
}

/// The JSON text of a race reads back as its url, course, title and race id, and,
/// when every runner text is one whole JSON value, a runners array whose values are
/// exactly those texts, in order, followed by the closing `]}`.
#[verifier::spinoff_prover]
pub proof fn lemma_race_json_values_read_back(
    title: Seq<char>,
    race_id: Seq<char>,
    runners: Seq<Seq<char>>,
    url: Seq<char>,
    course: Seq<char>,
)
    requires
        forall|j: int| 0 <= j < runners.len() ==> whole_value(#[trigger] runners[j]),
    ensures
        ({
            let q = race_json(title, race_id, runners, url, course);
            &&& read_race_fields(q) matches Some((u, c, t, r, rest))
            &&& u == url && c == course && t == title && r == race_id
            &&& read_array_items(rest, 0) matches Some((got, end))
            &&& got == runners
            &&& rest.subrange(end, rest.len() as int) == "]}"@
        }),
{
    lemma_race_json_reads_back(title, race_id, runners, url, course);
    lemma_array_values_read_back(runners);
    let j = join(runners, ","@);
    let rest = j + "]}"@;
    reveal_strlit("]}");
    assert(rest.len() == j.len() + 2);
}

} // verus!
