//! Parsing of a racecard page: race facts and runners from the page's HTML.
use vstd::prelude::*;
use crate::text::{
    byte_len, ch, chars_of, find, find_chars, find_from, is_digit, is_digit_exec, is_ws,
    lemma_find_from, lemma_find_from_first, push_str, replace_all, replace_chars, slice_chars, string_of, trim,
    trim_bounds, trim_start, utf8_len, utf8_len_exec, lemma_byte_len_split, lemma_byte_len_one,
    trimmed_chars, matches_at, matches_at_exec, forward_by_bytes,
};
use crate::full_result_parse::{
    json_escaped, text_after_bounds, text_after_bounds_exec, escape_char, read_string_then, fields_text,
    lemma_read_string_then, lemma_layout_step,
};

verus! {

// ---------------------------------------------------------------------------
// Types
// ---------------------------------------------------------------------------

/// The facts of a race read from a racecard.
pub struct RaceMeta {
    pub course: Option<String>,
    pub time: Option<String>,
    pub race_name: Option<String>,
    pub going: Option<String>,
}

/// One runner read from a racecard.
pub struct RunnerRec {
    pub horse: Option<String>,
    pub jockey: Option<String>,
    pub trainer: Option<String>,
    pub age: Option<String>,
    pub weight: Option<String>,
    pub weight_st: Option<String>,
    pub weight_lb: Option<String>,
}

/// The text of an optional string.
pub open spec fn opt_view(o: Option<String>) -> Option<Seq<char>> {
    match o {
        Some(s) => Some(s@),
        None => None,
    }
}

/// The facts of a race as texts.
pub struct MetaView {
    pub course: Option<Seq<char>>,
    pub time: Option<Seq<char>>,
    pub race_name: Option<Seq<char>>,
    pub going: Option<Seq<char>>,
}

/// A runner as texts.
pub struct RunnerView {
    pub horse: Option<Seq<char>>,
    pub jockey: Option<Seq<char>>,
    pub trainer: Option<Seq<char>>,
    pub age: Option<Seq<char>>,
    pub weight: Option<Seq<char>>,
    pub weight_st: Option<Seq<char>>,
    pub weight_lb: Option<Seq<char>>,
}

impl View for RaceMeta {
    type V = MetaView;

    open spec fn view(&self) -> MetaView {
        MetaView {
            course: opt_view(self.course),
            time: opt_view(self.time),
            race_name: opt_view(self.race_name),
            going: opt_view(self.going),
        }
    }
}

impl View for RunnerRec {
    type V = RunnerView;

    open spec fn view(&self) -> RunnerView {
        RunnerView {
            horse: opt_view(self.horse),
            jockey: opt_view(self.jockey),
            trainer: opt_view(self.trainer),
            age: opt_view(self.age),
            weight: opt_view(self.weight),
            weight_st: opt_view(self.weight_st),
            weight_lb: opt_view(self.weight_lb),
        }
    }
}

/// The views of a list of runners.
pub open spec fn runners_view(v: Seq<RunnerRec>) -> Seq<RunnerView> {
    v.map_values(|r: RunnerRec| r@)
}

/// A copy of an optional string.
pub fn clone_opt(o: &Option<String>) -> (res: Option<String>)
    ensures
        opt_view(res) == opt_view(*o),
{
    match o {
        Some(s) => Some(s.clone()),
        None => None,
    }
}

impl RunnerRec {
    /// A copy of the runner.
    pub fn copy(&self) -> (res: RunnerRec)
        ensures
            res@ == self@,
    {
        RunnerRec {
            horse: clone_opt(&self.horse),
            jockey: clone_opt(&self.jockey),
            trainer: clone_opt(&self.trainer),
            age: clone_opt(&self.age),
            weight: clone_opt(&self.weight),
            weight_st: clone_opt(&self.weight_st),
            weight_lb: clone_opt(&self.weight_lb),
        }
    }
}

impl RaceMeta {
    /// A copy of the race facts.
    pub fn copy(&self) -> (res: RaceMeta)
        ensures
            res@ == self@,
    {
        RaceMeta {
            course: clone_opt(&self.course),
            time: clone_opt(&self.time),
            race_name: clone_opt(&self.race_name),
            going: clone_opt(&self.going),
        }
    }
}

// ---------------------------------------------------------------------------
// Specifications: HTML scanning
// ---------------------------------------------------------------------------

/// From the first `start` up to the first `end` at or after it, `start` included.
pub open spec fn span_from(h: Seq<char>, start: Seq<char>, end: Seq<char>) -> Option<Seq<char>> {
    match find(h, start) {
        None => None,
        Some(s) => match find_from(h, s, end) {
            None => None,
            Some(e) => Some(h.subrange(s, e)),
        },
    }
}

/// The untrimmed element text after the first `needle`.
pub open spec fn raw_text_after(h: Seq<char>, needle: Seq<char>) -> Option<Seq<char>> {
    match text_after_bounds(h, needle) {
        None => None,
        Some((a, b)) => Some(h.subrange(a, b)),
    }
}

/// The marker that opens the page's Next.js data.
pub open spec fn next_data_marker() -> Seq<char> {
    "<script id=\"__NEXT_DATA__\" type=\"application/json\">"@
}

/// The text of the page's Next.js data, when the page has it.
pub open spec fn next_data_of(h: Seq<char>) -> Option<Seq<char>> {
    crate::full_result_parse::between(h, next_data_marker(), "</script>"@)
}

/// The canonical url of the page.
pub open spec fn canonical_of(h: Seq<char>) -> Option<Seq<char>> {
    crate::full_result_parse::between(h, "<link rel=\"canonical\" href=\""@, "\""@)
}

/// The non-empty texts of `ps`, in order.
pub open spec fn non_empty(ps: Seq<Seq<char>>) -> Seq<Seq<char>>
    decreases ps.len(),
{
    if ps.len() == 0 {
        Seq::empty()
    } else {
        non_empty(ps.drop_last()) + if ps.last().len() > 0 {
            seq![ps.last()]
        } else {
            Seq::empty()
        }
    }
}

/// The non-empty pieces of a text split at `/`, in order.
pub open spec fn path_parts(s: Seq<char>) -> Seq<Seq<char>> {
    non_empty(crate::text::split_char(s, '/'))
}

/// The first index of `x` in `parts`.
pub open spec fn index_of(parts: Seq<Seq<char>>, x: Seq<char>) -> Option<int>
    decreases parts.len(),
{
    if parts.len() == 0 {
        None
    } else {
        match index_of(parts.drop_last(), x) {
            Some(i) => Some(i),
            None => if parts.last() == x {
                Some(parts.len() - 1)
            } else {
                None
            },
        }
    }
}

/// The course slug of a racecard url: the second part after `racecards`.
pub open spec fn course_of_canonical(url: Seq<char>) -> Option<Seq<char>> {
    let parts = path_parts(crate::text::trim_end_char(url, '/'));
    match index_of(parts, "racecards"@) {
        None => None,
        Some(i) => if i + 2 < parts.len() {
            Some(parts[i + 2])
        } else {
            None
        },
    }
}

/// The race name in the page title: the title element's text, trimmed, with
/// ` Racecard` removed and trimmed again.
pub open spec fn race_name_from_title(h: Seq<char>) -> Option<Seq<char>> {
    match span_from(h, "<title"@, "</title>"@) {
        None => None,
        Some(title) => match raw_text_after(title, ">"@) {
            None => None,
            Some(text) => if trim(text).len() == 0 {
                None
            } else {
                Some(trim(replace_all(trim(text), " Racecard"@, Seq::empty())))
            },
        },
    }
}

/// Characters `s[i..i+5]` read as `HH:MM` (digits around a colon).
pub open spec fn hh_mm_at(s: Seq<char>, i: int) -> bool {
    &&& 0 <= i
    &&& i + 5 <= s.len()
    &&& is_digit(s[i])
    &&& is_digit(s[i + 1])
    &&& s[i + 2] == ':'
    &&& is_digit(s[i + 3])
    &&& is_digit(s[i + 4])
}

/// The first `HH:MM` in `s` at or after `i`.
pub open spec fn first_hh_mm_from(s: Seq<char>, i: int) -> Option<Seq<char>>
    decreases s.len() - i,
{
    if i < 0 || i + 5 > s.len() {
        None
    } else if hh_mm_at(s, i) {
        Some(s.subrange(i, i + 5))
    } else {
        first_hh_mm_from(s, i + 1)
    }
}

/// `s` without the prefix `p`, when it has it.
pub open spec fn strip_prefix(s: Seq<char>, p: Seq<char>) -> Option<Seq<char>> {
    if crate::text::starts_with(s, p) {
        Some(s.subrange(p.len() as int, s.len() as int))
    } else {
        None
    }
}

/// The characters kept from `s` before a `,` or `.`, stopping once more than 64
/// bytes are kept.
pub open spec fn take_course_chars(s: Seq<char>) -> Seq<char>
    decreases s.len(),
{
    take_course_from(s, 0, Seq::empty())
}

/// The characters kept from `s[i..]` onto `out`.
pub open spec fn take_course_from(s: Seq<char>, i: int, out: Seq<char>) -> Seq<char>
    decreases s.len() - i,
{
    if i < 0 || i >= s.len() || s[i] == ',' || s[i] == '.' || byte_len(out) > 64 {
        out
    } else {
        take_course_from(s, i + 1, out.push(s[i]))
    }
}

/// The course after a time in a description ("... at 15:40 Ascot, including ..."):
/// the text after the first occurrence of the time, up to the next `,` or `.` (at
/// most about 64 bytes), trimmed; none when that is empty.
pub open spec fn course_after(desc: Seq<char>, time: Seq<char>) -> Option<Seq<char>> {
    match find(desc, time) {
        None => None,
        Some(idx) => {
            let after = trim_start(desc.subrange(idx + time.len(), desc.len() as int));
            let out = trim(take_course_chars(after));
            if out.len() == 0 {
                None
            } else {
                Some(out)
            }
        },
    }
}

/// The character position from which `limit` bytes on reach the end of the window
/// after `idx`: the window covers at most `limit` bytes.
pub open spec fn forward_window_ok(h: Seq<char>, idx: int, limit: int) -> bool {
    byte_len(h.subrange(idx, h.len() as int)) <= limit || exists|e: int|
        idx <= e <= h.len() && byte_len(h.subrange(idx, e)) == limit
}

/// The end of the window of `limit` bytes after `idx`.
pub open spec fn forward_window_end(h: Seq<char>, idx: int, limit: int) -> int {
    if byte_len(h.subrange(idx, h.len() as int)) <= limit {
        h.len() as int
    } else {
        choose|e: int| idx <= e <= h.len() && byte_len(h.subrange(idx, e)) == limit
    }
}

/// The `content` attribute within 2000 bytes after the first `needle`.
pub open spec fn meta_content(h: Seq<char>, needle: Seq<char>) -> Option<Seq<char>> {
    match find(h, needle) {
        None => None,
        Some(idx) => {
            let slice = h.subrange(idx, forward_window_end(h, idx, 2000));
            crate::full_result_parse::between(slice, "content=\""@, "\""@)
        },
    }
}

/// The byte window after every occurrence of `needle` ends between characters.
pub open spec fn meta_windows_ok(h: Seq<char>, needle: Seq<char>) -> bool {
    match find(h, needle) {
        None => true,
        Some(idx) => forward_window_ok(h, idx, 2000),
    }
}

/// The race facts read from the page description: its first `HH:MM` time and the
/// course after it.
pub open spec fn meta_from_html(h: Seq<char>) -> MetaView {
    match meta_content(h, "name=\"description\""@) {
        None => MetaView { course: None, time: None, race_name: None, going: None },
        Some(desc) => {
            let time = first_hh_mm_from(desc, 0);
            MetaView {
                course: match time {
                    Some(t) => course_after(desc, t),
                    None => None,
                },
                time,
                race_name: None,
                going: None,
            }
        },
    }
}

/// The end of the run of digits that starts at `i`.
pub open spec fn digits_end(s: Seq<char>, i: int) -> int
    decreases s.len() - i,
{
    if 0 <= i < s.len() && is_digit(s[i]) {
        digits_end(s, i + 1)
    } else {
        i
    }
}

/// The position of an age `N` or `NN` followed by `yo`, scanning from `i`; each run
/// of one or two digits is tried once.
pub open spec fn age_from(s: Seq<char>, i: int) -> Option<(int, int)>
    decreases s.len() - i,
{
    if i < 0 || i >= s.len() {
        None
    } else if !is_digit(s[i]) {
        age_from(s, i + 1)
    } else {
        let j = if i + 1 < s.len() && is_digit(s[i + 1]) {
            i + 2
        } else {
            i + 1
        };
        if j + 1 < s.len() && s[j] == 'y' && s[j + 1] == 'o' {
            Some((i, j))
        } else {
            age_from(s, j)
        }
    }
}

/// The age before the first `yo` that follows one or two digits.
pub open spec fn age_yo(s: Seq<char>) -> Option<Seq<char>> {
    match age_from(s, 0) {
        None => None,
        Some((a, b)) => Some(s.subrange(a, b)),
    }
}

/// The digits that end at position `e` of `s`.
pub open spec fn digits_ending(s: Seq<char>, e: int) -> Seq<char>
    decreases e,
{
    if 0 < e <= s.len() && is_digit(s[e - 1]) {
        digits_ending(s, e - 1).push(s[e - 1])
    } else {
        Seq::empty()
    }
}

/// The last run of digits in `s`: trailing non-digits are skipped, then the digits
/// before them are taken.
pub open spec fn last_digits(s: Seq<char>) -> Seq<char>
    decreases s.len(),
{
    if s.len() == 0 {
        Seq::empty()
    } else if !is_digit(s.last()) {
        last_digits(s.drop_last())
    } else {
        digits_ending(s, s.len() as int)
    }
}

/// Stones and pounds read as `<digits>...st...<digits>...lb` around the first `st`.
pub open spec fn st_lb_of(s: Seq<char>) -> Option<(Seq<char>, Seq<char>)> {
    match find(s, "st"@) {
        None => None,
        Some(st) => match find_from(s, st, "lb"@) {
            None => None,
            Some(lb) => {
                let stn = last_digits(s.take(st));
                let lbn = last_digits(s.subrange(st, lb));
                if stn.len() == 0 || lbn.len() == 0 {
                    None
                } else {
                    Some((stn, lbn))
                }
            },
        },
    }
}

/// A weight text `<st>st <lb>lb`.
pub open spec fn weight_text(st: Seq<char>, lb: Seq<char>) -> Seq<char> {
    st + "st "@ + lb + "lb"@
}

/// The first `st` at or after `from` with digits before it and before the next `lb`,
/// as a weight text; the scan ends when an `st` has no `lb` after it.
pub open spec fn weight_st_lb_from(s: Seq<char>, from: int) -> Option<Seq<char>>
    decreases s.len() + 1 - from,
{
    if from < 0 || from > s.len() {
        None
    } else {
        match find_from(s, from, "st"@) {
            None => None,
            Some(st) => match find_from(s, st, "lb"@) {
                None => None,
                Some(lb) => {
                    let stn = last_digits(s.take(st));
                    let lbn = last_digits(s.subrange(st, lb));
                    if stn.len() > 0 && lbn.len() > 0 {
                        Some(weight_text(stn, lbn))
                    } else {
                        proof {
                            lemma_find_from(s, from, "st"@);
                            reveal_strlit("st");
                        }
                        weight_st_lb_from(s, st + 2)
                    }
                },
            },
        }
    }
}

/// Leading zeros removed, `0` when nothing is left.
pub open spec fn strip_zeros(s: Seq<char>) -> Seq<char> {
    let t = strip_leading_zeros(s);
    if t.len() == 0 {
        seq!['0']
    } else {
        t
    }
}

/// `s` without leading `0` characters.
pub open spec fn strip_leading_zeros(s: Seq<char>) -> Seq<char>
    decreases s.len(),
{
    if s.len() > 0 && s[0] == '0' {
        strip_leading_zeros(s.drop_first())
    } else {
        s
    }
}

/// A `<st>-<lb>` weight starting at `i`, each part one or two digits.
pub open spec fn dash_at(s: Seq<char>, i: int) -> Option<(Seq<char>, Seq<char>)> {
    if 0 <= i < s.len() && is_digit(s[i]) {
        let j = digits_end(s, i);
        if j < s.len() && s[j] == '-' {
            let k = digits_end(s, j + 1);
            if k > j + 1 && j - i <= 2 && k - (j + 1) <= 2 {
                Some((strip_zeros(s.subrange(i, j)), strip_zeros(s.subrange(j + 1, k))))
            } else {
                None
            }
        } else {
            None
        }
    } else {
        None
    }
}

/// The first `<st>-<lb>` weight at or after `i`, tried only at positions with more
/// than three bytes left after them.
pub open spec fn dash_from(s: Seq<char>, i: int) -> Option<(Seq<char>, Seq<char>)>
    decreases s.len() - i,
{
    if i < 0 || i >= s.len() || byte_len(s.subrange(i, s.len() as int)) <= 3 {
        None
    } else {
        match dash_at(s, i) {
            Some(p) => Some(p),
            None => dash_from(s, i + 1),
        }
    }
}

/// Stones and pounds of a weight text: from `st`/`lb` markers, else from `st-lb`.
pub open spec fn weight_parts(s: Seq<char>) -> (Option<Seq<char>>, Option<Seq<char>>) {
    match st_lb_of(s) {
        Some((a, b)) => (Some(a), Some(b)),
        None => match dash_from(s, 0) {
            Some((a, b)) => (Some(a), Some(b)),
            None => (None, None),
        },
    }
}

/// The digits ending a text whose end is a run of digits after a non-digit (or
/// after nothing) are that run.
proof fn lemma_digits_ending_run(p: Seq<char>, b: Seq<char>, e: int)
    requires
        crate::text::all_digits(b),
        p.len() == 0 || !is_digit(p.last()),
        0 <= e <= b.len(),
    ensures
        digits_ending(p + b, p.len() + e) == b.take(e),
    decreases e,
{
    let s = p + b;
    if e == 0 {
        assert(b.take(0) =~= Seq::<char>::empty());
        if p.len() > 0 {
            assert(s[p.len() - 1] == p.last());
        }
    } else {
        lemma_digits_ending_run(p, b, e - 1);
        assert(s[p.len() + e - 1] == b[e - 1]);
        assert(is_digit(b[e - 1]));
        assert(b.take(e - 1).push(b[e - 1]) =~= b.take(e));
    }
}

/// A weight written as `<st>st <lb>lb` reads back as those stones and pounds.
pub proof fn lemma_weight_text_reads_back(st: Seq<char>, lb: Seq<char>)
    requires
        st.len() > 0 && crate::text::all_digits(st),
        lb.len() > 0 && crate::text::all_digits(lb),
    ensures
        st_lb_of(weight_text(st, lb)) == Some((st, lb)),
        weight_parts(weight_text(st, lb)) == (Some(st), Some(lb)),
{
    reveal_strlit("st ");
    reveal_strlit("st");
    reveal_strlit("lb");
    let s = weight_text(st, lb);
    let a = st.len() as int;
    let l = (a + 3 + lb.len()) as int;
    assert(s =~= st + seq!['s', 't', ' '] + lb + seq!['l', 'b']);
    assert(s.subrange(a, a + 2) =~= "st"@);
    assert forall|j: int| 0 <= j < a implies !matches_at(s, j, "st"@) by {
        assert(s[j] == st[j]);
        if matches_at(s, j, "st"@) {
            assert(s.subrange(j, j + 2)[0] == s[j]);
        }
    }
    lemma_find_from_first(s, 0, "st"@, a);
    assert(s.subrange(l, l + 2) =~= "lb"@);
    assert forall|j: int| a <= j < l implies !matches_at(s, j, "lb"@) by {
        if matches_at(s, j, "lb"@) {
            assert(s.subrange(j, j + 2)[0] == s[j]);
            if j >= a + 3 {
                assert(s[j] == lb[j - a - 3]);
            }
        }
    }
    lemma_find_from_first(s, a, "lb"@, l);
    assert(s.take(a) =~= Seq::<char>::empty() + st);
    lemma_digits_ending_run(Seq::<char>::empty(), st, a);
    assert(st.take(a) =~= st);
    assert(is_digit(st.last()));
    assert(last_digits(s.take(a)) == digits_ending(s.take(a), a));
    let mid = s.subrange(a, l);
    let pre = seq!['s', 't', ' '];
    assert(mid =~= pre + lb);
    lemma_digits_ending_run(pre, lb, lb.len() as int);
    assert(lb.take(lb.len() as int) =~= lb);
    assert(mid.last() == lb.last());
    assert(last_digits(mid) == digits_ending(mid, mid.len() as int));
}

/// The attribute that marks an element with test id `t`.
pub open spec fn testid_needle(t: Seq<char>) -> Seq<char> {
    "data-testid=\""@ + t + "\""@
}

/// The first non-blank element text, trimmed, after one of the test ids, tried in order.
pub open spec fn first_testid(s: Seq<char>, ids: Seq<Seq<char>>) -> Option<Seq<char>>
    decreases ids.len(),
{
    if ids.len() == 0 {
        None
    } else {
        match raw_text_after(s, testid_needle(ids[0])) {
            Some(v) if trim(v).len() > 0 => Some(trim(v)),
            _ => first_testid(s, ids.drop_first()),
        }
    }
}

/// The texts of a list of string slices.
pub open spec fn strs_view(ids: Seq<&str>) -> Seq<Seq<char>> {
    ids.map_values(|t: &str| t@)
}

/// The marker of a runner's horse link.
pub open spec fn horse_marker() -> Seq<char> {
    "data-testid=\"Link__Horse\""@
}

/// The text of a link: the element text after `needle` (from the `>` that ends the
/// marker's tag up to the next `<`), trimmed.
pub open spec fn link_text(block: Seq<char>, needle: Seq<char>) -> Option<Seq<char>> {
    match raw_text_after(block, needle) {
        None => None,
        Some(s) => Some(trim(s)),
    }
}

/// The weight text of a runner block: a weight test id, else `st`/`lb` markers, else
/// `st-lb`.
pub open spec fn block_weight(block: Seq<char>) -> Option<Seq<char>> {
    match first_testid(
        block,
        seq!["Text__Weight"@, "Text__Wgt"@, "Text__HorseWeight"@, "Text__WeightValue"@],
    ) {
        Some(t) => Some(t),
        None => match weight_st_lb_from(block, 0) {
            Some(t) => Some(t),
            None => match dash_from(block, 0) {
                Some((a, b)) => Some(weight_text(a, b)),
                None => None,
            },
        },
    }
}

/// The runner of a block, or none when the block has no horse name.
pub open spec fn runner_of_block(block: Seq<char>) -> Option<RunnerView> {
    let horse = link_text(block, horse_marker());
    let age = match first_testid(block, seq!["Text__Age"@, "Text__HorseAge"@]) {
        Some(a) => Some(a),
        None => age_yo(block),
    };
    let w = block_weight(block);
    let parts = match w {
        Some(t) => weight_parts(t),
        None => (None, None),
    };
    match horse {
        Some(h) if h.len() > 0 => Some(
            RunnerView {
                horse,
                jockey: link_text(block, "data-testid=\"Link__Jockey\""@),
                trainer: link_text(block, "data-testid=\"Link__Trainer\""@),
                age,
                weight: w,
                weight_st: parts.0,
                weight_lb: parts.1,
            },
        ),
        _ => None,
    }
}

/// The end of the block that starts with a horse link at `idx`.
pub open spec fn block_end(h: Seq<char>, idx: int) -> int {
    match find_from(h, idx + horse_marker().len(), horse_marker()) {
        Some(n) => n,
        None => h.len() as int,
    }
}

/// The runners of the horse-link blocks from `start` on.
pub open spec fn html_runners_from(h: Seq<char>, start: int) -> Seq<RunnerView>
    decreases h.len() + 1 - start,
{
    if start < 0 || start > h.len() {
        Seq::empty()
    } else {
        match find_from(h, start, horse_marker()) {
            None => Seq::empty(),
            Some(idx) => {
                proof {
                    lemma_block_advances(h, start, idx);
                }
                let rest = html_runners_from(h, block_end(h, idx));
                match runner_of_block(h.subrange(idx, block_end(h, idx))) {
                    Some(r) => seq![r] + rest,
                    None => rest,
                }
            },
        }
    }
}

/// The runners read from the page's HTML.
pub open spec fn html_runners(h: Seq<char>) -> Seq<RunnerView> {
    html_runners_from(h, 0)
}

/// Each horse block ends after the point where its search started.
pub proof fn lemma_block_advances(h: Seq<char>, start: int, idx: int)
    requires
        0 <= start <= h.len(),
        find_from(h, start, horse_marker()) == Some(idx),
    ensures
        start <= idx < block_end(h, idx) <= h.len(),
{
    reveal_strlit("data-testid=\"Link__Horse\"");
    lemma_find_from(h, start, horse_marker());
    lemma_find_from(h, idx + horse_marker().len(), horse_marker());
}

// ---------------------------------------------------------------------------
// Executable functions: HTML scanning
// ---------------------------------------------------------------------------

/// The untrimmed element text after the first `needle` (characters version).
pub fn raw_text_after_chars(h: &[char], needle: &[char]) -> (res: Option<Vec<char>>)
    ensures
        res matches Some(r) ==> raw_text_after(h@, needle@) == Some(r@),
        res is None ==> raw_text_after(h@, needle@) is None,
{
    match text_after_bounds_exec(h, needle) {
        None => None,
        Some((a, b)) => Some(slice_chars(h, a, b)),
    }
}

/// The text of the page's Next.js data script, when the page has one.
pub fn extract_next_data_json(html: &str) -> (res: Option<String>)
    ensures
        res matches Some(r) ==> next_data_of(html@) == Some(r@),
        res is None ==> next_data_of(html@) is None,
{
    let h = chars_of(html);
    let m = chars_of("<script id=\"__NEXT_DATA__\" type=\"application/json\">");
    let e = chars_of("</script>");
    match crate::full_result_parse::between_bounds_exec(&h, &m, &e) {
        None => None,
        Some((a, b)) => Some(string_of(&h, a, b)),
    }
}

/// The canonical url of the page.
pub fn extract_canonical_racecard_url(html: &str) -> (res: Option<String>)
    ensures
        res matches Some(r) ==> canonical_of(html@) == Some(r@),
        res is None ==> canonical_of(html@) is None,
{
    let h = chars_of(html);
    let m = chars_of("<link rel=\"canonical\" href=\"");
    let e = chars_of("\"");
    match crate::full_result_parse::between_bounds_exec(&h, &m, &e) {
        None => None,
        Some((a, b)) => Some(string_of(&h, a, b)),
    }
}

/// The first `HH:MM` of a text (two digits, a colon, two digits).
pub fn find_first_time_hh_mm(s: &[char]) -> (res: Option<Vec<char>>)
    ensures
        res matches Some(r) ==> first_hh_mm_from(s@, 0) == Some(r@),
        res is None ==> first_hh_mm_from(s@, 0) is None,
{
    let mut i: usize = 0;
    while i < s.len() && s.len() - i >= 5
        invariant
            i <= s@.len(),
            first_hh_mm_from(s@, 0) == first_hh_mm_from(s@, i as int),
        decreases s@.len() - i,
    {
        if is_digit_exec(s[i]) && is_digit_exec(s[i + 1]) && s[i + 2] == ':' && is_digit_exec(
            s[i + 3],
        ) && is_digit_exec(s[i + 4]) {
            return Some(slice_chars(s, i, i + 5));
        }
        i = i + 1;
    }
    None
}

/// Whether `s` starts with `p`; the rest when it does.
pub(crate) fn strip_prefix_chars(s: &[char], p: &str) -> (res: Option<Vec<char>>)
    ensures
        res matches Some(r) ==> strip_prefix(s@, p@) == Some(r@),
        res is None ==> strip_prefix(s@, p@) is None,
{
    let pc = chars_of(p);
    if matches_at_exec(s, 0, &pc) {
        Some(slice_chars(s, pc.len(), s.len()))
    } else {
        None
    }
}

/// `trim_start(s)` as a vector.
fn trim_start_chars(s: &[char]) -> (res: Vec<char>)
    ensures
        res@ == trim_start(s@),
{
    let mut a: usize = 0;
    assert(s@.subrange(0, s@.len() as int) =~= s@);
    while a < s.len() && crate::text::is_ws_exec(s[a])
        invariant
            a <= s@.len(),
            trim_start(s@) == trim_start(s@.subrange(a as int, s@.len() as int)),
        decreases s@.len() - a,
    {
        assert(s@.subrange(a as int, s@.len() as int).drop_first() =~= s@.subrange(
            a + 1,
            s@.len() as int,
        ));
        a = a + 1;
    }
    slice_chars(s, a, s.len())
}

/// The characters of a course name: up to a `,` or `.`, stopping once more than 64
/// bytes are kept.
fn take_course(s: &[char]) -> (res: Vec<char>)
    ensures
        res@ == take_course_chars(s@),
{
    let mut out: Vec<char> = Vec::new();
    let mut bytes: usize = 0;
    let mut i: usize = 0;
    while i < s.len() && s[i] != ',' && s[i] != '.' && bytes <= 64
        invariant
            i <= s@.len(),
            bytes == byte_len(out@),
            bytes <= 68,
            take_course_chars(s@) == take_course_from(s@, i as int, out@),
        decreases s@.len() - i,
    {
        let c = s[i];
        assert(out@.push(c).drop_last() =~= out@);
        out.push(c);
        bytes = bytes + utf8_len_exec(c);
        i = i + 1;
    }
    out
}

/// The course after a time in a description.
pub fn course_after_time(desc: &[char], time: &[char]) -> (res: Option<Vec<char>>)
    ensures
        res matches Some(r) ==> course_after(desc@, time@) == Some(r@),
        res is None ==> course_after(desc@, time@) is None,
{
    match find_chars(desc, 0, time) {
        None => None,
        Some(idx) => {
            let rest = slice_chars(desc, idx + time.len(), desc.len());
            let after = trim_start_chars(&rest);
            let taken = take_course(&after);
            assert(taken@.subrange(0, taken@.len() as int) =~= taken@);
            let out = trimmed_chars(&taken, 0, taken.len());
            if out.len() == 0 {
                None
            } else {
                Some(out)
            }
        },
    }
}

/// A text has at least as many bytes as characters.
proof fn lemma_bytes_ge_chars(s: Seq<char>)
    ensures
        byte_len(s) >= s.len(),
    decreases s.len(),
{
    if s.len() > 0 {
        lemma_bytes_ge_chars(s.drop_last());
    }
}

/// The forward walk stops exactly at the window end.
proof fn lemma_forward_window(h: Seq<char>, idx: int, e: int, limit: int)
    requires
        0 <= idx <= e <= h.len(),
        forward_window_ok(h, idx, limit),
        byte_len(h.subrange(idx, e)) <= limit,
        e < h.len() ==> byte_len(h.subrange(idx, e + 1)) > limit,
    ensures
        e == forward_window_end(h, idx, limit),
{
    if byte_len(h.subrange(idx, h.len() as int)) <= limit {
        if e < h.len() {
            lemma_byte_len_split(h, idx, e + 1, h.len() as int);
        }
    } else {
        let e0 = choose|e0: int| idx <= e0 <= h.len() && byte_len(h.subrange(idx, e0)) == limit;
        if e < e0 {
            lemma_byte_len_split(h, idx, e + 1, e0);
        } else if e0 < e {
            lemma_byte_len_split(h, idx, e0, e);
            lemma_bytes_ge_chars(h.subrange(e0, e));
        } else {
        }
        if e == h.len() {
            assert(byte_len(h.subrange(idx, e)) <= limit);
        }
    }
}

/// The `content` attribute within 2000 bytes after the first `needle`.
pub fn extract_meta_content(h: &[char], needle: &[char]) -> (res: Option<Vec<char>>)
    requires
        meta_windows_ok(h@, needle@),
    ensures
        res matches Some(r) ==> meta_content(h@, needle@) == Some(r@),
        res is None ==> meta_content(h@, needle@) is None,
{
    match find_chars(h, 0, needle) {
        None => None,
        Some(idx) => {
            let e = forward_by_bytes(h, idx, 2000);
            proof {
                lemma_forward_window(h@, idx as int, e as int, 2000);
            }
            let slice = slice_chars(h, idx, e);
            let m = chars_of("content=\"");
            let q = chars_of("\"");
            match crate::full_result_parse::between_bounds_exec(&slice, &m, &q) {
                None => None,
                Some((a, b)) => Some(slice_chars(&slice, a, b)),
            }
        },
    }
}

/// Whether the 2000-byte window after the first `needle` ends between characters,
/// so that the description can be read from it.
pub fn meta_window_ok(h: &[char], needle: &[char]) -> (res: bool)
    ensures
        res == meta_windows_ok(h@, needle@),
{
    match find_chars(h, 0, needle) {
        None => true,
        Some(idx) => {
            let e = forward_by_bytes(h, idx, 2000);
            let b = crate::text::byte_len_range(h, idx, e);
            let ok = e == h.len() || b == 2000;
            proof {
                let hs = h@;
                let i = idx as int;
                let ei = e as int;
                if e < h.len() {
                    lemma_byte_len_split(hs, i, ei + 1, hs.len() as int);
                    if b != 2000 {
                        assert forall|e2: int| i <= e2 <= hs.len() implies byte_len(hs.subrange(i, e2)) != 2000 by {
                            if e2 <= ei {
                                lemma_byte_len_split(hs, i, e2, ei);
                            } else {
                                lemma_byte_len_split(hs, i, ei + 1, e2);
                            }
                        }
                    }
                } else {
                    assert(hs.subrange(i, ei) == hs.subrange(i, hs.len() as int));
                }
            }
            ok
        },
    }
}

/// The race facts in the page description: its first `HH:MM` time and the course
/// that follows it.
pub fn extract_race_meta_from_html(html: &[char]) -> (res: RaceMeta)
    requires
        meta_windows_ok(html@, "name=\"description\""@),
    ensures
        res@ == meta_from_html(html@),
{
    let mut meta = RaceMeta { course: None, time: None, race_name: None, going: None };
    let needle = chars_of("name=\"description\"");
    if let Some(desc) = extract_meta_content(html, &needle) {
        let t = find_first_time_hh_mm(&desc);
        match t {
            Some(tv) => {
                let c = course_after_time(&desc, &tv);
                meta.time = Some(string_of(&tv, 0, tv.len()));
                assert(tv@.subrange(0, tv@.len() as int) =~= tv@);
                match c {
                    Some(cv) => {
                        assert(cv@.subrange(0, cv@.len() as int) =~= cv@);
                        meta.course = Some(string_of(&cv, 0, cv.len()));
                    },
                    None => {},
                }
            },
            None => {},
        }
    }
    meta
}

/// The end of the run of digits from `i`.
pub(crate) fn digits_end_exec(s: &[char], i: usize) -> (res: usize)
    requires
        i <= s@.len(),
    ensures
        res == digits_end(s@, i as int),
        i <= res <= s@.len(),
{
    let mut j = i;
    while j < s.len() && is_digit_exec(s[j])
        invariant
            i <= j <= s@.len(),
            digits_end(s@, i as int) == digits_end(s@, j as int),
        decreases s@.len() - j,
    {
        j = j + 1;
    }
    j
}

/// An age of one or two digits followed by `yo`, such as `5yo`.
pub fn find_age_yo(s: &[char]) -> (res: Option<Vec<char>>)
    ensures
        res matches Some(r) ==> age_yo(s@) == Some(r@),
        res is None ==> age_yo(s@) is None,
{
    let mut i: usize = 0;
    while i < s.len()
        invariant
            i <= s@.len(),
            age_from(s@, 0) == age_from(s@, i as int),
        decreases s@.len() - i,
    {
        if !is_digit_exec(s[i]) {
            i = i + 1;
        } else {
            let start = i;
            i = i + 1;
            if i < s.len() && is_digit_exec(s[i]) {
                i = i + 1;
            }
            if s.len() > 1 && i < s.len() - 1 && s[i] == 'y' && s[i + 1] == 'o' {
                return Some(slice_chars(s, start, i));
            }
        }
    }
    None
}

/// The digits that end at `e`.
fn digits_ending_exec(s: &[char], e: usize) -> (res: Vec<char>)
    requires
        e <= s@.len(),
    ensures
        res@ == digits_ending(s@, e as int),
{
    let mut a = e;
    while a > 0 && is_digit_exec(s[a - 1])
        invariant
            a <= e <= s@.len(),
            digits_ending(s@, e as int) == digits_ending(s@, a as int) + s@.subrange(a as int, e as int),
        decreases a,
    {
        assert(s@.subrange(a - 1, e as int) =~= seq![s@[a - 1]] + s@.subrange(a as int, e as int));
        assert(digits_ending(s@, a as int) == digits_ending(s@, a - 1).push(s@[a - 1]));
        assert(digits_ending(s@, a - 1).push(s@[a - 1]) + s@.subrange(a as int, e as int) =~= digits_ending(s@, a - 1) + s@.subrange(a - 1, e as int));
        a = a - 1;
    }
    assert(digits_ending(s@, a as int) =~= Seq::<char>::empty());
    slice_chars(s, a, e)
}

/// The last run of digits in `s[..e]`.
fn last_digits_exec(s: &[char], e: usize) -> (res: Vec<char>)
    requires
        e <= s@.len(),
    ensures
        res@ == last_digits(s@.take(e as int)),
{
    let mut b = e;
    while b > 0 && !is_digit_exec(s[b - 1])
        invariant
            b <= e <= s@.len(),
            last_digits(s@.take(e as int)) == last_digits(s@.take(b as int)),
        decreases b,
    {
        assert(s@.take(b as int).drop_last() =~= s@.take(b - 1));
        b = b - 1;
    }
    let r = digits_ending_exec(s, b);
    proof {
        lemma_digits_ending_take(s@, b as int, b as int);
    }
    r
}

/// `digits_ending` only looks before its end.
proof fn lemma_digits_ending_take(s: Seq<char>, b: int, e: int)
    requires
        0 <= e <= b <= s.len(),
    ensures
        digits_ending(s.take(b), e) == digits_ending(s, e),
    decreases e,
{
    if 0 < e && is_digit(s[e - 1]) {
        lemma_digits_ending_take(s, b, e - 1);
    }
}

/// Stones and pounds around the first `st` and the `lb` after it.
pub fn parse_weight_st_lb_from_st_lb(s: &[char]) -> (res: Option<(Vec<char>, Vec<char>)>)
    ensures
        res matches Some((a, b)) ==> st_lb_of(s@) == Some((a@, b@)),
        res is None ==> st_lb_of(s@) is None,
{
    let st = chars_of("st");
    let lb = chars_of("lb");
    match find_chars(s, 0, &st) {
        None => None,
        Some(st_idx) => {
            let stn = last_digits_exec(s, st_idx);
            match find_chars(s, st_idx, &lb) {
                None => None,
                Some(lb_idx) => {
                    let part = slice_chars(s, st_idx, lb_idx);
                    let lbn = last_digits_exec(&part, part.len());
                    assert(part@.take(part@.len() as int) =~= part@);
                    if stn.len() == 0 || lbn.len() == 0 {
                        None
                    } else {
                        Some((stn, lbn))
                    }
                },
            }
        },
    }
}

/// `<st>st <lb>lb` as a string.
pub(crate) fn weight_string(st: &[char], lb: &[char]) -> (res: String)
    ensures
        res@ == weight_text(st@, lb@),
{
    let mut out = string_of(st, 0, st.len());
    assert(st@.subrange(0, st@.len() as int) =~= st@);
    push_str(&mut out, "st ");
    let l = string_of(lb, 0, lb.len());
    assert(lb@.subrange(0, lb@.len() as int) =~= lb@);
    push_str(&mut out, l.as_str());
    push_str(&mut out, "lb");
    assert(out@ =~= weight_text(st@, lb@));
    out
}

/// The first weight written as `<digits>...st <digits>...lb`, skipping `st` markers
/// without digits around them.
pub fn find_weight_st_lb(s: &[char]) -> (res: Option<String>)
    ensures
        res matches Some(r) ==> weight_st_lb_from(s@, 0) == Some(r@),
        res is None ==> weight_st_lb_from(s@, 0) is None,
{
    let st = chars_of("st");
    let lb = chars_of("lb");
    proof {
        reveal_strlit("st");
    }
    let mut from: usize = 0;
    loop
        invariant
            from <= s@.len(),
            st@ == "st"@,
            lb@ == "lb"@,
            st@.len() == 2,
            weight_st_lb_from(s@, 0) == weight_st_lb_from(s@, from as int),
        decreases s@.len() - from,
    {
        match find_chars(s, from, &st) {
            None => {
                return None;
            },
            Some(st_idx) => {
                let stn = last_digits_exec(s, st_idx);
                match find_chars(s, st_idx, &lb) {
                    None => {
                        return None;
                    },
                    Some(lb_idx) => {
                        let part = slice_chars(s, st_idx, lb_idx);
                        let lbn = last_digits_exec(&part, part.len());
                        assert(part@.take(part@.len() as int) =~= part@);
                        if stn.len() > 0 && lbn.len() > 0 {
                            return Some(weight_string(&stn, &lbn));
                        }
                        from = st_idx + 2;
                    },
                }
            },
        }
    }
}

/// Leading zeros removed, `0` when nothing is left.
fn strip_zeros_exec(s: &[char]) -> (res: Vec<char>)
    ensures
        res@ == strip_zeros(s@),
{
    let mut a: usize = 0;
    assert(s@.subrange(0, s@.len() as int) =~= s@);
    while a < s.len() && s[a] == '0'
        invariant
            a <= s@.len(),
            strip_leading_zeros(s@) == strip_leading_zeros(s@.subrange(a as int, s@.len() as int)),
        decreases s@.len() - a,
    {
        assert(s@.subrange(a as int, s@.len() as int).drop_first() =~= s@.subrange(
            a + 1,
            s@.len() as int,
        ));
        a = a + 1;
    }
    if a == s.len() {
        vec!['0']
    } else {
        slice_chars(s, a, s.len())
    }
}

/// A `<st>-<lb>` weight at `i`.
fn dash_at_exec(s: &[char], i: usize) -> (res: Option<(Vec<char>, Vec<char>)>)
    requires
        i < s@.len(),
    ensures
        res matches Some((a, b)) ==> dash_at(s@, i as int) == Some((a@, b@)),
        res is None ==> dash_at(s@, i as int) is None,
{
    if !is_digit_exec(s[i]) {
        return None;
    }
    let j = digits_end_exec(s, i);
    if j >= s.len() || s[j] != '-' {
        return None;
    }
    let k = digits_end_exec(s, j + 1);
    if k == j + 1 {
        return None;
    }
    if j - i <= 2 && k - (j + 1) <= 2 {
        let a = slice_chars(s, i, j);
        let b = slice_chars(s, j + 1, k);
        Some((strip_zeros_exec(&a), strip_zeros_exec(&b)))
    } else {
        None
    }
}

/// Whether more than three bytes follow position `i`.
fn more_than_three_bytes(s: &[char], i: usize) -> (res: bool)
    requires
        i <= s@.len(),
    ensures
        res == (byte_len(s@.subrange(i as int, s@.len() as int)) > 3),
{
    let e = forward_by_bytes(s, i, 3);
    proof {
        if e < s@.len() {
            lemma_byte_len_split(s@, i as int, e + 1, s@.len() as int);
        } else {
        }
    }
    e < s.len()
}

/// The first `<st>-<lb>` weight (each part one or two digits, leading zeros
/// dropped), tried at positions with more than three bytes after them.
pub fn parse_weight_st_lb_from_dash(s: &[char]) -> (res: Option<(Vec<char>, Vec<char>)>)
    ensures
        res matches Some((a, b)) ==> dash_from(s@, 0) == Some((a@, b@)),
        res is None ==> dash_from(s@, 0) is None,
{
    let mut i: usize = 0;
    while i < s.len() && more_than_three_bytes(s, i)
        invariant
            i <= s@.len(),
            dash_from(s@, 0) == dash_from(s@, i as int),
        decreases s@.len() - i,
    {
        match dash_at_exec(s, i) {
            Some(p) => {
                return Some(p);
            },
            None => {},
        }
        i = i + 1;
    }
    None
}

/// The first `<st>-<lb>` weight as a weight text.
pub fn find_weight_dash(s: &[char]) -> (res: Option<String>)
    ensures
        res matches Some(r) ==> dash_from(s@, 0) matches Some((a, b)) && r@ == weight_text(a, b),
        res is None ==> dash_from(s@, 0) is None,
{
    match parse_weight_st_lb_from_dash(s) {
        None => None,
        Some((a, b)) => Some(weight_string(&a, &b)),
    }
}

/// Stones and pounds of a weight text: from `st`/`lb` markers, else from `st-lb`.
pub fn parse_weight_to_st_lb(s: &[char]) -> (res: (Option<String>, Option<String>))
    ensures
        (opt_view(res.0), opt_view(res.1)) == weight_parts(s@),
{
    match parse_weight_st_lb_from_st_lb(s) {
        Some((a, b)) => {
            assert(a@.subrange(0, a@.len() as int) =~= a@);
            assert(b@.subrange(0, b@.len() as int) =~= b@);
            return (Some(string_of(&a, 0, a.len())), Some(string_of(&b, 0, b.len())));
        },
        None => {},
    }
    match parse_weight_st_lb_from_dash(s) {
        Some((a, b)) => {
            assert(a@.subrange(0, a@.len() as int) =~= a@);
            assert(b@.subrange(0, b@.len() as int) =~= b@);
            (Some(string_of(&a, 0, a.len())), Some(string_of(&b, 0, b.len())))
        },
        None => (None, None),
    }
}

/// The non-empty pieces of `s` split at `/`.
pub fn path_parts_exec(s: &[char]) -> (res: Vec<Vec<char>>)
    ensures
        crate::text::vecs_view(res@) == path_parts(s@),
{
    let pieces = crate::text::split_chars(s, '/');
    let ghost pv = crate::text::vecs_view(pieces@);
    let mut out: Vec<Vec<char>> = Vec::new();
    let mut i: usize = 0;
    while i < pieces.len()
        invariant
            i <= pieces@.len(),
            pv == crate::text::vecs_view(pieces@),
            crate::text::vecs_view(out@) == non_empty(pv.take(i as int)),
        decreases pieces@.len() - i,
    {
        assert(pv.take(i + 1).drop_last() =~= pv.take(i as int));
        assert(pv[i as int] == pieces@[i as int]@);
        if pieces[i].len() > 0 {
            let ghost before = crate::text::vecs_view(out@);
            out.push(slice_chars(&pieces[i], 0, pieces[i].len()));
            assert(pieces@[i as int]@.subrange(0, pieces@[i as int]@.len() as int) =~= pieces@[i as int]@);
            assert(crate::text::vecs_view(out@) =~= before + seq![pv[i as int]]);
        } else {
            assert(non_empty(pv.take(i + 1)) =~= non_empty(pv.take(i as int)));
        }
        i = i + 1;
    }
    assert(pv.take(pieces@.len() as int) =~= pv);
    out
}

/// The course slug of a racecard url: the second path part after `racecards`.
pub fn course_from_canonical_url(url: &[char]) -> (res: Option<String>)
    ensures
        res matches Some(r) ==> course_of_canonical(url@) == Some(r@),
        res is None ==> course_of_canonical(url@) is None,
{
    let b = crate::text::trim_end_char_chars(url, '/');
    let u = slice_chars(url, 0, b);
    let parts = path_parts_exec(&u);
    let ghost pv = crate::text::vecs_view(parts@);
    let rc = chars_of("racecards");
    let mut i: usize = 0;
    while i < parts.len()
        invariant
            i <= parts@.len(),
            pv == crate::text::vecs_view(parts@),
            pv == path_parts(crate::text::trim_end_char(url@, '/')),
            rc@ == "racecards"@,
            index_of(pv.take(i as int), rc@) is None,
        decreases parts@.len() - i,
    {
        assert(pv.take(i + 1).drop_last() =~= pv.take(i as int));
        assert(pv[i as int] == parts@[i as int]@);
        if crate::text::chars_eq(&parts[i], &rc) {
            assert(index_of(pv.take(i + 1), rc@) == Some(i as int));
            proof {
                lemma_index_of_prefix(pv, rc@, i as int);
            }
            if parts.len() > 2 && i < parts.len() - 2 {
                let p = &parts[i + 2];
                assert(pv[i + 2] == p@);
                assert(p@.subrange(0, p@.len() as int) =~= p@);
                return Some(string_of(p, 0, p.len()));
            } else {
                return None;
            }
        }
        i = i + 1;
    }
    assert(pv.take(parts@.len() as int) =~= pv);
    None
}

/// The first index found in a prefix is the first index in the whole.
proof fn lemma_index_of_prefix(ps: Seq<Seq<char>>, x: Seq<char>, i: int)
    requires
        0 <= i < ps.len(),
        index_of(ps.take(i + 1), x) == Some(i),
    ensures
        index_of(ps, x) == Some(i),
    decreases ps.len(),
{
    if ps.len() > i + 1 {
        assert(ps.drop_last().take(i + 1) =~= ps.take(i + 1));
        lemma_index_of_prefix(ps.drop_last(), x, i);
    } else {
        assert(ps.take(i + 1) =~= ps);
    }
}

/// The race name in the page title, without ` Racecard`.
pub fn extract_race_name_from_title(html: &[char]) -> (res: Option<String>)
    ensures
        res matches Some(r) ==> race_name_from_title(html@) == Some(r@),
        res is None ==> race_name_from_title(html@) is None,
{
    let open = chars_of("<title");
    let close = chars_of("</title>");
    let title = match find_chars(html, 0, &open) {
        None => {
            return None;
        },
        Some(st) => match find_chars(html, st, &close) {
            None => {
                return None;
            },
            Some(e) => slice_chars(html, st, e),
        },
    };
    let gt = chars_of(">");
    match raw_text_after_chars(&title, &gt) {
        None => None,
        Some(text) => {
            let t = trimmed_chars(&text, 0, text.len());
            assert(text@.subrange(0, text@.len() as int) =~= text@);
            if t.len() == 0 {
                None
            } else {
                let rc = chars_of(" Racecard");
                let empty: Vec<char> = Vec::new();
                let r = replace_chars(&t, &rc, &empty);
                assert(empty@ =~= Seq::<char>::empty());
                let out = trimmed_chars(&r, 0, r.len());
                assert(r@.subrange(0, r@.len() as int) =~= r@);
                Some(string_of(&out, 0, out.len()))
            }
        },
    }
}

/// The first non-blank element text after one of the test ids, tried in order.
pub fn extract_first_testid_text(s: &[char], testids: &[&str]) -> (res: Option<Vec<char>>)
    ensures
        res matches Some(r) ==> first_testid(s@, strs_view(testids@)) == Some(r@),
        res is None ==> first_testid(s@, strs_view(testids@)) is None,
{
    let ghost ids = strs_view(testids@);
    assert(ids.skip(0) =~= ids);
    let mut i: usize = 0;
    while i < testids.len()
        invariant
            i <= testids@.len(),
            ids == strs_view(testids@),
            first_testid(s@, ids) == first_testid(s@, ids.skip(i as int)),
        decreases testids@.len() - i,
    {
        let mut needle = String::from_str("data-testid=\"");
        push_str(&mut needle, testids[i]);
        push_str(&mut needle, "\"");
        let n = chars_of(needle.as_str());
        assert(ids.skip(i as int)[0] == testids@[i as int]@);
        assert(n@ =~= testid_needle(ids.skip(i as int)[0]));
        assert(ids.skip(i as int).drop_first() =~= ids.skip(i + 1));
        match raw_text_after_chars(s, &n) {
            Some(v) => {
                let t = trimmed_chars(&v, 0, v.len());
                assert(v@.subrange(0, v@.len() as int) =~= v@);
                if t.len() > 0 {
                    return Some(t);
                }
            },
            None => {},
        }
        i = i + 1;
    }
    assert(ids.skip(i as int) =~= Seq::<Seq<char>>::empty());
    None
}

/// The text of a link after `needle` in a block.
fn link_text_exec(block: &[char], needle: &str) -> (res: Option<String>)
    ensures
        opt_view(res) == link_text(block@, needle@),
{
    let n = chars_of(needle);
    match raw_text_after_chars(block, &n) {
        None => None,
        Some(t) => {
            let r = trimmed_chars(&t, 0, t.len());
            assert(t@.subrange(0, t@.len() as int) =~= t@);
            assert(r@.subrange(0, r@.len() as int) =~= r@);
            Some(string_of(&r, 0, r.len()))
        },
    }
}

/// A vector of characters as an optional string.
fn opt_string(v: Option<Vec<char>>) -> (res: Option<String>)
    ensures
        opt_view(res) == match v {
            Some(x) => Some(x@),
            None => None,
        },
{
    match v {
        None => None,
        Some(x) => {
            assert(x@.subrange(0, x@.len() as int) =~= x@);
            Some(string_of(&x, 0, x.len()))
        },
    }
}

/// The weight text of a runner block.
fn block_weight_exec(block: &[char]) -> (res: Option<String>)
    ensures
        opt_view(res) == block_weight(block@),
{
    let ids: [&str; 4] = ["Text__Weight", "Text__Wgt", "Text__HorseWeight", "Text__WeightValue"];
    let found = extract_first_testid_text(block, &ids);
    assert(strs_view(ids@) =~= seq!["Text__Weight"@, "Text__Wgt"@, "Text__HorseWeight"@, "Text__WeightValue"@]);
    match found {
        Some(t) => opt_string(Some(t)),
        None => match find_weight_st_lb(block) {
            Some(t) => Some(t),
            None => find_weight_dash(block),
        },
    }
}

/// The runner of a horse-link block, when it names a horse.
fn runner_of_block_exec(block: &[char]) -> (res: Option<RunnerRec>)
    ensures
        match res {
            Some(r) => runner_of_block(block@) == Some(r@),
            None => runner_of_block(block@) is None,
        },
{
    let horse = link_text_exec(block, "data-testid=\"Link__Horse\"");
    let jockey = link_text_exec(block, "data-testid=\"Link__Jockey\"");
    let trainer = link_text_exec(block, "data-testid=\"Link__Trainer\"");
    let age_ids: [&str; 2] = ["Text__Age", "Text__HorseAge"];
    let age_found = extract_first_testid_text(block, &age_ids);
    assert(strs_view(age_ids@) =~= seq!["Text__Age"@, "Text__HorseAge"@]);
    let age = match age_found {
        Some(a) => opt_string(Some(a)),
        None => opt_string(find_age_yo(block)),
    };
    let weight = block_weight_exec(block);
    let (st, lb) = match &weight {
        Some(t) => {
            let tc = chars_of(t.as_str());
            parse_weight_to_st_lb(&tc)
        },
        None => (None, None),
    };
    let has_horse = match &horse {
        Some(h) => !h.as_str().is_empty(),
        None => false,
    };
    if !has_horse {
        return None;
    }
    Some(RunnerRec { horse, jockey, trainer, age, weight, weight_st: st, weight_lb: lb })
}

/// The runners read from the horse-link blocks of a racecard page, in page order;
/// a block without a horse name gives no runner.
pub fn extract_runners_from_html(html: &[char]) -> (res: Vec<RunnerRec>)
    ensures
        runners_view(res@) == html_runners(html@),
{
    let marker = chars_of("data-testid=\"Link__Horse\"");
    let mut out: Vec<RunnerRec> = Vec::new();
    let mut start: usize = 0;
    loop
        invariant
            start <= html@.len(),
            marker@ == horse_marker(),
            runners_view(out@) + html_runners_from(html@, start as int) == html_runners(html@),
        decreases html@.len() - start,
    {
        let idx = match find_chars(html, start, &marker) {
            None => {
                assert(html_runners_from(html@, start as int) =~= Seq::<RunnerView>::empty());
                assert(runners_view(out@) =~= html_runners(html@));
                return out;
            },
            Some(idx) => idx,
        };
        proof {
            lemma_block_advances(html@, start as int, idx as int);
        }
        let next = match find_chars(html, idx + marker.len(), &marker) {
            Some(n) => n,
            None => html.len(),
        };
        let block = slice_chars(html, idx, next);
        let ghost rest = html_runners_from(html@, next as int);
        match runner_of_block_exec(&block) {
            Some(r) => {
                let ghost before = runners_view(out@);
                let ghost rv = r@;
                out.push(r);
                assert(runners_view(out@) =~= before.push(rv));
                assert(before.push(rv) + rest =~= before + (seq![rv] + rest));
            },
            None => {},
        }
        start = next;
    }
}

/// The text of an optional field, or the empty text.
pub open spec fn or_empty(o: Option<Seq<char>>) -> Seq<char> {
    match o {
        Some(s) => s,
        None => Seq::empty(),
    }
}

/// One runner of a race as a JSON line.
pub open spec fn runner_line(m: MetaView, r: RunnerView) -> Seq<char> {
    "{\"course\":\""@ + json_escaped(or_empty(m.course)) + "\",\"time\":\""@ + json_escaped(
        or_empty(m.time),
    ) + "\",\"race_name\":\""@ + json_escaped(or_empty(m.race_name)) + "\",\"going\":\""@
        + json_escaped(or_empty(m.going)) + "\",\"horse\":\""@ + json_escaped(or_empty(r.horse))
        + "\",\"jockey\":\""@ + json_escaped(or_empty(r.jockey)) + "\",\"trainer\":\""@
        + json_escaped(or_empty(r.trainer)) + "\",\"age\":\""@ + json_escaped(or_empty(r.age))
        + "\",\"weight\":\""@ + json_escaped(or_empty(r.weight)) + "\",\"weight_st\":\""@
        + json_escaped(or_empty(r.weight_st)) + "\",\"weight_lb\":\""@ + json_escaped(
        or_empty(r.weight_lb),
    ) + "\"}"@
}

// ---------------------------------------------------------------------------
// A line read back as a JSON object
// ---------------------------------------------------------------------------

/// Reads the members of a JSON object whose values are all strings, from `i` (the
/// opening quote of a member's name) through the object's closing `}`, which must
/// end the text: each member's name and value, as a JSON reader reads them, in
/// order.
pub open spec fn read_string_members(q: Seq<char>, i: int) -> Option<Seq<(Seq<char>, Seq<char>)>>
    decreases q.len() - i,
{
    if !(0 <= i < q.len() && q[i] == '"') {
        None
    } else {
        match read_string_then(q, i + 1, seq!['"', ':', '"']) {
            None => None,
            Some((key, p)) => match read_string_then(q, p, seq!['"']) {
                None => None,
                Some((value, e)) => if !(i < e < q.len()) {
                    None
                } else if q[e] == '}' && e + 1 == q.len() {
                    Some(seq![(key, value)])
                } else if q[e] == ',' {
                    match read_string_members(q, e + 1) {
                        None => None,
                        Some(rest) => Some(seq![(key, value)] + rest),
                    }
                } else {
                    None
                },
            },
        }
    }
}

/// Reads a whole text as a JSON object whose values are all strings: the names and
/// values of its members, in order; `None` when the text is not such an object.
pub open spec fn read_string_object(q: Seq<char>) -> Option<Seq<(Seq<char>, Seq<char>)>> {
    if q.len() == 2 && q[0] == '{' && q[1] == '}' {
        Some(Seq::empty())
    } else if q.len() > 0 && q[0] == '{' {
        read_string_members(q, 1)
    } else {
        None
    }
}

/// The members of a runner's line: the race's course, time, race name and going,
/// then the runner's horse, jockey, trainer, age, weight, stones and pounds, each
/// under its own name and empty when absent.
pub open spec fn line_members(m: MetaView, r: RunnerView) -> Seq<(Seq<char>, Seq<char>)> {
    seq![
        ("course"@, or_empty(m.course)),
        ("time"@, or_empty(m.time)),
        ("race_name"@, or_empty(m.race_name)),
        ("going"@, or_empty(m.going)),
        ("horse"@, or_empty(r.horse)),
        ("jockey"@, or_empty(r.jockey)),
        ("trainer"@, or_empty(r.trainer)),
        ("age"@, or_empty(r.age)),
        ("weight"@, or_empty(r.weight)),
        ("weight_st"@, or_empty(r.weight_st)),
        ("weight_lb"@, or_empty(r.weight_lb)),
    ]
}

/// The names of a line's members, in order.
spec fn line_keys() -> Seq<Seq<char>> {
    seq![
        "course"@,
        "time"@,
        "race_name"@,
        "going"@,
        "horse"@,
        "jockey"@,
        "trainer"@,
        "age"@,
        "weight"@,
        "weight_st"@,
        "weight_lb"@,
    ]
}

/// The values of a line's members, in order.
spec fn line_values(m: MetaView, r: RunnerView) -> Seq<Seq<char>> {
    seq![
        or_empty(m.course),
        or_empty(m.time),
        or_empty(m.race_name),
        or_empty(m.going),
        or_empty(r.horse),
        or_empty(r.jockey),
        or_empty(r.trainer),
        or_empty(r.age),
        or_empty(r.weight),
        or_empty(r.weight_st),
        or_empty(r.weight_lb),
    ]
}

/// The texts of a line around its values.
spec fn line_lits() -> Seq<Seq<char>> {
    seq![
        "{\"course\":\""@,
        "\",\"time\":\""@,
        "\",\"race_name\":\""@,
        "\",\"going\":\""@,
        "\",\"horse\":\""@,
        "\",\"jockey\":\""@,
        "\",\"trainer\":\""@,
        "\",\"age\":\""@,
        "\",\"weight\":\""@,
        "\",\"weight_st\":\""@,
        "\",\"weight_lb\":\""@,
        "\"}"@,
    ]
}

/// A text that JSON escaping leaves as it is.
pub open spec fn plain_text(s: Seq<char>) -> bool {
    forall|j: int| 0 <= j < s.len() ==> escape_char(#[trigger] s[j]) == seq![s[j]]
}

/// Escaping a plain text gives it back.
proof fn lemma_plain_escaped(s: Seq<char>)
    requires
        plain_text(s),
    ensures
        json_escaped(s) == s,
    decreases s.len(),
{
    if s.len() > 0 {
        let d = s.drop_last();
        assert forall|j: int| 0 <= j < d.len() implies escape_char(#[trigger] d[j]) == seq![d[j]] by {
            assert(d[j] == s[j]);
        }
        lemma_plain_escaped(d);
        assert(escape_char(s[s.len() - 1]) == seq![s[s.len() - 1]]);
        assert(d.push(s.last()) =~= s);
    }
}

/// The members `k..` written out: each name and escaped value in quotes, joined by
/// `,`, the last followed by `}`.
spec fn member_texts(keys: Seq<Seq<char>>, vals: Seq<Seq<char>>, k: int) -> Seq<char>
    decreases keys.len() - k,
{
    if k < 0 || k >= keys.len() {
        Seq::empty()
    } else {
        seq!['"'] + keys[k] + seq!['"', ':', '"'] + json_escaped(vals[k]) + seq!['"'] + (if k + 1
            == keys.len() {
            seq!['}']
        } else {
            seq![',']
        }) + member_texts(keys, vals, k + 1)
    }
}

/// The names paired with the values.
pub open spec fn paired(keys: Seq<Seq<char>>, vals: Seq<Seq<char>>) -> Seq<(Seq<char>, Seq<char>)> {
    Seq::new(keys.len(), |j: int| (keys[j], vals[j]))
}

/// One member read: its name, then its value, then the `}` that ends the text or a
/// `,` before the next member.
proof fn lemma_members_step(q: Seq<char>, i: int, key: Seq<char>, p: int, val: Seq<char>, e: int)
    requires
        0 <= i < q.len(),
        q[i] == '"',
        read_string_then(q, i + 1, seq!['"', ':', '"']) == Some((key, p)),
        read_string_then(q, p, seq!['"']) == Some((val, e)),
        i < e < q.len(),
    ensures
        q[e] == '}' && e + 1 == q.len() ==> read_string_members(q, i) == Some(seq![(key, val)]),
        q[e] == ',' ==> read_string_members(q, i) == match read_string_members(q, e + 1) {
            None => None,
            Some(rest) => Some(seq![(key, val)] + rest),
        },
{
}

/// Members written out read back as their names and values.
#[verifier::spinoff_prover]
proof fn lemma_read_members(pre: Seq<char>, keys: Seq<Seq<char>>, vals: Seq<Seq<char>>, k: int)
    requires
        keys.len() == vals.len(),
        0 <= k < keys.len(),
        forall|j: int| 0 <= j < keys.len() ==> plain_text(#[trigger] keys[j]),
    ensures
        read_string_members(pre + member_texts(keys, vals, k), pre.len() as int) == Some(
            paired(keys, vals).subrange(k, keys.len() as int),
        ),
    decreases keys.len() - k,
{
    let n = keys.len() as int;
    let key = keys[k];
    let val = vals[k];
    let sep: Seq<char> = if k + 1 == n {
        seq!['}']
    } else {
        seq![',']
    };
    let rest = member_texts(keys, vals, k + 1);
    let q = pre + member_texts(keys, vals, k);
    let i = pre.len() as int;
    let colon = seq!['"', ':', '"'];
    let quote = seq!['"'];
    let p1 = pre + quote;
    let p2 = p1 + key + colon;
    let p3 = p2 + json_escaped(val) + quote + sep;
    let e = (p2.len() + json_escaped(val).len()) as int + 1;
    assert(member_texts(keys, vals, k) == quote + key + colon + json_escaped(val) + quote + sep + rest);
    assert(q =~= p3 + rest);
    assert(read_string_then(q, i + 1, colon) == Some((key, p2.len() as int))) by {
        lemma_plain_escaped(key);
        assert(q =~= p1 + json_escaped(key) + colon + (json_escaped(val) + quote + sep + rest));
        lemma_read_string_then(p1, key, colon, json_escaped(val) + quote + sep + rest);
    }
    assert(read_string_then(q, p2.len() as int, quote) == Some((val, e))) by {
        assert(q =~= p2 + json_escaped(val) + quote + (sep + rest));
        lemma_read_string_then(p2, val, quote, sep + rest);
    }
    assert(q[i] == '"') by {
        assert(q[i] == p1[i]);
    }
    assert(q[e] == sep[0]) by {
        assert(q[e] == p3[e]);
    }
    assert(i < e < q.len());
    lemma_members_step(q, i, key, p2.len() as int, val, e);
    if k + 1 == n {
        assert(rest == Seq::<char>::empty());
        assert(q.len() == e + 1);
        assert(paired(keys, vals).subrange(k, n) =~= seq![(key, val)]);
    } else {
        assert(read_string_members(q, e + 1) == Some(paired(keys, vals).subrange(k + 1, n))) by {
            lemma_read_members(p3, keys, vals, k + 1);
        }
        assert(paired(keys, vals).subrange(k, n) =~= seq![(key, val)] + paired(keys, vals).subrange(
            k + 1,
            n,
        ));
    }
}

/// The layout of values between texts that each hold the next member's name is
/// the members written out.
proof fn lemma_members_as_fields(keys: Seq<Seq<char>>, vals: Seq<Seq<char>>, lits: Seq<Seq<char>>, k: int)
    requires
        keys.len() == vals.len(),
        lits.len() == keys.len() + 1,
        0 <= k < keys.len(),
        forall|j: int|
            1 <= j < keys.len() ==> #[trigger] lits[j] == seq!['"', ','] + seq!['"'] + keys[j] + seq![
                '"',
                ':',
                '"',
            ],
        lits[keys.len() as int] == seq!['"', '}'],
    ensures
        seq!['"'] + keys[k] + seq!['"', ':', '"'] + fields_text(vals, lits, k) == member_texts(
            keys,
            vals,
            k,
        ),
    decreases keys.len() - k,
{
    let n = keys.len() as int;
    let head = seq!['"'] + keys[k] + seq!['"', ':', '"'];
    assert(fields_text(vals, lits, k) == json_escaped(vals[k]) + lits[k + 1] + fields_text(vals, lits, k + 1));
    if k + 1 == n {
        assert(fields_text(vals, lits, k + 1) == Seq::<char>::empty());
        assert(member_texts(keys, vals, k + 1) == Seq::<char>::empty());
        assert(head + fields_text(vals, lits, k) =~= member_texts(keys, vals, k));
    } else {
        lemma_members_as_fields(keys, vals, lits, k + 1);
        let next = seq!['"'] + keys[k + 1] + seq!['"', ':', '"'];
        assert(lits[k + 1] == seq!['"', ','] + next);
        assert(head + fields_text(vals, lits, k) =~= head + json_escaped(vals[k]) + seq!['"', ',']
            + (next + fields_text(vals, lits, k + 1)));
        assert(head + fields_text(vals, lits, k) =~= member_texts(keys, vals, k));
    }
}

/// A layout of string values between texts that hold the members' names (`{"` name
/// `":"` first, `","` name `":"` between two values, `"}` last) reads, as a JSON
/// object, as those names paired with those values.
pub proof fn lemma_layout_reads_as_object(keys: Seq<Seq<char>>, vals: Seq<Seq<char>>, lits: Seq<Seq<char>>)
    requires
        keys.len() == vals.len(),
        keys.len() > 0,
        lits.len() == keys.len() + 1,
        lits[0] == seq!['{'] + (seq!['"'] + keys[0] + seq!['"', ':', '"']),
        forall|j: int|
            1 <= j < keys.len() ==> #[trigger] lits[j] == seq!['"', ','] + seq!['"'] + keys[j] + seq![
                '"',
                ':',
                '"',
            ],
        lits[keys.len() as int] == seq!['"', '}'],
        forall|j: int| 0 <= j < keys.len() ==> plain_text(#[trigger] keys[j]),
    ensures
        read_string_object(lits[0] + fields_text(vals, lits, 0)) == Some(paired(keys, vals)),
{
    lemma_members_as_fields(keys, vals, lits, 0);
    let body = member_texts(keys, vals, 0);
    let q = lits[0] + fields_text(vals, lits, 0);
    assert(q =~= seq!['{'] + body);
    lemma_read_members(seq!['{'], keys, vals, 0);
    assert(paired(keys, vals).subrange(0, keys.len() as int) =~= paired(keys, vals));
    assert(body.len() > 0);
    assert(q[0] == '{');
    assert(q.len() > 2) by {
        assert(body == seq!['"'] + keys[0] + seq!['"', ':', '"'] + json_escaped(vals[0]) + seq!['"'] + (
        if 1 == keys.len() {
            seq!['}']
        } else {
            seq![',']
        }) + member_texts(keys, vals, 1));
    }
}

/// A runner's line is its first text followed by the layout of its values.
#[verifier::spinoff_prover]
proof fn lemma_runner_line_layout(m: MetaView, r: RunnerView)
    ensures
        runner_line(m, r) == line_lits()[0] + fields_text(line_values(m, r), line_lits(), 0),
{
    let f = line_values(m, r);
    let l = line_lits();
    let p1 = l[0] + json_escaped(f[0]) + l[1];
    let p2 = p1 + json_escaped(f[1]) + l[2];
    let p3 = p2 + json_escaped(f[2]) + l[3];
    let p4 = p3 + json_escaped(f[3]) + l[4];
    let p5 = p4 + json_escaped(f[4]) + l[5];
    let p6 = p5 + json_escaped(f[5]) + l[6];
    let p7 = p6 + json_escaped(f[6]) + l[7];
    let p8 = p7 + json_escaped(f[7]) + l[8];
    let p9 = p8 + json_escaped(f[8]) + l[9];
    let p10 = p9 + json_escaped(f[9]) + l[10];
    let p11 = p10 + json_escaped(f[10]) + l[11];
    lemma_layout_step(l[0], f, l, 0);
    lemma_layout_step(p1, f, l, 1);
    lemma_layout_step(p2, f, l, 2);
    lemma_layout_step(p3, f, l, 3);
    lemma_layout_step(p4, f, l, 4);
    lemma_layout_step(p5, f, l, 5);
    lemma_layout_step(p6, f, l, 6);
    lemma_layout_step(p7, f, l, 7);
    lemma_layout_step(p8, f, l, 8);
    lemma_layout_step(p9, f, l, 9);
    lemma_layout_step(p10, f, l, 10);
    assert(fields_text(f, l, 11) == Seq::<char>::empty());
    assert(p11 + Seq::<char>::empty() =~= p11);
    assert(runner_line(m, r) == p11);
}

/// Each text of a line holds the next member's name.
proof fn lemma_line_lits()
    ensures
        line_lits().len() == 12,
        line_keys().len() == 11,
        line_lits()[0] == seq!['{'] + (seq!['"'] + line_keys()[0] + seq!['"', ':', '"']),
        forall|j: int|
            1 <= j < 11 ==> #[trigger] line_lits()[j] == seq!['"', ','] + seq!['"'] + line_keys()[j]
                + seq!['"', ':', '"'],
        line_lits()[11] == seq!['"', '}'],
        forall|j: int| 0 <= j < 11 ==> plain_text(#[trigger] line_keys()[j]),
{
    reveal_strlit("{\"course\":\"");
    reveal_strlit("\",\"time\":\"");
    reveal_strlit("\",\"race_name\":\"");
    reveal_strlit("\",\"going\":\"");
    reveal_strlit("\",\"horse\":\"");
    reveal_strlit("\",\"jockey\":\"");
    reveal_strlit("\",\"trainer\":\"");
    reveal_strlit("\",\"age\":\"");
    reveal_strlit("\",\"weight\":\"");
    reveal_strlit("\",\"weight_st\":\"");
    reveal_strlit("\",\"weight_lb\":\"");
    reveal_strlit("\"}");
    reveal_strlit("course");
    reveal_strlit("time");
    reveal_strlit("race_name");
    reveal_strlit("going");
    reveal_strlit("horse");
    reveal_strlit("jockey");
    reveal_strlit("trainer");
    reveal_strlit("age");
    reveal_strlit("weight");
    reveal_strlit("weight_st");
    reveal_strlit("weight_lb");
    let l = line_lits();
    let k = line_keys();
    let q = seq!['"'];
    let c = seq!['"', ':', '"'];
    let s = seq!['"', ','];
    assert(l[0] =~= seq!['{'] + (q + k[0] + c));
    assert(l[1] =~= s + q + k[1] + c);
    assert(l[2] =~= s + q + k[2] + c);
    assert(l[3] =~= s + q + k[3] + c);
    assert(l[4] =~= s + q + k[4] + c);
    assert(l[5] =~= s + q + k[5] + c);
    assert(l[6] =~= s + q + k[6] + c);
    assert(l[7] =~= s + q + k[7] + c);
    assert(l[8] =~= s + q + k[8] + c);
    assert(l[9] =~= s + q + k[9] + c);
    assert(l[10] =~= s + q + k[10] + c);
    assert(l[11] =~= seq!['"', '}']);
    assert forall|j: int| 0 <= j < 11 implies plain_text(#[trigger] line_keys()[j]) by {
        let w = line_keys()[j];
        assert forall|i: int| 0 <= i < w.len() implies escape_char(#[trigger] w[i]) == seq![w[i]] by {
            assert('a' <= w[i] <= 'z' || w[i] == '_');
        }
    }
}

/// Read as a JSON object, a runner's line gives eleven string members in order:
/// `course`, `time`, `race_name` and `going` holding the race's facts, then
/// `horse`, `jockey`, `trainer`, `age`, `weight`, `weight_st` and `weight_lb`
/// holding the runner's fields; each holds exactly the field of its name (the
/// empty text when absent), whatever characters it contains.
#[verifier::spinoff_prover]
pub proof fn lemma_runner_line_reads_back(m: MetaView, r: RunnerView)
    ensures
        read_string_object(runner_line(m, r)) == Some(line_members(m, r)),
{
    let keys = line_keys();
    let vals = line_values(m, r);
    let lits = line_lits();
    lemma_line_lits();
    lemma_runner_line_layout(m, r);
    lemma_layout_reads_as_object(keys, vals, lits);
    assert(paired(keys, vals) =~= line_members(m, r));
}

/// Appends `lit` and the escaped text of an optional field.
fn push_opt_field(out: &mut String, lit: &str, v: &Option<String>)
    ensures
        final(out)@ == old(out)@ + lit@ + json_escaped(or_empty(opt_view(*v))),
{
    push_str(out, lit);
    match v {
        Some(s) => {
            let c = chars_of(s.as_str());
            crate::full_result_parse::push_json_escaped(out, &c);
        },
        None => {
            assert(json_escaped(Seq::<char>::empty()) =~= Seq::<char>::empty());
            assert(out@ =~= out@ + json_escaped(Seq::<char>::empty()));
        },
    }
}

/// One runner of a race as a JSON line.
fn runner_line_exec(meta: &RaceMeta, r: &RunnerRec) -> (res: String)
    ensures
        res@ == runner_line(meta@, r@),
{
    let mut out = String::new();
    push_opt_field(&mut out, "{\"course\":\"", &meta.course);
    push_opt_field(&mut out, "\",\"time\":\"", &meta.time);
    push_opt_field(&mut out, "\",\"race_name\":\"", &meta.race_name);
    push_opt_field(&mut out, "\",\"going\":\"", &meta.going);
    push_opt_field(&mut out, "\",\"horse\":\"", &r.horse);
    push_opt_field(&mut out, "\",\"jockey\":\"", &r.jockey);
    push_opt_field(&mut out, "\",\"trainer\":\"", &r.trainer);
    push_opt_field(&mut out, "\",\"age\":\"", &r.age);
    push_opt_field(&mut out, "\",\"weight\":\"", &r.weight);
    push_opt_field(&mut out, "\",\"weight_st\":\"", &r.weight_st);
    push_opt_field(&mut out, "\",\"weight_lb\":\"", &r.weight_lb);
    push_str(&mut out, "\"}");
    assert(out@ =~= runner_line(meta@, r@));
    out
}

/// The runners of a race as JSON lines, one per runner, each with the race facts.
pub fn build_lines(meta: RaceMeta, runners: Vec<RunnerRec>) -> (res: Vec<String>)
    ensures
        res.deep_view() == runners_view(runners@).map_values(|r: RunnerView| runner_line(meta@, r)),
        res@.len() == runners@.len(),
        forall|i: int|
            0 <= i < res@.len() ==> read_string_object(#[trigger] res@[i]@) == Some(
                line_members(meta@, runners@[i]@),
            ),
{
    let mut out: Vec<String> = Vec::new();
    let mut i: usize = 0;
    while i < runners.len()
        invariant
            i <= runners@.len(),
            out.deep_view() == runners_view(runners@).take(i as int).map_values(
                |r: RunnerView| runner_line(meta@, r),
            ),
        decreases runners@.len() - i,
    {
        let line = runner_line_exec(&meta, &runners[i]);
        let ghost before = out.deep_view();
        out.push(line);
        assert(out.deep_view() =~= before.push(line@));
        assert(runners_view(runners@).take(i + 1).map_values(|r: RunnerView| runner_line(meta@, r))
            =~= runners_view(runners@).take(i as int).map_values(
            |r: RunnerView| runner_line(meta@, r),
        ).push(runner_line(meta@, runners@[i as int]@)));
        i = i + 1;
    }
    assert(runners_view(runners@).take(runners@.len() as int) =~= runners_view(runners@));
    proof {
        assert forall|i: int| 0 <= i < out@.len() implies read_string_object(#[trigger] out@[i]@)
            == Some(line_members(meta@, runners@[i]@)) by {
            assert(out@[i]@ == out.deep_view()[i]);
            assert(runners_view(runners@)[i] == runners@[i]@);
            lemma_runner_line_reads_back(meta@, runners@[i]@);
        }
    }
    out
}

} // verus!
