//! One racecard page read whole: from its Next.js data when that names runners,
//! with weights the data lacks taken from the rendered page, else from the page.
use vstd::prelude::*;
use crate::text::{trim, chars_of, trimmed_string};
use crate::racecard::{
    opt_view, RaceMeta, RunnerRec, RunnerView, MetaView, runners_view, clone_opt,
    next_data_of, canonical_of, course_of_canonical, meta_from_html, meta_windows_ok,
    race_name_from_title, html_runners, extract_next_data_json, extract_canonical_racecard_url,
    course_from_canonical_url, extract_race_meta_from_html, extract_race_name_from_title,
    extract_runners_from_html, meta_window_ok, or_empty,
};
use crate::json::{
    JsonValue, json_text_value, meta_in, runners_in, extract_race_meta, extract_runners,
    parse_json_text,
};

verus! {

/// Why a racecard page gives no race.
pub enum RacecardError {
    /// Neither the data nor the page names a runner.
    NoRunners,
}

impl RacecardError {
    /// The message of the error.
    pub fn message(&self) -> (res: &'static str)
        ensures
            res@ == "no runners found"@,
    {
        "no runners found"
    }
}

/// A race: its facts and its runners.
pub type Race = (RaceMeta, Vec<RunnerRec>);

/// A race as texts.
pub type RaceView = (MetaView, Seq<RunnerView>);

/// The texts of a parse result.
pub open spec fn race_result_view(r: Result<Race, RacecardError>) -> Result<RaceView, RacecardError> {
    match r {
        Ok((m, rs)) => Ok((m@, runners_view(rs@))),
        Err(e) => Err(e),
    }
}

// ---------------------------------------------------------------------------
// Weights taken from the rendered page
// ---------------------------------------------------------------------------

/// A weight part that is absent or empty.
pub open spec fn weight_missing(o: Option<Seq<char>>) -> bool {
    match o {
        Some(s) => s.len() == 0,
        None => true,
    }
}

/// The last of the first `n` page runners whose key is `k`.
pub open spec fn lookup_weight(
    keys: Seq<Option<Seq<char>>>,
    page: Seq<RunnerView>,
    k: Seq<char>,
    n: int,
) -> Option<RunnerView>
    decreases n,
{
    if n <= 0 {
        None
    } else if keys[n - 1] == Some(k) {
        Some(page[n - 1])
    } else {
        lookup_weight(keys, page, k, n - 1)
    }
}

/// `r` with the weight fields it has not got taken from `src`.
pub open spec fn fill_from(r: RunnerView, src: RunnerView) -> RunnerView {
    RunnerView {
        horse: r.horse,
        jockey: r.jockey,
        trainer: r.trainer,
        age: r.age,
        weight: if r.weight is None { src.weight } else { r.weight },
        weight_st: if r.weight_st is None { src.weight_st } else { r.weight_st },
        weight_lb: if r.weight_lb is None { src.weight_lb } else { r.weight_lb },
    }
}

/// A runner whose stones or pounds are missing, filled from the last page runner
/// under its key; any other runner as it is.
pub open spec fn filled(
    r: RunnerView,
    key: Option<Seq<char>>,
    keys: Seq<Option<Seq<char>>>,
    page: Seq<RunnerView>,
) -> RunnerView {
    if weight_missing(r.weight_st) || weight_missing(r.weight_lb) {
        match key {
            Some(k) => match lookup_weight(keys, page, k, keys.len() as int) {
                Some(src) => fill_from(r, src),
                None => r,
            },
            None => r,
        }
    } else {
        r
    }
}

/// The runners, each filled from the page runners under the given keys.
pub open spec fn filled_all(
    rs: Seq<RunnerView>,
    rkeys: Seq<Option<Seq<char>>>,
    keys: Seq<Option<Seq<char>>>,
    page: Seq<RunnerView>,
) -> Seq<RunnerView> {
    Seq::new(rs.len(), |i: int| filled(rs[i], rkeys[i], keys, page))
}

/// Filling weights changes nothing but absent weight fields: horse, jockey,
/// trainer and age stay, every weight field a runner has stays, and a runner with
/// both stones and pounds is left as it is.
pub proof fn lemma_fill_only_adds(
    rs: Seq<RunnerView>,
    rkeys: Seq<Option<Seq<char>>>,
    keys: Seq<Option<Seq<char>>>,
    page: Seq<RunnerView>,
    i: int,
)
    requires
        0 <= i < rs.len(),
    ensures
        ({
            let f = filled_all(rs, rkeys, keys, page)[i];
            let r = rs[i];
            &&& filled_all(rs, rkeys, keys, page).len() == rs.len()
            &&& f.horse == r.horse && f.jockey == r.jockey && f.trainer == r.trainer && f.age == r.age
            &&& r.weight is Some ==> f.weight == r.weight
            &&& r.weight_st is Some ==> f.weight_st == r.weight_st
            &&& r.weight_lb is Some ==> f.weight_lb == r.weight_lb
            &&& !weight_missing(r.weight_st) && !weight_missing(r.weight_lb) ==> f == r
        }),
{
}

/// The lookup finds the last page runner under the key.
proof fn lemma_lookup_last(keys: Seq<Option<Seq<char>>>, page: Seq<RunnerView>, k: Seq<char>, n: int, j: int)
    requires
        0 <= j < n <= keys.len(),
        keys[j] == Some(k),
        forall|j2: int| j < j2 < n ==> keys[j2] != Some(k),
    ensures
        lookup_weight(keys, page, k, n) == Some(page[j]),
    decreases n,
{
    if n - 1 > j {
        lemma_lookup_last(keys, page, k, n - 1, j);
    }
}

/// A runner whose stones or pounds are missing, and whose key is that of a page
/// runner, takes each weight field it has not got (weight, stones, pounds) from the
/// last page runner with that key.
pub proof fn lemma_fill_takes_page_weights(
    rs: Seq<RunnerView>,
    rkeys: Seq<Option<Seq<char>>>,
    keys: Seq<Option<Seq<char>>>,
    page: Seq<RunnerView>,
    i: int,
    j: int,
)
    requires
        0 <= i < rs.len(),
        weight_missing(rs[i].weight_st) || weight_missing(rs[i].weight_lb),
        0 <= j < keys.len(),
        rkeys[i] is Some,
        keys[j] == rkeys[i],
        forall|j2: int| j < j2 < keys.len() ==> keys[j2] != rkeys[i],
    ensures
        rs[i].weight is None ==> filled_all(rs, rkeys, keys, page)[i].weight == page[j].weight,
        rs[i].weight_st is None ==> filled_all(rs, rkeys, keys, page)[i].weight_st == page[j].weight_st,
        rs[i].weight_lb is None ==> filled_all(rs, rkeys, keys, page)[i].weight_lb == page[j].weight_lb,
{
    let k = rkeys[i]->0;
    lemma_lookup_last(keys, page, k, keys.len() as int, j);
}

/// The texts of optional strings.
pub open spec fn opt_views(v: Seq<Option<String>>) -> Seq<Option<Seq<char>>> {
    v.map_values(|o: Option<String>| opt_view(o))
}

/// The position of the last page runner whose key is `k`.
fn last_with_key(page: &Vec<RunnerRec>, page_keys: &Vec<Option<String>>, k: &String) -> (res: Option<usize>)
    requires
        page_keys@.len() == page@.len(),
    ensures
        match res {
            Some(j) => j < page@.len() && lookup_weight(
                opt_views(page_keys@),
                runners_view(page@),
                k@,
                page@.len() as int,
            ) == Some(page@[j as int]@),
            None => lookup_weight(
                opt_views(page_keys@),
                runners_view(page@),
                k@,
                page@.len() as int,
            ) is None,
        },
{
    let ghost pk = opt_views(page_keys@);
    let ghost pv = runners_view(page@);
    let kc = chars_of(k.as_str());
    let mut j: usize = page.len();
    while j > 0
        invariant
            j <= page@.len(),
            page_keys@.len() == page@.len(),
            pk == opt_views(page_keys@),
            pv == runners_view(page@),
            kc@ == k@,
            lookup_weight(pk, pv, k@, page@.len() as int) == lookup_weight(pk, pv, k@, j as int),
        decreases j,
    {
        assert(pk[j - 1] == opt_view(page_keys@[j - 1]));
        assert(pv[j - 1] == page@[j - 1]@);
        match &page_keys[j - 1] {
            Some(pkey) => {
                let pc = chars_of(pkey.as_str());
                if crate::text::chars_eq(&pc, &kc) {
                    return Some(j - 1);
                }
            },
            None => {},
        }
        j = j - 1;
    }
    None
}

/// The runners whose stones or pounds are missing get the weight fields they have
/// not got from the last page runner with the same key (`runner_keys[i]` is the key
/// of `runners[i]`, `page_keys[j]` that of `page[j]`, `None` for none).
pub fn backfill_weights(
    runners: Vec<RunnerRec>,
    runner_keys: &Vec<Option<String>>,
    page: &Vec<RunnerRec>,
    page_keys: &Vec<Option<String>>,
) -> (res: Vec<RunnerRec>)
    requires
        runner_keys@.len() == runners@.len(),
        page_keys@.len() == page@.len(),
    ensures
        runners_view(res@) == filled_all(
            runners_view(runners@),
            opt_views(runner_keys@),
            opt_views(page_keys@),
            runners_view(page@),
        ),
{
    let ghost rs = runners_view(runners@);
    let ghost rk = opt_views(runner_keys@);
    let ghost pk = opt_views(page_keys@);
    let ghost pv = runners_view(page@);
    let mut out: Vec<RunnerRec> = Vec::new();
    let mut i: usize = 0;
    while i < runners.len()
        invariant
            i <= runners@.len(),
            runner_keys@.len() == runners@.len(),
            page_keys@.len() == page@.len(),
            rs == runners_view(runners@),
            rk == opt_views(runner_keys@),
            pk == opt_views(page_keys@),
            pv == runners_view(page@),
            out@.len() == i,
            forall|j: int| 0 <= j < i ==> #[trigger] out@[j]@ == filled(rs[j], rk[j], pk, pv),
        decreases runners@.len() - i,
    {
        let r = &runners[i];
        let missing = match &r.weight_st {
            Some(s) => s.as_str().is_empty(),
            None => true,
        } || match &r.weight_lb {
            Some(s) => s.as_str().is_empty(),
            None => true,
        };
        assert(rs[i as int] == r@);
        assert(rk[i as int] == opt_view(runner_keys@[i as int]));
        let mut nr = r.copy();
        if missing {
            match &runner_keys[i] {
                Some(k) => match last_with_key(page, page_keys, k) {
                    Some(j) => {
                        let src = &page[j];
                        if nr.weight.is_none() {
                            nr.weight = clone_opt(&src.weight);
                        }
                        if nr.weight_st.is_none() {
                            nr.weight_st = clone_opt(&src.weight_st);
                        }
                        if nr.weight_lb.is_none() {
                            nr.weight_lb = clone_opt(&src.weight_lb);
                        }
                    },
                    None => {},
                },
                None => {},
            }
        }
        out.push(nr);
        i = i + 1;
    }
    assert(runners_view(out@) =~= filled_all(rs, rk, pk, pv));
    out
}


// ---------------------------------------------------------------------------
// Keys of runners
// ---------------------------------------------------------------------------

/// What `str::to_lowercase` gives for a text.
pub uninterp spec fn lowercase_of(s: Seq<char>) -> Seq<char>;

/// `str::to_lowercase`: the text with every character replaced by its Unicode
/// lowercase mapping. The contract names the result, which depends on the text
/// alone.
#[verifier::external_body]
fn to_lowercase(s: &str) -> (res: String)
    ensures
        res@ == lowercase_of(s@),
{
    s.to_lowercase()
}

/// The key of a runner read from the data: its horse, trimmed and lowercased.
pub open spec fn runner_key(r: RunnerView) -> Option<Seq<char>> {
    match r.horse {
        Some(h) => Some(lowercase_of(trim(h))),
        None => None,
    }
}

/// The key of a runner read from the page: the same, for a horse that is not blank.
pub open spec fn page_key(r: RunnerView) -> Option<Seq<char>> {
    match r.horse {
        Some(h) => if trim(h).len() > 0 {
            Some(lowercase_of(trim(h)))
        } else {
            None
        },
        None => None,
    }
}

/// The keys of runners, page keys or data keys.
pub open spec fn keys_of(rs: Seq<RunnerView>, page: bool) -> Seq<Option<Seq<char>>> {
    Seq::new(rs.len(), |i: int| if page { page_key(rs[i]) } else { runner_key(rs[i]) })
}

/// The keys of runners.
pub fn runner_keys(rs: &Vec<RunnerRec>, page: bool) -> (res: Vec<Option<String>>)
    ensures
        res@.len() == rs@.len(),
        opt_views(res@) == keys_of(runners_view(rs@), page),
{
    let mut out: Vec<Option<String>> = Vec::new();
    let mut i: usize = 0;
    while i < rs.len()
        invariant
            i <= rs@.len(),
            out@.len() == i,
            forall|j: int| 0 <= j < i ==> #[trigger] opt_view(out@[j]) == (if page {
                page_key(rs@[j]@)
            } else {
                runner_key(rs@[j]@)
            }),
        decreases rs@.len() - i,
    {
        let k = match &rs[i].horse {
            Some(h) => {
                let c = chars_of(h.as_str());
                let t = trimmed_string(&c, 0, c.len());
                assert(c@.subrange(0, c@.len() as int) =~= c@);
                if page && t.as_str().is_empty() {
                    None
                } else {
                    Some(to_lowercase(t.as_str()))
                }
            },
            None => None,
        };
        out.push(k);
        i = i + 1;
    }
    assert(opt_views(out@) =~= keys_of(runners_view(rs@), page));
    out
}

// ---------------------------------------------------------------------------
// The race of a page
// ---------------------------------------------------------------------------

/// Some runner lacks its stones.
pub open spec fn needs_backfill(rs: Seq<RunnerView>) -> bool {
    exists|i: int| 0 <= i < rs.len() && weight_missing(#[trigger] rs[i].weight_st)
}

/// The data runners, with the weights they lack taken from the page runners when
/// one of them lacks its stones.
pub open spec fn with_page_weights(rs: Seq<RunnerView>, html: Seq<char>) -> Seq<RunnerView> {
    if needs_backfill(rs) {
        filled_all(rs, keys_of(rs, false), keys_of(html_runners(html), true), html_runners(html))
    } else {
        rs
    }
}

/// The needle of the page description.
pub open spec fn description_needle() -> Seq<char> {
    "name=\"description\""@
}

/// The race read from the rendered page alone.
pub open spec fn race_from_page(html: Seq<char>) -> Result<RaceView, RacecardError> {
    let m = meta_from_html(html);
    let course = match m.course {
        Some(c) => Some(c),
        None => match canonical_of(html) {
            Some(u) => course_of_canonical(u),
            None => None,
        },
    };
    let race_name = match m.race_name {
        Some(n) => Some(n),
        None => race_name_from_title(html),
    };
    let rs = html_runners(html);
    if rs.len() == 0 {
        Err(RacecardError::NoRunners)
    } else {
        Ok((MetaView { course, time: m.time, race_name, going: m.going }, rs))
    }
}

/// The runners of the page data, none without data.
pub open spec fn data_runners(data: Option<JsonValue>) -> Seq<RunnerView> {
    match data {
        Some(v) => runners_in(v),
        None => Seq::empty(),
    }
}

/// The race of a page and its parsed data: from the data when it names runners,
/// else from the page.
pub open spec fn race_of(html: Seq<char>, data: Option<JsonValue>) -> Result<RaceView, RacecardError> {
    match data {
        Some(v) => if runners_in(v).len() > 0 {
            Ok((meta_in(v), with_page_weights(runners_in(v), html)))
        } else {
            race_from_page(html)
        },
        None => race_from_page(html),
    }
}

/// The page is read from its data, or its description can be read.
pub open spec fn readable_with(html: Seq<char>, data: Option<JsonValue>) -> bool {
    data_runners(data).len() > 0 || meta_windows_ok(html, description_needle())
}

/// Whether some runner lacks its stones.
fn any_missing_stones(rs: &Vec<RunnerRec>) -> (res: bool)
    ensures
        res == needs_backfill(runners_view(rs@)),
{
    let ghost v = runners_view(rs@);
    let mut i: usize = 0;
    while i < rs.len()
        invariant
            i <= rs@.len(),
            v == runners_view(rs@),
            forall|j: int| 0 <= j < i ==> !weight_missing(#[trigger] v[j].weight_st),
        decreases rs@.len() - i,
    {
        assert(v[i as int] == rs@[i as int]@);
        let missing = match &rs[i].weight_st {
            Some(s) => s.as_str().is_empty(),
            None => true,
        };
        if missing {
            assert(weight_missing(v[i as int].weight_st));
            return true;
        }
        i = i + 1;
    }
    false
}

/// The race of a racecard page whose Next.js data parsed to `data` (`None` when the
/// page has none or it is not JSON): from the data when it names runners, with the
/// weights they lack taken from the page, else from the page; no runners anywhere
/// is an error.
pub fn parse_racecard_with_data(html: &str, data: &Option<JsonValue>) -> (res: Result<Race, RacecardError>)
    requires
        readable_with(html@, *data),
    ensures
        race_result_view(res) == race_of(html@, *data),
{
    let h = chars_of(html);
    match data {
        Some(v) => {
            let meta = extract_race_meta(v);
            let runners = extract_runners(v);
            if runners.len() > 0 {
                if any_missing_stones(&runners) {
                    let page = extract_runners_from_html(&h);
                    let rk = runner_keys(&runners, false);
                    let pk = runner_keys(&page, true);
                    let all = backfill_weights(runners, &rk, &page, &pk);
                    return Ok((meta, all));
                }
                return Ok((meta, runners));
            }
        },
        None => {},
    }
    let canonical = extract_canonical_racecard_url(html);
    let mut meta = extract_race_meta_from_html(&h);
    if meta.course.is_none() {
        match canonical {
            Some(u) => {
                let uc = chars_of(u.as_str());
                match course_from_canonical_url(&uc) {
                    Some(c) => {
                        meta.course = Some(c);
                    },
                    None => {},
                }
            },
            None => {},
        }
    }
    if meta.race_name.is_none() {
        meta.race_name = extract_race_name_from_title(&h);
    }
    let runners = extract_runners_from_html(&h);
    if runners.len() == 0 {
        return Err(RacecardError::NoRunners);
    }
    Ok((meta, runners))
}

/// What the page's Next.js data parses to.
pub open spec fn page_data(html: Seq<char>) -> Option<JsonValue> {
    match next_data_of(html) {
        Some(t) => json_text_value(t),
        None => None,
    }
}

/// The page's Next.js data, parsed.
pub(crate) fn page_data_exec(html: &str) -> (res: Option<JsonValue>)
    ensures
        res == page_data(html@),
{
    match extract_next_data_json(html) {
        Some(t) => parse_json_text(t.as_str()),
        None => None,
    }
}

/// The race of a racecard page: from its Next.js data when that parses and names
/// runners, else from the rendered page.
pub fn parse_one_racecard_html(html: &str) -> (res: Result<Race, RacecardError>)
    requires
        readable_with(html@, page_data(html@)),
    ensures
        race_result_view(res) == race_of(html@, page_data(html@)),
{
    let data = page_data_exec(html);
    parse_racecard_with_data(html, &data)
}

/// The race of a racecard page, or `None` when the page must be read from its
/// description and the description window cuts a character.
pub fn parse_racecard_checked(html: &str) -> (res: Option<Result<Race, RacecardError>>)
    ensures
        res is None <==> !readable_with(html@, page_data(html@)),
        res matches Some(r) ==> race_result_view(r) == race_of(html@, page_data(html@)),
{
    let data = page_data_exec(html);
    let from_data = match &data {
        Some(v) => extract_runners(v).len() > 0,
        None => false,
    };
    if !from_data {
        let h = chars_of(html);
        let needle = chars_of("name=\"description\"");
        if !meta_window_ok(&h, &needle) {
            return None;
        }
    }
    Some(parse_racecard_with_data(html, &data))
}


// ---------------------------------------------------------------------------
// A race as a JSON value
// ---------------------------------------------------------------------------

/// A member named `name` whose value is the string `t`.
pub open spec fn text_member(m: (String, JsonValue), name: Seq<char>, t: Seq<char>) -> bool {
    &&& m.0@ == name
    &&& m.1 matches JsonValue::Str(s) && s@ == t
}

/// The JSON object of a runner: its seven fields as strings, empty when absent.
pub open spec fn runner_object(v: JsonValue, r: RunnerView) -> bool {
    v matches JsonValue::Object(o) && {
        &&& o@.len() == 7
        &&& text_member(o@[0], "horse"@, or_empty(r.horse))
        &&& text_member(o@[1], "jockey"@, or_empty(r.jockey))
        &&& text_member(o@[2], "trainer"@, or_empty(r.trainer))
        &&& text_member(o@[3], "age"@, or_empty(r.age))
        &&& text_member(o@[4], "weight"@, or_empty(r.weight))
        &&& text_member(o@[5], "weight_st"@, or_empty(r.weight_st))
        &&& text_member(o@[6], "weight_lb"@, or_empty(r.weight_lb))
    }
}

/// The JSON object of a race: its four facts as strings, then its runners.
pub open spec fn race_object(v: JsonValue, m: MetaView, rs: Seq<RunnerView>) -> bool {
    v matches JsonValue::Object(o) && {
        &&& o@.len() == 5
        &&& text_member(o@[0], "course"@, or_empty(m.course))
        &&& text_member(o@[1], "time"@, or_empty(m.time))
        &&& text_member(o@[2], "race_name"@, or_empty(m.race_name))
        &&& text_member(o@[3], "going"@, or_empty(m.going))
        &&& o@[4].0@ == "runners"@
        &&& o@[4].1 matches JsonValue::Array(a) && a@.len() == rs.len() && forall|i: int|
            0 <= i < rs.len() ==> runner_object(#[trigger] a@[i], rs[i])
    }
}

/// The string that the member `key` of an object holds: the value of the first
/// member of that name, when it is a string.
pub open spec fn string_member(v: JsonValue, key: Seq<char>) -> Option<Seq<char>> {
    match v {
        JsonValue::Object(o) => match crate::json::member_get(o@, key) {
            Some(JsonValue::Str(s)) => Some(s@),
            _ => None,
        },
        _ => None,
    }
}

/// The runner values of a race object: the value of its member `runners`, when it
/// is an array.
pub open spec fn runners_member(v: JsonValue) -> Option<Seq<JsonValue>> {
    match v {
        JsonValue::Object(o) => match crate::json::member_get(o@, "runners"@) {
            Some(JsonValue::Array(a)) => Some(a@),
            _ => None,
        },
        _ => None,
    }
}

/// The member names of a runner object differ from one another.
proof fn lemma_runner_names_differ()
    ensures
        "horse"@ != "jockey"@,
        "horse"@ != "trainer"@,
        "horse"@ != "age"@,
        "horse"@ != "weight"@,
        "horse"@ != "weight_st"@,
        "horse"@ != "weight_lb"@,
        "jockey"@ != "trainer"@,
        "jockey"@ != "age"@,
        "jockey"@ != "weight"@,
        "jockey"@ != "weight_st"@,
        "jockey"@ != "weight_lb"@,
        "trainer"@ != "age"@,
        "trainer"@ != "weight"@,
        "trainer"@ != "weight_st"@,
        "trainer"@ != "weight_lb"@,
        "age"@ != "weight"@,
        "age"@ != "weight_st"@,
        "age"@ != "weight_lb"@,
        "weight"@ != "weight_st"@,
        "weight"@ != "weight_lb"@,
        "weight_st"@ != "weight_lb"@,
{
    reveal_strlit("horse");
    reveal_strlit("jockey");
    reveal_strlit("trainer");
    reveal_strlit("age");
    reveal_strlit("weight");
    reveal_strlit("weight_st");
    reveal_strlit("weight_lb");
    assert("horse"@[0] != "jockey"@[0]);
    assert("horse"@[0] != "trainer"@[0]);
    assert("horse"@[0] != "age"@[0]);
    assert("horse"@[0] != "weight"@[0]);
    assert("horse"@[0] != "weight_st"@[0]);
    assert("horse"@[0] != "weight_lb"@[0]);
    assert("jockey"@[0] != "trainer"@[0]);
    assert("jockey"@[0] != "age"@[0]);
    assert("jockey"@[0] != "weight"@[0]);
    assert("jockey"@[0] != "weight_st"@[0]);
    assert("jockey"@[0] != "weight_lb"@[0]);
    assert("trainer"@[0] != "age"@[0]);
    assert("trainer"@[0] != "weight"@[0]);
    assert("trainer"@[0] != "weight_st"@[0]);
    assert("trainer"@[0] != "weight_lb"@[0]);
    assert("age"@[0] != "weight"@[0]);
    assert("age"@[0] != "weight_st"@[0]);
    assert("age"@[0] != "weight_lb"@[0]);
    assert("weight"@.len() != "weight_st"@.len());
    assert("weight"@.len() != "weight_lb"@.len());
    assert("weight_st"@[7] != "weight_lb"@[7]);
}

/// The member names of a race object differ from one another.
proof fn lemma_race_names_differ()
    ensures
        "course"@ != "time"@,
        "course"@ != "race_name"@,
        "course"@ != "going"@,
        "course"@ != "runners"@,
        "time"@ != "race_name"@,
        "time"@ != "going"@,
        "time"@ != "runners"@,
        "race_name"@ != "going"@,
        "race_name"@ != "runners"@,
        "going"@ != "runners"@,
{
    reveal_strlit("course");
    reveal_strlit("time");
    reveal_strlit("race_name");
    reveal_strlit("going");
    reveal_strlit("runners");
    assert("course"@[0] != "time"@[0]);
    assert("course"@[0] != "race_name"@[0]);
    assert("course"@[0] != "going"@[0]);
    assert("course"@[0] != "runners"@[0]);
    assert("time"@[0] != "race_name"@[0]);
    assert("time"@[0] != "going"@[0]);
    assert("time"@[0] != "runners"@[0]);
    assert("race_name"@[1] != "runners"@[1]);
    assert("race_name"@[0] != "going"@[0]);
    assert("going"@[0] != "runners"@[0]);
}

/// Read by member name, a runner object gives each of the runner's seven fields
/// (the empty text when absent) under the field's own name.
pub proof fn lemma_runner_object_members(v: JsonValue, r: RunnerView)
    requires
        runner_object(v, r),
    ensures
        string_member(v, "horse"@) == Some(or_empty(r.horse)),
        string_member(v, "jockey"@) == Some(or_empty(r.jockey)),
        string_member(v, "trainer"@) == Some(or_empty(r.trainer)),
        string_member(v, "age"@) == Some(or_empty(r.age)),
        string_member(v, "weight"@) == Some(or_empty(r.weight)),
        string_member(v, "weight_st"@) == Some(or_empty(r.weight_st)),
        string_member(v, "weight_lb"@) == Some(or_empty(r.weight_lb)),
{
    lemma_runner_names_differ();
    if let JsonValue::Object(o) = v {
        let m = o@;
        crate::json::lemma_member_get_first(m, "horse"@, 0);
        crate::json::lemma_member_get_first(m, "jockey"@, 1);
        crate::json::lemma_member_get_first(m, "trainer"@, 2);
        crate::json::lemma_member_get_first(m, "age"@, 3);
        crate::json::lemma_member_get_first(m, "weight"@, 4);
        crate::json::lemma_member_get_first(m, "weight_st"@, 5);
        crate::json::lemma_member_get_first(m, "weight_lb"@, 6);
    }
}

/// Read by member name, a race object gives the race's course, time, race name and
/// going (the empty text when absent) each under its own name, and under `runners`
/// one object per runner, in order, that gives that runner's fields by name.
pub proof fn lemma_race_object_members(v: JsonValue, m: MetaView, rs: Seq<RunnerView>)
    requires
        race_object(v, m, rs),
    ensures
        string_member(v, "course"@) == Some(or_empty(m.course)),
        string_member(v, "time"@) == Some(or_empty(m.time)),
        string_member(v, "race_name"@) == Some(or_empty(m.race_name)),
        string_member(v, "going"@) == Some(or_empty(m.going)),
        runners_member(v) matches Some(a) && a.len() == rs.len() && forall|i: int|
            0 <= i < rs.len() ==> {
                &&& string_member(#[trigger] a[i], "horse"@) == Some(or_empty(rs[i].horse))
                &&& string_member(a[i], "jockey"@) == Some(or_empty(rs[i].jockey))
                &&& string_member(a[i], "trainer"@) == Some(or_empty(rs[i].trainer))
                &&& string_member(a[i], "age"@) == Some(or_empty(rs[i].age))
                &&& string_member(a[i], "weight"@) == Some(or_empty(rs[i].weight))
                &&& string_member(a[i], "weight_st"@) == Some(or_empty(rs[i].weight_st))
                &&& string_member(a[i], "weight_lb"@) == Some(or_empty(rs[i].weight_lb))
            },
{
    lemma_race_names_differ();
    if let JsonValue::Object(o) = v {
        let mo = o@;
        crate::json::lemma_member_get_first(mo, "course"@, 0);
        crate::json::lemma_member_get_first(mo, "time"@, 1);
        crate::json::lemma_member_get_first(mo, "race_name"@, 2);
        crate::json::lemma_member_get_first(mo, "going"@, 3);
        crate::json::lemma_member_get_first(mo, "runners"@, 4);
        if let JsonValue::Array(a) = mo[4].1 {
            assert forall|i: int| 0 <= i < rs.len() implies {
                &&& string_member(#[trigger] a@[i], "horse"@) == Some(or_empty(rs[i].horse))
                &&& string_member(a@[i], "jockey"@) == Some(or_empty(rs[i].jockey))
                &&& string_member(a@[i], "trainer"@) == Some(or_empty(rs[i].trainer))
                &&& string_member(a@[i], "age"@) == Some(or_empty(rs[i].age))
                &&& string_member(a@[i], "weight"@) == Some(or_empty(rs[i].weight))
                &&& string_member(a@[i], "weight_st"@) == Some(or_empty(rs[i].weight_st))
                &&& string_member(a@[i], "weight_lb"@) == Some(or_empty(rs[i].weight_lb))
            } by {
                lemma_runner_object_members(a@[i], rs[i]);
            }
        }
    }
}

/// A member holding an optional field as a string, empty when absent.
fn text_field(name: &str, o: &Option<String>) -> (res: (String, JsonValue))
    ensures
        text_member(res, name@, or_empty(opt_view(*o))),
{
    let v = match o {
        Some(s) => s.clone(),
        None => String::new(),
    };
    (name.to_string(), JsonValue::Str(v))
}

/// The JSON object of a runner.
fn runner_to_json_value(r: &RunnerRec) -> (res: JsonValue)
    ensures
        runner_object(res, r@),
{
    let mut o: Vec<(String, JsonValue)> = Vec::new();
    o.push(text_field("horse", &r.horse));
    o.push(text_field("jockey", &r.jockey));
    o.push(text_field("trainer", &r.trainer));
    o.push(text_field("age", &r.age));
    o.push(text_field("weight", &r.weight));
    o.push(text_field("weight_st", &r.weight_st));
    o.push(text_field("weight_lb", &r.weight_lb));
    JsonValue::Object(o)
}

/// The JSON object of a race: course, time, race name and going as strings, then
/// the runners.
pub fn race_to_json_value(meta: &RaceMeta, runners: &[RunnerRec]) -> (res: JsonValue)
    ensures
        race_object(res, meta@, runners_view(runners@)),
        string_member(res, "course"@) == Some(or_empty(meta@.course)),
        string_member(res, "time"@) == Some(or_empty(meta@.time)),
        string_member(res, "race_name"@) == Some(or_empty(meta@.race_name)),
        string_member(res, "going"@) == Some(or_empty(meta@.going)),
{
    let mut o: Vec<(String, JsonValue)> = Vec::new();
    o.push(text_field("course", &meta.course));
    o.push(text_field("time", &meta.time));
    o.push(text_field("race_name", &meta.race_name));
    o.push(text_field("going", &meta.going));
    let mut out: Vec<JsonValue> = Vec::new();
    let mut i: usize = 0;
    while i < runners.len()
        invariant
            i <= runners@.len(),
            out@.len() == i,
            forall|j: int| 0 <= j < i ==> runner_object(#[trigger] out@[j], runners@[j]@),
        decreases runners@.len() - i,
    {
        out.push(runner_to_json_value(&runners[i]));
        i = i + 1;
    }
    o.push(("runners".to_string(), JsonValue::Array(out)));
    let res = JsonValue::Object(o);
    proof {
        lemma_race_object_members(res, meta@, runners_view(runners@));
    }
    res
}

} // verus!
