//! A JSON document as the racecard logic reads it, and what it reads from one.
use vstd::prelude::*;
use crate::text::{byte_len, byte_len_at_most, chars_of, trim, trimmed_chars, string_of};
use crate::racecard::{
    opt_view, RaceMeta, RunnerRec, RunnerView, MetaView, weight_parts, weight_text,
    parse_weight_to_st_lb, runners_view, strs_view, weight_string,
};

verus! {

/// A JSON value. Numbers keep their text; an object keeps its members in order.
pub enum JsonValue {
    Null,
    Bool(bool),
    Number(String),
    Str(String),
    Array(Vec<JsonValue>),
    Object(Vec<(String, JsonValue)>),
}

/// The members of an object.
pub type Members = Seq<(String, JsonValue)>;

// ---------------------------------------------------------------------------
// Member lookup
// ---------------------------------------------------------------------------

/// The value of the first member named `k`.
pub open spec fn member_get(o: Members, k: Seq<char>) -> Option<JsonValue>
    decreases o.len(),
{
    if o.len() == 0 {
        None
    } else if o[0].0@ == k {
        Some(o[0].1)
    } else {
        member_get(o.drop_first(), k)
    }
}

/// Looking up a name finds the first member of that name.
pub proof fn lemma_member_get_first(o: Members, k: Seq<char>, i: int)
    requires
        0 <= i < o.len(),
        o[i].0@ == k,
        forall|j: int| 0 <= j < i ==> o[j].0@ != k,
    ensures
        member_get(o, k) == Some(o[i].1),
    decreases i,
{
    if i > 0 {
        assert(o[0].0@ != k);
        let d = o.drop_first();
        assert forall|j: int| 0 <= j < i - 1 implies d[j].0@ != k by {
            assert(d[j] == o[j + 1]);
        }
        assert(d[i - 1] == o[i]);
        lemma_member_get_first(d, k, i - 1);
    }
}

/// The first of `keys` whose member is a non-blank string, trimmed.
pub open spec fn first_string(o: Members, keys: Seq<Seq<char>>) -> Option<Seq<char>>
    decreases keys.len(),
{
    if keys.len() == 0 {
        None
    } else {
        match member_get(o, keys[0]) {
            Some(JsonValue::Str(s)) if trim(s@).len() > 0 => Some(trim(s@)),
            _ => first_string(o, keys.drop_first()),
        }
    }
}

/// The first of `keys` whose member is a non-blank string (trimmed) or a number
/// (its text).
pub open spec fn first_string_or_number(o: Members, keys: Seq<Seq<char>>) -> Option<Seq<char>>
    decreases keys.len(),
{
    if keys.len() == 0 {
        None
    } else {
        match member_get(o, keys[0]) {
            Some(JsonValue::Str(s)) if trim(s@).len() > 0 => Some(trim(s@)),
            Some(JsonValue::Number(n)) => Some(n@),
            _ => first_string_or_number(o, keys.drop_first()),
        }
    }
}

/// The value of the first member named `k`.
pub fn get_member<'a>(o: &'a Vec<(String, JsonValue)>, k: &str) -> (res: Option<&'a JsonValue>)
    ensures
        match res {
            Some(v) => member_get(o@, k@) == Some(*v),
            None => member_get(o@, k@) is None,
        },
{
    let kc = chars_of(k);
    assert(o@.skip(0) =~= o@);
    let mut i: usize = 0;
    while i < o.len()
        invariant
            i <= o@.len(),
            kc@ == k@,
            member_get(o@, k@) == member_get(o@.skip(i as int), k@),
        decreases o@.len() - i,
    {
        let name = chars_of(o[i].0.as_str());
        assert(o@.skip(i as int)[0] == o@[i as int]);
        assert(o@.skip(i as int).drop_first() =~= o@.skip(i + 1));
        if crate::text::chars_eq(&name, &kc) {
            return Some(&o[i].1);
        }
        i = i + 1;
    }
    assert(o@.skip(i as int).len() == 0);
    None
}

/// The first of `keys` whose member is a non-blank string, trimmed.
pub fn first_string_exec(o: &Vec<(String, JsonValue)>, keys: &[&str]) -> (res: Option<String>)
    ensures
        opt_view(res) == first_string(o@, strs_view(keys@)),
{
    let ghost ks = strs_view(keys@);
    assert(ks.skip(0) =~= ks);
    let mut i: usize = 0;
    while i < keys.len()
        invariant
            i <= keys@.len(),
            ks == strs_view(keys@),
            first_string(o@, ks) == first_string(o@, ks.skip(i as int)),
        decreases keys@.len() - i,
    {
        assert(ks.skip(i as int)[0] == keys@[i as int]@);
        assert(ks.skip(i as int).drop_first() =~= ks.skip(i + 1));
        match get_member(o, keys[i]) {
            Some(JsonValue::Str(s)) => {
                let c = chars_of(s.as_str());
                let t = trimmed_chars(&c, 0, c.len());
                assert(c@.subrange(0, c@.len() as int) =~= c@);
                if t.len() > 0 {
                    assert(t@.subrange(0, t@.len() as int) =~= t@);
                    return Some(string_of(&t, 0, t.len()));
                }
            },
            _ => {},
        }
        i = i + 1;
    }
    assert(ks.skip(i as int).len() == 0);
    None
}

/// The first of `keys` whose member is a non-blank string or a number.
pub fn first_string_or_number_exec(o: &Vec<(String, JsonValue)>, keys: &[&str]) -> (res: Option<String>)
    ensures
        opt_view(res) == first_string_or_number(o@, strs_view(keys@)),
{
    let ghost ks = strs_view(keys@);
    assert(ks.skip(0) =~= ks);
    let mut i: usize = 0;
    while i < keys.len()
        invariant
            i <= keys@.len(),
            ks == strs_view(keys@),
            first_string_or_number(o@, ks) == first_string_or_number(o@, ks.skip(i as int)),
        decreases keys@.len() - i,
    {
        assert(ks.skip(i as int)[0] == keys@[i as int]@);
        assert(ks.skip(i as int).drop_first() =~= ks.skip(i + 1));
        match get_member(o, keys[i]) {
            Some(JsonValue::Str(s)) => {
                let c = chars_of(s.as_str());
                let t = trimmed_chars(&c, 0, c.len());
                assert(c@.subrange(0, c@.len() as int) =~= c@);
                if t.len() > 0 {
                    assert(t@.subrange(0, t@.len() as int) =~= t@);
                    return Some(string_of(&t, 0, t.len()));
                }
            },
            Some(JsonValue::Number(n)) => {
                return Some(n.clone());
            },
            _ => {},
        }
        i = i + 1;
    }
    assert(ks.skip(i as int).len() == 0);
    None
}

// ---------------------------------------------------------------------------
// Runners in the data
// ---------------------------------------------------------------------------

/// A weight as text, stones and pounds.
pub type WeightView = (Option<Seq<char>>, Option<Seq<char>>, Option<Seq<char>>);

/// Keys of a stones member, a pounds member, and of the parts of a weight object.
pub open spec fn stone_keys() -> Seq<Seq<char>> {
    seq!["formattedWeightStones"@, "weightStones"@, "stones"@]
}

pub open spec fn pound_keys() -> Seq<Seq<char>> {
    seq!["formattedWeightPounds"@, "weightPounds"@, "pounds"@]
}

pub open spec fn sub_st_keys() -> Seq<Seq<char>> {
    seq!["st"@, "stones"@, "stone"@]
}

pub open spec fn sub_lb_keys() -> Seq<Seq<char>> {
    seq!["lb"@, "pounds"@, "lbs"@]
}

/// Keys of a weight member.
pub open spec fn weight_keys() -> Seq<Seq<char>> {
    seq![
        "weight"@,
        "weightText"@,
        "weightStLb"@,
        "weightDisplay"@,
        "weightValue"@,
        "wgt"@,
        "wgtText"@,
        "horseWeight"@,
    ]
}

/// A weight object with stones and pounds parts.
pub open spec fn weight_of_object(o2: Members) -> Option<WeightView> {
    match (first_string_or_number(o2, sub_st_keys()), first_string_or_number(o2, sub_lb_keys())) {
        (Some(st), Some(lb)) => Some((Some(weight_text(st, lb)), Some(st), Some(lb))),
        _ => None,
    }
}

/// The weight under the first of the nested weight objects that has both parts.
pub open spec fn weight_from_subs(o: Members, subs: Seq<Seq<char>>) -> Option<WeightView>
    decreases subs.len(),
{
    if subs.len() == 0 {
        None
    } else {
        match member_get(o, subs[0]) {
            Some(JsonValue::Object(o2)) if weight_of_object(o2@) is Some => weight_of_object(o2@),
            _ => weight_from_subs(o, subs.drop_first()),
        }
    }
}

/// The weight under the first weight key that holds a non-blank string (parsed for
/// stones and pounds), a number (its text only) or an object with both parts.
pub open spec fn weight_from_keys(o: Members, keys: Seq<Seq<char>>) -> Option<WeightView>
    decreases keys.len(),
{
    if keys.len() == 0 {
        weight_from_subs(o, seq!["weight"@, "wgt"@])
    } else {
        match member_get(o, keys[0]) {
            Some(JsonValue::Str(s)) if trim(s@).len() > 0 => Some(
                (Some(trim(s@)), weight_parts(trim(s@)).0, weight_parts(trim(s@)).1),
            ),
            Some(JsonValue::Number(n)) => Some((Some(n@), None, None)),
            Some(JsonValue::Object(o2)) if weight_of_object(o2@) is Some => weight_of_object(o2@),
            _ => weight_from_keys(o, keys.drop_first()),
        }
    }
}

/// The weight found in a runner object: stones and pounds members first, else a
/// weight member.
pub open spec fn weight_found(o: Members) -> Option<WeightView> {
    match (first_string_or_number(o, stone_keys()), first_string_or_number(o, pound_keys())) {
        (Some(st), Some(lb)) => Some((Some(weight_text(st, lb)), Some(st), Some(lb))),
        _ => weight_from_keys(o, weight_keys()),
    }
}

/// The weight read from a runner object's stones and pounds members (texts of
/// digits) keeps them as its stones and pounds, and its text reads back as exactly
/// those stones and pounds.
pub proof fn lemma_weight_found_reads_back(o: Members)
    requires
        first_string_or_number(o, stone_keys()) matches Some(st) && st.len() > 0
            && crate::text::all_digits(st),
        first_string_or_number(o, pound_keys()) matches Some(lb) && lb.len() > 0
            && crate::text::all_digits(lb),
    ensures
        weight_found(o) matches Some((Some(w), Some(st), Some(lb))) && {
            &&& first_string_or_number(o, stone_keys()) == Some(st)
            &&& first_string_or_number(o, pound_keys()) == Some(lb)
            &&& crate::racecard::weight_parts(w) == (Some(st), Some(lb))
        },
{
    let st = first_string_or_number(o, stone_keys())->0;
    let lb = first_string_or_number(o, pound_keys())->0;
    crate::racecard::lemma_weight_text_reads_back(st, lb);
}

/// The weight of a runner object, or nothing.
pub open spec fn weight_any(o: Members) -> WeightView {
    match weight_found(o) {
        Some(w) => w,
        None => (None, None, None),
    }
}

/// The runner an object describes: it needs a horse and a jockey or trainer.
pub open spec fn runner_from_object(o: Members) -> Option<RunnerView> {
    let horse = first_string(o, seq!["horseName"@, "horse"@, "name"@]);
    let jockey = first_string(o, seq!["jockeyName"@, "jockey"@]);
    let trainer = first_string(o, seq!["trainerName"@, "trainer"@]);
    let age = first_string_or_number(o, seq!["age"@, "horseAge"@, "ageYears"@, "ageYrs"@]);
    let w = weight_any(o);
    if horse is Some && (jockey is Some || trainer is Some) {
        Some(
            RunnerView {
                horse,
                jockey,
                trainer,
                age,
                weight: w.0,
                weight_st: w.1,
                weight_lb: w.2,
            },
        )
    } else {
        None
    }
}

/// An object whose first three members are `horseName`, `jockeyName` and
/// `trainerName`, each a non-blank string, is read as a runner whose horse, jockey
/// and trainer are those three strings trimmed, each from the member of its name.
pub proof fn lemma_named_runner_object(o: Members)
    requires
        o.len() >= 3,
        o[0].0@ == "horseName"@,
        o[1].0@ == "jockeyName"@,
        o[2].0@ == "trainerName"@,
        o[0].1 matches JsonValue::Str(h) && trim(h@).len() > 0,
        o[1].1 matches JsonValue::Str(j) && trim(j@).len() > 0,
        o[2].1 matches JsonValue::Str(t) && trim(t@).len() > 0,
    ensures
        runner_from_object(o) matches Some(r) && {
            &&& o[0].1 matches JsonValue::Str(h) && r.horse == Some(trim(h@))
            &&& o[1].1 matches JsonValue::Str(j) && r.jockey == Some(trim(j@))
            &&& o[2].1 matches JsonValue::Str(t) && r.trainer == Some(trim(t@))
        },
{
    reveal_strlit("horseName");
    reveal_strlit("jockeyName");
    reveal_strlit("trainerName");
    assert("horseName"@[0] != "jockeyName"@[0]);
    assert("horseName"@[0] != "trainerName"@[0]);
    assert("jockeyName"@[0] != "trainerName"@[0]);
    lemma_member_get_first(o, "horseName"@, 0);
    lemma_member_get_first(o, "jockeyName"@, 1);
    lemma_member_get_first(o, "trainerName"@, 2);
    let hk = seq!["horseName"@, "horse"@, "name"@];
    let jk = seq!["jockeyName"@, "jockey"@];
    let tk = seq!["trainerName"@, "trainer"@];
    assert(hk[0] == "horseName"@);
    assert(jk[0] == "jockeyName"@);
    assert(tk[0] == "trainerName"@);
}

/// The runners described by the objects of an array, in order.
pub open spec fn candidates(a: Seq<JsonValue>) -> Seq<RunnerView>
    decreases a.len(),
{
    if a.len() == 0 {
        Seq::empty()
    } else {
        candidates(a.drop_last()) + match a.last() {
            JsonValue::Object(o) => match runner_from_object(o@) {
                Some(r) => seq![r],
                None => Seq::empty(),
            },
            _ => Seq::empty(),
        }
    }
}

/// The best runner list after visiting `v`: each array (before what it holds) whose
/// candidates outnumber the best so far replaces it.
pub open spec fn best_in(v: JsonValue, best: Seq<RunnerView>) -> Seq<RunnerView>
    decreases v,
{
    match v {
        JsonValue::Array(a) => {
            let b1 = if candidates(a@).len() > best.len() {
                candidates(a@)
            } else {
                best
            };
            best_in_values(a@, b1)
        },
        JsonValue::Object(o) => best_in_members(o@, best),
        _ => best,
    }
}

pub open spec fn best_in_values(a: Seq<JsonValue>, best: Seq<RunnerView>) -> Seq<RunnerView>
    decreases a,
{
    if a.len() == 0 {
        best
    } else {
        best_in(a.last(), best_in_values(a.drop_last(), best))
    }
}

pub open spec fn best_in_members(o: Members, best: Seq<RunnerView>) -> Seq<RunnerView>
    decreases o,
{
    if o.len() == 0 {
        best
    } else {
        best_in(o.last().1, best_in_members(o.drop_last(), best))
    }
}

/// The array `a` occurs in `v` (as `v` itself or below it).
pub open spec fn has_array(v: JsonValue, a: Seq<JsonValue>) -> bool
    decreases v,
{
    match v {
        JsonValue::Array(x) => x@ == a || has_array_in_values(x@, a),
        JsonValue::Object(o) => has_array_in_members(o@, a),
        _ => false,
    }
}

pub open spec fn has_array_in_values(x: Seq<JsonValue>, a: Seq<JsonValue>) -> bool
    decreases x,
{
    if x.len() == 0 {
        false
    } else {
        has_array_in_values(x.drop_last(), a) || has_array(x.last(), a)
    }
}

pub open spec fn has_array_in_members(o: Members, a: Seq<JsonValue>) -> bool
    decreases o,
{
    if o.len() == 0 {
        false
    } else {
        has_array_in_members(o.drop_last(), a) || has_array(o.last().1, a)
    }
}

/// Visiting never shortens the best list, and after visiting `v` it is at least as
/// long as the runners of every array in `v`.
pub proof fn lemma_best_in_most(v: JsonValue, best: Seq<RunnerView>, a: Seq<JsonValue>)
    ensures
        best_in(v, best).len() >= best.len(),
        has_array(v, a) ==> best_in(v, best).len() >= candidates(a).len(),
    decreases v, 0int,
{
    match v {
        JsonValue::Array(x) => {
            let b1 = if candidates(x@).len() > best.len() {
                candidates(x@)
            } else {
                best
            };
            lemma_best_in_values_most(x@, b1, a);
        },
        JsonValue::Object(o) => {
            lemma_best_in_members_most(o@, best, a);
        },
        _ => {},
    }
}

proof fn lemma_best_in_values_most(x: Seq<JsonValue>, best: Seq<RunnerView>, a: Seq<JsonValue>)
    ensures
        best_in_values(x, best).len() >= best.len(),
        has_array_in_values(x, a) ==> best_in_values(x, best).len() >= candidates(a).len(),
    decreases x, 1int,
{
    if x.len() > 0 {
        lemma_best_in_values_most(x.drop_last(), best, a);
        lemma_best_in_most(x.last(), best_in_values(x.drop_last(), best), a);
    }
}

proof fn lemma_best_in_members_most(o: Members, best: Seq<RunnerView>, a: Seq<JsonValue>)
    ensures
        best_in_members(o, best).len() >= best.len(),
        has_array_in_members(o, a) ==> best_in_members(o, best).len() >= candidates(a).len(),
    decreases o, 1int,
{
    if o.len() > 0 {
        lemma_best_in_members_most(o.drop_last(), best, a);
        lemma_best_in_most(o.last().1, best_in_members(o.drop_last(), best), a);
    }
}

/// The runners read from the data are those of an array with the most runner
/// objects: no array in the data has more.
pub proof fn lemma_runners_in_most(v: JsonValue, a: Seq<JsonValue>)
    requires
        has_array(v, a),
    ensures
        runners_in(v).len() >= candidates(a).len(),
{
    lemma_best_in_most(v, Seq::empty(), a);
}

/// The runners of the data: those of the first array with the most runner objects.
pub open spec fn runners_in(v: JsonValue) -> Seq<RunnerView> {
    best_in(v, Seq::empty())
}

// ---------------------------------------------------------------------------
// Race facts in the data
// ---------------------------------------------------------------------------

/// What the first object in visiting order yields under `sel`; an object is visited
/// before the values it holds.
pub open spec fn first_in(v: JsonValue, sel: spec_fn(Members) -> Option<Seq<char>>) -> Option<Seq<char>>
    decreases v,
{
    match v {
        JsonValue::Object(o) => match sel(o@) {
            Some(s) => Some(s),
            None => first_in_members(o@, sel),
        },
        JsonValue::Array(a) => first_in_values(a@, sel),
        _ => None,
    }
}

pub open spec fn first_in_values(a: Seq<JsonValue>, sel: spec_fn(Members) -> Option<Seq<char>>) -> Option<Seq<char>>
    decreases a,
{
    if a.len() == 0 {
        None
    } else {
        match first_in_values(a.drop_last(), sel) {
            Some(s) => Some(s),
            None => first_in(a.last(), sel),
        }
    }
}

pub open spec fn first_in_members(o: Members, sel: spec_fn(Members) -> Option<Seq<char>>) -> Option<Seq<char>>
    decreases o,
{
    if o.len() == 0 {
        None
    } else {
        match first_in_members(o.drop_last(), sel) {
            Some(s) => Some(s),
            None => first_in(o.last().1, sel),
        }
    }
}

/// The selectors of the four race facts.
pub open spec fn course_sel() -> spec_fn(Members) -> Option<Seq<char>> {
    |o: Members| first_string(o, seq!["courseName"@, "course"@, "meetingName"@])
}

pub open spec fn time_sel() -> spec_fn(Members) -> Option<Seq<char>> {
    |o: Members| first_string(o, seq!["raceTime"@, "time"@, "offTime"@])
}

/// A race name counts only when it is at most 200 bytes long.
pub open spec fn name_sel() -> spec_fn(Members) -> Option<Seq<char>> {
    |o: Members|
        match first_string(o, seq!["raceTitle"@, "raceName"@, "name"@, "title"@]) {
            Some(s) if byte_len(s) <= 200 => Some(s),
            _ => None,
        }
}

pub open spec fn going_sel() -> spec_fn(Members) -> Option<Seq<char>> {
    |o: Members| first_string(o, seq!["going"@, "goingDescription"@, "surface"@])
}

/// The race facts of the data: each the first found in visiting order.
pub open spec fn meta_in(v: JsonValue) -> MetaView {
    MetaView {
        course: first_in(v, course_sel()),
        time: first_in(v, time_sel()),
        race_name: first_in(v, name_sel()),
        going: first_in(v, going_sel()),
    }
}

/// Data whose top object begins with the members `courseName`, `raceTime`,
/// `raceTitle` and `going`, each a non-blank string (the title at most 200 bytes
/// once trimmed), gives those four strings trimmed as the race's course, time, name
/// and going, each from the member of its name.
pub proof fn lemma_named_race_data(v: JsonValue)
    requires
        v matches JsonValue::Object(o) && {
            &&& o@.len() >= 4
            &&& o@[0].0@ == "courseName"@
            &&& o@[1].0@ == "raceTime"@
            &&& o@[2].0@ == "raceTitle"@
            &&& o@[3].0@ == "going"@
            &&& o@[0].1 matches JsonValue::Str(c) && trim(c@).len() > 0
            &&& o@[1].1 matches JsonValue::Str(t) && trim(t@).len() > 0
            &&& o@[2].1 matches JsonValue::Str(n) && trim(n@).len() > 0 && byte_len(trim(n@)) <= 200
            &&& o@[3].1 matches JsonValue::Str(g) && trim(g@).len() > 0
        },
    ensures
        v matches JsonValue::Object(o) && {
            &&& o@[0].1 matches JsonValue::Str(c) && meta_in(v).course == Some(trim(c@))
            &&& o@[1].1 matches JsonValue::Str(t) && meta_in(v).time == Some(trim(t@))
            &&& o@[2].1 matches JsonValue::Str(n) && meta_in(v).race_name == Some(trim(n@))
            &&& o@[3].1 matches JsonValue::Str(g) && meta_in(v).going == Some(trim(g@))
        },
{
    reveal_strlit("courseName");
    reveal_strlit("raceTime");
    reveal_strlit("raceTitle");
    reveal_strlit("going");
    assert("courseName"@[0] != "raceTime"@[0]);
    assert("courseName"@[0] != "raceTitle"@[0]);
    assert("courseName"@[0] != "going"@[0]);
    assert("raceTime"@[6] != "raceTitle"@[6]);
    assert("raceTime"@[0] != "going"@[0]);
    assert("raceTitle"@[0] != "going"@[0]);
    if let JsonValue::Object(o) = v {
        let m = o@;
        lemma_member_get_first(m, "courseName"@, 0);
        lemma_member_get_first(m, "raceTime"@, 1);
        lemma_member_get_first(m, "raceTitle"@, 2);
        lemma_member_get_first(m, "going"@, 3);
        let ck = seq!["courseName"@, "course"@, "meetingName"@];
        let tk = seq!["raceTime"@, "time"@, "offTime"@];
        let nk = seq!["raceTitle"@, "raceName"@, "name"@, "title"@];
        let gk = seq!["going"@, "goingDescription"@, "surface"@];
        assert(ck[0] == "courseName"@);
        assert(tk[0] == "raceTime"@);
        assert(nk[0] == "raceTitle"@);
        assert(gk[0] == "going"@);
        assert(course_sel()(m) == first_string(m, ck));
        assert(time_sel()(m) == first_string(m, tk));
        assert(going_sel()(m) == first_string(m, gk));
        assert(first_string(m, nk) is Some);
        assert(name_sel()(m) == first_string(m, nk));
    }
}

/// A fact kept when already found, else the one found now.
pub open spec fn keep_or(old: Option<Seq<char>>, found: Option<Seq<char>>) -> Option<Seq<char>> {
    match old {
        Some(s) => Some(s),
        None => found,
    }
}


// ---------------------------------------------------------------------------
// Executable reading of runners
// ---------------------------------------------------------------------------

/// A weight as three optional strings.
pub type Weight = (Option<String>, Option<String>, Option<String>);

/// The texts of a weight.
pub open spec fn weight_view(w: Weight) -> WeightView {
    (opt_view(w.0), opt_view(w.1), opt_view(w.2))
}

/// The texts of an optional weight.
pub open spec fn opt_weight_view(w: Option<Weight>) -> Option<WeightView> {
    match w {
        Some(x) => Some(weight_view(x)),
        None => None,
    }
}

/// `<st>st <lb>lb`, with both parts kept.
fn weight_of_parts(st: String, lb: String) -> (res: Weight)
    ensures
        weight_view(res) == (Some(weight_text(st@, lb@)), Some(st@), Some(lb@)),
{
    let sc = chars_of(st.as_str());
    let lc = chars_of(lb.as_str());
    let w = weight_string(&sc, &lc);
    (Some(w), Some(st), Some(lb))
}

/// The weight of a weight object with stones and pounds parts.
fn weight_of_object_exec(o2: &Vec<(String, JsonValue)>) -> (res: Option<Weight>)
    ensures
        opt_weight_view(res) == weight_of_object(o2@),
{
    let sk: [&str; 3] = ["st", "stones", "stone"];
    let lk: [&str; 3] = ["lb", "pounds", "lbs"];
    let st = first_string_or_number_exec(o2, &sk);
    let lb = first_string_or_number_exec(o2, &lk);
    assert(strs_view(sk@) =~= sub_st_keys());
    assert(strs_view(lk@) =~= sub_lb_keys());
    match (st, lb) {
        (Some(s), Some(l)) => Some(weight_of_parts(s, l)),
        _ => None,
    }
}

/// The weight under the first of the weight keys that gives one, else under a
/// nested weight object.
fn weight_from_keys_exec(o: &Vec<(String, JsonValue)>) -> (res: Option<Weight>)
    ensures
        opt_weight_view(res) == weight_from_keys(o@, weight_keys()),
{
    let keys: [&str; 8] = [
        "weight",
        "weightText",
        "weightStLb",
        "weightDisplay",
        "weightValue",
        "wgt",
        "wgtText",
        "horseWeight",
    ];
    let ghost wk = weight_keys();
    assert(strs_view(keys@) =~= wk);
    assert(wk.skip(0) =~= wk);
    let mut i: usize = 0;
    while i < 8
        invariant
            i <= 8,
            keys@.len() == 8,
            wk == weight_keys(),
            strs_view(keys@) == wk,
            weight_from_keys(o@, wk) == weight_from_keys(o@, wk.skip(i as int)),
        decreases 8 - i,
    {
        assert(wk.skip(i as int)[0] == keys@[i as int]@);
        assert(wk.skip(i as int).drop_first() =~= wk.skip(i + 1));
        match get_member(o, keys[i]) {
            Some(JsonValue::Str(s)) => {
                let c = chars_of(s.as_str());
                let t = trimmed_chars(&c, 0, c.len());
                assert(c@.subrange(0, c@.len() as int) =~= c@);
                if t.len() > 0 {
                    assert(t@.subrange(0, t@.len() as int) =~= t@);
                    let (st, lb) = parse_weight_to_st_lb(&t);
                    return Some((Some(string_of(&t, 0, t.len())), st, lb));
                }
            },
            Some(JsonValue::Number(n)) => {
                return Some((Some(n.clone()), None, None));
            },
            Some(JsonValue::Object(o2)) => {
                let w = weight_of_object_exec(o2);
                if w.is_some() {
                    return w;
                }
            },
            _ => {},
        }
        i = i + 1;
    }
    assert(wk.skip(8) =~= Seq::<Seq<char>>::empty());
    let subs: [&str; 2] = ["weight", "wgt"];
    let ghost sv: Seq<Seq<char>> = seq!["weight"@, "wgt"@];
    assert(strs_view(subs@) =~= sv);
    assert(sv.skip(0) =~= sv);
    assert(weight_from_keys(o@, weight_keys()) == weight_from_subs(o@, sv));
    let mut j: usize = 0;
    while j < 2
        invariant
            j <= 2,
            subs@.len() == 2,
            sv == seq!["weight"@, "wgt"@],
            strs_view(subs@) == sv,
            weight_from_keys(o@, weight_keys()) == weight_from_subs(o@, sv),
            weight_from_subs(o@, sv) == weight_from_subs(o@, sv.skip(j as int)),
        decreases 2 - j,
    {
        assert(sv.skip(j as int)[0] == subs@[j as int]@);
        assert(sv.skip(j as int).drop_first() =~= sv.skip(j + 1));
        match get_member(o, subs[j]) {
            Some(JsonValue::Object(o2)) => {
                let w = weight_of_object_exec(o2);
                if w.is_some() {
                    return w;
                }
            },
            _ => {},
        }
        j = j + 1;
    }
    assert(sv.skip(2) =~= Seq::<Seq<char>>::empty());
    None
}

/// The weight found in a runner object: stones and pounds members first, else a
/// weight member.
pub fn extract_weight_any_impl(o: &Vec<(String, JsonValue)>) -> (res: Option<Weight>)
    ensures
        opt_weight_view(res) == weight_found(o@),
{
    let sk: [&str; 3] = ["formattedWeightStones", "weightStones", "stones"];
    let pk: [&str; 3] = ["formattedWeightPounds", "weightPounds", "pounds"];
    let st = first_string_or_number_exec(o, &sk);
    let lb = first_string_or_number_exec(o, &pk);
    assert(strs_view(sk@) =~= stone_keys());
    assert(strs_view(pk@) =~= pound_keys());
    match (st, lb) {
        (Some(s), Some(l)) => Some(weight_of_parts(s, l)),
        _ => weight_from_keys_exec(o),
    }
}

/// The weight of a runner object, or three `None`s.
pub fn extract_weight_any(o: &Vec<(String, JsonValue)>) -> (res: Weight)
    ensures
        weight_view(res) == weight_any(o@),
{
    match extract_weight_any_impl(o) {
        Some(w) => w,
        None => (None, None, None),
    }
}


/// The runner an object describes, when it has a horse and a jockey or trainer.
pub fn runner_from_object_exec(o: &Vec<(String, JsonValue)>) -> (res: Option<RunnerRec>)
    ensures
        match res {
            Some(r) => runner_from_object(o@) == Some(r@),
            None => runner_from_object(o@) is None,
        },
{
    let hk: [&str; 3] = ["horseName", "horse", "name"];
    let jk: [&str; 2] = ["jockeyName", "jockey"];
    let tk: [&str; 2] = ["trainerName", "trainer"];
    let ak: [&str; 4] = ["age", "horseAge", "ageYears", "ageYrs"];
    let horse = first_string_exec(o, &hk);
    let jockey = first_string_exec(o, &jk);
    let trainer = first_string_exec(o, &tk);
    let age = first_string_or_number_exec(o, &ak);
    assert(strs_view(hk@) =~= seq!["horseName"@, "horse"@, "name"@]);
    assert(strs_view(jk@) =~= seq!["jockeyName"@, "jockey"@]);
    assert(strs_view(tk@) =~= seq!["trainerName"@, "trainer"@]);
    assert(strs_view(ak@) =~= seq!["age"@, "horseAge"@, "ageYears"@, "ageYrs"@]);
    let (weight, weight_st, weight_lb) = extract_weight_any(o);
    if horse.is_some() && (jockey.is_some() || trainer.is_some()) {
        Some(RunnerRec { horse, jockey, trainer, age, weight, weight_st, weight_lb })
    } else {
        None
    }
}

/// The runners described by the objects of an array, in order.
pub fn candidates_exec(a: &Vec<JsonValue>) -> (res: Vec<RunnerRec>)
    ensures
        runners_view(res@) == candidates(a@),
{
    let mut out: Vec<RunnerRec> = Vec::new();
    let mut i: usize = 0;
    while i < a.len()
        invariant
            i <= a@.len(),
            runners_view(out@) == candidates(a@.take(i as int)),
        decreases a@.len() - i,
    {
        assert(a@.take(i + 1).drop_last() =~= a@.take(i as int));
        assert(a@.take(i + 1).last() == a@[i as int]);
        let ghost before = runners_view(out@);
        match &a[i] {
            JsonValue::Object(o) => match runner_from_object_exec(o) {
                Some(r) => {
                    let ghost rv = r@;
                    out.push(r);
                    assert(runners_view(out@) =~= before.push(rv));
                    assert(before.push(rv) =~= before + seq![rv]);
                },
                None => {
                    assert(before =~= before + Seq::<RunnerView>::empty());
                },
            },
            _ => {
                assert(before =~= before + Seq::<RunnerView>::empty());
            },
        }
        i = i + 1;
    }
    assert(a@.take(a@.len() as int) =~= a@);
    out
}

/// The best runner list after visiting `v`.
fn best_in_exec(v: &JsonValue, best: Vec<RunnerRec>) -> (res: Vec<RunnerRec>)
    ensures
        runners_view(res@) == best_in(*v, runners_view(best@)),
    decreases v,
{
    match v {
        JsonValue::Array(a) => {
            let c = candidates_exec(a);
            let mut b = if c.len() > best.len() {
                c
            } else {
                best
            };
            let ghost b1 = runners_view(b@);
            assert(a@.take(0) =~= Seq::<JsonValue>::empty());
            let mut i: usize = 0;
            while i < a.len()
                invariant
                    i <= a@.len(),
                    runners_view(b@) == best_in_values(a@.take(i as int), b1),
                    *v == JsonValue::Array(*a),
                decreases a@.len() - i,
            {
                assert(a@.take(i + 1).drop_last() =~= a@.take(i as int));
                assert(a@.take(i + 1).last() == a@[i as int]);
                assert(decreases_to!(*a => a[i as int]));
                assert(decreases_to!(*v => (*v)->Array_0));
                assert(decreases_to!(*v => a[i as int]));
                b = best_in_exec(&a[i], b);
                i = i + 1;
            }
            assert(a@.take(a@.len() as int) =~= a@);
            b
        },
        JsonValue::Object(o) => {
            let mut b = best;
            let ghost b0 = runners_view(b@);
            assert(o@.take(0) =~= Seq::<(String, JsonValue)>::empty());
            let mut i: usize = 0;
            while i < o.len()
                invariant
                    i <= o@.len(),
                    runners_view(b@) == best_in_members(o@.take(i as int), b0),
                    *v == JsonValue::Object(*o),
                decreases o@.len() - i,
            {
                assert(o@.take(i + 1).drop_last() =~= o@.take(i as int));
                assert(o@.take(i + 1).last() == o@[i as int]);
                assert(decreases_to!(*o => o[i as int]));
                assert(decreases_to!(*v => (*v)->Object_0));
                assert(decreases_to!(*v => o[i as int].1));
                b = best_in_exec(&o[i].1, b);
                i = i + 1;
            }
            assert(o@.take(o@.len() as int) =~= o@);
            b
        },
        _ => best,
    }
}

/// The runners of the data: those of the first array (in visiting order) with the
/// most runner objects.
pub fn extract_runners(v: &JsonValue) -> (res: Vec<RunnerRec>)
    ensures
        runners_view(res@) == runners_in(*v),
{
    let empty: Vec<RunnerRec> = Vec::new();
    assert(runners_view(empty@) =~= Seq::<RunnerView>::empty());
    best_in_exec(v, empty)
}


// ---------------------------------------------------------------------------
// Executable reading of race facts
// ---------------------------------------------------------------------------

/// Whether all four race facts are known.
fn all_found(m: &RaceMeta) -> (res: bool)
    ensures
        res == (m.course is Some && m.time is Some && m.race_name is Some && m.going is Some),
{
    m.course.is_some() && m.time.is_some() && m.race_name.is_some() && m.going.is_some()
}

/// The race facts after `m`, each kept when known, else the one `f` gives.
pub open spec fn meta_after(m: MetaView, v: JsonValue) -> MetaView {
    MetaView {
        course: keep_or(m.course, first_in(v, course_sel())),
        time: keep_or(m.time, first_in(v, time_sel())),
        race_name: keep_or(m.race_name, first_in(v, name_sel())),
        going: keep_or(m.going, first_in(v, going_sel())),
    }
}

/// The race facts after visiting the values of a sequence of members.
pub open spec fn meta_after_members(m: MetaView, o: Members) -> MetaView {
    MetaView {
        course: keep_or(m.course, first_in_members(o, course_sel())),
        time: keep_or(m.time, first_in_members(o, time_sel())),
        race_name: keep_or(m.race_name, first_in_members(o, name_sel())),
        going: keep_or(m.going, first_in_members(o, going_sel())),
    }
}

/// The race facts after visiting a sequence of values.
pub open spec fn meta_after_values(m: MetaView, a: Seq<JsonValue>) -> MetaView {
    MetaView {
        course: keep_or(m.course, first_in_values(a, course_sel())),
        time: keep_or(m.time, first_in_values(a, time_sel())),
        race_name: keep_or(m.race_name, first_in_values(a, name_sel())),
        going: keep_or(m.going, first_in_values(a, going_sel())),
    }
}

/// Fills the race facts that `m` lacks from the first objects of `v`, in visiting
/// order, that give them; below an object that completes them nothing is visited.
fn walk_meta(v: &JsonValue, m: &mut RaceMeta)
    ensures
        final(m)@ == meta_after(old(m)@, *v),
    decreases v,
{
    if all_found(m) {
        return;
    }
    match v {
        JsonValue::Object(o) => {
            let ck: [&str; 3] = ["courseName", "course", "meetingName"];
            let tk: [&str; 3] = ["raceTime", "time", "offTime"];
            let nk: [&str; 4] = ["raceTitle", "raceName", "name", "title"];
            let gk: [&str; 3] = ["going", "goingDescription", "surface"];
            assert(strs_view(ck@) =~= seq!["courseName"@, "course"@, "meetingName"@]);
            assert(strs_view(tk@) =~= seq!["raceTime"@, "time"@, "offTime"@]);
            assert(strs_view(nk@) =~= seq!["raceTitle"@, "raceName"@, "name"@, "title"@]);
            assert(strs_view(gk@) =~= seq!["going"@, "goingDescription"@, "surface"@]);
            if m.course.is_none() {
                m.course = first_string_exec(o, &ck);
            }
            if m.time.is_none() {
                m.time = first_string_exec(o, &tk);
            }
            if m.race_name.is_none() {
                match first_string_exec(o, &nk) {
                    Some(s) => {
                        let c = chars_of(s.as_str());
                        if byte_len_at_most(&c, 200) {
                            m.race_name = Some(s);
                        }
                    },
                    None => {},
                }
            }
            if m.going.is_none() {
                m.going = first_string_exec(o, &gk);
            }
            if all_found(m) {
                return;
            }
            let ghost m1 = m@;
            assert(o@.take(0) =~= Seq::<(String, JsonValue)>::empty());
            let mut i: usize = 0;
            while i < o.len()
                invariant
                    i <= o@.len(),
                    m@ == meta_after_members(m1, o@.take(i as int)),
                    *v == JsonValue::Object(*o),
                decreases o@.len() - i,
            {
                assert(o@.take(i + 1).drop_last() =~= o@.take(i as int));
                assert(o@.take(i + 1).last() == o@[i as int]);
                assert(decreases_to!(*o => o[i as int]));
                assert(decreases_to!(*v => (*v)->Object_0));
                assert(decreases_to!(*v => o[i as int].1));
                walk_meta(&o[i].1, m);
                i = i + 1;
            }
            assert(o@.take(o@.len() as int) =~= o@);
        },
        JsonValue::Array(a) => {
            let ghost m1 = m@;
            assert(a@.take(0) =~= Seq::<JsonValue>::empty());
            let mut i: usize = 0;
            while i < a.len()
                invariant
                    i <= a@.len(),
                    m@ == meta_after_values(m1, a@.take(i as int)),
                    *v == JsonValue::Array(*a),
                decreases a@.len() - i,
            {
                assert(a@.take(i + 1).drop_last() =~= a@.take(i as int));
                assert(a@.take(i + 1).last() == a@[i as int]);
                assert(decreases_to!(*a => a[i as int]));
                assert(decreases_to!(*v => (*v)->Array_0));
                assert(decreases_to!(*v => a[i as int]));
                walk_meta(&a[i], m);
                i = i + 1;
            }
            assert(a@.take(a@.len() as int) =~= a@);
        },
        _ => {},
    }
}

/// The race facts of the data: each the first found in visiting order.
pub fn extract_race_meta(v: &JsonValue) -> (res: RaceMeta)
    ensures
        res@ == meta_in(*v),
{
    let mut m = RaceMeta { course: None, time: None, race_name: None, going: None };
    walk_meta(v, &mut m);
    m
}


// ---------------------------------------------------------------------------
// Reading JSON text
// ---------------------------------------------------------------------------

/// A value parsed by `serde_json`, carried through unread.
#[verifier::external_type_specification]
#[verifier::external_body]
pub struct ExSerdeValue(serde_json::Value);

/// What JSON text parses to: `None` when it is not JSON.
pub uninterp spec fn json_text_value(text: Seq<char>) -> Option<JsonValue>;

/// The same value with its numbers as their text (`serde_json::Number`'s `Display`)
/// and its object members in the order `serde_json::Map` walks them. Nothing is
/// stated of it on its own: `parse_json_text` states what the two give together.
#[verifier::external_body]
fn json_from_serde(v: &serde_json::Value) -> JsonValue {
    match v {
        serde_json::Value::Null => JsonValue::Null,
        serde_json::Value::Bool(b) => JsonValue::Bool(*b),
        serde_json::Value::Number(n) => JsonValue::Number(n.to_string()),
        serde_json::Value::String(t) => JsonValue::Str(t.clone()),
        serde_json::Value::Array(a) => JsonValue::Array(a.iter().map(json_from_serde).collect()),
        serde_json::Value::Object(o) => JsonValue::Object(
            o.iter().map(|(k, x)| (k.clone(), json_from_serde(x))).collect(),
        ),
    }
}

/// Parses JSON text with `serde_json::from_str` into a `serde_json::Value` and
/// converts it; `None` when the parser refuses the text. The contract only names
/// the result: it depends on the text alone.
#[verifier::external_body]
pub(crate) fn parse_json_text(text: &str) -> (res: Option<JsonValue>)
    ensures
        res == json_text_value(text@),
{
    match serde_json::from_str::<serde_json::Value>(text) {
        Ok(v) => Some(json_from_serde(&v)),
        Err(_) => None,
    }
}

} // verus!
