//! Start times of the races on the time-order page, by race id: from the page's
//! Next.js data, else from the `HH:MM` nearest before each racecard link; and the
//! racecard urls still worth fetching today.
use vstd::prelude::*;
use chrono::{Datelike, TimeZone, Timelike};
use crate::text::{
    chars_of, trim, trimmed_chars, all_digits, digits_value, is_digit, is_digit_exec, byte_len,
    find, find_chars, ch, slice_chars, string_of, push_str, utf8_len_exec,
};
use crate::numbers::{parsed_i32, parsed_u32, parse_i32_text, parse_u32_text};
use crate::json::{JsonValue, Members, member_get, get_member, json_text_value, parse_json_text};
use crate::racecard::{next_data_of, extract_next_data_json};
use crate::racecard_urls::{
    url_stop_from, url_stop_exec, lemma_url_stop_ge, racecard_link, racecard_info_of, normalize_racecards_url,
    filter_racecard_detail_url, parse_racecard_detail_url, InfoView,
};
use crate::sorted::strings_view;

verus! {

/// An instant: seconds since the Unix epoch and nanoseconds into the second.
pub type Instant = (i64, u32);

/// `a` comes before `b`.
pub open spec fn instant_lt(a: Instant, b: Instant) -> bool {
    a.0 < b.0 || (a.0 == b.0 && a.1 < b.1)
}

/// `a` comes before `b` exactly when fewer nanoseconds have passed since the epoch
/// at `a` than at `b` (a second holding `10^9` nanoseconds).
pub proof fn lemma_instant_order(a: Instant, b: Instant)
    requires
        a.1 < 1_000_000_000,
        b.1 < 1_000_000_000,
    ensures
        instant_lt(a, b) <==> a.0 * 1_000_000_000 + a.1 < b.0 * 1_000_000_000 + b.1,
{
    let x: int = a.0 as int;
    let y: int = b.0 as int;
    let p: int = a.1 as int;
    let q: int = b.1 as int;
    if x < y {
        assert(x * 1_000_000_000 + p < y * 1_000_000_000 + q) by (nonlinear_arith)
            requires
                x < y,
                0 <= p < 1_000_000_000,
                0 <= q < 1_000_000_000,
        ;
    } else if x > y {
        assert(y * 1_000_000_000 + q < x * 1_000_000_000 + p) by (nonlinear_arith)
            requires
                y < x,
                0 <= p < 1_000_000_000,
                0 <= q < 1_000_000_000,
        ;
    }
}

/// Whether `a` comes before `b`.
pub fn instant_before(a: Instant, b: Instant) -> (res: bool)
    ensures
        res == instant_lt(a, b),
{
    a.0 < b.0 || (a.0 == b.0 && a.1 < b.1)
}

// ---------------------------------------------------------------------------
// Reading times
// ---------------------------------------------------------------------------

/// The instant an RFC 3339 text names.
pub uninterp spec fn rfc3339_instant(s: Seq<char>) -> Option<(i64, u32)>;

/// `chrono::DateTime::parse_from_rfc3339`, taken to UTC: the instant as seconds
/// since the epoch and nanoseconds; `None` when chrono refuses the text. The
/// contract names the result, which depends on the text alone.
#[verifier::external_body]
pub(crate) fn parse_rfc3339_instant(s: &str) -> (res: Option<(i64, u32)>)
    ensures
        res == rfc3339_instant(s@),
{
    match chrono::DateTime::parse_from_rfc3339(s) {
        Ok(dt) => {
            let utc = dt.with_timezone(&chrono::Utc);
            Some((utc.timestamp(), utc.timestamp_subsec_nanos()))
        },
        Err(_) => None,
    }
}

/// The date and time fields a text gives under a chrono format.
pub uninterp spec fn naive_fields(s: Seq<char>, fmt: Seq<char>) -> Option<(i32, u32, u32, u32, u32, u32, u32)>;

/// `chrono::NaiveDateTime::parse_from_str`: year, month, day, hour, minute, second
/// and nanosecond of the text under the format; `None` when chrono refuses it. The
/// contract names the result, which depends on the two texts alone.
#[verifier::external_body]
fn parse_naive_fields(s: &str, fmt: &str) -> (res: Option<(i32, u32, u32, u32, u32, u32, u32)>)
    ensures
        res == naive_fields(s@, fmt@),
{
    match chrono::NaiveDateTime::parse_from_str(s, fmt) {
        Ok(n) => Some((n.year(), n.month(), n.day(), n.hour(), n.minute(), n.second(), n.nanosecond())),
        Err(_) => None,
    }
}

/// The earliest instant at which London's clocks show a date and time.
pub uninterp spec fn london_earliest(y: i32, mo: u32, d: u32, h: u32, mi: u32, sec: u32, nano: u32) -> Option<(i64, u32)>;

/// A London wall-clock date and time as an instant: the fields are made a
/// `NaiveDateTime` with `NaiveDate::from_ymd_opt` and `and_hms_nano_opt` (`None` when
/// they are not a date and time), then `chrono_tz::Europe::London`'s
/// `from_local_datetime(..).earliest()` (`None` in a gap of the clocks) is taken to
/// UTC. The contract names the result, which depends on the fields alone.
#[verifier::external_body]
fn london_local_instant(y: i32, mo: u32, d: u32, h: u32, mi: u32, sec: u32, nano: u32) -> (res: Option<(i64, u32)>)
    ensures
        res == london_earliest(y, mo, d, h, mi, sec, nano),
{
    let date = chrono::NaiveDate::from_ymd_opt(y, mo, d)?;
    let local = date.and_hms_nano_opt(h, mi, sec, nano)?;
    let dt = chrono_tz::Europe::London.from_local_datetime(&local).earliest()?;
    let utc = dt.with_timezone(&chrono::Utc);
    Some((utc.timestamp(), utc.timestamp_subsec_nanos()))
}

/// A text read under a format as London wall-clock time.
pub open spec fn naive_london(t: Seq<char>, fmt: Seq<char>) -> Option<Instant> {
    match naive_fields(t, fmt) {
        Some(f) => london_earliest(f.0, f.1, f.2, f.3, f.4, f.5, f.6),
        None => None,
    }
}

/// The instant a race time names: RFC 3339 (a final `Z` read as `+00:00`), else
/// `YYYY-MM-DDTHH:MM[:SS[.f]]` London time.
pub open spec fn race_time_of(s: Seq<char>) -> Option<Instant> {
    let t = trim(s);
    if t.len() == 0 {
        None
    } else {
        let norm = if t.last() == 'Z' {
            t.drop_last() + "+00:00"@
        } else {
            t
        };
        match rfc3339_instant(norm) {
            Some(i) => Some(i),
            None => match naive_london(t, "%Y-%m-%dT%H:%M:%S%.f"@) {
                Some(i) => Some(i),
                None => match naive_london(t, "%Y-%m-%dT%H:%M:%S"@) {
                    Some(i) => Some(i),
                    None => naive_london(t, "%Y-%m-%dT%H:%M"@),
                },
            },
        }
    }
}

/// A text under a format, read as London time.
fn naive_london_exec(t: &str, fmt: &str) -> (res: Option<Instant>)
    ensures
        res == naive_london(t@, fmt@),
{
    match parse_naive_fields(t, fmt) {
        Some(f) => london_local_instant(f.0, f.1, f.2, f.3, f.4, f.5, f.6),
        None => None,
    }
}

/// The instant a race time names.
pub fn parse_race_time(s: &str) -> (res: Option<Instant>)
    ensures
        res == race_time_of(s@),
{
    let c = chars_of(s);
    let t = trimmed_chars(&c, 0, c.len());
    assert(c@.subrange(0, c@.len() as int) =~= c@);
    if t.len() == 0 {
        return None;
    }
    let ts = string_of(&t, 0, t.len());
    assert(t@.subrange(0, t@.len() as int) =~= t@);
    let norm = if t[t.len() - 1] == 'Z' {
        let mut n = string_of(&t, 0, t.len() - 1);
        push_str(&mut n, "+00:00");
        assert(t@.subrange(0, t@.len() - 1) =~= t@.drop_last());
        n
    } else {
        string_of(&t, 0, t.len())
    };
    match parse_rfc3339_instant(norm.as_str()) {
        Some(i) => Some(i),
        None => match naive_london_exec(ts.as_str(), "%Y-%m-%dT%H:%M:%S%.f") {
            Some(i) => Some(i),
            None => match naive_london_exec(ts.as_str(), "%Y-%m-%dT%H:%M:%S") {
                Some(i) => Some(i),
                None => naive_london_exec(ts.as_str(), "%Y-%m-%dT%H:%M"),
            },
        },
    }
}

// ---------------------------------------------------------------------------
// Race times in the data
// ---------------------------------------------------------------------------

/// A number's text read as a `u64`: serde_json writes only non-negative integers
/// as plain digits.
pub open spec fn number_u64(n: Seq<char>) -> Option<int> {
    if n.len() > 0 && all_digits(n) && digits_value(n) <= u64::MAX {
        Some(digits_value(n) as int)
    } else {
        None
    }
}

/// An `id` member that looks like a race id: a number, or a text that parses as a
/// `u64`, above 10000.
pub open spec fn big_id(x: JsonValue) -> bool {
    match x {
        JsonValue::Number(n) => number_u64(n@) matches Some(v) && v > 10000,
        JsonValue::Str(s) => crate::numbers::parsed_in(s@, false, 0, u64::MAX as int) matches Some(
            v,
        ) && v > 10000,
        _ => false,
    }
}

/// The race id of an object: its `raceId`, else an `id` that looks like one, as text
/// of ASCII digits.
pub open spec fn id_of_object(o: Members) -> Option<Seq<char>> {
    let raw = match member_get(o, "raceId"@) {
        Some(x) => Some(x),
        None => match member_get(o, "id"@) {
            Some(x) => if big_id(x) {
                Some(x)
            } else {
                None
            },
            None => None,
        },
    };
    let txt = match raw {
        Some(JsonValue::Number(n)) => Some(n@),
        Some(JsonValue::Str(s)) => Some(s@),
        _ => None,
    };
    match txt {
        Some(t) => if t.len() > 0 && all_digits(t) {
            Some(t)
        } else {
            None
        },
        None => None,
    }
}

/// The time text of an object: the first of `raceTime`, `offTime`, `startTime` it
/// has, when that is a string.
pub open spec fn time_text_of(o: Members) -> Option<Seq<char>> {
    let x = match member_get(o, "raceTime"@) {
        Some(x) => Some(x),
        None => match member_get(o, "offTime"@) {
            Some(x) => Some(x),
            None => member_get(o, "startTime"@),
        },
    };
    match x {
        Some(JsonValue::Str(s)) => Some(s@),
        _ => None,
    }
}

/// The race id and start of an object that has both.
pub open spec fn object_hit(o: Members) -> Option<(Seq<char>, Instant)> {
    match (id_of_object(o), time_text_of(o)) {
        (Some(id), Some(ts)) => match race_time_of(ts) {
            Some(t) => Some((id, t)),
            None => None,
        },
        _ => None,
    }
}

/// The race ids and starts of the objects of `v`, an object before what it holds,
/// no deeper than 30 levels below `depth`'s origin.
pub open spec fn time_hits(v: JsonValue, depth: int) -> Seq<(Seq<char>, Instant)>
    decreases v,
{
    if depth > 30 {
        Seq::empty()
    } else {
        match v {
            JsonValue::Object(o) => (match object_hit(o@) {
                Some(h) => seq![h],
                None => Seq::empty(),
            }) + time_hits_members(o@, depth + 1),
            JsonValue::Array(a) => time_hits_values(a@, depth + 1),
            _ => Seq::empty(),
        }
    }
}

pub open spec fn time_hits_values(a: Seq<JsonValue>, depth: int) -> Seq<(Seq<char>, Instant)>
    decreases a,
{
    if a.len() == 0 {
        Seq::empty()
    } else {
        time_hits_values(a.drop_last(), depth) + time_hits(a.last(), depth)
    }
}

pub open spec fn time_hits_members(o: Members, depth: int) -> Seq<(Seq<char>, Instant)>
    decreases o,
{
    if o.len() == 0 {
        Seq::empty()
    } else {
        time_hits_members(o.drop_last(), depth) + time_hits(o.last().1, depth)
    }
}

// ---------------------------------------------------------------------------
// Maps from race id to start
// ---------------------------------------------------------------------------

/// A time map as texts.
pub open spec fn time_map_view(m: Seq<(String, Instant)>) -> Seq<(Seq<char>, Instant)> {
    m.map_values(|e: (String, Instant)| (e.0@, e.1))
}

/// The map has an entry for `id`.
pub open spec fn has_id(m: Seq<(Seq<char>, Instant)>, id: Seq<char>) -> bool {
    exists|i: int| 0 <= i < m.len() && (#[trigger] m[i]).0 == id
}

/// A hit added unless its id is already there.
pub open spec fn with_hit(m: Seq<(Seq<char>, Instant)>, h: (Seq<char>, Instant)) -> Seq<(Seq<char>, Instant)> {
    if has_id(m, h.0) {
        m
    } else {
        m.push(h)
    }
}

/// Hits added in order, the first for each id kept.
pub open spec fn add_hits(m: Seq<(Seq<char>, Instant)>, hits: Seq<(Seq<char>, Instant)>) -> Seq<(Seq<char>, Instant)>
    decreases hits.len(),
{
    if hits.len() == 0 {
        m
    } else {
        with_hit(add_hits(m, hits.drop_last()), hits.last())
    }
}

/// Adding two runs of hits is adding the first, then the second.
pub proof fn lemma_add_hits_concat(
    m: Seq<(Seq<char>, Instant)>,
    a: Seq<(Seq<char>, Instant)>,
    b: Seq<(Seq<char>, Instant)>,
)
    ensures
        add_hits(m, a + b) == add_hits(add_hits(m, a), b),
    decreases b.len(),
{
    if b.len() == 0 {
        assert(a + b =~= a);
    } else {
        assert((a + b).drop_last() =~= a + b.drop_last());
        assert((a + b).last() == b.last());
        lemma_add_hits_concat(m, a, b.drop_last());
    }
}

/// The start under `id`, from the first entry with it.
pub open spec fn lookup_time(m: Seq<(Seq<char>, Instant)>, id: Seq<char>) -> Option<Instant>
    decreases m.len(),
{
    if m.len() == 0 {
        None
    } else {
        match lookup_time(m.drop_last(), id) {
            Some(t) => Some(t),
            None => if m.last().0 == id {
                Some(m.last().1)
            } else {
                None
            },
        }
    }
}

/// No race id appears twice in the map.
pub open spec fn unique_ids(m: Seq<(Seq<char>, Instant)>) -> bool {
    forall|i: int, j: int| 0 <= i < j < m.len() ==> (#[trigger] m[i]).0 != (#[trigger] m[j]).0
}

/// An id is in the map exactly when a start is found under it.
proof fn lemma_has_id_lookup(m: Seq<(Seq<char>, Instant)>, id: Seq<char>)
    ensures
        has_id(m, id) <==> lookup_time(m, id) is Some,
    decreases m.len(),
{
    if m.len() > 0 {
        lemma_has_id_lookup(m.drop_last(), id);
        if has_id(m, id) {
            let i = choose|i: int| 0 <= i < m.len() && (#[trigger] m[i]).0 == id;
            if i < m.len() - 1 {
                assert(m.drop_last()[i] == m[i]);
                assert(has_id(m.drop_last(), id));
            }
        }
        if has_id(m.drop_last(), id) {
            let i = choose|i: int| 0 <= i < m.drop_last().len() && (#[trigger] m.drop_last()[i]).0 == id;
            assert(m[i] == m.drop_last()[i]);
        }
    }
}

/// Adding hits to a map keeps its ids unique, and the map then gives each id the
/// start it already had, else the first start found for it among the hits.
pub proof fn lemma_add_hits_first_wins(
    m: Seq<(Seq<char>, Instant)>,
    hits: Seq<(Seq<char>, Instant)>,
    id: Seq<char>,
)
    requires
        unique_ids(m),
    ensures
        unique_ids(add_hits(m, hits)),
        lookup_time(add_hits(m, hits), id) == match lookup_time(m, id) {
            Some(t) => Some(t),
            None => lookup_time(hits, id),
        },
    decreases hits.len(),
{
    if hits.len() > 0 {
        lemma_add_hits_first_wins(m, hits.drop_last(), id);
        let a = add_hits(m, hits.drop_last());
        let h = hits.last();
        if !has_id(a, h.0) {
            let b = a.push(h);
            assert forall|i: int, j: int| 0 <= i < j < b.len() implies (#[trigger] b[i]).0 != (
            #[trigger] b[j]).0 by {
                if j == b.len() - 1 {
                    assert(b[i] == a[i]);
                    assert(!((#[trigger] a[i]).0 == h.0));
                } else {
                    assert(b[i] == a[i] && b[j] == a[j]);
                }
            }
            assert(b.drop_last() =~= a);
            lemma_has_id_lookup(a, h.0);
        } else {
            lemma_has_id_lookup(a, h.0);
        }
    } else {
        assert(hits.len() == 0);
    }
}

/// Adds a hit unless its id is already in the map.
fn insert_first(map: &mut Vec<(String, Instant)>, id: String, t: Instant)
    ensures
        time_map_view(final(map)@) == with_hit(time_map_view(old(map)@), (id@, t)),
{
    let ghost mv = time_map_view(map@);
    let ic = chars_of(id.as_str());
    let mut i: usize = 0;
    while i < map.len()
        invariant
            i <= map@.len(),
            mv == time_map_view(map@),
            ic@ == id@,
            forall|j: int| 0 <= j < i ==> (#[trigger] mv[j]).0 != id@,
        decreases map@.len() - i,
    {
        let kc = chars_of(map[i].0.as_str());
        assert(mv[i as int].0 == map@[i as int].0@);
        if crate::text::chars_eq(&kc, &ic) {
            assert(has_id(mv, id@));
            return;
        }
        i = i + 1;
    }
    map.push((id, t));
    assert(time_map_view(map@) =~= mv.push((id@, t)));
}

/// The start under a race id.
pub fn lookup_race_time(map: &Vec<(String, Instant)>, id: &str) -> (res: Option<Instant>)
    ensures
        res == lookup_time(time_map_view(map@), id@),
{
    let ghost mv = time_map_view(map@);
    let ic = chars_of(id);
    assert(mv.take(0) =~= Seq::<(Seq<char>, Instant)>::empty());
    let mut i: usize = 0;
    while i < map.len()
        invariant
            i <= map@.len(),
            mv == time_map_view(map@),
            ic@ == id@,
            lookup_time(mv.take(i as int), id@) is None,
        decreases map@.len() - i,
    {
        assert(mv.take(i + 1).drop_last() =~= mv.take(i as int));
        assert(mv.take(i + 1).last() == mv[i as int]);
        assert(mv[i as int] == (map@[i as int].0@, map@[i as int].1));
        let kc = chars_of(map[i].0.as_str());
        if crate::text::chars_eq(&kc, &ic) {
            proof {
                lemma_lookup_prefix(mv, id@, i + 1);
            }
            return Some(map[i].1);
        }
        i = i + 1;
    }
    assert(mv.take(map@.len() as int) =~= mv);
    None
}

/// The first entry found in a prefix is the one found in the whole.
proof fn lemma_lookup_prefix(m: Seq<(Seq<char>, Instant)>, id: Seq<char>, k: int)
    requires
        0 <= k <= m.len(),
        lookup_time(m.take(k), id) is Some,
    ensures
        lookup_time(m, id) == lookup_time(m.take(k), id),
    decreases m.len(),
{
    if k < m.len() {
        assert(m.drop_last().take(k) =~= m.take(k));
        lemma_lookup_prefix(m.drop_last(), id, k);
    } else {
        assert(m.take(k) =~= m);
    }
}


// ---------------------------------------------------------------------------
// Walking the data
// ---------------------------------------------------------------------------

/// Whether an `id` member looks like a race id.
fn big_id_exec(x: &JsonValue) -> (res: bool)
    ensures
        res == big_id(*x),
{
    match x {
        JsonValue::Number(n) => {
            let c = chars_of(n.as_str());
            match crate::numbers::digits_u64(&c) {
                Some(v) => v > 10000,
                None => false,
            }
        },
        JsonValue::Str(s) => {
            let c = chars_of(s.as_str());
            match crate::numbers::parse_u64_text(&c) {
                Some(v) => v > 10000,
                None => false,
            }
        },
        _ => false,
    }
}

/// Whether a text is one or more ASCII digits.
fn nonempty_digits(s: &str) -> (res: bool)
    ensures
        res == (s@.len() > 0 && all_digits(s@)),
{
    let c = chars_of(s);
    c.len() > 0 && crate::racecard_urls::all_digits_chars(&c)
}

/// The race id of an object.
fn id_of_object_exec(o: &Vec<(String, JsonValue)>) -> (res: Option<String>)
    ensures
        match res {
            Some(t) => id_of_object(o@) == Some(t@),
            None => id_of_object(o@) is None,
        },
{
    let raw = match get_member(o, "raceId") {
        Some(x) => Some(x),
        None => match get_member(o, "id") {
            Some(x) => if big_id_exec(x) {
                Some(x)
            } else {
                None
            },
            None => None,
        },
    };
    let txt = match raw {
        Some(JsonValue::Number(n)) => Some(n.clone()),
        Some(JsonValue::Str(s)) => Some(s.clone()),
        _ => None,
    };
    match txt {
        Some(t) => if nonempty_digits(t.as_str()) {
            Some(t)
        } else {
            None
        },
        None => None,
    }
}

/// The time text of an object.
fn time_text_exec(o: &Vec<(String, JsonValue)>) -> (res: Option<String>)
    ensures
        match res {
            Some(t) => time_text_of(o@) == Some(t@),
            None => time_text_of(o@) is None,
        },
{
    let x = match get_member(o, "raceTime") {
        Some(x) => Some(x),
        None => match get_member(o, "offTime") {
            Some(x) => Some(x),
            None => get_member(o, "startTime"),
        },
    };
    match x {
        Some(JsonValue::Str(s)) => Some(s.clone()),
        _ => None,
    }
}

/// Adds the race ids and starts of the objects of `v` to the map, the first start
/// of each id kept; nothing deeper than 30 levels below the origin of `depth`.
pub fn walk_for_times(v: &JsonValue, map: &mut Vec<(String, Instant)>, depth: u32)
    ensures
        time_map_view(final(map)@) == add_hits(time_map_view(old(map)@), time_hits(*v, depth as int)),
    decreases v,
{
    let ghost m0 = time_map_view(map@);
    if depth > 30 {
        return;
    }
    match v {
        JsonValue::Object(o) => {
            let hit = match (id_of_object_exec(o), time_text_exec(o)) {
                (Some(id), Some(ts)) => match parse_race_time(ts.as_str()) {
                    Some(t) => Some((id, t)),
                    None => None,
                },
                _ => None,
            };
            let ghost hs = match object_hit(o@) {
                Some(h) => seq![h],
                None => Seq::<(Seq<char>, Instant)>::empty(),
            };
            assert(add_hits(m0, Seq::<(Seq<char>, Instant)>::empty()) == m0);
            match hit {
                Some((id, t)) => {
                    let ghost h = (id@, t);
                    assert(object_hit(o@) == Some(h));
                    insert_first(map, id, t);
                    assert(hs == seq![h]);
                    assert(hs.drop_last() =~= Seq::<(Seq<char>, Instant)>::empty());
                    assert(hs.last() == h);
                },
                None => {
                    assert(object_hit(o@) is None);
                    assert(hs =~= Seq::<(Seq<char>, Instant)>::empty());
                },
            }
            assert(time_map_view(map@) == add_hits(m0, hs));
            let ghost m1 = time_map_view(map@);
            assert(o@.take(0) =~= Seq::<(String, JsonValue)>::empty());
            let mut i: usize = 0;
            while i < o.len()
                invariant
                    i <= o@.len(),
                    depth <= 30,
                    time_map_view(map@) == add_hits(m1, time_hits_members(o@.take(i as int), depth + 1)),
                    *v == JsonValue::Object(*o),
                decreases o@.len() - i,
            {
                assert(o@.take(i + 1).drop_last() =~= o@.take(i as int));
                assert(o@.take(i + 1).last() == o@[i as int]);
                proof {
                    lemma_add_hits_concat(
                        m1,
                        time_hits_members(o@.take(i as int), depth + 1),
                        time_hits(o@[i as int].1, depth + 1),
                    );
                }
                assert(decreases_to!(*o => o[i as int]));
                assert(decreases_to!(*v => (*v)->Object_0));
                assert(decreases_to!(*v => o[i as int].1));
                walk_for_times(&o[i].1, map, depth + 1);
                i = i + 1;
            }
            assert(o@.take(o@.len() as int) =~= o@);
            proof {
                lemma_add_hits_concat(m0, hs, time_hits_members(o@, depth + 1));
            }
        },
        JsonValue::Array(a) => {
            assert(a@.take(0) =~= Seq::<JsonValue>::empty());
            let mut i: usize = 0;
            while i < a.len()
                invariant
                    i <= a@.len(),
                    depth <= 30,
                    time_map_view(map@) == add_hits(m0, time_hits_values(a@.take(i as int), depth + 1)),
                    *v == JsonValue::Array(*a),
                decreases a@.len() - i,
            {
                assert(a@.take(i + 1).drop_last() =~= a@.take(i as int));
                assert(a@.take(i + 1).last() == a@[i as int]);
                proof {
                    lemma_add_hits_concat(
                        m0,
                        time_hits_values(a@.take(i as int), depth + 1),
                        time_hits(a@[i as int], depth + 1),
                    );
                }
                assert(decreases_to!(*a => a[i as int]));
                assert(decreases_to!(*v => (*v)->Array_0));
                assert(decreases_to!(*v => a[i as int]));
                walk_for_times(&a[i], map, depth + 1);
                i = i + 1;
            }
            assert(a@.take(a@.len() as int) =~= a@);
        },
        _ => {
            assert(add_hits(m0, Seq::empty()) == m0);
        },
    }
}


// ---------------------------------------------------------------------------
// Times of day in the page text
// ---------------------------------------------------------------------------

/// The value of an ASCII digit.
pub open spec fn digit_val(c: char) -> int {
    (c as u32) - 48
}

/// The `HH:MM` times in the text from character `k` on, as (position, hours,
/// minutes): two digits, a colon, two digits, a valid time, not preceded by a digit
/// or `-` nor followed by a digit or `.`; scanning resumes after each five-character
/// match, valid or not.
pub open spec fn hhmm_from(s: Seq<char>, k: int) -> Seq<(int, int, int)>
    decreases s.len() - k,
{
    if k < 0 || k + 5 > s.len() {
        Seq::empty()
    } else if is_digit(s[k]) && is_digit(s[k + 1]) && s[k + 2] == ':' && is_digit(s[k + 3])
        && is_digit(s[k + 4]) {
        let h = digit_val(s[k]) * 10 + digit_val(s[k + 1]);
        let m = digit_val(s[k + 3]) * 10 + digit_val(s[k + 4]);
        let before_ok = k == 0 || !(is_digit(s[k - 1]) || s[k - 1] == '-');
        let after_ok = k + 5 >= s.len() || !(is_digit(s[k + 5]) || s[k + 5] == '.');
        (if h < 24 && m < 60 && before_ok && after_ok {
            seq![(k, h, m)]
        } else {
            Seq::empty()
        }) + hhmm_from(s, k + 5)
    } else {
        hhmm_from(s, k + 1)
    }
}

/// Two characters read as a number of two digits.
proof fn lemma_two_digits(s: Seq<char>, p: int)
    requires
        0 <= p && p + 2 <= s.len(),
        is_digit(s[p]),
        is_digit(s[p + 1]),
    ensures
        all_digits(s.subrange(p, p + 2)),
        digits_value(s.subrange(p, p + 2)) == digit_val(s[p]) * 10 + digit_val(s[p + 1]),
{
    let x = s.subrange(p, p + 2);
    assert(x[0] == s[p] && x[1] == s[p + 1]);
    assert(x.drop_last().drop_last() =~= Seq::<char>::empty());
    assert(x.drop_last().last() == s[p]);
    assert(digits_value(x.drop_last()) == digits_value(x.drop_last().drop_last()) * 10 + ((s[p] as u32)
        - 48) as nat);
}

/// Each time found is written at its position as two digits, `:`, two digits, whose
/// values are its hours (under 24) and minutes (under 60); the times come in text
/// order, none overlapping the next.
pub proof fn lemma_hhmm_hits_as_written(s: Seq<char>, k: int)
    requires
        0 <= k,
    ensures
        forall|i: int|
            0 <= i < hhmm_from(s, k).len() ==> {
                let (p, h, m) = #[trigger] hhmm_from(s, k)[i];
                &&& k <= p && p + 5 <= s.len()
                &&& s[p + 2] == ':'
                &&& all_digits(s.subrange(p, p + 2)) && all_digits(s.subrange(p + 3, p + 5))
                &&& digits_value(s.subrange(p, p + 2)) == h && h < 24
                &&& digits_value(s.subrange(p + 3, p + 5)) == m && m < 60
            },
        forall|i: int, j: int|
            0 <= i < j < hhmm_from(s, k).len() ==> (#[trigger] hhmm_from(s, k)[i]).0 + 5 <= (
            #[trigger] hhmm_from(s, k)[j]).0,
    decreases s.len() - k,
{
    if k + 5 <= s.len() {
        if is_digit(s[k]) && is_digit(s[k + 1]) && s[k + 2] == ':' && is_digit(s[k + 3]) && is_digit(
            s[k + 4],
        ) {
            lemma_hhmm_hits_as_written(s, k + 5);
            lemma_two_digits(s, k);
            lemma_two_digits(s, k + 3);
            let rest = hhmm_from(s, k + 5);
            let all = hhmm_from(s, k);
            let h = digit_val(s[k]) * 10 + digit_val(s[k + 1]);
            let m = digit_val(s[k + 3]) * 10 + digit_val(s[k + 4]);
            let before_ok = k == 0 || !(is_digit(s[k - 1]) || s[k - 1] == '-');
            let after_ok = k + 5 >= s.len() || !(is_digit(s[k + 5]) || s[k + 5] == '.');
            let head: Seq<(int, int, int)> = if h < 24 && m < 60 && before_ok && after_ok {
                seq![(k, h, m)]
            } else {
                Seq::empty()
            };
            assert(all == head + rest);
            assert forall|i: int| 0 <= i < all.len() implies {
                let (p, h, m) = #[trigger] all[i];
                &&& k <= p && p + 5 <= s.len()
                &&& s[p + 2] == ':'
                &&& all_digits(s.subrange(p, p + 2)) && all_digits(s.subrange(p + 3, p + 5))
                &&& digits_value(s.subrange(p, p + 2)) == h && h < 24
                &&& digits_value(s.subrange(p + 3, p + 5)) == m && m < 60
            } by {
                if i >= head.len() {
                    assert(all[i] == rest[i - head.len()]);
                } else {
                    assert(all[i] == head[i]);
                }
            }
            assert forall|i: int, j: int| 0 <= i < j < all.len() implies (#[trigger] all[i]).0 + 5 <= (
            #[trigger] all[j]).0 by {
                if i >= head.len() {
                    assert(all[i] == rest[i - head.len()]);
                    assert(all[j] == rest[j - head.len()]);
                } else {
                    assert(all[i] == head[i]);
                    assert(all[j] == rest[j - head.len()]);
                }
            }
        } else {
            lemma_hhmm_hits_as_written(s, k + 1);
            assert(hhmm_from(s, k) == hhmm_from(s, k + 1));
        }
    } else {
        assert(hhmm_from(s, k) == Seq::<(int, int, int)>::empty());
    }
}

/// The times of a list as integers.
pub open spec fn hits_view(v: Seq<(usize, u32, u32)>) -> Seq<(int, int, int)> {
    v.map_values(|t: (usize, u32, u32)| (t.0 as int, t.1 as int, t.2 as int))
}

/// The value of an ASCII digit.
fn digit_val_exec(c: char) -> (res: u32)
    requires
        is_digit(c),
    ensures
        res == digit_val(c),
        res < 10,
{
    (c as u32) - 48
}

/// The `HH:MM` times of a text, with character positions.
pub fn hhmm_positions(s: &[char]) -> (res: Vec<(usize, u32, u32)>)
    ensures
        hits_view(res@) == hhmm_from(s@, 0),
{
    let mut out: Vec<(usize, u32, u32)> = Vec::new();
    let mut k: usize = 0;
    while s.len() >= 5 && k <= s.len() - 5
        invariant
            hits_view(out@) + hhmm_from(s@, k as int) == hhmm_from(s@, 0),
        decreases s@.len() - k,
    {
        if is_digit_exec(s[k]) && is_digit_exec(s[k + 1]) && s[k + 2] == ':' && is_digit_exec(s[k + 3])
            && is_digit_exec(s[k + 4]) {
            let h = digit_val_exec(s[k]) * 10 + digit_val_exec(s[k + 1]);
            let m = digit_val_exec(s[k + 3]) * 10 + digit_val_exec(s[k + 4]);
            let before_ok = k == 0 || !(is_digit_exec(s[k - 1]) || s[k - 1] == '-');
            let after_ok = k + 5 >= s.len() || !(is_digit_exec(s[k + 5]) || s[k + 5] == '.');
            let ghost before = hits_view(out@);
            let ghost rest = hhmm_from(s@, k + 5);
            if h < 24 && m < 60 && before_ok && after_ok {
                out.push((k, h, m));
                assert(hits_view(out@) =~= before.push((k as int, h as int, m as int)));
                assert(before.push((k as int, h as int, m as int)) + rest =~= before + (seq![(k as int, h as int, m as int)] + rest));
            } else {
                assert(Seq::<(int, int, int)>::empty() + rest =~= rest);
            }
            k = k + 5;
        } else {
            k = k + 1;
        }
    }
    assert(hhmm_from(s@, k as int) =~= Seq::<(int, int, int)>::empty());
    assert(hits_view(out@) =~= hhmm_from(s@, 0));
    out
}

/// The positions of a scan are in order, at or after where it starts.
proof fn lemma_hhmm_ordered(s: Seq<char>, k: int)
    requires
        0 <= k,
    ensures
        forall|i: int| 0 <= i < hhmm_from(s, k).len() ==> k <= (#[trigger] hhmm_from(s, k)[i]).0
            && hhmm_from(s, k)[i].0 + 5 <= s.len(),
        forall|i: int, j: int|
            0 <= i < j < hhmm_from(s, k).len() ==> (#[trigger] hhmm_from(s, k)[i]).0 < (
            #[trigger] hhmm_from(s, k)[j]).0,
    decreases s.len() - k,
{
    if k + 5 > s.len() {
        assert(hhmm_from(s, k) =~= Seq::<(int, int, int)>::empty());
    } else if is_digit(s[k]) && is_digit(s[k + 1]) && s[k + 2] == ':' && is_digit(s[k + 3])
        && is_digit(s[k + 4]) {
        lemma_hhmm_ordered(s, k + 5);
        let r = hhmm_from(s, k + 5);
        let f = hhmm_from(s, k);
        let h = digit_val(s[k]) * 10 + digit_val(s[k + 1]);
        let m = digit_val(s[k + 3]) * 10 + digit_val(s[k + 4]);
        let before_ok = k == 0 || !(is_digit(s[k - 1]) || s[k - 1] == '-');
        let after_ok = k + 5 >= s.len() || !(is_digit(s[k + 5]) || s[k + 5] == '.');
        if h < 24 && m < 60 && before_ok && after_ok {
            assert(f == seq![(k, h, m)] + r);
            assert forall|i: int| 0 <= i < f.len() implies k <= (#[trigger] f[i]).0 && f[i].0 + 5
                <= s.len() by {
                if i >= 1 {
                    assert(f[i] == r[i - 1]);
                }
            }
            assert forall|i: int, j: int| 0 <= i < j < f.len() implies (#[trigger] f[i]).0 < (
            #[trigger] f[j]).0 by {
                assert(f[j] == r[j - 1]);
                if i >= 1 {
                    assert(f[i] == r[i - 1]);
                }
            }
        } else {
            assert(f =~= r);
        }
    } else {
        lemma_hhmm_ordered(s, k + 1);
        assert(hhmm_from(s, k) == hhmm_from(s, k + 1));
    }
}

/// The `HH:MM` times of a page as (byte position, hours, minutes).
pub fn extract_hhmm_positions(html: &str) -> (res: Vec<(usize, u32, u32)>)
    requires
        byte_len(html@) <= usize::MAX,
    ensures
        hits_view(res@) == hhmm_from(html@, 0).map_values(
            |t: (int, int, int)| (byte_len(html@.take(t.0)) as int, t.1, t.2),
        ),
{
    let s = chars_of(html);
    let hits = hhmm_positions(&s);
    proof {
        lemma_hhmm_ordered(s@, 0);
    }
    let ghost hv = hits_view(hits@);
    let mut out: Vec<(usize, u32, u32)> = Vec::new();
    let mut cur: usize = 0;
    let mut acc: usize = 0;
    let mut n: usize = 0;
    assert(s@.take(0) =~= Seq::<char>::empty());
    while n < hits.len()
        invariant
            n <= hits@.len(),
            s@ == html@,
            hv == hits_view(hits@),
            hv == hhmm_from(s@, 0),
            byte_len(s@) <= usize::MAX,
            forall|i: int| 0 <= i < hv.len() ==> (#[trigger] hv[i]).0 + 5 <= s@.len(),
            forall|i: int, j: int| 0 <= i < j < hv.len() ==> (#[trigger] hv[i]).0 < (#[trigger] hv[j]).0,
            n > 0 ==> cur == hv[n - 1].0,
            n == 0 ==> cur == 0,
            cur <= s@.len(),
            acc == byte_len(s@.take(cur as int)),
            out@.len() == n,
            forall|i: int| 0 <= i < n ==> #[trigger] hits_view(out@)[i] == (
                byte_len(s@.take(hv[i].0)) as int,
                hv[i].1,
                hv[i].2,
            ),
        decreases hits@.len() - n,
    {
        let (p, h, m) = hits[n];
        assert(hv[n as int] == (p as int, h as int, m as int));
        assert(cur <= p) by {
            if n > 0 {
                assert(hv[n - 1].0 < hv[n as int].0);
            }
        }
        while cur < p
            invariant
                cur <= p,
                p + 5 <= s@.len(),
                byte_len(s@) <= usize::MAX,
                acc == byte_len(s@.take(cur as int)),
            decreases p - cur,
        {
            proof {
                crate::text::lemma_byte_len_split(s@, 0, cur as int, cur + 1);
                crate::text::lemma_byte_len_one(s@, cur as int);
                crate::text::lemma_byte_len_split(s@, 0, cur + 1, s@.len() as int);
                assert(s@.take(cur as int) =~= s@.subrange(0, cur as int));
                assert(s@.take(cur + 1) =~= s@.subrange(0, cur + 1));
                assert(s@.subrange(0, s@.len() as int) =~= s@);
            }
            acc = acc + utf8_len_exec(s[cur]);
            cur = cur + 1;
        }
        let ghost before = hits_view(out@);
        out.push((acc, h, m));
        assert(hits_view(out@) =~= before.push((acc as int, h as int, m as int)));
        n = n + 1;
    }
    assert(hits_view(out@) =~= hhmm_from(html@, 0).map_values(
        |t: (int, int, int)| (byte_len(html@.take(t.0)) as int, t.1, t.2),
    ));
    out
}


// ---------------------------------------------------------------------------
// Starts read from the page around the racecard links
// ---------------------------------------------------------------------------

/// Year, month and day of a `Y-M-D` text (`splitn(3, '-')`, each part parsed).
pub open spec fn date_fields(d: Seq<char>) -> Option<(i32, u32, u32)> {
    match find(d, ch('-')) {
        None => None,
        Some(i) => {
            let r = d.subrange(i + 1, d.len() as int);
            match find(r, ch('-')) {
                None => None,
                Some(j) => match (
                    parsed_i32(d.subrange(0, i)),
                    parsed_u32(r.subrange(0, j)),
                    parsed_u32(r.subrange(j + 1, r.len() as int)),
                ) {
                    (Some(y), Some(mo), Some(dd)) => Some((y as i32, mo as u32, dd as u32)),
                    _ => None,
                },
            }
        },
    }
}

/// Year, month and day of a date text.
pub fn date_fields_exec(d: &str) -> (res: Option<(i32, u32, u32)>)
    ensures
        res == date_fields(d@),
{
    let c = chars_of(d);
    let dash: [char; 1] = ['-'];
    assert(dash@ =~= ch('-'));
    let i = match find_chars(&c, 0, &dash) {
        None => {
            return None;
        },
        Some(i) => i,
    };
    let r = slice_chars(&c, i + 1, c.len());
    let j = match find_chars(&r, 0, &dash) {
        None => {
            return None;
        },
        Some(j) => j,
    };
    let p0 = slice_chars(&c, 0, i);
    let p1 = slice_chars(&r, 0, j);
    let p2 = slice_chars(&r, j + 1, r.len());
    match (parse_i32_text(&p0), parse_u32_text(&p1), parse_u32_text(&p2)) {
        (Some(y), Some(mo), Some(dd)) => Some((y, mo, dd)),
        _ => None,
    }
}

/// The time of the last `HH:MM` before the link at `url_idx` and at most 2000
/// bytes before it.
pub open spec fn last_time_before(times: Seq<(int, int, int)>, h: Seq<char>, url_idx: int) -> Option<(int, int)>
    decreases times.len(),
{
    if times.len() == 0 {
        None
    } else {
        let t = times.last();
        if 0 <= t.0 < url_idx && byte_len(h.subrange(t.0, url_idx)) <= 2000 {
            Some((t.1, t.2))
        } else {
            last_time_before(times.drop_last(), h, url_idx)
        }
    }
}

/// The time of the last `HH:MM` in the 2000 bytes before a link.
fn last_time_before_exec(times: &Vec<(usize, u32, u32)>, h: &[char], url_idx: usize) -> (res: Option<(u32, u32)>)
    requires
        url_idx <= h@.len(),
        forall|i: int| 0 <= i < times@.len() ==> (#[trigger] times@[i]).0 <= h@.len(),
    ensures
        match res {
            Some((a, b)) => last_time_before(hits_view(times@), h@, url_idx as int) == Some((a as int, b as int)),
            None => last_time_before(hits_view(times@), h@, url_idx as int) is None,
        },
{
    let ghost tv = hits_view(times@);
    let mut n = times.len();
    assert(tv.take(n as int) =~= tv);
    while n > 0
        invariant
            n <= times@.len(),
            url_idx <= h@.len(),
            tv == hits_view(times@),
            forall|i: int| 0 <= i < times@.len() ==> (#[trigger] times@[i]).0 <= h@.len(),
            last_time_before(tv, h@, url_idx as int) == last_time_before(tv.take(n as int), h@, url_idx as int),
        decreases n,
    {
        let (p, a, b) = times[n - 1];
        assert(tv.take(n as int).last() == tv[n - 1]);
        assert(tv.take(n as int).drop_last() =~= tv.take(n - 1));
        assert(tv[n - 1] == (p as int, a as int, b as int));
        if p < url_idx {
            let e = crate::text::forward_by_bytes(h, p, 2000);
            proof {
                if url_idx <= e {
                    crate::text::lemma_byte_len_split(h@, p as int, url_idx as int, e as int);
                } else {
                    crate::text::lemma_byte_len_split(h@, p as int, e + 1, url_idx as int);
                }
            }
            if url_idx <= e {
                return Some((a, b));
            }
        }
        n = n - 1;
    }
    None
}

/// The race ids and starts read from the page from `start` on: for each racecard
/// link, the last `HH:MM` in the 2000 bytes before it, on the given date, London
/// time.
pub open spec fn proximity_hits_from(
    h: Seq<char>,
    times: Seq<(int, int, int)>,
    date: (i32, u32, u32),
    start: int,
) -> Seq<(Seq<char>, Instant)>
    decreases h.len() - start,
{
    if start < 0 || start > h.len() {
        Seq::empty()
    } else {
        match crate::text::find_from(h, start, "/racecards/"@) {
            None => Seq::empty(),
            Some(idx) => {
                let end = url_stop_from(h, idx);
                if end <= start || end > h.len() {
                    Seq::empty()
                } else {
                    (match racecard_link(h.subrange(idx, end)) {
                        Some(u) => match racecard_info_of(u) {
                            Some(info) => match last_time_before(times, h, idx) {
                                Some((hh, mm)) => match london_earliest(
                                    date.0,
                                    date.1,
                                    date.2,
                                    hh as u32,
                                    mm as u32,
                                    0,
                                    0,
                                ) {
                                    Some(t) => seq![(info.3, t)],
                                    None => Seq::empty(),
                                },
                                None => Seq::empty(),
                            },
                            None => Seq::empty(),
                        },
                        None => Seq::empty(),
                    }) + proximity_hits_from(h, times, date, end)
                }
            },
        }
    }
}

/// The starts read from the page around its racecard links, on the date of the
/// `Y-M-D` text; none when the text is not a date.
pub open spec fn proximity_map(h: Seq<char>, d: Seq<char>) -> Seq<(Seq<char>, Instant)> {
    match date_fields(d) {
        None => Seq::empty(),
        Some(dt) => add_hits(Seq::empty(), proximity_hits_from(h, hhmm_from(h, 0), dt, 0)),
    }
}

/// The starts of the races from the page text around its racecard links.
pub fn build_race_time_map_proximity(html: &str, results_date: &str) -> (res: Vec<(String, Instant)>)
    ensures
        time_map_view(res@) == proximity_map(html@, results_date@),
{
    let mut map: Vec<(String, Instant)> = Vec::new();
    let date = match date_fields_exec(results_date) {
        None => {
            return map;
        },
        Some(d) => d,
    };
    let h = chars_of(html);
    let times = hhmm_positions(&h);
    proof {
        lemma_hhmm_ordered(h@, 0);
        assert forall|i: int| 0 <= i < times@.len() implies (#[trigger] times@[i]).0 <= h@.len() by {
            assert(hits_view(times@)[i].0 == times@[i].0);
        }
    }
    let needle = chars_of("/racecards/");
    let ghost tv = hits_view(times@);
    let ghost all = proximity_hits_from(h@, tv, date, 0);
    let ghost done: Seq<(Seq<char>, Instant)> = Seq::empty();
    assert(time_map_view(map@) =~= add_hits(Seq::empty(), done));
    assert(done + all =~= all);
    let mut start: usize = 0;
    loop
        invariant
            start <= h@.len(),
            h@ == html@,
            needle@ == "/racecards/"@,
            tv == hits_view(times@),
            tv == hhmm_from(h@, 0),
            forall|i: int| 0 <= i < times@.len() ==> (#[trigger] times@[i]).0 <= h@.len(),
            all == proximity_hits_from(h@, tv, date, 0),
            done + proximity_hits_from(h@, tv, date, start as int) == all,
            time_map_view(map@) == add_hits(Seq::empty(), done),
        ensures
            time_map_view(map@) == add_hits(Seq::empty(), all),
        decreases h@.len() - start,
    {
        proof {
            reveal_strlit("/racecards/");
        }
        let idx = match find_chars(&h, start, &needle) {
            None => {
                assert(proximity_hits_from(h@, tv, date, start as int) =~= Seq::<(Seq<char>, Instant)>::empty());
                assert(done =~= all);
                break;
            },
            Some(i) => i,
        };
        proof {
            crate::text::lemma_find_from(h@, start as int, needle@);
            assert(h@.subrange(idx as int, idx + 11) == needle@);
            assert(h@[idx as int] == h@.subrange(idx as int, idx + 11)[0]);
        }
        let end = url_stop_exec(&h, idx);
        assert(end > idx) by {
            assert(h@[idx as int] == '/');
            lemma_url_stop_ge(h@, idx + 1);
        }
        let raw = slice_chars(&h, idx, end);
        let raw_s = string_of(&raw, 0, raw.len());
        assert(raw@.subrange(0, raw@.len() as int) =~= raw@);
        let ghost rest = proximity_hits_from(h@, tv, date, end as int);
        let mut hit: Option<(String, Instant)> = None;
        match normalize_racecards_url(raw_s.as_str()) {
            Some(u) => match filter_racecard_detail_url(u) {
                Some(v) => match parse_racecard_detail_url(v.as_str()) {
                    Some(info) => match last_time_before_exec(&times, &h, idx) {
                        Some((hh, mm)) => match london_local_instant(date.0, date.1, date.2, hh, mm, 0, 0) {
                            Some(t) => {
                                hit = Some((info.race_id, t));
                            },
                            None => {},
                        },
                        None => {},
                    },
                    None => {},
                },
                None => {},
            },
            None => {},
        }
        let ghost piece = match &hit {
            Some((id, t)) => seq![(id@, *t)],
            None => Seq::<(Seq<char>, Instant)>::empty(),
        };
        assert(proximity_hits_from(h@, tv, date, start as int) == piece + rest);
        proof {
            lemma_add_hits_concat(Seq::empty(), done, piece);
            assert(done + piece + rest =~= done + (piece + rest));
        }
        let ghost m_before = time_map_view(map@);
        assert(add_hits(m_before, Seq::<(Seq<char>, Instant)>::empty()) == m_before);
        match hit {
            Some((id, t)) => {
                let ghost hh = (id@, t);
                insert_first(&mut map, id, t);
                assert(piece == seq![hh]);
                assert(piece.drop_last() =~= Seq::<(Seq<char>, Instant)>::empty());
                assert(piece.last() == hh);
            },
            None => {
                assert(piece =~= Seq::<(Seq<char>, Instant)>::empty());
            },
        }
        proof {
            done = done + piece;
        }
        start = end;
    }
    map
}


// ---------------------------------------------------------------------------
// The start of each race
// ---------------------------------------------------------------------------

/// The starts of the races of a page whose Next.js data parsed to `data`: from the
/// data, else, when the data gives none, from the text around the racecard links.
pub open spec fn race_time_map(h: Seq<char>, d: Seq<char>, data: Option<JsonValue>) -> Seq<(Seq<char>, Instant)> {
    let from_data = match data {
        Some(v) => add_hits(Seq::empty(), time_hits(v, 0)),
        None => Seq::empty(),
    };
    if from_data.len() == 0 {
        proximity_map(h, d)
    } else {
        from_data
    }
}

/// The starts of the races of a page, given its parsed Next.js data.
pub fn race_time_map_with_data(html: &str, results_date: &str, data: &Option<JsonValue>) -> (res: Vec<(String, Instant)>)
    ensures
        time_map_view(res@) == race_time_map(html@, results_date@, *data),
{
    let mut map: Vec<(String, Instant)> = Vec::new();
    assert(time_map_view(map@) =~= Seq::<(Seq<char>, Instant)>::empty());
    match data {
        Some(v) => {
            walk_for_times(v, &mut map, 0);
        },
        None => {},
    }
    if map.len() == 0 {
        build_race_time_map_proximity(html, results_date)
    } else {
        map
    }
}

/// The starts of the races of the time-order page, by race id.
pub fn build_race_time_map(html: &str, results_date: &str) -> (res: Vec<(String, Instant)>)
    ensures
        time_map_view(res@) == race_time_map(
            html@,
            results_date@,
            crate::racecard_page::page_data(html@),
        ),
{
    let data = crate::racecard_page::page_data_exec(html);
    race_time_map_with_data(html, results_date, &data)
}

// ---------------------------------------------------------------------------
// Racecards still worth fetching
// ---------------------------------------------------------------------------

/// The race id of a racecard url, empty when it names none.
pub open spec fn url_race_id(u: Seq<char>) -> Seq<char> {
    match racecard_info_of(u) {
        Some(i) => i.3,
        None => Seq::empty(),
    }
}

/// A race that has not started by `now`, or whose start is not known.
pub open spec fn still_to_run(u: Seq<char>, m: Seq<(Seq<char>, Instant)>, now: Instant) -> bool {
    match lookup_time(m, url_race_id(u)) {
        None => true,
        Some(t) => !instant_lt(t, now),
    }
}

/// The urls of the races still to run, in order.
pub open spec fn urls_still_to_run(us: Seq<Seq<char>>, m: Seq<(Seq<char>, Instant)>, now: Instant) -> Seq<Seq<char>>
    decreases us.len(),
{
    if us.len() == 0 {
        Seq::empty()
    } else {
        urls_still_to_run(us.drop_last(), m, now) + if still_to_run(us.last(), m, now) {
            seq![us.last()]
        } else {
            Seq::empty()
        }
    }
}

/// On the day itself no race known to start before `now` is fetched, and every race
/// not started by then (its start at or after `now`, or not known) is: the urls kept
/// are exactly those of the list whose start is not before `now`.
pub proof fn lemma_fetch_only_races_to_come(us: Seq<Seq<char>>, m: Seq<(Seq<char>, Instant)>, now: Instant)
    ensures
        forall|u: Seq<char>|
            urls_still_to_run(us, m, now).contains(u) ==> us.contains(u) && !(lookup_time(
                m,
                url_race_id(u),
            ) matches Some(t) && instant_lt(t, now)),
        forall|i: int|
            0 <= i < us.len() && !(lookup_time(m, url_race_id(us[i])) matches Some(t) && instant_lt(
                t,
                now,
            )) ==> urls_still_to_run(us, m, now).contains(#[trigger] us[i]),
    decreases us.len(),
{
    if us.len() > 0 {
        let d = us.drop_last();
        let x = us.last();
        lemma_fetch_only_races_to_come(d, m, now);
        let prev = urls_still_to_run(d, m, now);
        let tail: Seq<Seq<char>> = if still_to_run(x, m, now) {
            seq![x]
        } else {
            Seq::empty()
        };
        let all = urls_still_to_run(us, m, now);
        assert(all == prev + tail);
        assert forall|u: Seq<char>| all.contains(u) implies us.contains(u) && !(lookup_time(
            m,
            url_race_id(u),
        ) matches Some(t) && instant_lt(t, now)) by {
            let k = choose|k: int| 0 <= k < all.len() && all[k] == u;
            if k < prev.len() {
                assert(prev[k] == u);
                assert(prev.contains(u));
                assert(d.contains(u));
                let j = choose|j: int| 0 <= j < d.len() && d[j] == u;
                assert(us[j] == u);
            } else {
                assert(tail[k - prev.len()] == u);
                assert(u == x);
                assert(us[us.len() - 1] == u);
            }
        }
        assert forall|i: int|
            0 <= i < us.len() && !(lookup_time(m, url_race_id(us[i])) matches Some(t) && instant_lt(
                t,
                now,
            )) implies all.contains(#[trigger] us[i]) by {
            if i < d.len() {
                assert(us[i] == d[i]);
                assert(prev.contains(d[i]));
                let k = choose|k: int| 0 <= k < prev.len() && prev[k] == d[i];
                assert(all[k] == prev[k]);
            } else {
                assert(us[i] == x);
                assert(all[prev.len() as int] == x);
            }
        }
    }
}

/// The racecard urls to fetch: on the day itself (`same_day`) those of races not
/// started by `now`, else all of them.
pub fn urls_to_download(
    urls: &Vec<String>,
    map: &Vec<(String, Instant)>,
    now: Instant,
    same_day: bool,
) -> (res: Vec<String>)
    ensures
        strings_view(res@) == if same_day {
            urls_still_to_run(strings_view(urls@), time_map_view(map@), now)
        } else {
            strings_view(urls@)
        },
{
    let ghost uv = strings_view(urls@);
    let mut out: Vec<String> = Vec::new();
    let mut i: usize = 0;
    assert(uv.take(0) =~= Seq::<Seq<char>>::empty());
    while i < urls.len()
        invariant
            i <= urls@.len(),
            uv == strings_view(urls@),
            strings_view(out@) == if same_day {
                urls_still_to_run(uv.take(i as int), time_map_view(map@), now)
            } else {
                uv.take(i as int)
            },
        decreases urls@.len() - i,
    {
        assert(uv.take(i + 1).drop_last() =~= uv.take(i as int));
        assert(uv.take(i + 1).last() == urls@[i as int]@);
        let ghost before = strings_view(out@);
        let keep = if same_day {
            let id = match parse_racecard_detail_url(urls[i].as_str()) {
                Some(info) => info.race_id,
                None => String::new(),
            };
            match lookup_race_time(map, id.as_str()) {
                None => true,
                Some(t) => !instant_before(t, now),
            }
        } else {
            true
        };
        if keep {
            out.push(urls[i].clone());
            assert(strings_view(out@) =~= before.push(urls@[i as int]@));
        }
        assert(strings_view(out@) =~= if same_day {
            urls_still_to_run(uv.take(i + 1), time_map_view(map@), now)
        } else {
            uv.take(i + 1)
        });
        i = i + 1;
    }
    assert(uv.take(urls@.len() as int) =~= uv);
    out
}

} // verus!
