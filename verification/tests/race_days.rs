use racingpost_scraper::history_sql::{
    build_athena_history_sql_for_day, build_in_list_sql, collect_names, infer_ymd_from_path,
    sql_string_literal,
};
use racingpost_scraper::json::JsonValue;
use racingpost_scraper::numbers::{parse_i32_text, parse_i64_text, parse_u32_text, parse_u64_text};
use racingpost_scraper::race_table::{
    day_contexts, day_names, filter_recent_races, group_race_rows, kept_at, race_start, races_from_rows,
    sort_races,
    DayLookup, RaceKey, RaceRow, RaceTableError, RunnerMini,
};
use racingpost_scraper::race_text::{
    derive_course_from_race_name, html_escape, is_non_runner, norm_key, parse_i64,
    parse_time_minutes_from_title, time_minutes_since_midnight,
};
use racingpost_scraper::race_times::{
    build_race_time_map, build_race_time_map_proximity, date_fields_exec, extract_hhmm_positions,
    lookup_race_time, parse_race_time, race_time_map_with_data, urls_to_download, walk_for_times,
};
use racingpost_scraper::racecard::RunnerRec;
use racingpost_scraper::racecard_urls::{
    extract_racecard_urls, filter_racecard_detail_url, is_racecard_detail_path,
    normalize_racecards_url, parse_racecard_detail_url, racecard_html_path,
};

fn s(t: &str) -> String {
    t.to_string()
}

fn chars(t: &str) -> Vec<char> {
    t.chars().collect()
}

fn st(t: &str) -> JsonValue {
    JsonValue::Str(t.to_string())
}

fn num(t: &str) -> JsonValue {
    JsonValue::Number(t.to_string())
}

fn obj(members: Vec<(&str, JsonValue)>) -> JsonValue {
    JsonValue::Object(members.into_iter().map(|(k, v)| (k.to_string(), v)).collect())
}

// 2024-05-01T13:30:00Z and 2024-05-01T14:30:00Z.
const T1330: i64 = 1714570200;
const T1430: i64 = 1714573800;

#[test]
fn sql_literals_double_quotes() {
    assert_eq!(sql_string_literal("O'Brien"), "'O''Brien'");
    assert_eq!(sql_string_literal(""), "''");
    assert_eq!(sql_string_literal("''"), "''''''");
}

#[test]
fn in_lists_are_sorted_and_unique() {
    let v = vec![s("b"), s("a"), s("b"), s("O'Neil")];
    assert_eq!(build_in_list_sql(&v), Some(s("'O''Neil', 'a', 'b'")));
    let shuffled = vec![s("a"), s("O'Neil"), s("b")];
    assert_eq!(build_in_list_sql(&shuffled), build_in_list_sql(&v));
    assert_eq!(build_in_list_sql(&vec![]), None);
}

#[test]
fn history_query_of_a_day() {
    let sql = build_athena_history_sql_for_day(
        "racingpost",
        "racecard_runners",
        "processed_full_results_runners",
        "2024",
        "05",
        "01",
        &vec![s("Sea Star")],
        &vec![],
        &vec![s("T Roe"), s("A Bee")],
    );
    assert_eq!(
        sql,
        "SELECT\n  r.*\nFROM racingpost.processed_full_results_runners r\nWHERE r.horse IN ('Sea Star')\n   OR r.trainer IN ('A Bee', 'T Roe')\nORDER BY year, month, day, course, title, position;\n"
    );
    let none = build_athena_history_sql_for_day("d", "c", "t", "2024", "05", "01", &vec![], &vec![], &vec![]);
    assert_eq!(none, "SELECT\n  r.*\nFROM d.t r\nWHERE 1 = 0\nORDER BY year, month, day, course, title, position;\n");
}

#[test]
fn names_of_a_day_are_trimmed() {
    let rs = vec![
        RunnerRec {
            horse: Some(s(" Sea Star ")),
            jockey: Some(s("  ")),
            trainer: None,
            age: None,
            weight: None,
            weight_st: None,
            weight_lb: None,
        },
        RunnerRec {
            horse: Some(s("Blue")),
            jockey: Some(s("J")),
            trainer: Some(s("T")),
            age: None,
            weight: None,
            weight_st: None,
            weight_lb: None,
        },
    ];
    let mut h = vec![s("old")];
    let mut j = vec![];
    let mut t = vec![];
    collect_names(&rs, &mut h, &mut j, &mut t);
    assert_eq!(h, vec![s("old"), s("Sea Star"), s("Blue")]);
    assert_eq!(j, vec![s("J")]);
    assert_eq!(t, vec![s("T")]);
}

#[test]
fn dates_in_paths() {
    assert_eq!(infer_ymd_from_path("/data/racecards/2024/05/01/x"), Some((s("2024"), s("05"), s("01"))));
    assert_eq!(infer_ymd_from_path("C:\\data\\2023\\12\\31\\"), Some((s("2023"), s("12"), s("31"))));
    assert_eq!(infer_ymd_from_path("/data/24/05/01"), None);
    assert_eq!(infer_ymd_from_path("/2024/5/01/07/08"), None);
    assert_eq!(infer_ymd_from_path("/x/2024//05/01"), Some((s("2024"), s("05"), s("01"))));
}

#[test]
fn racecard_links_normalized() {
    assert_eq!(
        normalize_racecards_url(" /racecards/2/ascot/2024-05-01/123456/?x=1#f "),
        Some(s("https://www.racingpost.com/racecards/2/ascot/2024-05-01/123456"))
    );
    assert_eq!(normalize_racecards_url("http://a/b/"), Some(s("http://a/b")));
    assert_eq!(normalize_racecards_url("   "), None);
    assert_eq!(normalize_racecards_url("//#x"), None);
}

#[test]
fn racecard_detail_paths() {
    assert!(is_racecard_detail_path(&chars("/racecards/2/ascot/2024-05-01/123456")));
    assert!(!is_racecard_detail_path(&chars("/racecards/time-order")));
    assert!(!is_racecard_detail_path(&chars("/racecards/x2/ascot/2024-05-01/123456")));
    assert!(!is_racecard_detail_path(&chars("/racecards/2/ascot/2024-5-01/123456")));
    assert!(!is_racecard_detail_path(&chars("/racecards/2/ascot/2024-05-01/12a")));
    assert!(!is_racecard_detail_path(&chars("/results/2/ascot/2024-05-01/1")));
    assert_eq!(
        filter_racecard_detail_url(s("https://www.racingpost.com/racecards/2/ascot/2024-05-01/123456")),
        Some(s("https://www.racingpost.com/racecards/2/ascot/2024-05-01/123456"))
    );
    assert_eq!(filter_racecard_detail_url(s("https://www.racingpost.com/racecards/time-order")), None);
    assert_eq!(filter_racecard_detail_url(s("https://other.com/racecards/2/a/2024-05-01/1")), None);
}

#[test]
fn racecard_url_names() {
    let i = parse_racecard_detail_url("https://www.racingpost.com/racecards/2/ascot/2024-05-01/123456").unwrap();
    assert_eq!((i.course_no.as_str(), i.course_slug.as_str(), i.race_date.as_str(), i.race_id.as_str()), ("2", "ascot", "2024-05-01", "123456"));
    let loose = parse_racecard_detail_url("/racecards/x/y/z/w").unwrap();
    assert_eq!(loose.race_id, "w");
    assert!(parse_racecard_detail_url("/results/1/2/3/4").is_none());
    assert!(parse_racecard_detail_url("/racecards/1/2/3").is_none());
}

#[test]
fn racecard_urls_of_a_page() {
    let html = r#"<a href="/racecards/2/ascot/2024-05-01/123456">x</a>
<a href='/racecards/10/bath/2024-05-01/99'>y</a>
<a href="/racecards/2/ascot/2024-05-01/123456?tab=1">again</a>
<a href="/racecards/time-order/">order</a>"#;
    assert_eq!(
        extract_racecard_urls(html),
        vec![
            s("https://www.racingpost.com/racecards/10/bath/2024-05-01/99"),
            s("https://www.racingpost.com/racecards/2/ascot/2024-05-01/123456"),
        ]
    );
    assert!(extract_racecard_urls("<p>none</p>").is_empty());
}

#[test]
fn racecard_page_files() {
    assert_eq!(
        racecard_html_path("/out//", "https://www.racingpost.com/racecards/2/ascot/2024-05-01/123456", 3),
        "/out/2024-05-01-2-ascot-123456.html"
    );
    assert_eq!(racecard_html_path("/out", "https://x/y", 17), "/out/unknown-unknown-unknown-17.html");
}

#[test]
fn integer_texts_parse_like_std() {
    assert_eq!(parse_i32_text(&chars("+12")), Some(12));
    assert_eq!(parse_i32_text(&chars("-2147483648")), Some(i32::MIN));
    assert_eq!(parse_i32_text(&chars("2147483648")), None);
    assert_eq!(parse_i32_text(&chars("-")), None);
    assert_eq!(parse_i32_text(&chars("")), None);
    assert_eq!(parse_i32_text(&chars("1 ")), None);
    assert_eq!(parse_u32_text(&chars("-1")), None);
    assert_eq!(parse_u32_text(&chars("4294967295")), Some(u32::MAX));
    assert_eq!(parse_u64_text(&chars("+18446744073709551615")), Some(u64::MAX));
    assert_eq!(parse_i64_text(&chars("-9223372036854775808")), Some(i64::MIN));
    assert_eq!(parse_i64_text(&chars("9223372036854775808")), None);
}

#[test]
fn name_keys_and_non_runners() {
    assert_eq!(norm_key(" Sea-Star 2 "), "seastar2");
    assert_eq!(norm_key("   "), "");
    assert_eq!(norm_key("ÉCOLE"), "cole");
    assert!(is_non_runner(" Non-Runner "));
    assert!(is_non_runner("NONRUNNER"));
    assert!(!is_non_runner("NR"));
    assert!(!is_non_runner(""));
}

#[test]
fn course_from_a_race_name() {
    assert_eq!(derive_course_from_race_name("fallback ", "14:30 Ascot Racecard"), "Ascot");
    assert_eq!(derive_course_from_race_name(" fb ", ""), "fb");
    assert_eq!(derive_course_from_race_name("fb", "Big Race"), "fb");
    assert_eq!(derive_course_from_race_name("fb", "14:30"), "fb");
    assert_eq!(derive_course_from_race_name("fb", "14.30 Ascot"), "fb");
    assert_eq!(derive_course_from_race_name("fb", "14:30  Newmarket July  "), "Newmarket July");
}

#[test]
fn minutes_of_date_times() {
    assert_eq!(time_minutes_since_midnight("2024-05-01T14:30:00Z"), 870);
    assert_eq!(time_minutes_since_midnight(" 2024-05-01T00:05 "), 5);
    assert_eq!(time_minutes_since_midnight("2024-05-01T25:00"), i32::MAX);
    assert_eq!(time_minutes_since_midnight("no time"), i32::MAX);
    assert_eq!(time_minutes_since_midnight("xT+1:05"), 65);
    assert_eq!(time_minutes_since_midnight("Té1:05"), i32::MAX);
}

#[test]
fn minutes_from_titles() {
    assert_eq!(parse_time_minutes_from_title("Ascot 2:05 Handicap"), Some(125));
    assert_eq!(parse_time_minutes_from_title("123:45 race"), Some(1425));
    assert_eq!(parse_time_minutes_from_title("no time here"), None);
    assert_eq!(parse_time_minutes_from_title("99999999999:00 x"), None);
    assert_eq!(parse_time_minutes_from_title("2:5"), None);
    assert_eq!(parse_time_minutes_from_title("25:00 then 3:30 x"), Some(300));
}

#[test]
fn leading_numbers() {
    assert_eq!(parse_i64(" 42abc"), Some(42));
    assert_eq!(parse_i64("abc"), None);
    assert_eq!(parse_i64(""), None);
    assert_eq!(parse_i64("99999999999999999999"), None);
}

#[test]
fn html_escaping() {
    assert_eq!(
        html_escape("<a href='x'>Tom & \"Jerry\"</a>"),
        "&lt;a href=&#39;x&#39;&gt;Tom &amp; &quot;Jerry&quot;&lt;/a&gt;"
    );
    assert_eq!(html_escape("plain"), "plain");
}

#[test]
fn race_times_read() {
    assert_eq!(parse_race_time("2024-05-01T14:30:00Z"), Some((T1430, 0)));
    assert_eq!(parse_race_time("2024-05-01T14:30:00+01:00"), Some((T1330, 0)));
    assert_eq!(parse_race_time(" 2024-05-01T14:30 "), Some((T1330, 0)));
    assert_eq!(parse_race_time("2024-05-01T14:30:00.5"), Some((T1330, 500_000_000)));
    assert_eq!(parse_race_time("2024-01-15T14:30:00"), Some((1705329000, 0)));
    assert_eq!(parse_race_time("   "), None);
    assert_eq!(parse_race_time("tomorrow"), None);
    assert_eq!(parse_race_time("2024-03-31T01:30"), None);
}

#[test]
fn race_times_from_data_first_wins() {
    let data = JsonValue::Array(vec![
        obj(vec![("raceId", num("123456")), ("raceTime", st("2024-05-01T14:30:00Z"))]),
        obj(vec![("id", st("99")), ("offTime", st("2024-05-01T14:30:00Z"))]),
        obj(vec![("id", num("200000")), ("startTime", st("2024-05-01T14:30"))]),
        obj(vec![("raceId", st("123456")), ("raceTime", st("2024-05-01T18:00:00Z"))]),
        obj(vec![("raceId", st("12a")), ("raceTime", st("2024-05-01T18:00:00Z"))]),
        obj(vec![("raceId", num("7")), ("raceTime", num("1"))]),
    ]);
    let mut map = vec![];
    walk_for_times(&data, &mut map, 0);
    assert_eq!(map, vec![(s("123456"), (T1430, 0)), (s("200000"), (T1330, 0))]);
    assert_eq!(lookup_race_time(&map, "200000"), Some((T1330, 0)));
    assert_eq!(lookup_race_time(&map, "1"), None);
}

#[test]
fn race_times_stop_thirty_levels_down() {
    let hit = obj(vec![("raceId", num("1")), ("raceTime", st("2024-05-01T14:30:00Z"))]);
    let mut deep = hit.clone_value();
    for _ in 0..31 {
        deep = JsonValue::Array(vec![deep]);
    }
    let mut map = vec![];
    walk_for_times(&deep, &mut map, 0);
    assert!(map.is_empty());
    let mut shallow = hit.clone_value();
    for _ in 0..30 {
        shallow = JsonValue::Array(vec![shallow]);
    }
    walk_for_times(&shallow, &mut map, 0);
    assert_eq!(map, vec![(s("1"), (T1430, 0))]);
}

trait CloneValue {
    fn clone_value(&self) -> JsonValue;
}

impl CloneValue for JsonValue {
    fn clone_value(&self) -> JsonValue {
        match self {
            JsonValue::Null => JsonValue::Null,
            JsonValue::Bool(b) => JsonValue::Bool(*b),
            JsonValue::Number(n) => JsonValue::Number(n.clone()),
            JsonValue::Str(t) => JsonValue::Str(t.clone()),
            JsonValue::Array(a) => JsonValue::Array(a.iter().map(|x| x.clone_value()).collect()),
            JsonValue::Object(o) => {
                JsonValue::Object(o.iter().map(|(k, x)| (k.clone(), x.clone_value())).collect())
            }
        }
    }
}

#[test]
fn clock_times_in_page_text() {
    let html = "a 14:30 b 25:00 c 07:45.5 d -12:00 é 23:59";
    let hits = extract_hhmm_positions(html);
    let at = |p: &str| html.find(p).unwrap();
    assert_eq!(hits, vec![(at("14:30"), 14, 30), (at("23:59"), 23, 59)]);
    assert!(extract_hhmm_positions("1:30").is_empty());
}

const TIME_ORDER: &str = "<span>14:30</span><a href=\"/racecards/2/ascot/2024-05-01/123456\">x</a><span>15:05</span><a href='/racecards/10/bath/2024-05-01/99'>y</a>";

#[test]
fn race_times_from_nearby_clock_times() {
    let map = build_race_time_map_proximity(TIME_ORDER, "2024-05-01");
    assert_eq!(map, vec![(s("123456"), (T1330, 0)), (s("99"), (T1330 + 2100, 0))]);
    assert!(build_race_time_map_proximity(TIME_ORDER, "2024-05").is_empty());
    assert!(build_race_time_map_proximity(TIME_ORDER, "2024-02-30").is_empty());
    let far = format!("<span>14:30</span>{}<a href=\"/racecards/2/ascot/2024-05-01/1\">x</a>", " ".repeat(2001));
    assert!(build_race_time_map_proximity(&far, "2024-05-01").is_empty());
}

#[test]
fn race_time_map_prefers_data() {
    let data = Some(obj(vec![("raceId", num("5")), ("raceTime", st("2024-05-01T14:30:00Z"))]));
    assert_eq!(race_time_map_with_data(TIME_ORDER, "2024-05-01", &data), vec![(s("5"), (T1430, 0))]);
    let empty = Some(obj(vec![("x", num("1"))]));
    assert_eq!(
        race_time_map_with_data(TIME_ORDER, "2024-05-01", &empty),
        build_race_time_map_proximity(TIME_ORDER, "2024-05-01")
    );
    let page = format!(
        "<script id=\"__NEXT_DATA__\" type=\"application/json\">{}</script>",
        "{\"race\":{\"raceId\":77,\"raceTime\":\"2024-05-01T14:30:00Z\"}}"
    );
    assert_eq!(build_race_time_map(&page, "2024-05-01"), vec![(s("77"), (T1430, 0))]);
    assert_eq!(build_race_time_map(TIME_ORDER, "2024-05-01").len(), 2);
}

#[test]
fn dates_of_a_results_day() {
    assert_eq!(date_fields_exec("2024-05-01"), Some((2024, 5, 1)));
    assert_eq!(date_fields_exec("2024-05"), None);
    assert_eq!(date_fields_exec("2024-05-01-x"), None);
}

#[test]
fn only_races_still_to_run_are_fetched_today() {
    let urls = vec![
        s("https://www.racingpost.com/racecards/2/ascot/2024-05-01/123456"),
        s("https://www.racingpost.com/racecards/10/bath/2024-05-01/99"),
        s("not a racecard"),
    ];
    let map = vec![(s("123456"), (T1330, 0)), (s("99"), (T1430, 0))];
    let now = (T1330 + 1, 0);
    assert_eq!(urls_to_download(&urls, &map, now, true), vec![urls[1].clone(), urls[2].clone()]);
    assert_eq!(urls_to_download(&urls, &map, now, false), urls);
    assert_eq!(urls_to_download(&urls, &map, (T1330, 0), true), urls);
}

fn row(course: &str, time: &str, name: &str, going: &str, horse: &str, jockey: &str, trainer: &str, odds: Option<&str>) -> RaceRow {
    RaceRow {
        course: s(course),
        time: s(time),
        race_name: s(name),
        going: s(going),
        horse: s(horse),
        jockey: s(jockey),
        trainer: s(trainer),
        odds: odds.map(s),
    }
}

fn day_rows() -> Vec<RaceRow> {
    vec![
        row("Ascot", "2024-05-01T15:00:00", "15:00 Ascot Racecard", "Good", "A", "J1", "T1", Some("3.5")),
        row("Ascot", "2024-05-01T15:00:00", "15:00 Ascot Racecard", "Good", "Non Runner", "J2", "T2", None),
        row("Bath", "2024-05-01T14:00:00", "Bath Stakes", "Soft", "B", "", "T2", None),
        row("Ascot", "2024-05-01T15:00:00", "15:00 Ascot Racecard", "Good", "C", "J3", "T3", None),
        row("Ascot", "2024-05-01T15:00:00", "15:00 Ascot Racecard", "Good", "  ", "J4", "T4", None),
        row("Ascot", "2024-05-01T15:00:00", "15:00 Ascot Racecard", "Good", "D", "Non-Runner", "T4", None),
    ]
}

fn key_of(k: &RaceKey) -> (String, String, String, String) {
    (k.course.clone(), k.time.clone(), k.race_name.clone(), k.going.clone())
}

fn horses(rs: &[RunnerMini]) -> Vec<String> {
    rs.iter().map(|r| r.horse.clone()).collect()
}

#[test]
fn rows_grouped_into_races() {
    let g = group_race_rows(&day_rows());
    assert_eq!(g.len(), 2);
    assert_eq!(key_of(&g[0].0), (s("Ascot"), s("2024-05-01T15:00:00"), s("15:00 Ascot Racecard"), s("Good")));
    assert_eq!(horses(&g[0].1), vec![s("A"), s("C")]);
    assert_eq!(g[0].1[0].odds, Some(s("3.5")));
    assert_eq!(key_of(&g[1].0), (s("Bath"), s("2024-05-01T14:00:00"), s("Bath Stakes"), s("Soft")));
    assert_eq!(horses(&g[1].1), vec![s("B")]);
}

#[test]
fn races_ordered_by_start() {
    let races = match races_from_rows(&day_rows()) {
        Ok(r) => r,
        Err(_) => panic!("expected races"),
    };
    assert_eq!(races.len(), 2);
    assert_eq!(races[0].0.course, "Bath");
    assert_eq!(races[1].0.course, "Ascot");
    let none = vec![row("X", "", "", "", "Non Runner", "", "", None)];
    match races_from_rows(&none) {
        Err(e) => {
            assert!(matches!(e, RaceTableError::NoRecords));
            assert_eq!(e.message(), "no racecard records found in parquet");
        }
        Ok(_) => panic!("expected no records"),
    }
}

#[test]
fn sorting_is_stable_by_minutes_then_text() {
    let mk = |c: &str, t: &str| {
        (
            RaceKey { course: s(c), time: s(t), race_name: s(""), going: s("") },
            Vec::<RunnerMini>::new(),
        )
    };
    let sorted = sort_races(vec![
        mk("late", "2024-05-01T16:00:00"),
        mk("none", "no time"),
        mk("b", "2024-05-01T14:00:00Z"),
        mk("a", "2024-05-01T14:00:00"),
        mk("a2", "2024-05-01T14:00:00"),
    ]);
    let courses: Vec<String> = sorted.iter().map(|r| r.0.course.clone()).collect();
    assert_eq!(courses, vec![s("a"), s("a2"), s("b"), s("late"), s("none")]);
}

#[test]
fn long_finished_races_are_left_out() {
    let mk = |c: &str, t: &str| {
        (
            RaceKey { course: s(c), time: s(t), race_name: s(""), going: s("") },
            Vec::<RunnerMini>::new(),
        )
    };
    let races = vec![
        mk("old", "2024-05-01T13:00:00Z"),
        mk("blank", "  "),
        mk("odd", "2024-05-01T14:30:00"),
        mk("new", "2024-05-01T14:30:00Z"),
        mk("edge", "2024-05-01T13:30:00Z"),
    ];
    let kept = filter_recent_races(races, (T1330, 0));
    let courses: Vec<String> = kept.iter().map(|r| r.0.course.clone()).collect();
    assert_eq!(courses, vec![s("blank"), s("odd"), s("new")]);
}

#[test]
fn names_and_contexts_of_the_day() {
    let races = match races_from_rows(&day_rows()) {
        Ok(r) => r,
        Err(_) => panic!("expected races"),
    };
    let (h, j, t) = day_names(&races);
    assert_eq!(h, vec![s("B"), s("A"), s("C")]);
    assert_eq!(j, vec![s("J1"), s("J3")]);
    assert_eq!(t, vec![s("T2"), s("T1"), s("T3")]);
    assert_eq!(day_contexts(&races), vec![(s("bath"), s("soft")), (s("ascot"), s("good"))]);
    let blank = vec![(
        RaceKey { course: s(" "), time: s(""), race_name: s(""), going: s("--") },
        Vec::<RunnerMini>::new(),
    )];
    assert!(day_contexts(&blank).is_empty());
}

#[test]
fn sql_literal_reads_back() {
    // A reader of SQL string literals: `''` stands for `'`, a lone `'` ends it.
    fn read(lit: &str) -> (String, usize) {
        let c: Vec<char> = lit.chars().collect();
        assert_eq!(c[0], '\'');
        let mut out = String::new();
        let mut i = 1;
        while i < c.len() {
            if c[i] == '\'' {
                if i + 1 < c.len() && c[i + 1] == '\'' {
                    out.push('\'');
                    i += 2;
                    continue;
                }
                break;
            }
            out.push(c[i]);
            i += 1;
        }
        (out, i)
    }
    for s in ["", "O'Brien", "''", "a'b'c'", "'; DROP TABLE x; --"] {
        let lit = sql_string_literal(s);
        assert_eq!(read(&lit), (s.to_string(), lit.chars().count() - 1));
    }
}

#[test]
fn race_starts_and_the_cutoff() {
    assert_eq!(race_start(" 2024-05-01T14:30:00+01:00 "), Some((1714570200, 0)));
    assert_eq!(race_start("2024-05-01T13:30:00.5Z"), Some((1714570200, 500_000_000)));
    assert_eq!(race_start("   "), None);
    assert_eq!(race_start("14:30"), None);
    let cutoff = (1714570200, 0);
    assert!(kept_at(None, cutoff));
    assert!(kept_at(Some((1714570200, 1)), cutoff));
    assert!(!kept_at(Some((1714570200, 0)), cutoff));
    assert!(!kept_at(Some((1714570199, 999)), cutoff));
}

fn mini(horse: &str, jockey: &str, trainer: &str) -> RunnerMini {
    RunnerMini { horse: s(horse), jockey: s(jockey), trainer: s(trainer), odds: None }
}

fn race(course: &str, going: &str, runners: Vec<RunnerMini>) -> (RaceKey, Vec<RunnerMini>) {
    (RaceKey { course: s(course), time: s(""), race_name: s(""), going: s(going) }, runners)
}

#[test]
fn rows_of_past_results_looked_up() {
    let races = vec![
        race("Ascot", "Good to Firm", vec![mini("Sea Star", "J Doe", "T Roe"), mini("Blue Moon", " ", "A Bee")]),
        race("Bath", "Soft", vec![mini("Zeta", "J Doe", "")]),
    ];
    let l = DayLookup::for_day(&races);
    assert_eq!(l.row_targets("Unknown", "J Doe", "T Roe", "Ascot", "Good to Firm"), None);
    assert_eq!(l.row_targets("", "J Doe", "T Roe", "Ascot", "Good to Firm"), None);
    assert_eq!(l.row_targets("Sea Star", "J Doe", "T Roe", " ascot ", "good-to firm"), Some((true, true, true)));
    assert_eq!(l.row_targets("Zeta", "Other", "", "Bath", "Heavy"), Some((false, false, false)));
    assert_eq!(l.row_targets("Blue Moon", "", "A Bee", "BATH", "soft"), Some((true, false, true)));
    let none = DayLookup::for_day(&vec![race("", "", vec![mini("Solo", "", "")])]);
    assert_eq!(none.row_targets("Solo", "", "", "", ""), Some((false, false, false)));
}
