use racingpost_scraper::json::{extract_race_meta, extract_runners, extract_weight_any, JsonValue};
use racingpost_scraper::racecard::{
    build_lines, course_after_time, course_from_canonical_url, extract_canonical_racecard_url,
    extract_first_testid_text, extract_next_data_json, extract_race_meta_from_html,
    extract_race_name_from_title, extract_runners_from_html, find_age_yo, find_first_time_hh_mm,
    find_weight_dash, find_weight_st_lb, meta_window_ok, parse_weight_to_st_lb, RaceMeta, RunnerRec,
};
use racingpost_scraper::racecard_page::{
    backfill_weights, parse_one_racecard_html, parse_racecard_checked, parse_racecard_with_data,
    race_to_json_value, runner_keys, RacecardError,
};

fn chars(s: &str) -> Vec<char> {
    s.chars().collect()
}

fn text(v: Vec<char>) -> String {
    v.into_iter().collect()
}

fn s(t: &str) -> String {
    t.to_string()
}

fn st(t: &str) -> JsonValue {
    JsonValue::Str(t.to_string())
}

fn num(t: &str) -> JsonValue {
    JsonValue::Number(t.to_string())
}

fn obj(members: Vec<(&str, JsonValue)>) -> JsonValue {
    JsonValue::Object(members.into_iter().map(|(k, v)| (k.to_string(), v)).collect())
}

fn members(v: &JsonValue) -> &Vec<(String, JsonValue)> {
    match v {
        JsonValue::Object(o) => o,
        _ => panic!("not an object"),
    }
}

fn runner(h: Option<&str>, j: Option<&str>, t: Option<&str>, a: Option<&str>, w: Option<&str>, wst: Option<&str>, wlb: Option<&str>) -> RunnerRec {
    RunnerRec {
        horse: h.map(s),
        jockey: j.map(s),
        trainer: t.map(s),
        age: a.map(s),
        weight: w.map(s),
        weight_st: wst.map(s),
        weight_lb: wlb.map(s),
    }
}

fn same_runner(a: &RunnerRec, b: &RunnerRec) -> bool {
    a.horse == b.horse
        && a.jockey == b.jockey
        && a.trainer == b.trainer
        && a.age == b.age
        && a.weight == b.weight
        && a.weight_st == b.weight_st
        && a.weight_lb == b.weight_lb
}

fn race_data() -> JsonValue {
    let runners = JsonValue::Array(vec![
        obj(vec![
            ("horseName", st(" Sea Star ")),
            ("jockeyName", st("J Doe")),
            ("trainerName", st("T Roe")),
            ("age", num("5")),
            ("weight", st("9-07")),
        ]),
        obj(vec![
            ("horseName", st("Blue Moon")),
            ("trainerName", st("A Bee")),
            ("age", st("4")),
            ("formattedWeightStones", st("8")),
            ("formattedWeightPounds", num("12")),
        ]),
        obj(vec![("horseName", st("Lonely")), ("age", num("3"))]),
    ]);
    let race = obj(vec![
        ("courseName", st("Ascot")),
        ("raceTime", st("2024-05-01T14:30:00")),
        ("raceTitle", st("The Big Stakes")),
        ("going", st("Good")),
        ("runners", runners),
    ]);
    obj(vec![("props", obj(vec![("pageProps", obj(vec![("race", race)]))]))])
}

fn sea_star() -> RunnerRec {
    runner(Some("Sea Star"), Some("J Doe"), Some("T Roe"), Some("5"), Some("9-07"), Some("9"), Some("7"))
}

fn blue_moon() -> RunnerRec {
    runner(Some("Blue Moon"), None, Some("A Bee"), Some("4"), Some("8st 12lb"), Some("8"), Some("12"))
}

#[test]
fn race_facts_from_data() {
    let m = extract_race_meta(&race_data());
    assert_eq!(m.course.as_deref(), Some("Ascot"));
    assert_eq!(m.time.as_deref(), Some("2024-05-01T14:30:00"));
    assert_eq!(m.race_name.as_deref(), Some("The Big Stakes"));
    assert_eq!(m.going.as_deref(), Some("Good"));
}

#[test]
fn race_facts_skip_long_names_and_take_the_first() {
    let long = "x".repeat(201);
    let v = JsonValue::Array(vec![
        obj(vec![("name", st(&long)), ("course", st("First"))]),
        obj(vec![("course", st("Second")), ("title", st("Short"))]),
    ]);
    let m = extract_race_meta(&v);
    assert_eq!(m.course.as_deref(), Some("First"));
    assert_eq!(m.race_name.as_deref(), Some("Short"));
    assert_eq!(m.time, None);
    assert_eq!(m.going, None);
}

#[test]
fn runners_from_data() {
    let rs = extract_runners(&race_data());
    assert_eq!(rs.len(), 2);
    assert!(same_runner(&rs[0], &sea_star()));
    assert!(same_runner(&rs[1], &blue_moon()));
}

#[test]
fn runners_come_from_the_largest_array() {
    let small = JsonValue::Array(vec![obj(vec![("horse", st("A")), ("jockey", st("J"))])]);
    let big = JsonValue::Array(vec![
        obj(vec![("horse", st("B")), ("jockey", st("J"))]),
        obj(vec![("name", st("C")), ("trainer", st("T"))]),
    ]);
    let later_same = JsonValue::Array(vec![
        obj(vec![("horse", st("D")), ("jockey", st("J"))]),
        obj(vec![("horse", st("E")), ("jockey", st("J"))]),
    ]);
    let v = obj(vec![("a", small), ("b", big), ("c", later_same)]);
    let rs = extract_runners(&v);
    let names: Vec<Option<String>> = rs.iter().map(|r| r.horse.clone()).collect();
    assert_eq!(names, vec![Some(s("B")), Some(s("C"))]);
    assert!(extract_runners(&JsonValue::Null).is_empty());
}

#[test]
fn weights_from_data_objects() {
    let o = obj(vec![("weight", obj(vec![("st", num("10")), ("lb", st("0"))]))]);
    assert_eq!(extract_weight_any(members(&o)), (Some(s("10st 0lb")), Some(s("10")), Some(s("0"))));
    let n = obj(vec![("wgt", num("140"))]);
    assert_eq!(extract_weight_any(members(&n)), (Some(s("140")), None, None));
    let t = obj(vec![("weightText", st(" 9st 2lb "))]);
    assert_eq!(extract_weight_any(members(&t)), (Some(s("9st 2lb")), Some(s("9")), Some(s("2"))));
    let none = obj(vec![("weight", st("  "))]);
    assert_eq!(extract_weight_any(members(&none)), (None, None, None));
}

const PAGE: &str = r#"<html><head><title>14:30 Ascot Racecard | Racing Post</title>
<meta name="description" content="Racecard at 14:30 Ascot, Thursday 1 May">
<link rel="canonical" href="https://www.racingpost.com/racecards/2/ascot/2024-05-01/123456/">
</head><body>
<div><a data-testid="Link__Horse" href="/h/1">Sea Star</a>
<a data-testid="Link__Jockey" href="/j/1">J Doe</a>
<span data-testid="Text__Age"> 5 </span><span data-testid="Text__Weight">9-07</span></div>
</body></html>"#;

#[test]
fn page_pieces() {
    assert_eq!(extract_canonical_racecard_url(PAGE), Some(s("https://www.racingpost.com/racecards/2/ascot/2024-05-01/123456/")));
    assert_eq!(extract_next_data_json(PAGE), None);
    assert_eq!(
        course_from_canonical_url(&chars("https://www.racingpost.com/racecards/2/ascot/2024-05-01/123456/")),
        Some(s("ascot"))
    );
    assert_eq!(course_from_canonical_url(&chars("https://www.racingpost.com/racecards/2")), None);
    let m = extract_race_meta_from_html(&chars(PAGE));
    assert_eq!(m.time.as_deref(), Some("14:30"));
    assert_eq!(m.course.as_deref(), Some("Ascot"));
    assert_eq!(m.race_name, None);
    assert!(meta_window_ok(&chars(PAGE), &chars("name=\"description\"")));
}

#[test]
fn description_time_and_course() {
    assert_eq!(find_first_time_hh_mm(&chars("off at 9:15 or 15:40x")).map(text), Some(s("15:40")));
    assert_eq!(find_first_time_hh_mm(&chars("no time")), None);
    assert_eq!(
        course_after_time(&chars("Racecard at 15:40 Ascot, including runners"), &chars("15:40")).map(text),
        Some(s("Ascot"))
    );
    assert_eq!(
        course_after_time(&chars("15:40   Newmarket (July). Go"), &chars("15:40")).map(text),
        Some(s("Newmarket (July)"))
    );
    assert_eq!(course_after_time(&chars("15:40 , Ascot"), &chars("15:40")), None);
    assert_eq!(course_after_time(&chars("no time here"), &chars("15:40")), None);
    let m = extract_race_meta_from_html(&chars(
        r#"<meta name="description" content="Racecard at 15:40 Ascot, including runners">"#,
    ));
    assert_eq!(m.time.as_deref(), Some("15:40"));
    assert_eq!(m.course.as_deref(), Some("Ascot"));
}

#[test]
fn race_name_in_title() {
    assert_eq!(extract_race_name_from_title(&chars(PAGE)), None);
    assert_eq!(
        extract_race_name_from_title(&chars("<title>x> Big Race Racecard <b</title>")),
        Some(s("Big Race"))
    );
}

#[test]
fn runners_of_the_rendered_page() {
    let rs = extract_runners_from_html(&chars(PAGE));
    assert_eq!(rs.len(), 1);
    assert!(same_runner(
        &rs[0],
        &runner(Some("Sea Star"), Some("J Doe"), None, Some("5"), Some("9-07"), Some("9"), Some("7"))
    ));
    let page = r#"<a data-testid="Link__Horse" href="/h">Frankel</a><a data-testid="Link__Jockey" href="/j">Ryan Moore</a><span data-testid="Text__Age">4</span>"#;
    let rs = extract_runners_from_html(&chars(page));
    assert_eq!(rs.len(), 1);
    assert!(same_runner(
        &rs[0],
        &runner(Some("Frankel"), Some("Ryan Moore"), None, Some("4"), None, None, None)
    ));
    // A block whose horse link has no text gives no runner; blocks keep page order.
    let two = r#"<a data-testid="Link__Horse" href="/a"> </a><b>x</b><a data-testid="Link__Horse" href="/b"> Alpha </a><a data-testid="Link__Trainer" href="/t">T Bee</a><a data-testid="Link__Horse" href="/c">Beta</a>"#;
    let names: Vec<Option<String>> = extract_runners_from_html(&chars(two)).iter().map(|r| r.horse.clone()).collect();
    assert_eq!(names, vec![Some(s("Alpha")), Some(s("Beta"))]);
    assert_eq!(extract_runners_from_html(&chars(two))[0].trainer.as_deref(), Some("T Bee"));
    assert!(extract_runners_from_html(&chars("<p>no runners</p>")).is_empty());
}

#[test]
fn block_texts() {
    let block = chars(PAGE);
    assert_eq!(extract_first_testid_text(&block, &["Text__Missing", "Text__Age"]).map(text), Some(s("5")));
    assert_eq!(find_age_yo(&chars("aged 12yo, not 3y")).map(text), Some(s("12")));
    assert_eq!(find_age_yo(&chars("123yo")).map(text), Some(s("3")));
    assert_eq!(find_weight_st_lb(&chars("</span>st </span>lb <b>9</b>st <b>5</b>lb")), Some(s("9st 5lb")));
    assert_eq!(find_weight_dash(&chars("weight 09-05 kg")), Some(s("9st 5lb")));
    assert_eq!(find_weight_dash(&chars("2024-05-01")), Some(s("24st 5lb")));
    assert_eq!(parse_weight_to_st_lb(&chars("10st 3lb")), (Some(s("10")), Some(s("3"))));
    assert_eq!(parse_weight_to_st_lb(&chars("9-00")), (Some(s("9")), Some(s("0"))));
    assert_eq!(parse_weight_to_st_lb(&chars("heavy")), (None, None));
}

fn data_page() -> String {
    let data = r#"{"props":{"pageProps":{"race":{"courseName":"Ascot","raceTime":"2024-05-01T14:30:00","raceTitle":"The Big Stakes","going":"Good","runners":[{"horseName":" Sea Star ","jockeyName":"J Doe","trainerName":"T Roe","age":5,"weight":"9-07"},{"horseName":"Blue Moon","trainerName":"A Bee","age":"4","formattedWeightStones":"8","formattedWeightPounds":12}]}}}}"#;
    format!(
        "<html><body><script id=\"__NEXT_DATA__\" type=\"application/json\">{}</script></body></html>",
        data
    )
}

#[test]
fn racecard_from_its_data() {
    let (meta, rs) = match parse_one_racecard_html(&data_page()) {
        Ok(r) => r,
        Err(_) => panic!("expected a race"),
    };
    assert_eq!(meta.course.as_deref(), Some("Ascot"));
    assert_eq!(meta.race_name.as_deref(), Some("The Big Stakes"));
    assert_eq!(rs.len(), 2);
    assert!(same_runner(&rs[0], &sea_star()));
    assert!(same_runner(&rs[1], &blue_moon()));
    assert!(matches!(parse_racecard_checked(&data_page()), Some(Ok(_))));
}

#[test]
fn racecard_from_the_rendered_page() {
    let (meta, rs) = match parse_racecard_with_data(PAGE, &None) {
        Ok(r) => r,
        Err(_) => panic!("expected a race"),
    };
    assert_eq!(meta.course.as_deref(), Some("Ascot"));
    assert_eq!(meta.time.as_deref(), Some("14:30"));
    assert_eq!(rs.len(), 1);
    assert_eq!(rs[0].horse.as_deref(), Some("Sea Star"));
    assert!(matches!(parse_one_racecard_html(PAGE), Ok(_)));
}

#[test]
fn racecard_without_runners() {
    match parse_racecard_with_data("<p>none</p>", &None) {
        Err(e) => {
            assert!(matches!(e, RacecardError::NoRunners));
            assert_eq!(e.message(), "no runners found");
        }
        Ok(_) => panic!("expected no runners"),
    }
    let broken = "<script id=\"__NEXT_DATA__\" type=\"application/json\">{not json</script>";
    assert!(matches!(parse_one_racecard_html(broken), Err(RacecardError::NoRunners)));
}

#[test]
fn racecard_data_without_weights_takes_them_from_the_page() {
    let data = Some(race_data());
    let (_, rs) = match parse_racecard_with_data(PAGE, &data) {
        Ok(r) => r,
        Err(_) => panic!("expected a race"),
    };
    assert_eq!(rs.len(), 2);
    let no_weight = Some(obj(vec![(
        "runners",
        JsonValue::Array(vec![obj(vec![("horse", st("Sea Star")), ("jockey", st("J"))])]),
    )]));
    let (meta, rs) = match parse_racecard_with_data(PAGE, &no_weight) {
        Ok(r) => r,
        Err(_) => panic!("expected a race"),
    };
    assert_eq!(meta.course, None);
    assert!(same_runner(
        &rs[0],
        &runner(Some("Sea Star"), Some("J"), None, None, Some("9-07"), Some("9"), Some("7"))
    ));
    let page = r#"<html><body><script id="__NEXT_DATA__" type="application/json">{"props":{"runners":[{"horseName":"Frankel","jockeyName":"J"}]}}</script>
<a data-testid="Link__Horse" href="/h">Frankel</a><span data-testid="Text__Weight">9-07</span></body></html>"#;
    let (_, rs) = match parse_one_racecard_html(page) {
        Ok(r) => r,
        Err(_) => panic!("expected a race"),
    };
    assert_eq!(rs.len(), 1);
    assert!(same_runner(
        &rs[0],
        &runner(Some("Frankel"), Some("J"), None, None, Some("9-07"), Some("9"), Some("7"))
    ));
}

#[test]
fn checked_parse_refuses_a_cut_description_window() {
    let mut page = String::from("<meta name=\"description\" content=\"x");
    page.push_str(&"a".repeat(1970));
    page.push_str("ééé\">");
    assert!(parse_racecard_checked(&page).is_none());
    assert!(matches!(parse_racecard_checked(PAGE), Some(Ok(_))));
    assert!(matches!(parse_racecard_checked("<p>none</p>"), Some(Err(RacecardError::NoRunners))));
}

#[test]
fn keys_are_trimmed_lowercase_horses() {
    let rs = vec![
        runner(Some(" Sea STAR "), None, None, None, None, None, None),
        runner(Some("   "), None, None, None, None, None, None),
        runner(None, None, None, None, None, None, None),
    ];
    assert_eq!(runner_keys(&rs, false), vec![Some(s("sea star")), Some(s("")), None]);
    assert_eq!(runner_keys(&rs, true), vec![Some(s("sea star")), None, None]);
}

#[test]
fn backfill_fills_only_missing_weights() {
    let rs = vec![
        runner(Some("A"), None, None, None, None, Some(""), Some("3")),
        runner(Some("B"), None, None, None, Some("9-9"), Some("9"), Some("9")),
        runner(Some("C"), None, None, None, None, None, None),
    ];
    let rk = vec![Some(s("a")), Some(s("b")), Some(s("c"))];
    let page = vec![
        runner(Some("a1"), None, None, None, Some("8st 1lb"), Some("8"), Some("1")),
        runner(Some("b"), None, None, None, Some("7st 7lb"), Some("7"), Some("7")),
        runner(Some("a2"), None, None, None, Some("8st 2lb"), Some("8"), Some("2")),
    ];
    let pk = vec![Some(s("a")), Some(s("b")), Some(s("a"))];
    let out = backfill_weights(rs, &rk, &page, &pk);
    assert!(same_runner(&out[0], &runner(Some("A"), None, None, None, Some("8st 2lb"), Some(""), Some("3"))));
    assert!(same_runner(&out[1], &runner(Some("B"), None, None, None, Some("9-9"), Some("9"), Some("9"))));
    assert!(same_runner(&out[2], &runner(Some("C"), None, None, None, None, None, None)));
}

#[test]
fn race_as_json_value() {
    let meta = RaceMeta { course: Some(s("Ascot")), time: None, race_name: Some(s("Big")), going: None };
    let v = race_to_json_value(&meta, &[sea_star()]);
    let o = members(&v);
    let names: Vec<&str> = o.iter().map(|(k, _)| k.as_str()).collect();
    assert_eq!(names, vec!["course", "time", "race_name", "going", "runners"]);
    assert!(matches!(&o[0].1, JsonValue::Str(x) if x == "Ascot"));
    assert!(matches!(&o[1].1, JsonValue::Str(x) if x.is_empty()));
    match &o[4].1 {
        JsonValue::Array(a) => {
            assert_eq!(a.len(), 1);
            let r = members(&a[0]);
            let fields: Vec<(&str, &str)> = r
                .iter()
                .map(|(k, v)| match v {
                    JsonValue::Str(x) => (k.as_str(), x.as_str()),
                    _ => panic!("not a string"),
                })
                .collect();
            assert_eq!(
                fields,
                vec![
                    ("horse", "Sea Star"),
                    ("jockey", "J Doe"),
                    ("trainer", "T Roe"),
                    ("age", "5"),
                    ("weight", "9-07"),
                    ("weight_st", "9"),
                    ("weight_lb", "7")
                ]
            );
        }
        _ => panic!("runners not an array"),
    }
}

#[test]
fn race_as_json_lines() {
    let meta = RaceMeta { course: Some(s("Asc\"ot")), time: Some(s("14:30")), race_name: None, going: None };
    let lines = build_lines(meta, vec![sea_star()]);
    assert_eq!(
        lines,
        vec![s(r#"{"course":"Asc\"ot","time":"14:30","race_name":"","going":"","horse":"Sea Star","jockey":"J Doe","trainer":"T Roe","age":"5","weight":"9-07","weight_st":"9","weight_lb":"7"}"#)]
    );
}
