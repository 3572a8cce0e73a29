use racingpost_scraper::full_result_parse::{
    build_race_json, extract_going, extract_race_id, extract_runners_json, extract_text_after,
    extract_title, find_between, json_escape, parse_full_result_page,
};
use racingpost_scraper::racingpost::{
    course_name_before_idx, extract_time_order_course_and_full_result_urls,
    full_result_url_before_idx, group_and_filter_course_urls, time_order_pairs_checked,
};
use racingpost_scraper::scrape::{
    build_url_tsv_lines, full_result_html_file, lines_text, full_results_html_dir, out_base_dir_for_date,
    parse_tsv_lines, per_course_urls_path, scroll_step, split_ymd, time_order_html_path,
    urls_tsv_path, ScrollStep, SCROLL_ROUNDS, after_attempt, AttemptStep, FETCH_ATTEMPTS,
};
use racingpost_scraper::utils::{
    pick_from_clock, pick_in_range, pseudo_random_in_range, remove_svg_blocks, sanitize_filename_component,
    slug_or_unknown, strip_tags_and_collapse_ws,
};

const RESULT_PAGE: &str = r#"<html><head><title> 14:30 Ascot Result </title></head><body>
<div class="race" data-race-id="12345">
<table>
<tr data-test-selector="table-row"><td data-test-selector="text-horsePosition">1</td>
<td><a data-test-selector="link-horseName" href="/h/1">Sea "Star"</a></td>
<td><a data-test-selector="link-jockeyName" href="/j/1">J Doe</a></td>
<td><a data-test-selector="link-trainerName" href="/t/1">T Roe</a></td>
<td data-test-selector="horse-age">5</td>
<td data-test-selector="horse-weight-st">9</td><td data-test-selector="horse-weight-lb">7</td>
<td><span data-ending="OR">OR <strong>101</strong></span></td>
<td data-test-selector="full-result-topspeed">88</td><td data-test-selector="full-result-rpr">110</td></tr>
<tr data-test-selector="table-row"><td data-test-selector="text-horsePosition">2</td>
<td><a data-test-selector="link-horseName" href="/h/2">Blue Moon</a></td>
</tr>
</table></div></body></html>"#;

const ROW_ONE: &str = r#"{"position":"1","horse":"Sea \"Star\"","jockey":"J Doe","trainer":"T Roe","age":"5","weight_st":"9","weight_lb":"7","or":"101","ts":"88","rpr":"110"}"#;
const ROW_TWO: &str = r#"{"position":"2","horse":"Blue Moon","jockey":"","trainer":"","age":"","weight_st":"","weight_lb":"","or":"","ts":"","rpr":""}"#;

#[test]
fn full_result_page_is_read_whole() {
    let json = parse_full_result_page(RESULT_PAGE, "https://x/r/1", "Ascot");
    let expected = format!(
        "{{\"url\":\"https://x/r/1\",\"course\":\"Ascot\",\"title\":\"14:30 Ascot Result\",\"race_id\":\"12345\",\"runners\":[{},{}]}}",
        ROW_ONE, ROW_TWO
    );
    assert_eq!(json, expected);
}

#[test]
fn full_result_page_pieces() {
    assert_eq!(extract_title(RESULT_PAGE), "14:30 Ascot Result");
    assert_eq!(extract_race_id(RESULT_PAGE), "12345");
    assert_eq!(extract_runners_json(RESULT_PAGE), vec![ROW_ONE.to_string(), ROW_TWO.to_string()]);
}

#[test]
fn full_result_page_without_anything() {
    assert_eq!(extract_title("<p>x</p>"), "");
    assert_eq!(extract_race_id("<p>x</p>"), "");
    assert!(extract_runners_json("<p>x</p>").is_empty());
    assert_eq!(
        parse_full_result_page("<p>x</p>", "u", "c"),
        "{\"url\":\"u\",\"course\":\"c\",\"title\":\"\",\"race_id\":\"\",\"runners\":[]}"
    );
}

#[test]
fn race_json_escapes_its_fields() {
    let runners = vec!["{}".to_string(), "{\"a\":1}".to_string()];
    assert_eq!(
        build_race_json("A \"big\" race", "7", &runners, "http://u", "Back\\slash"),
        "{\"url\":\"http://u\",\"course\":\"Back\\\\slash\",\"title\":\"A \\\"big\\\" race\",\"race_id\":\"7\",\"runners\":[{},{\"a\":1}]}"
    );
}

#[test]
fn json_escape_cases() {
    assert_eq!(json_escape("a\"b\\c\nd\re\tf"), "a\\\"b\\\\c\\nd\\re\\tf");
    assert_eq!(json_escape(""), "");
    assert_eq!(json_escape("plain é"), "plain é");
}

#[test]
fn find_between_and_text_after() {
    assert_eq!(find_between("a<b>c</b>d", "<b>", "</b>"), Some("c"));
    assert_eq!(find_between("a<b>c", "<b>", "</b>"), None);
    assert_eq!(find_between("abc", "<b>", "</b>"), None);
    assert_eq!(
        extract_text_after("<td class=\"x\" data-k=\"v\"> hello <b>", "data-k"),
        Some("hello".to_string())
    );
    assert_eq!(extract_text_after("<td data-k>", "data-k"), None);
}

#[test]
fn going_from_data_then_label() {
    let with_data = "<script id=\"__NEXT_DATA__\" type=\"application/json\">{\"goingDescription\":\" Good to Firm \"}</script>";
    assert_eq!(extract_going(with_data), "Good to Firm");
    let with_going_key = "<script id=\"__NEXT_DATA__\" type=\"application/json\">{\"going\":\"Soft\"}</script>";
    assert_eq!(extract_going(with_going_key), "Soft");
    let label = "<span>Going</span> Heavy </div>";
    assert_eq!(extract_going(label), "Heavy");
    assert_eq!(extract_going("<p>nothing</p>"), "");
}

const TIME_ORDER: &str = r#"<div><a data-test-selector="text-raceNameTimeView" href="/x"><svg><path d="M0"/></svg> 14:30
  Ascot </a></div>
<a href="/results/2/ascot/2024-05-01/111" data-test-selector="button-fullResult">Full result</a>
<a href="/results/2/ascot/2024-05-01/111" data-test-selector="button-fullResult">Full result</a>
<div><a data-test-selector="text-raceNameTimeView" href="/y">15:00 Leopardstown (IRE)</a></div>
<a href="/results/3/leopardstown/2024-05-01/222" data-test-selector="button-fullResult">Full result</a>
<div><a data-test-selector="text-raceNameTimeView" href="/z">16:00 Chantilly (FR)</a></div>
<a href="https://www.racingpost.com/results/4/chantilly/2024-05-01/333" data-test-selector="button-fullResult">Full result</a>"#;

#[test]
fn time_order_links_and_their_courses() {
    let pairs = extract_time_order_course_and_full_result_urls(TIME_ORDER);
    assert_eq!(
        pairs,
        vec![
            ("14:30 Ascot".to_string(), "https://www.racingpost.com/results/2/ascot/2024-05-01/111".to_string()),
            (
                "15:00 Leopardstown (IRE)".to_string(),
                "https://www.racingpost.com/results/3/leopardstown/2024-05-01/222".to_string()
            ),
            (
                "16:00 Chantilly (FR)".to_string(),
                "https://www.racingpost.com/results/4/chantilly/2024-05-01/333".to_string()
            ),
        ]
    );
}

#[test]
fn time_order_falls_back_to_looser_needles() {
    let html = r#"<a data-test-selector="text-raceNameTimeView">Kempton</a><a href="/r/9" class="button-fullResult">x</a>"#;
    assert_eq!(
        extract_time_order_course_and_full_result_urls(html),
        vec![("Kempton".to_string(), "https://www.racingpost.com/r/9".to_string())]
    );
    let loosest = r#"<a href="r/8" data-kind="fullResult">x</a>"#;
    assert_eq!(
        extract_time_order_course_and_full_result_urls(loosest),
        vec![("unknown".to_string(), "r/8".to_string())]
    );
    assert!(extract_time_order_course_and_full_result_urls("<p>none</p>").is_empty());
}

#[test]
fn course_and_url_before_a_position() {
    let idx = TIME_ORDER.find("data-test-selector=\"button-fullResult\"").unwrap();
    assert_eq!(course_name_before_idx(TIME_ORDER, idx), "14:30 Ascot");
    assert_eq!(
        full_result_url_before_idx(TIME_ORDER, idx),
        Some("https://www.racingpost.com/results/2/ascot/2024-05-01/111".to_string())
    );
    assert_eq!(course_name_before_idx("<a href=\"/x\">", 3), "unknown");
    assert_eq!(full_result_url_before_idx("<p>no link</p>", 5), None);
    assert_eq!(full_result_url_before_idx("<a href=\"\">", 9), None);
}

#[test]
fn grouping_drops_foreign_courses_and_sorts() {
    let pairs = extract_time_order_course_and_full_result_urls(TIME_ORDER);
    let mut input = pairs.clone();
    input.push(("14:30 Ascot".to_string(), "https://www.racingpost.com/results/2/ascot/2024-05-01/112".to_string()));
    let grouped = group_and_filter_course_urls(input);
    assert_eq!(
        grouped,
        vec![
            (
                "14:30 Ascot".to_string(),
                vec![
                    "https://www.racingpost.com/results/2/ascot/2024-05-01/111".to_string(),
                    "https://www.racingpost.com/results/2/ascot/2024-05-01/112".to_string()
                ]
            ),
            (
                "15:00 Leopardstown (IRE)".to_string(),
                vec!["https://www.racingpost.com/results/3/leopardstown/2024-05-01/222".to_string()]
            ),
        ]
    );
    let lines = build_url_tsv_lines(&grouped);
    assert_eq!(
        lines,
        vec![
            "14:30 Ascot\thttps://www.racingpost.com/results/2/ascot/2024-05-01/111".to_string(),
            "14:30 Ascot\thttps://www.racingpost.com/results/2/ascot/2024-05-01/112".to_string(),
            "15:00 Leopardstown (IRE)\thttps://www.racingpost.com/results/3/leopardstown/2024-05-01/222"
                .to_string(),
        ]
    );
}

#[test]
fn tsv_written_then_read_back() {
    let grouped = vec![
        ("Ascot".to_string(), vec!["u1".to_string(), "u2".to_string()]),
        ("Bath".to_string(), vec!["u3".to_string()]),
    ];
    let text = lines_text(&build_url_tsv_lines(&grouped));
    assert_eq!(text, "Ascot\tu1\nAscot\tu2\nBath\tu3");
    assert_eq!(
        parse_tsv_lines(&text),
        vec![
            ("Ascot".to_string(), "u1".to_string()),
            ("Ascot".to_string(), "u2".to_string()),
            ("Bath".to_string(), "u3".to_string()),
        ]
    );
}

#[test]
fn tsv_lines_edge_cases() {
    assert!(parse_tsv_lines("").is_empty());
    assert_eq!(
        parse_tsv_lines("a\tb\r\nno url\n\tc\nd\te\tf\n"),
        vec![
            ("a".to_string(), "b".to_string()),
            ("".to_string(), "c".to_string()),
            ("d".to_string(), "e".to_string()),
        ]
    );
    assert_eq!(parse_tsv_lines("x\ty\r"), vec![("x".to_string(), "y\r".to_string())]);
}

#[test]
fn scrape_file_names() {
    assert_eq!(out_base_dir_for_date("2024-05-01"), "/data/2024/05/01/");
    assert_eq!(out_base_dir_for_date("2024"), "/data/2024/unknown/unknown/");
    assert_eq!(
        split_ymd("2024-05"),
        ("2024".to_string(), "05".to_string(), "unknown".to_string())
    );
    let base = "/data/2024/05/01/";
    assert_eq!(
        per_course_urls_path(base, "2024-05-01", "Ascot (IRE)"),
        "/data/2024/05/01/racingpost-results-2024-05-01-time-order-full-result-urls-ascot__ire.txt"
    );
    assert_eq!(
        per_course_urls_path(base, "2024-05-01", "!!"),
        "/data/2024/05/01/racingpost-results-2024-05-01-time-order-full-result-urls-unknown.txt"
    );
    assert_eq!(
        urls_tsv_path(base, "2024-05-01"),
        "/data/2024/05/01/racingpost-results-2024-05-01-time-order-full-result-urls.tsv"
    );
    assert_eq!(time_order_html_path(base, "2024-05-01"), "/data/2024/05/01/racingpost-results-2024-05-01.html");
    assert_eq!(
        full_results_html_dir(base, "2024-05-01"),
        "/data/2024/05/01/racingpost-results-2024-05-01-time-order-full-results-html"
    );
    assert_eq!(full_result_html_file("/d", "ascot", 12), "/d/ascot-12.html");
}

#[test]
fn slugs_of_course_names() {
    assert_eq!(sanitize_filename_component("Ascot (IRE)"), "ascot__ire");
    assert_eq!(sanitize_filename_component("__Kempton-AW__"), "kempton_aw");
    assert_eq!(slug_or_unknown("Bath"), "bath");
    assert_eq!(slug_or_unknown(" ()"), "unknown");
}

#[test]
fn tags_stripped_and_space_collapsed() {
    let out = strip_tags_and_collapse_ws("  <b>Hello</b>\n\t <i>big</i>   world <br/> ");
    assert_eq!(out, "Hello big world");
    assert!(!out.contains('<') && !out.contains('>'));
    assert_eq!(strip_tags_and_collapse_ws("a<unclosed b c"), "a");
}

#[test]
fn svg_blocks_removed() {
    assert_eq!(remove_svg_blocks("a<svg x>1</svg>b<svg>2</svg>c"), "abc");
    assert_eq!(remove_svg_blocks("a<svg>never closed"), "a");
    assert_eq!(remove_svg_blocks("no svg"), "no svg");
}

#[test]
fn scroll_stops_when_page_stops_growing() {
    assert!(matches!(scroll_step(100, 100), ScrollStep::Stop));
    assert!(matches!(scroll_step(100, 250), ScrollStep::Again(250)));
    assert_eq!(SCROLL_ROUNDS, 12);
}

#[test]
fn pause_lengths_stay_in_range() {
    assert_eq!(pick_in_range(1500, 3500, 0), 1500);
    assert_eq!(pick_in_range(1500, 3500, 2001), 1500);
    assert_eq!(pick_in_range(1500, 3500, 2000), 3500);
    assert_eq!(pick_in_range(7, 7, 99), 7);
    assert_eq!(pick_in_range(9, 3, 99), 9);
    for _ in 0..20 {
        let v = pseudo_random_in_range(1500, 3500);
        assert!((1500..=3500).contains(&v));
    }
    assert_eq!(pseudo_random_in_range(10, 5), 10);
}

#[test]
fn checked_time_order_pairs() {
    assert_eq!(
        time_order_pairs_checked(TIME_ORDER),
        Some(extract_time_order_course_and_full_result_urls(TIME_ORDER))
    );
    assert_eq!(time_order_pairs_checked("<p>none</p>"), Some(vec![]));
    // The course window 20000 bytes before the button starts inside the `é`.
    let cut = format!("é{}<a href=\"/r/1\" data-test-selector=\"button-fullResult\">", "a".repeat(19984));
    assert_eq!(time_order_pairs_checked(&cut), None);
    // One byte more and the window starts right after it.
    let whole = format!("é{}<a href=\"/r/1\" data-test-selector=\"button-fullResult\">", "a".repeat(19985));
    assert_eq!(
        time_order_pairs_checked(&whole),
        Some(vec![("unknown".to_string(), "https://www.racingpost.com/r/1".to_string())])
    );
}

#[test]
fn json_escaped_text_reads_back() {
    for s in ["", "plain", "say \"hi\"", "back\\slash", "line\nbreak\r\ttab", "\\\"\\"] {
        let quoted = format!("\"{}\"", json_escape(s));
        assert_eq!(serde_json::from_str::<String>(&quoted).unwrap(), s);
    }
}

#[test]
fn file_name_components_are_safe() {
    for s in ["__Ascot (IRE)__", "Épinay/Chantilly", "  ", "Kempton-AW", "ÅÄÖ123"] {
        let c = sanitize_filename_component(s);
        assert!(c.chars().all(|ch| ch.is_ascii_lowercase() || ch.is_ascii_digit() || ch == '_'));
        assert!(!c.starts_with('_') && !c.ends_with('_'));
    }
    assert_eq!(sanitize_filename_component("__Ascot (IRE)__"), "ascot__ire");
    assert_eq!(sanitize_filename_component("ÅÄÖ123"), "123");
}

#[test]
fn pages_are_tried_three_times() {
    assert_eq!(FETCH_ATTEMPTS, 3);
    assert!(matches!(after_attempt(1, true), AttemptStep::Done));
    assert!(matches!(after_attempt(1, false), AttemptStep::Again(2)));
    assert!(matches!(after_attempt(2, false), AttemptStep::Again(3)));
    assert!(matches!(after_attempt(3, false), AttemptStep::GiveUp));
    assert!(matches!(after_attempt(3, true), AttemptStep::Done));
}

#[test]
fn stripping_twice_changes_nothing() {
    for s in ["  <b>Big</b>\n\t Race <i>x</i>  ", "a\u{a0}\u{a0}b <x y='1'>c</x>", "", "<<>>", "plain"] {
        let once = strip_tags_and_collapse_ws(s);
        assert_eq!(strip_tags_and_collapse_ws(&once), once);
        assert!(!once.contains('<') && !once.contains('>') && !once.contains("  "));
        assert!(once.chars().all(|c| !c.is_whitespace() || c == ' '));
        assert_eq!(once.trim(), once);
    }
}

#[test]
fn race_json_parses_back_to_its_fields() {
    let runners = vec![r#"{"horse":"A \"B\""}"#.to_string(), "[1,2]".to_string()];
    let json = build_race_json("14:30 \"Big\" Race", "12\\3", &runners, "https://x/r?a=\"1\"", "Ascot\nIRE");
    let v: serde_json::Value = serde_json::from_str(&json).unwrap();
    let o = v.as_object().unwrap();
    assert_eq!(o.len(), 5);
    assert_eq!(o["url"], "https://x/r?a=\"1\"");
    assert_eq!(o["course"], "Ascot\nIRE");
    assert_eq!(o["title"], "14:30 \"Big\" Race");
    assert_eq!(o["race_id"], "12\\3");
    let rs = o["runners"].as_array().unwrap();
    assert_eq!(rs.len(), 2);
    assert_eq!(rs[0], serde_json::from_str::<serde_json::Value>(&runners[0]).unwrap());
    assert_eq!(rs[1], serde_json::from_str::<serde_json::Value>(&runners[1]).unwrap());
}

#[test]
fn result_page_json_reads_back_runner_fields() {
    let json = parse_full_result_page(RESULT_PAGE, "https://x/r/1", "Ascot");
    let v: serde_json::Value = serde_json::from_str(&json).unwrap();
    let runners = v["runners"].as_array().unwrap();
    assert_eq!(runners.len(), extract_runners_json(RESULT_PAGE).len());
    for (r, text) in runners.iter().zip(extract_runners_json(RESULT_PAGE)) {
        let o = r.as_object().unwrap();
        assert_eq!(o.len(), 10);
        for key in ["position", "horse", "jockey", "trainer", "age", "weight_st", "weight_lb", "or", "ts", "rpr"] {
            assert!(o[key].is_string());
        }
        assert_eq!(r, &serde_json::from_str::<serde_json::Value>(&text).unwrap());
    }
}

#[test]
fn clock_readings_pick_pauses() {
    assert_eq!(pick_from_clock(1500, 3500, 10_000_000_123, 10), 2112);
    // The nanoseconds are cut to 64 bits before they are mixed.
    assert_eq!(pick_from_clock(0, 10, (1u128 << 70) + 5, 3), 6);
    assert_eq!(pick_from_clock(7, 7, 99, 1), 7);
    assert_eq!(pick_from_clock(9, 3, 99, 1), 9);
}

#[test]
fn race_json_keeps_any_runner_values_apart() {
    let runners: Vec<String> = vec!["true", "12.5", "\"x],{\"", "{\"a\":[\"]\",{}]}", "null"]
        .into_iter()
        .map(String::from)
        .collect();
    let json = build_race_json("t", "1", &runners, "u", "c");
    let v: serde_json::Value = serde_json::from_str(&json).unwrap();
    let rs = v["runners"].as_array().unwrap();
    assert_eq!(rs.len(), runners.len());
    for (r, text) in rs.iter().zip(&runners) {
        assert_eq!(r, &serde_json::from_str::<serde_json::Value>(text).unwrap());
    }
}
