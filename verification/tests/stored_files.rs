use racingpost_scraper::result_races::{finish_points, race_order, race_winner, ResultRow};
use racingpost_scraper::json::JsonValue;
use racingpost_scraper::paths::{
    course_from_stem, history_sql_path, history_sql_path_in, html_dir_and_date_for,
    infer_course_from_filename, infer_html_dir_and_date, json_path_for_name, output_json_path,
    output_parquet_path,
};
use racingpost_scraper::result_rows::{extract_partition_ymd, json_field, opt, FullResultRow};

fn s(t: &str) -> String {
    t.to_string()
}

fn runner_object() -> JsonValue {
    JsonValue::Object(vec![
        (s("position"), JsonValue::Str(s("1"))),
        (s("horse"), JsonValue::Str(s("Sea Star"))),
        (s("age"), JsonValue::Number(s("5"))),
        (s("or"), JsonValue::Str(s("101"))),
    ])
}

#[test]
fn json_output_beside_the_urls_file() {
    assert_eq!(
        output_json_path("/data/2024/05/01/racingpost-results-2024-05-01-time-order-full-result-urls.tsv", "/out/"),
        "/out/racingpost-results-2024-05-01-time-order-full-results.json"
    );
    assert_eq!(output_json_path("/", "/out"), "/out/racingpost-time-order-full-results.json");
    assert_eq!(output_json_path("plain.txt", "out"), "out/plain.txt");
}

#[test]
fn pages_folder_and_date_of_a_urls_file() {
    assert_eq!(
        infer_html_dir_and_date("/data/x/racingpost-results-2024-05-01-time-order-full-result-urls.tsv"),
        (s("/data/x/racingpost-results-2024-05-01-time-order-full-results-html"), s("2024-05-01"))
    );
    assert_eq!(
        infer_html_dir_and_date("notes.txt"),
        (s("/racingpost-results-unknown-time-order-full-results-html"), s("unknown"))
    );
    assert_eq!(
        infer_html_dir_and_date("/d//racingpost-results-x.tsv"),
        (s("/d/racingpost-results-x.tsv-time-order-full-results-html"), s("x.tsv"))
    );
}

#[test]
fn course_in_a_page_file_name() {
    assert_eq!(infer_course_from_filename("/d/ascot-2-3.html"), Some(s("ascot-2")));
    assert_eq!(infer_course_from_filename("/d/ascot.html"), None);
    assert_eq!(infer_course_from_filename("/"), None);
}

#[test]
fn parquet_output_under_date_folders() {
    assert_eq!(
        output_parquet_path("/data/2024/05/01/racingpost-results-html", "/out/"),
        "/out/year=2024/month=05/day=01/full-results-runners.parquet"
    );
    assert_eq!(output_parquet_path("/data/html", "/out"), "/out/full-results-runners.parquet");
}

#[test]
fn history_query_file_beside_the_output() {
    assert_eq!(
        history_sql_path("/data/racecards/x.json", "2024", "05", "01"),
        "/data/racecards/racingpost-racecards-2024-05-01-history.sql"
    );
    assert_eq!(history_sql_path("x.json", "2024", "05", "01"), "/racingpost-racecards-2024-05-01-history.sql");
    assert_eq!(history_sql_path("/", "2024", "05", "01"), "/data/racingpost-racecards-2024-05-01-history.sql");
}

#[test]
fn fields_of_runner_objects() {
    let v = runner_object();
    assert_eq!(json_field(&v, "horse"), "Sea Star");
    assert_eq!(json_field(&v, "age"), "");
    assert_eq!(json_field(&v, "jockey"), "");
    assert_eq!(json_field(&JsonValue::Null, "horse"), "");
    let r = FullResultRow::from_json("u", "c", "t", "9", "Good", &v);
    assert_eq!(
        (r.url.as_str(), r.course.as_str(), r.title.as_str(), r.race_id.as_str(), r.going.as_str()),
        ("u", "c", "t", "9", "Good")
    );
    assert_eq!((r.position.as_str(), r.horse.as_str(), r.age.as_str(), r.or_rating.as_str()), ("1", "Sea Star", "", "101"));
    assert_eq!((r.jockey.as_str(), r.trainer.as_str(), r.ts.as_str(), r.rpr.as_str()), ("", "", "", ""));
}

#[test]
fn optional_texts() {
    assert_eq!(opt("  x y "), Some("x y"));
    assert_eq!(opt(" \t "), None);
    assert_eq!(opt(""), None);
}

#[test]
fn dates_of_stored_tables() {
    assert_eq!(extract_partition_ymd("/data/year=2024/month=02/day=29/f.parquet"), Some((2024, 2, 29)));
    assert_eq!(extract_partition_ymd("/data/year=2024/month=02/day=30/f.parquet"), None);
    assert_eq!(extract_partition_ymd("year=2023/month=02/day=29"), None);
    assert_eq!(extract_partition_ymd("year=2024/month=1"), None);
    assert_eq!(extract_partition_ymd("year=abc/month=1/day=1"), None);
    assert_eq!(extract_partition_ymd("year=2020\\x\\year=2024/month=+1/day=1"), Some((2024, 1, 1)));
    assert_eq!(extract_partition_ymd("year=2024/month=1/day=1/year=x"), None);
}

fn result_row(race_id: &str, title: &str, horse: &str, position: Option<i64>) -> ResultRow {
    ResultRow {
        race_id: race_id.to_string(),
        course: "Ascot".to_string(),
        title: title.to_string(),
        going: "Good".to_string(),
        position,
        horse: horse.to_string(),
        jockey: "J".to_string(),
        trainer: "T".to_string(),
        rpr: Some("100".to_string()),
    }
}

#[test]
fn stored_rows_grouped_into_races_by_start() {
    let rows = vec![
        result_row("2", "15:30 Ascot", "A", Some(2)),
        result_row("1", "14:00 Ascot", "B", Some(1)),
        result_row("", "13:00 Ascot", "C", Some(1)),
        result_row("2", "15:30 Ascot", "D", Some(1)),
        result_row("3", "no time", "E", None),
        result_row("1", "14:00 Ascot", "  ", Some(3)),
        result_row("4", "14:00 Bath", "F", Some(1)),
        result_row("1", "14:00 Ascot", "G", Some(2)),
    ];
    // Race 1 and race 4 both start at 14:00 and keep their order of appearance;
    // race 3 names no time and comes last; rows without id or horse are left out.
    assert_eq!(race_order(&rows), vec![vec![1, 7], vec![6], vec![0, 3], vec![4]]);
    assert_eq!(race_winner(&rows, &vec![0, 3]), Some(3));
    assert_eq!(race_winner(&rows, &vec![1, 7]), Some(1));
    assert_eq!(race_winner(&rows, &vec![4]), None);
    assert_eq!(race_winner(&rows, &vec![99, 3]), Some(3));
    assert!(race_order(&vec![]).is_empty());
}

#[test]
fn paths_from_path_pieces() {
    let name = Some("racingpost-results-2024-05-01-time-order-full-result-urls.tsv".to_string());
    assert_eq!(
        json_path_for_name(&name, "/out//"),
        "/out/racingpost-results-2024-05-01-time-order-full-results.json"
    );
    assert_eq!(json_path_for_name(&None, "/out"), "/out/racingpost-time-order-full-results.json");
    assert_eq!(
        html_dir_and_date_for(&name, &Some("/data/2024/05/01/".to_string())),
        (
            "/data/2024/05/01/racingpost-results-2024-05-01-time-order-full-results-html".to_string(),
            "2024-05-01".to_string()
        )
    );
    assert_eq!(
        html_dir_and_date_for(&None, &None),
        ("./racingpost-results-unknown-time-order-full-results-html".to_string(), "unknown".to_string())
    );
    assert_eq!(course_from_stem("newton_abbot-3"), Some("newton_abbot".to_string()));
    assert_eq!(course_from_stem("ascot"), None);
    assert_eq!(
        history_sql_path_in(&None, "2024", "05", "01"),
        "/data/racingpost-racecards-2024-05-01-history.sql"
    );
    assert_eq!(
        history_sql_path_in(&Some("/out/".to_string()), "2024", "05", "01"),
        "/out/racingpost-racecards-2024-05-01-history.sql"
    );
}

#[test]
fn points_for_finishing_positions() {
    assert_eq!(finish_points(1), (5, true));
    assert_eq!(finish_points(2), (3, false));
    assert_eq!(finish_points(3), (2, false));
    assert_eq!(finish_points(4), (1, false));
    assert_eq!(finish_points(5), (0, false));
    assert_eq!(finish_points(0), (0, false));
    assert_eq!(finish_points(-1), (0, false));
}
