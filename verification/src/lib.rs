pub mod text;
pub mod sorted;
pub mod numbers;
pub mod full_result_parse;
pub mod utils;
pub mod racingpost;
pub mod scrape;
pub mod racecard;
pub mod json;
pub mod racecard_page;
pub mod history_sql;
pub mod racecard_urls;
pub mod race_text;
pub mod race_times;
pub mod race_table;
pub mod paths;
pub mod result_rows;
pub mod result_races;
