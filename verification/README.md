# racingpost_scraper

Scrapes Racing Post results and racecards, parses the saved pages into JSON,
JSON lines and Parquet tables, and rates the day's runners from their past form.

- `src/` is the verified library (Verus): page parsing (full results, racecards,
  time-order pages), url lists and file names, the Next.js data of a page, race
  start times, the day's race table, the Athena history query. Each public
  function states its result in its contract; the proof functions (`lemma_*`)
  state laws that relate several functions, such as that the url list the
  scraper writes reads back as the pairs it was made from.
- `app/` is the command-line program around it: the Chromium session, file and
  Parquet I/O, argument handling, and the rating model and back-test, whose
  figures are floating-point.
- `tests/` runs the library on concrete pages and values.
