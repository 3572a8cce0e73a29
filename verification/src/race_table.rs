//! A day's racecard rows made into races: non-runners dropped, rows grouped by
//! race in order of first appearance, races ordered by start, and races that
//! started long ago left out.
use vstd::prelude::*;
use crate::text::{chars_of, trim, lex_lt, lex_order, chars_eq};
use crate::race_text::{
    alnum_lower, course_from_race_name, minutes_of_time, derive_course_from_race_name,
    is_non_runner, time_minutes_since_midnight,
};
use crate::race_times::{Instant, instant_lt, instant_before, rfc3339_instant, parse_rfc3339_instant};
use crate::racecard::opt_view;

verus! {

/// One racecard row as read from the day's table; `odds` is the text of the odds
/// column, when it has one.
pub struct RaceRow {
    pub course: String,
    pub time: String,
    pub race_name: String,
    pub going: String,
    pub horse: String,
    pub jockey: String,
    pub trainer: String,
    pub odds: Option<String>,
}

/// What identifies a race.
pub struct RaceKey {
    pub course: String,
    pub time: String,
    pub race_name: String,
    pub going: String,
}

/// A runner of a race.
pub struct RunnerMini {
    pub horse: String,
    pub jockey: String,
    pub trainer: String,
    pub odds: Option<String>,
}

/// Texts of a row: course, time, race name, going, horse, jockey, trainer, odds.
pub type RowView = (Seq<char>, Seq<char>, Seq<char>, Seq<char>, Seq<char>, Seq<char>, Seq<char>, Option<Seq<char>>);

/// Texts of a race key: course, time, race name, going.
pub type KeyView = (Seq<char>, Seq<char>, Seq<char>, Seq<char>);

/// Texts of a runner: horse, jockey, trainer, odds.
pub type MiniView = (Seq<char>, Seq<char>, Seq<char>, Option<Seq<char>>);

/// A race as texts.
pub type RaceGroup = (KeyView, Seq<MiniView>);

impl RaceRow {
    pub open spec fn view_of(&self) -> RowView {
        (
            self.course@,
            self.time@,
            self.race_name@,
            self.going@,
            self.horse@,
            self.jockey@,
            self.trainer@,
            opt_view(self.odds),
        )
    }
}

impl RaceKey {
    pub open spec fn view_of(&self) -> KeyView {
        (self.course@, self.time@, self.race_name@, self.going@)
    }
}

impl RunnerMini {
    pub open spec fn view_of(&self) -> MiniView {
        (self.horse@, self.jockey@, self.trainer@, opt_view(self.odds))
    }
}

/// The texts of races.
pub open spec fn races_view(v: Seq<(RaceKey, Vec<RunnerMini>)>) -> Seq<RaceGroup> {
    v.map_values(
        |e: (RaceKey, Vec<RunnerMini>)|
            (e.0.view_of(), e.1@.map_values(|r: RunnerMini| r.view_of())),
    )
}

/// The texts of rows.
pub open spec fn rows_view(v: Seq<RaceRow>) -> Seq<RowView> {
    v.map_values(|r: RaceRow| r.view_of())
}

// ---------------------------------------------------------------------------
// Grouping
// ---------------------------------------------------------------------------

/// A field that says non-runner.
pub open spec fn says_non_runner(s: Seq<char>) -> bool {
    alnum_lower(trim(s)) == "nonrunner"@
}

/// A row that names a horse and no non-runner.
pub open spec fn row_kept(r: RowView) -> bool {
    &&& trim(r.4).len() > 0
    &&& !says_non_runner(r.4)
    &&& !says_non_runner(r.5)
    &&& !says_non_runner(r.6)
}

/// The race of a row: the course read from the race name when it has one.
pub open spec fn row_key(r: RowView) -> KeyView {
    (course_from_race_name(r.0, r.2), r.1, r.2, r.3)
}

/// The runner of a row.
pub open spec fn row_runner(r: RowView) -> MiniView {
    (r.4, r.5, r.6, r.7)
}

/// The position of the race with key `k`.
pub open spec fn key_index(g: Seq<RaceGroup>, k: KeyView) -> Option<int>
    decreases g.len(),
{
    if g.len() == 0 {
        None
    } else {
        match key_index(g.drop_last(), k) {
            Some(i) => Some(i),
            None => if g.last().0 == k {
                Some(g.len() - 1)
            } else {
                None
            },
        }
    }
}

/// The races of the kept rows, in order of first appearance, each with its runners
/// in row order.
pub open spec fn grouped(rows: Seq<RowView>) -> Seq<RaceGroup>
    decreases rows.len(),
{
    if rows.len() == 0 {
        Seq::empty()
    } else {
        let g = grouped(rows.drop_last());
        let r = rows.last();
        if !row_kept(r) {
            g
        } else {
            match key_index(g, row_key(r)) {
                Some(i) => g.update(i, (g[i].0, g[i].1.push(row_runner(r)))),
                None => g.push((row_key(r), seq![row_runner(r)])),
            }
        }
    }
}

/// Runner `x` of the race `key` is the one of row `r`: the row names a horse and no
/// non-runner, the runner has the row's horse, jockey, trainer and odds, and the
/// race has the row's time, race name and going, and the course read from the row's
/// race name (else the row's course).
pub open spec fn runner_of_row(x: MiniView, key: KeyView, r: RowView) -> bool {
    &&& row_kept(r)
    &&& x.0 == r.4 && x.1 == r.5 && x.2 == r.6 && x.3 == r.7
    &&& key.0 == course_from_race_name(r.0, r.2)
    &&& key.1 == r.1 && key.2 == r.2 && key.3 == r.3
}

/// Runner `k` of race `i`.
pub open spec fn runner_at(g: Seq<RaceGroup>, i: int, k: int) -> MiniView {
    g[i].1[k]
}

/// Runner `x` of race `key` is the runner of some row of `rows`.
pub open spec fn from_some_row(rows: Seq<RowView>, x: MiniView, key: KeyView) -> bool {
    exists|j: int| 0 <= j < rows.len() && #[trigger] runner_of_row(x, key, rows[j])
}

/// Every runner of every race is the runner of some row of `rows` in that race.
pub open spec fn runners_from_rows(rows: Seq<RowView>, g: Seq<RaceGroup>) -> bool {
    forall|i: int, k: int|
        0 <= i < g.len() && 0 <= k < g[i].1.len() ==> #[trigger] from_some_row(rows, runner_at(g, i, k), g[i].0)
}

/// Every kept row of `rows` gives a runner of some race.
pub open spec fn rows_in_races(rows: Seq<RowView>, g: Seq<RaceGroup>) -> bool {
    forall|j: int|
        0 <= j < rows.len() && row_kept(#[trigger] rows[j]) ==> exists|i: int, k: int|
            0 <= i < g.len() && 0 <= k < g[i].1.len() && runner_of_row(#[trigger] runner_at(g, i, k), g[i].0, rows[j])
}

/// A row that is dropped changes neither side.
proof fn lemma_rows_skip(d: Seq<RowView>, r: RowView, rows: Seq<RowView>, g: Seq<RaceGroup>)
    requires
        rows == d.push(r),
        !row_kept(r),
        runners_from_rows(d, g),
        rows_in_races(d, g),
    ensures
        runners_from_rows(rows, g),
        rows_in_races(rows, g),
{
    assert forall|i: int, k: int|
        0 <= i < g.len() && 0 <= k < g[i].1.len() implies #[trigger] from_some_row(rows, runner_at(g, i, k), g[i].0) by {
        assert(from_some_row(d, runner_at(g, i, k), g[i].0));
        let j = choose|j: int| 0 <= j < d.len() && #[trigger] runner_of_row(runner_at(g, i, k), g[i].0, d[j]);
        assert(rows[j] == d[j]);
        assert(runner_of_row(runner_at(g, i, k), g[i].0, rows[j]));
    }
    assert forall|j: int| 0 <= j < rows.len() && row_kept(#[trigger] rows[j]) implies exists|i: int, k: int|
        0 <= i < g.len() && 0 <= k < g[i].1.len() && runner_of_row(#[trigger] runner_at(g, i, k), g[i].0, rows[j]) by {
        assert(j < d.len());
        assert(rows[j] == d[j]);
        assert(row_kept(d[j]));
        let (i, k) = choose|i: int, k: int|
            0 <= i < g.len() && 0 <= k < g[i].1.len() && runner_of_row(#[trigger] runner_at(g, i, k), g[i].0, d[j]);
        assert(runner_of_row(runner_at(g, i, k), g[i].0, rows[j]));
    }
}

/// A kept row joining race `i0` adds its runner there.
#[verifier::spinoff_prover]
proof fn lemma_rows_join(
    d: Seq<RowView>,
    r: RowView,
    rows: Seq<RowView>,
    g: Seq<RaceGroup>,
    i0: int,
    g2: Seq<RaceGroup>,
)
    requires
        rows == d.push(r),
        0 <= i0 < g.len(),
        g2 == g.update(i0, (g[i0].0, g[i0].1.push(row_runner(r)))),
        runner_of_row(row_runner(r), g[i0].0, r),
        runners_from_rows(d, g),
        rows_in_races(d, g),
    ensures
        runners_from_rows(rows, g2),
        rows_in_races(rows, g2),
{
    let x = row_runner(r);
    let n = d.len() as int;
    assert(rows[n] == r);
    assert forall|i: int, k: int|
        0 <= i < g2.len() && 0 <= k < g2[i].1.len() implies #[trigger] from_some_row(rows, runner_at(g2, i, k), g2[i].0) by {
        if i == i0 && k == g[i0].1.len() {
            assert(runner_at(g2, i, k) == x);
            assert(runner_of_row(runner_at(g2, i, k), g2[i].0, rows[n]));
        } else {
            assert(runner_at(g2, i, k) == runner_at(g, i, k));
            assert(g2[i].0 == g[i].0);
            assert(from_some_row(d, runner_at(g, i, k), g[i].0));
        let j = choose|j: int| 0 <= j < d.len() && #[trigger] runner_of_row(runner_at(g, i, k), g[i].0, d[j]);
            assert(rows[j] == d[j]);
            assert(runner_of_row(runner_at(g2, i, k), g2[i].0, rows[j]));
        }
    }
    assert forall|j: int| 0 <= j < rows.len() && row_kept(#[trigger] rows[j]) implies exists|i: int, k: int|
        0 <= i < g2.len() && 0 <= k < g2[i].1.len() && runner_of_row(#[trigger] runner_at(g2, i, k), g2[i].0, rows[j]) by {
        if j == n {
            let k = g[i0].1.len() as int;
            assert(runner_at(g2, i0, k) == x);
            assert(runner_of_row(runner_at(g2, i0, k), g2[i0].0, rows[j]));
        } else {
            assert(rows[j] == d[j]);
            assert(row_kept(d[j]));
            let (i, k) = choose|i: int, k: int|
                0 <= i < g.len() && 0 <= k < g[i].1.len() && runner_of_row(#[trigger] runner_at(g, i, k), g[i].0, d[j]);
            assert(runner_at(g2, i, k) == runner_at(g, i, k));
            assert(g2[i].0 == g[i].0);
            assert(runner_of_row(runner_at(g2, i, k), g2[i].0, rows[j]));
        }
    }
}

/// A kept row of a new race starts that race with its runner.
#[verifier::spinoff_prover]
proof fn lemma_rows_start(d: Seq<RowView>, r: RowView, rows: Seq<RowView>, g: Seq<RaceGroup>, g2: Seq<RaceGroup>)
    requires
        rows == d.push(r),
        g2 == g.push((row_key(r), seq![row_runner(r)])),
        runner_of_row(row_runner(r), row_key(r), r),
        runners_from_rows(d, g),
        rows_in_races(d, g),
    ensures
        runners_from_rows(rows, g2),
        rows_in_races(rows, g2),
{
    let x = row_runner(r);
    let n = d.len() as int;
    assert(rows[n] == r);
    assert forall|i: int, k: int|
        0 <= i < g2.len() && 0 <= k < g2[i].1.len() implies #[trigger] from_some_row(rows, runner_at(g2, i, k), g2[i].0) by {
        if i == g.len() {
            assert(runner_at(g2, i, k) == x);
            assert(runner_of_row(runner_at(g2, i, k), g2[i].0, rows[n]));
        } else {
            assert(g2[i] == g[i]);
            assert(runner_at(g2, i, k) == runner_at(g, i, k));
            assert(from_some_row(d, runner_at(g, i, k), g[i].0));
        let j = choose|j: int| 0 <= j < d.len() && #[trigger] runner_of_row(runner_at(g, i, k), g[i].0, d[j]);
            assert(rows[j] == d[j]);
            assert(runner_of_row(runner_at(g2, i, k), g2[i].0, rows[j]));
        }
    }
    assert forall|j: int| 0 <= j < rows.len() && row_kept(#[trigger] rows[j]) implies exists|i: int, k: int|
        0 <= i < g2.len() && 0 <= k < g2[i].1.len() && runner_of_row(#[trigger] runner_at(g2, i, k), g2[i].0, rows[j]) by {
        if j == n {
            let i = g.len() as int;
            assert(runner_at(g2, i, 0) == x);
            assert(runner_of_row(runner_at(g2, i, 0), g2[i].0, rows[j]));
        } else {
            assert(rows[j] == d[j]);
            assert(row_kept(d[j]));
            let (i, k) = choose|i: int, k: int|
                0 <= i < g.len() && 0 <= k < g[i].1.len() && runner_of_row(#[trigger] runner_at(g, i, k), g[i].0, d[j]);
            assert(g2[i] == g[i]);
            assert(runner_at(g2, i, k) == runner_at(g, i, k));
            assert(runner_of_row(runner_at(g2, i, k), g2[i].0, rows[j]));
        }
    }
}

/// Grouping neither invents nor loses a runner: every runner of every race is the
/// runner of some kept row of that race (same horse, jockey, trainer and odds; same
/// time, race name and going), and every kept row gives a runner of some race.
pub proof fn lemma_grouped_runners_are_rows(rows: Seq<RowView>)
    ensures
        runners_from_rows(rows, grouped(rows)),
        rows_in_races(rows, grouped(rows)),
    decreases rows.len(),
{
    if rows.len() > 0 {
        let d = rows.drop_last();
        let r = rows.last();
        lemma_grouped_runners_are_rows(d);
        let g = grouped(d);
        assert(d.push(r) =~= rows);
        if !row_kept(r) {
            lemma_rows_skip(d, r, rows, g);
        } else {
            let key = row_key(r);
            match key_index(g, key) {
                Some(i0) => {
                    lemma_key_index_hit(g, key);
                    lemma_rows_join(d, r, rows, g, i0, grouped(rows));
                },
                None => {
                    lemma_rows_start(d, r, rows, g, grouped(rows));
                },
            }
        }
    }
}

/// Whether two race keys are the same.
fn same_key(a: &RaceKey, b: &RaceKey) -> (res: bool)
    ensures
        res == (a.view_of() == b.view_of()),
{
    let a0 = chars_of(a.course.as_str());
    let b0 = chars_of(b.course.as_str());
    let a1 = chars_of(a.time.as_str());
    let b1 = chars_of(b.time.as_str());
    let a2 = chars_of(a.race_name.as_str());
    let b2 = chars_of(b.race_name.as_str());
    let a3 = chars_of(a.going.as_str());
    let b3 = chars_of(b.going.as_str());
    chars_eq(&a0, &b0) && chars_eq(&a1, &b1) && chars_eq(&a2, &b2) && chars_eq(&a3, &b3)
}

/// The position of the race with the key.
fn find_key(g: &Vec<(RaceKey, Vec<RunnerMini>)>, k: &RaceKey) -> (res: Option<usize>)
    ensures
        match res {
            Some(i) => key_index(races_view(g@), k.view_of()) == Some(i as int) && i < g@.len(),
            None => key_index(races_view(g@), k.view_of()) is None,
        },
{
    let ghost gv = races_view(g@);
    let mut i: usize = 0;
    assert(gv.take(0) =~= Seq::<RaceGroup>::empty());
    while i < g.len()
        invariant
            i <= g@.len(),
            gv == races_view(g@),
            key_index(gv.take(i as int), k.view_of()) is None,
        decreases g@.len() - i,
    {
        assert(gv.take(i + 1).drop_last() =~= gv.take(i as int));
        assert(gv.take(i + 1).last() == gv[i as int]);
        assert(gv[i as int].0 == g@[i as int].0.view_of());
        if same_key(&g[i].0, k) {
            proof {
                lemma_key_index_prefix(gv, k.view_of(), i + 1);
            }
            return Some(i);
        }
        i = i + 1;
    }
    assert(gv.take(g@.len() as int) =~= gv);
    None
}

/// The first position found in a prefix is the first in the whole.
proof fn lemma_key_index_prefix(g: Seq<RaceGroup>, k: KeyView, n: int)
    requires
        0 <= n <= g.len(),
        key_index(g.take(n), k) is Some,
    ensures
        key_index(g, k) == key_index(g.take(n), k),
    decreases g.len(),
{
    if n < g.len() {
        assert(g.drop_last().take(n) =~= g.take(n));
        lemma_key_index_prefix(g.drop_last(), k, n);
    } else {
        assert(g.take(n) =~= g);
    }
}

/// A found position holds the key.
proof fn lemma_key_index_hit(g: Seq<RaceGroup>, k: KeyView)
    requires
        key_index(g, k) is Some,
    ensures
        0 <= key_index(g, k)->0 < g.len(),
        g[key_index(g, k)->0].0 == k,
    decreases g.len(),
{
    if key_index(g.drop_last(), k) is Some {
        lemma_key_index_hit(g.drop_last(), k);
    }
}

/// Whether a row names a horse and no non-runner.
fn row_kept_exec(r: &RaceRow) -> (res: bool)
    ensures
        res == row_kept(r.view_of()),
{
    let h = chars_of(r.horse.as_str());
    let t = crate::text::trimmed_chars(&h, 0, h.len());
    assert(h@.subrange(0, h@.len() as int) =~= h@);
    if t.len() == 0 {
        return false;
    }
    !(is_non_runner(r.horse.as_str()) || is_non_runner(r.jockey.as_str()) || is_non_runner(
        r.trainer.as_str(),
    ))
}

/// A copy of optional text.
fn clone_odds(o: &Option<String>) -> (res: Option<String>)
    ensures
        opt_view(res) == opt_view(*o),
{
    match o {
        Some(s) => Some(s.clone()),
        None => None,
    }
}

/// The races of the kept rows, in order of first appearance.
pub fn group_race_rows(rows: &Vec<RaceRow>) -> (res: Vec<(RaceKey, Vec<RunnerMini>)>)
    ensures
        races_view(res@) == grouped(rows_view(rows@)),
{
    let ghost rv = rows_view(rows@);
    let mut g: Vec<(RaceKey, Vec<RunnerMini>)> = Vec::new();
    let mut n: usize = 0;
    assert(rv.take(0) =~= Seq::<RowView>::empty());
    assert(races_view(g@) =~= Seq::<RaceGroup>::empty());
    while n < rows.len()
        invariant
            n <= rows@.len(),
            rv == rows_view(rows@),
            races_view(g@) == grouped(rv.take(n as int)),
        decreases rows@.len() - n,
    {
        let r = &rows[n];
        let ghost rview = r.view_of();
        assert(rv.take(n + 1).drop_last() =~= rv.take(n as int));
        assert(rv.take(n + 1).last() == rview);
        let ghost gv0 = races_view(g@);
        if row_kept_exec(r) {
            let key = RaceKey {
                course: derive_course_from_race_name(r.course.as_str(), r.race_name.as_str()),
                time: r.time.clone(),
                race_name: r.race_name.clone(),
                going: r.going.clone(),
            };
            let runner = RunnerMini {
                horse: r.horse.clone(),
                jockey: r.jockey.clone(),
                trainer: r.trainer.clone(),
                odds: clone_odds(&r.odds),
            };
            assert(key.view_of() == row_key(rview));
            assert(runner.view_of() == row_runner(rview));
            match find_key(&g, &key) {
                Some(i) => {
                    proof {
                        lemma_key_index_hit(gv0, key.view_of());
                    }
                    let (k, mut rs) = g.remove(i);
                    let ghost old_rs = rs@.map_values(|x: RunnerMini| x.view_of());
                    assert(gv0[i as int] == (k.view_of(), old_rs));
                    rs.push(runner);
                    assert(rs@.map_values(|x: RunnerMini| x.view_of()) =~= old_rs.push(row_runner(rview)));
                    g.insert(i, (k, rs));
                    assert(races_view(g@) =~= gv0.update(
                        i as int,
                        (gv0[i as int].0, gv0[i as int].1.push(row_runner(rview))),
                    ));
                },
                None => {
                    let mut rs: Vec<RunnerMini> = Vec::new();
                    rs.push(runner);
                    assert(rs@.map_values(|x: RunnerMini| x.view_of()) =~= seq![row_runner(rview)]);
                    g.push((key, rs));
                    assert(races_view(g@) =~= gv0.push((row_key(rview), seq![row_runner(rview)])));
                },
            }
        }
        n = n + 1;
    }
    assert(rv.take(rows@.len() as int) =~= rv);
    g
}


// ---------------------------------------------------------------------------
// Ordering by start
// ---------------------------------------------------------------------------

/// Race `a` starts before race `b`: earlier minutes since midnight, or the same
/// minutes and an earlier time text.
pub open spec fn race_before(a: KeyView, b: KeyView) -> bool {
    ||| minutes_of_time(a.1) < minutes_of_time(b.1)
    ||| (minutes_of_time(a.1) == minutes_of_time(b.1) && lex_lt(a.1, b.1))
}

/// The first position from `i` whose race `x` starts before.
pub open spec fn insert_pos(q: Seq<RaceGroup>, x: RaceGroup, i: int) -> int
    decreases q.len() - i,
{
    if i < 0 || i >= q.len() {
        q.len() as int
    } else if race_before(x.0, q[i].0) {
        i
    } else {
        insert_pos(q, x, i + 1)
    }
}

/// The races ordered by start, keeping the given order among races that start
/// together (a stable sort).
pub open spec fn stable_sorted(gs: Seq<RaceGroup>) -> Seq<RaceGroup>
    decreases gs.len(),
{
    if gs.len() == 0 {
        Seq::empty()
    } else {
        let q = stable_sorted(gs.drop_last());
        q.insert(insert_pos(q, gs.last(), 0), gs.last())
    }
}

/// Whether race `a` starts before race `b`.
fn race_before_exec(a: &RaceKey, b: &RaceKey) -> (res: bool)
    ensures
        res == race_before(a.view_of(), b.view_of()),
{
    let am = time_minutes_since_midnight(a.time.as_str());
    let bm = time_minutes_since_midnight(b.time.as_str());
    if am < bm {
        return true;
    }
    if am > bm {
        return false;
    }
    let at = chars_of(a.time.as_str());
    let bt = chars_of(b.time.as_str());
    lex_order(&at, &bt) < 0
}

/// An insert position stays within the list.
proof fn lemma_insert_pos_bounds(q: Seq<RaceGroup>, x: RaceGroup, i: int)
    requires
        0 <= i <= q.len(),
    ensures
        i <= insert_pos(q, x, i) <= q.len(),
    decreases q.len() - i,
{
    if i < q.len() && !race_before(x.0, q[i].0) {
        lemma_insert_pos_bounds(q, x, i + 1);
    }
}

/// Starting before is a strict order: never both ways, and transitive.
pub proof fn lemma_race_before_order(a: KeyView, b: KeyView, c: KeyView)
    ensures
        !race_before(a, a),
        race_before(a, b) ==> !race_before(b, a),
        race_before(a, b) && race_before(b, c) ==> race_before(a, c),
{
    crate::text::lemma_lex_total(a.1, a.1);
    crate::text::lemma_lex_total(a.1, b.1);
    if race_before(a, b) && race_before(b, c) {
        if minutes_of_time(a.1) == minutes_of_time(b.1) && minutes_of_time(b.1) == minutes_of_time(c.1) {
            crate::text::lemma_lex_trans(a.1, b.1, c.1);
        }
    }
}

/// Races in order: none starts before one listed ahead of it.
pub open spec fn ordered_by_start(q: Seq<RaceGroup>) -> bool {
    forall|i: int, j: int| 0 <= i < j < q.len() ==> !race_before(#[trigger] q[j].0, #[trigger] q[i].0)
}

/// The position found for `x` has every race before it not starting after `x`,
/// and the race at it starting after `x`.
proof fn lemma_insert_pos_spot(q: Seq<RaceGroup>, x: RaceGroup, i: int)
    requires
        0 <= i <= q.len(),
    ensures
        forall|k: int| i <= k < insert_pos(q, x, i) ==> !race_before(x.0, #[trigger] q[k].0),
        insert_pos(q, x, i) < q.len() ==> race_before(x.0, q[insert_pos(q, x, i)].0),
    decreases q.len() - i,
{
    if i < q.len() && !race_before(x.0, q[i].0) {
        lemma_insert_pos_spot(q, x, i + 1);
    }
}

/// Sorting puts the races in order of start.
pub proof fn lemma_stable_sorted_ordered(gs: Seq<RaceGroup>)
    ensures
        ordered_by_start(stable_sorted(gs)),
    decreases gs.len(),
{
    if gs.len() > 0 {
        lemma_stable_sorted_ordered(gs.drop_last());
        let q = stable_sorted(gs.drop_last());
        let x = gs.last();
        let p = insert_pos(q, x, 0);
        lemma_insert_pos_bounds(q, x, 0);
        lemma_insert_pos_spot(q, x, 0);
        let r = q.insert(p, x);
        assert forall|i: int, j: int| 0 <= i < j < r.len() implies !race_before(#[trigger] r[j].0, #[trigger] r[i].0) by {
            if j < p {
                assert(r[i] == q[i] && r[j] == q[j]);
            } else if j == p {
                assert(r[i] == q[i] && r[j] == x);
                assert(!race_before(x.0, q[i].0));
            } else if i == p {
                assert(r[j] == q[j - 1]);
                assert(race_before(x.0, q[p].0));
                lemma_race_before_order(q[j - 1].0, x.0, q[p].0);
                if j - 1 > p {
                    assert(!race_before(q[j - 1].0, q[p].0));
                }
                lemma_race_before_order(x.0, q[j - 1].0, x.0);
            } else if i < p {
                assert(r[i] == q[i] && r[j] == q[j - 1]);
            } else {
                assert(r[i] == q[i - 1] && r[j] == q[j - 1]);
            }
        }
    }
}

/// Sorting keeps the same races, each as often.
pub proof fn lemma_stable_sorted_permutes(gs: Seq<RaceGroup>)
    ensures
        stable_sorted(gs).to_multiset() == gs.to_multiset(),
    decreases gs.len(),
{
    broadcast use vstd::seq_lib::to_multiset_insert, vstd::seq_lib::to_multiset_build;

    if gs.len() == 0 {
        assert(stable_sorted(gs) =~= gs);
    } else {
        lemma_stable_sorted_permutes(gs.drop_last());
        let q = stable_sorted(gs.drop_last());
        lemma_insert_pos_bounds(q, gs.last(), 0);
        assert(gs =~= gs.drop_last().push(gs.last()));
    }
}

/// The races ordered by start, stably.
pub fn sort_races(races: Vec<(RaceKey, Vec<RunnerMini>)>) -> (res: Vec<(RaceKey, Vec<RunnerMini>)>)
    ensures
        races_view(res@) == stable_sorted(races_view(races@)),
        ordered_by_start(races_view(res@)),
        races_view(res@).to_multiset() == races_view(races@).to_multiset(),
{
    proof {
        lemma_stable_sorted_ordered(races_view(races@));
        lemma_stable_sorted_permutes(races_view(races@));
    }
    let ghost gv = races_view(races@);
    let mut rest = races;
    let mut q: Vec<(RaceKey, Vec<RunnerMini>)> = Vec::new();
    let ghost n: int = 0;
    assert(gv.take(0) =~= Seq::<RaceGroup>::empty());
    assert(races_view(q@) =~= Seq::<RaceGroup>::empty());
    assert(races_view(rest@) =~= gv.skip(0));
    while rest.len() > 0
        invariant
            0 <= n <= gv.len(),
            races_view(rest@) == gv.skip(n),
            races_view(q@) == stable_sorted(gv.take(n)),
        decreases rest@.len(),
    {
        assert(races_view(rest@).len() == rest@.len());
        assert(n < gv.len());
        let ghost before_rest = rest@;
        let x = rest.remove(0);
        assert(rest@ =~= before_rest.subrange(1, before_rest.len() as int));
        assert forall|j: int| 0 <= j < rest@.len() implies #[trigger] races_view(rest@)[j] == gv.skip(n + 1)[j] by {
            assert(races_view(rest@)[j] == races_view(before_rest)[j + 1]);
        }
        let ghost xv = (x.0.view_of(), x.1@.map_values(|r: RunnerMini| r.view_of()));
        assert(gv.skip(n)[0] == xv);
        assert(gv[n] == xv);
        assert(gv.take(n + 1).drop_last() =~= gv.take(n));
        assert(gv.take(n + 1).last() == xv);
        assert(races_view(rest@) =~= gv.skip(n + 1));
        let ghost qv = races_view(q@);
        let mut i: usize = 0;
        loop
            invariant
                i <= q@.len(),
                qv == races_view(q@),
                xv.0 == x.0.view_of(),
                insert_pos(qv, xv, 0) == insert_pos(qv, xv, i as int),
            ensures
                i <= q@.len(),
                insert_pos(qv, xv, 0) == i,
            decreases q@.len() - i,
        {
            if i >= q.len() {
                break;
            }
            assert(qv[i as int].0 == q@[i as int].0.view_of());
            if race_before_exec(&x.0, &q[i].0) {
                break;
            }
            i = i + 1;
        }
        q.insert(i, x);
        assert(races_view(q@) =~= qv.insert(i as int, xv));
        proof {
            n = n + 1;
        }
    }
    assert(gv.skip(n).len() == 0);
    assert(gv.take(n) =~= gv);
    q
}

// ---------------------------------------------------------------------------
// The day's races
// ---------------------------------------------------------------------------

/// Why the day's table gives no race.
pub enum RaceTableError {
    /// No row names a runner.
    NoRecords,
}

impl RaceTableError {
    /// The message of the error.
    pub fn message(&self) -> (res: &'static str)
        ensures
            res@ == "no racecard records found in parquet"@,
    {
        "no racecard records found in parquet"
    }
}

/// The races of the day's rows, ordered by start; an error when no row is kept.
pub fn races_from_rows(rows: &Vec<RaceRow>) -> (res: Result<Vec<(RaceKey, Vec<RunnerMini>)>, RaceTableError>)
    ensures
        match res {
            Ok(v) => races_view(v@) == stable_sorted(grouped(rows_view(rows@))) && v@.len() > 0,
            Err(_) => grouped(rows_view(rows@)).len() == 0,
        },
{
    let g = group_race_rows(rows);
    let out = sort_races(g);
    proof {
        lemma_stable_sorted_len(grouped(rows_view(rows@)));
    }
    if out.len() == 0 {
        return Err(RaceTableError::NoRecords);
    }
    Ok(out)
}

/// Sorting keeps the number of races.
proof fn lemma_stable_sorted_len(gs: Seq<RaceGroup>)
    ensures
        stable_sorted(gs).len() == gs.len(),
    decreases gs.len(),
{
    if gs.len() > 0 {
        lemma_stable_sorted_len(gs.drop_last());
        let q = stable_sorted(gs.drop_last());
        lemma_insert_pos_bounds(q, gs.last(), 0);
    }
}

// ---------------------------------------------------------------------------
// Races that are not long over
// ---------------------------------------------------------------------------

/// The start a race time names: `None` for a blank time or one that is not RFC 3339.
pub open spec fn time_start(time: Seq<char>) -> Option<Instant> {
    let t = trim(time);
    if t.len() == 0 {
        None
    } else {
        rfc3339_instant(t)
    }
}

/// A race with start `start` is kept at `cutoff`: its start is unknown or after the
/// cutoff.
pub open spec fn start_kept(start: Option<Instant>, cutoff: Instant) -> bool {
    match start {
        None => true,
        Some(i) => instant_lt(cutoff, i),
    }
}

/// A race kept at `cutoff`: its time is blank, or not RFC 3339, or after the cutoff.
pub open spec fn recent(time: Seq<char>, cutoff: Instant) -> bool {
    start_kept(time_start(time), cutoff)
}

/// The start a race time names, read as RFC 3339 after trimming; `None` for a blank
/// or unreadable time.
pub fn race_start(time: &str) -> (res: Option<Instant>)
    ensures
        res == time_start(time@),
{
    let tc = chars_of(time);
    let t = crate::text::trimmed_string(&tc, 0, tc.len());
    assert(tc@.subrange(0, tc@.len() as int) =~= tc@);
    if t.as_str().is_empty() {
        None
    } else {
        parse_rfc3339_instant(t.as_str())
    }
}

/// Whether a race with start `start` is kept at `cutoff`.
pub fn kept_at(start: Option<Instant>, cutoff: Instant) -> (res: bool)
    ensures
        res == start_kept(start, cutoff),
{
    match start {
        None => true,
        Some(i) => instant_before(cutoff, i),
    }
}

/// The races kept at `cutoff`, in order.
pub open spec fn recent_races(gs: Seq<RaceGroup>, cutoff: Instant) -> Seq<RaceGroup>
    decreases gs.len(),
{
    if gs.len() == 0 {
        Seq::empty()
    } else {
        recent_races(gs.drop_last(), cutoff) + if recent(gs.last().0.1, cutoff) {
            seq![gs.last()]
        } else {
            Seq::empty()
        }
    }
}

/// The races kept are exactly those of the list whose start is not known or comes
/// after the cutoff: a race that started at or before the cutoff is dropped, any
/// other is kept.
pub proof fn lemma_recent_races_members(gs: Seq<RaceGroup>, cutoff: Instant)
    ensures
        forall|g: RaceGroup|
            recent_races(gs, cutoff).contains(g) ==> gs.contains(g) && (time_start(g.0.1) matches Some(
                t,
            ) ==> instant_lt(cutoff, t)),
        forall|i: int|
            0 <= i < gs.len() && (time_start(gs[i].0.1) matches Some(t) ==> instant_lt(cutoff, t))
                ==> recent_races(gs, cutoff).contains(#[trigger] gs[i]),
    decreases gs.len(),
{
    if gs.len() > 0 {
        let d = gs.drop_last();
        let x = gs.last();
        lemma_recent_races_members(d, cutoff);
        let prev = recent_races(d, cutoff);
        let tail: Seq<RaceGroup> = if recent(x.0.1, cutoff) {
            seq![x]
        } else {
            Seq::empty()
        };
        let all = recent_races(gs, cutoff);
        assert(all == prev + tail);
        assert forall|g: RaceGroup| all.contains(g) implies gs.contains(g) && (time_start(g.0.1) matches Some(
            t,
        ) ==> instant_lt(cutoff, t)) by {
            let k = choose|k: int| 0 <= k < all.len() && all[k] == g;
            if k < prev.len() {
                assert(prev[k] == g);
                assert(prev.contains(g));
                assert(d.contains(g));
                let j = choose|j: int| 0 <= j < d.len() && d[j] == g;
                assert(gs[j] == g);
            } else {
                assert(tail[k - prev.len()] == g);
                assert(gs[gs.len() - 1] == g);
            }
        }
        assert forall|i: int|
            0 <= i < gs.len() && (time_start(gs[i].0.1) matches Some(t) ==> instant_lt(cutoff, t))
                implies all.contains(#[trigger] gs[i]) by {
            if i < d.len() {
                assert(gs[i] == d[i]);
                assert(prev.contains(d[i]));
                let k = choose|k: int| 0 <= k < prev.len() && prev[k] == d[i];
                assert(all[k] == prev[k]);
            } else {
                assert(gs[i] == x);
                assert(all[prev.len() as int] == x);
            }
        }
    }
}

/// The races whose time is blank, unreadable, or after `cutoff` (the caller takes
/// the cutoff as now less the look-back).
pub fn filter_recent_races(races: Vec<(RaceKey, Vec<RunnerMini>)>, cutoff: Instant) -> (res: Vec<(RaceKey, Vec<RunnerMini>)>)
    ensures
        races_view(res@) == recent_races(races_view(races@), cutoff),
{
    let ghost gv = races_view(races@);
    let mut rest = races;
    let mut out: Vec<(RaceKey, Vec<RunnerMini>)> = Vec::new();
    let ghost n: int = 0;
    assert(gv.take(0) =~= Seq::<RaceGroup>::empty());
    assert(races_view(out@) =~= Seq::<RaceGroup>::empty());
    assert(races_view(rest@) =~= gv.skip(0));
    while rest.len() > 0
        invariant
            0 <= n <= gv.len(),
            races_view(rest@) == gv.skip(n),
            races_view(out@) == recent_races(gv.take(n), cutoff),
        decreases rest@.len(),
    {
        assert(races_view(rest@).len() == rest@.len());
        assert(n < gv.len());
        let ghost before_rest = rest@;
        let x = rest.remove(0);
        assert(rest@ =~= before_rest.subrange(1, before_rest.len() as int));
        assert forall|j: int| 0 <= j < rest@.len() implies #[trigger] races_view(rest@)[j] == gv.skip(n + 1)[j] by {
            assert(races_view(rest@)[j] == races_view(before_rest)[j + 1]);
        }
        let ghost xv = (x.0.view_of(), x.1@.map_values(|r: RunnerMini| r.view_of()));
        assert(gv.skip(n)[0] == xv);
        assert(gv[n] == xv);
        assert(gv.take(n + 1).drop_last() =~= gv.take(n));
        assert(gv.take(n + 1).last() == xv);
        assert(races_view(rest@) =~= gv.skip(n + 1));
        let keep = kept_at(race_start(x.0.time.as_str()), cutoff);
        let ghost ov = races_view(out@);
        if keep {
            out.push(x);
            assert(races_view(out@) =~= ov.push(xv));
        }
        assert(races_view(out@) =~= recent_races(gv.take(n + 1), cutoff));
        proof {
            n = n + 1;
        }
    }
    assert(gv.skip(n).len() == 0);
    assert(gv.take(n) =~= gv);
    out
}


// ---------------------------------------------------------------------------
// Whose history is looked up
// ---------------------------------------------------------------------------

/// The runners of the races, race after race.
pub open spec fn all_runners(gs: Seq<RaceGroup>) -> Seq<MiniView>
    decreases gs.len(),
{
    if gs.len() == 0 {
        Seq::empty()
    } else {
        all_runners(gs.drop_last()) + gs.last().1
    }
}

/// The names the selector picks from the runners, those that are not blank, in
/// order (as given, untrimmed).
pub open spec fn picked_names(rs: Seq<MiniView>, sel: spec_fn(MiniView) -> Seq<char>) -> Seq<Seq<char>>
    decreases rs.len(),
{
    if rs.len() == 0 {
        Seq::empty()
    } else {
        picked_names(rs.drop_last(), sel) + if trim(sel(rs.last())).len() > 0 {
            seq![sel(rs.last())]
        } else {
            Seq::empty()
        }
    }
}

/// Whether a text is blank.
fn is_blank(s: &str) -> (res: bool)
    ensures
        res == (trim(s@).len() == 0),
{
    let c = chars_of(s);
    let t = crate::text::trimmed_chars(&c, 0, c.len());
    assert(c@.subrange(0, c@.len() as int) =~= c@);
    t.len() == 0
}

/// Picked names over a longer list of runners.
proof fn lemma_picked_push(rs: Seq<MiniView>, r: MiniView, sel: spec_fn(MiniView) -> Seq<char>)
    ensures
        picked_names(rs.push(r), sel) == picked_names(rs, sel) + if trim(sel(r)).len() > 0 {
            seq![sel(r)]
        } else {
            Seq::empty()
        },
{
    assert(rs.push(r).drop_last() =~= rs);
}

/// The horses, jockeys and trainers of the day's runners whose history is looked
/// up: every one that is not blank, as given, in race and runner order.
pub fn day_names(races: &Vec<(RaceKey, Vec<RunnerMini>)>) -> (res: (Vec<String>, Vec<String>, Vec<String>))
    ensures
        crate::sorted::strings_view(res.0@) == picked_names(all_runners(races_view(races@)), |r: MiniView| r.0),
        crate::sorted::strings_view(res.1@) == picked_names(all_runners(races_view(races@)), |r: MiniView| r.1),
        crate::sorted::strings_view(res.2@) == picked_names(all_runners(races_view(races@)), |r: MiniView| r.2),
{
    let ghost gv = races_view(races@);
    let ghost sh = |r: MiniView| r.0;
    let ghost sj = |r: MiniView| r.1;
    let ghost st = |r: MiniView| r.2;
    let mut horses: Vec<String> = Vec::new();
    let mut jockeys: Vec<String> = Vec::new();
    let mut trainers: Vec<String> = Vec::new();
    let mut i: usize = 0;
    assert(gv.take(0) =~= Seq::<RaceGroup>::empty());
    while i < races.len()
        invariant
            i <= races@.len(),
            gv == races_view(races@),
            crate::sorted::strings_view(horses@) == picked_names(all_runners(gv.take(i as int)), sh),
            crate::sorted::strings_view(jockeys@) == picked_names(all_runners(gv.take(i as int)), sj),
            crate::sorted::strings_view(trainers@) == picked_names(all_runners(gv.take(i as int)), st),
            sh == (|r: MiniView| r.0),
            sj == (|r: MiniView| r.1),
            st == (|r: MiniView| r.2),
        decreases races@.len() - i,
    {
        let rs = &races[i].1;
        let ghost base = all_runners(gv.take(i as int));
        let ghost rv = rs@.map_values(|r: RunnerMini| r.view_of());
        assert(gv.take(i + 1).drop_last() =~= gv.take(i as int));
        assert(gv.take(i + 1).last().1 == rv);
        assert(all_runners(gv.take(i + 1)) == base + rv);
        let mut j: usize = 0;
        assert(base + rv.take(0) =~= base);
        while j < rs.len()
            invariant
                j <= rs@.len(),
                rv == rs@.map_values(|r: RunnerMini| r.view_of()),
                crate::sorted::strings_view(horses@) == picked_names(base + rv.take(j as int), sh),
                crate::sorted::strings_view(jockeys@) == picked_names(base + rv.take(j as int), sj),
                crate::sorted::strings_view(trainers@) == picked_names(base + rv.take(j as int), st),
                sh == (|r: MiniView| r.0),
                sj == (|r: MiniView| r.1),
                st == (|r: MiniView| r.2),
            decreases rs@.len() - j,
        {
            let r = &rs[j];
            let ghost x = r.view_of();
            assert(rv[j as int] == x);
            assert(base + rv.take(j + 1) =~= (base + rv.take(j as int)).push(x));
            proof {
                lemma_picked_push(base + rv.take(j as int), x, sh);
                lemma_picked_push(base + rv.take(j as int), x, sj);
                lemma_picked_push(base + rv.take(j as int), x, st);
            }
            let ghost h0 = crate::sorted::strings_view(horses@);
            let ghost j0 = crate::sorted::strings_view(jockeys@);
            let ghost t0 = crate::sorted::strings_view(trainers@);
            if !is_blank(r.horse.as_str()) {
                horses.push(r.horse.clone());
                assert(crate::sorted::strings_view(horses@) =~= h0.push(x.0));
            }
            if !is_blank(r.jockey.as_str()) {
                jockeys.push(r.jockey.clone());
                assert(crate::sorted::strings_view(jockeys@) =~= j0.push(x.1));
            }
            if !is_blank(r.trainer.as_str()) {
                trainers.push(r.trainer.clone());
                assert(crate::sorted::strings_view(trainers@) =~= t0.push(x.2));
            }
            j = j + 1;
        }
        assert(rv.take(rs@.len() as int) =~= rv);
        i = i + 1;
    }
    assert(gv.take(races@.len() as int) =~= gv);
    (horses, jockeys, trainers)
}

/// The contexts of the races: the keys of course and going, when either is not
/// empty, in race order.
pub open spec fn race_contexts(gs: Seq<RaceGroup>) -> Seq<(Seq<char>, Seq<char>)>
    decreases gs.len(),
{
    if gs.len() == 0 {
        Seq::empty()
    } else {
        let c = alnum_lower(trim(gs.last().0.0));
        let g = alnum_lower(trim(gs.last().0.3));
        race_contexts(gs.drop_last()) + if c.len() > 0 || g.len() > 0 {
            seq![(c, g)]
        } else {
            Seq::empty()
        }
    }
}

/// The course and going keys of the races.
pub fn day_contexts(races: &Vec<(RaceKey, Vec<RunnerMini>)>) -> (res: Vec<(String, String)>)
    ensures
        crate::scrape::pairs_text(res@) == race_contexts(races_view(races@)),
{
    let ghost gv = races_view(races@);
    let mut out: Vec<(String, String)> = Vec::new();
    let mut i: usize = 0;
    assert(gv.take(0) =~= Seq::<RaceGroup>::empty());
    while i < races.len()
        invariant
            i <= races@.len(),
            gv == races_view(races@),
            crate::scrape::pairs_text(out@) == race_contexts(gv.take(i as int)),
        decreases races@.len() - i,
    {
        assert(gv.take(i + 1).drop_last() =~= gv.take(i as int));
        assert(gv.take(i + 1).last().0 == races@[i as int].0.view_of());
        let c = crate::race_text::norm_key(races[i].0.course.as_str());
        let g = crate::race_text::norm_key(races[i].0.going.as_str());
        let ghost before = crate::scrape::pairs_text(out@);
        if !c.as_str().is_empty() || !g.as_str().is_empty() {
            let ghost pair = (c@, g@);
            out.push((c, g));
            assert(crate::scrape::pairs_text(out@) =~= before.push(pair));
        }
        assert(crate::scrape::pairs_text(out@) =~= race_contexts(gv.take(i + 1)));
        i = i + 1;
    }
    assert(gv.take(races@.len() as int) =~= gv);
    out
}

// ---------------------------------------------------------------------------
// Looking up rows of past results
// ---------------------------------------------------------------------------

/// Whether `x` is one of the strictly sorted strings `v`.
fn sorted_contains(v: &Vec<String>, x: &str) -> (res: bool)
    requires
        crate::sorted::strictly_sorted(crate::sorted::strings_view(v@)),
    ensures
        res == crate::sorted::strings_view(v@).contains(x@),
{
    let ghost sv = crate::sorted::strings_view(v@);
    let xc = chars_of(x);
    let mut lo: usize = 0;
    let mut hi: usize = v.len();
    while lo < hi
        invariant
            lo <= hi <= v@.len(),
            sv == crate::sorted::strings_view(v@),
            crate::sorted::strictly_sorted(sv),
            xc@ == x@,
            forall|j: int| 0 <= j < lo ==> lex_lt(#[trigger] sv[j], x@),
            forall|j: int| hi <= j < v@.len() ==> lex_lt(x@, #[trigger] sv[j]),
        decreases hi - lo,
    {
        let mid = lo + (hi - lo) / 2;
        let mc = chars_of(v[mid].as_str());
        assert(sv[mid as int] == v@[mid as int]@);
        let o = lex_order(&mc, &xc);
        if o == 0 {
            assert(sv[mid as int] == x@);
            return true;
        } else if o < 0 {
            proof {
                assert forall|j: int| 0 <= j < mid + 1 implies lex_lt(#[trigger] sv[j], x@) by {
                    if j < mid {
                        assert(lex_lt(sv[j], sv[mid as int]));
                        crate::text::lemma_lex_trans(sv[j], sv[mid as int], x@);
                    }
                }
            }
            lo = mid + 1;
        } else {
            proof {
                assert forall|j: int| mid <= j < v@.len() implies lex_lt(x@, #[trigger] sv[j]) by {
                    if j > mid {
                        assert(lex_lt(sv[mid as int], sv[j]));
                        crate::text::lemma_lex_trans(x@, sv[mid as int], sv[j]);
                    }
                }
            }
            hi = mid;
        }
    }
    proof {
        assert forall|j: int| 0 <= j < sv.len() implies sv[j] != x@ by {
            crate::text::lemma_lex_total(sv[j], x@);
        }
    }
    false
}

/// Whether the pair `(c, g)` is one of `v`.
fn pair_contains(v: &Vec<(String, String)>, c: &str, g: &str) -> (res: bool)
    ensures
        res == crate::scrape::pairs_text(v@).contains((c@, g@)),
{
    let ghost pv = crate::scrape::pairs_text(v@);
    let cc = chars_of(c);
    let gc = chars_of(g);
    let mut i: usize = 0;
    while i < v.len()
        invariant
            i <= v@.len(),
            pv == crate::scrape::pairs_text(v@),
            cc@ == c@,
            gc@ == g@,
            forall|j: int| 0 <= j < i ==> #[trigger] pv[j] != (c@, g@),
        decreases v@.len() - i,
    {
        let a = chars_of(v[i].0.as_str());
        let b = chars_of(v[i].1.as_str());
        assert(pv[i as int] == (v@[i as int].0@, v@[i as int].1@));
        if chars_eq(&a, &cc) && chars_eq(&b, &gc) {
            assert(pv[i as int] == (c@, g@));
            return true;
        }
        i = i + 1;
    }
    false
}

/// The day's horses, jockeys and trainers, each once and sorted, and the course and
/// going keys of its races: what the rows of past results are looked up in.
pub struct DayLookup {
    horses: Vec<String>,
    jockeys: Vec<String>,
    trainers: Vec<String>,
    contexts: Vec<(String, String)>,
}

impl DayLookup {
    #[verifier::type_invariant]
    spec fn names_sorted(self) -> bool {
        &&& crate::sorted::strictly_sorted(crate::sorted::strings_view(self.horses@))
        &&& crate::sorted::strictly_sorted(crate::sorted::strings_view(self.jockeys@))
        &&& crate::sorted::strictly_sorted(crate::sorted::strings_view(self.trainers@))
    }

    /// The day's horses.
    pub closed spec fn horse_names(self) -> Seq<Seq<char>> {
        crate::sorted::strings_view(self.horses@)
    }

    /// The day's jockeys.
    pub closed spec fn jockey_names(self) -> Seq<Seq<char>> {
        crate::sorted::strings_view(self.jockeys@)
    }

    /// The day's trainers.
    pub closed spec fn trainer_names(self) -> Seq<Seq<char>> {
        crate::sorted::strings_view(self.trainers@)
    }

    /// The course and going keys of the day's races.
    pub closed spec fn context_keys(self) -> Seq<(Seq<char>, Seq<char>)> {
        crate::scrape::pairs_text(self.contexts@)
    }

    /// The lookup of the day's races: the non-blank horses, jockeys and trainers of
    /// their runners, and the course and going keys of the races.
    pub fn for_day(races: &Vec<(RaceKey, Vec<RunnerMini>)>) -> (res: DayLookup)
        ensures
            crate::sorted::same_texts(
                res.horse_names(),
                picked_names(all_runners(races_view(races@)), |r: MiniView| r.0),
            ),
            crate::sorted::same_texts(
                res.jockey_names(),
                picked_names(all_runners(races_view(races@)), |r: MiniView| r.1),
            ),
            crate::sorted::same_texts(
                res.trainer_names(),
                picked_names(all_runners(races_view(races@)), |r: MiniView| r.2),
            ),
            res.context_keys() == race_contexts(races_view(races@)),
    {
        let (h, j, t) = day_names(races);
        let horses = crate::sorted::sorted_unique(&h);
        let jockeys = crate::sorted::sorted_unique(&j);
        let trainers = crate::sorted::sorted_unique(&t);
        let contexts = day_contexts(races);
        DayLookup { horses, jockeys, trainers, contexts }
    }

    /// Which totals a row of past results feeds: none when its horse is blank or
    /// not one of the day's; else whether it feeds the horse's total at its course
    /// and going (the day has race keys and this key is one of them), the jockey's
    /// (not blank and one of the day's) and the trainer's (likewise).
    pub fn row_targets(&self, horse: &str, jockey: &str, trainer: &str, course: &str, going: &str) -> (res: Option<(bool, bool, bool)>)
        ensures
            res is None <==> !(horse@.len() > 0 && self.horse_names().contains(horse@)),
            res matches Some((c, j, t)) ==> {
                &&& c == (self.context_keys().len() > 0 && self.context_keys().contains(
                    (alnum_lower(trim(course@)), alnum_lower(trim(going@))),
                ))
                &&& j == (jockey@.len() > 0 && self.jockey_names().contains(jockey@))
                &&& t == (trainer@.len() > 0 && self.trainer_names().contains(trainer@))
            },
    {
        proof {
            use_type_invariant(self);
        }
        if horse.is_empty() || !sorted_contains(&self.horses, horse) {
            return None;
        }
        let c = crate::race_text::norm_key(course);
        let g = crate::race_text::norm_key(going);
        let ctx = self.contexts.len() > 0 && pair_contains(&self.contexts, c.as_str(), g.as_str());
        let j = !jockey.is_empty() && sorted_contains(&self.jockeys, jockey);
        let t = !trainer.is_empty() && sorted_contains(&self.trainers, trainer);
        Some((ctx, j, t))
    }
}

} // verus!
