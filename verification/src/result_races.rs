//! The stored results of a day grouped into races and put in order of start, as
//! the back-test replays them.
use vstd::prelude::*;
use crate::text::{chars_of, chars_eq, trim, trimmed_chars};
use crate::race_text::{parse_time_minutes_from_title, title_minutes_from};

verus! {

/// One stored result row as the back-test reads it; `rpr` is the rating's text.
pub struct ResultRow {
    pub race_id: String,
    pub course: String,
    pub title: String,
    pub going: String,
    pub position: Option<i64>,
    pub horse: String,
    pub jockey: String,
    pub trainer: String,
    pub rpr: Option<String>,
}

/// A row that counts: it has a race id and names a horse.
pub open spec fn counted(r: ResultRow) -> bool {
    r.race_id@.len() > 0 && trim(r.horse@).len() > 0
}

/// A race: its id and the positions of its rows.
pub type IdGroup = (Seq<char>, Seq<int>);

/// The position of the race with id `id`.
pub open spec fn id_index(g: Seq<IdGroup>, id: Seq<char>) -> Option<int>
    decreases g.len(),
{
    if g.len() == 0 {
        None
    } else {
        match id_index(g.drop_last(), id) {
            Some(i) => Some(i),
            None => if g.last().0 == id {
                Some(g.len() - 1)
            } else {
                None
            },
        }
    }
}

/// The races of the counted rows, in order of first appearance, each with the
/// positions of its rows in order.
pub open spec fn id_groups(rows: Seq<ResultRow>) -> Seq<IdGroup>
    decreases rows.len(),
{
    if rows.len() == 0 {
        Seq::empty()
    } else {
        let g = id_groups(rows.drop_last());
        let r = rows.last();
        let n = rows.len() - 1;
        if !counted(r) {
            g
        } else {
            match id_index(g, r.race_id@) {
                Some(i) => g.update(i, (g[i].0, g[i].1.push(n))),
                None => g.push((r.race_id@, seq![n])),
            }
        }
    }
}

/// When a race starts, in minutes since midnight, from a title: the largest `i32`
/// when it names no time.
pub open spec fn title_start(title: Seq<char>) -> int {
    match title_minutes_from(trim(title), 0) {
        Some(m) => m,
        None => i32::MAX as int,
    }
}

/// The races with their starts, read from the title of each race's first row.
pub open spec fn with_starts(rows: Seq<ResultRow>, g: Seq<IdGroup>) -> Seq<(int, Seq<int>)> {
    g.map_values(|x: IdGroup| (title_start(rows[x.1[0]].title@), x.1))
}

/// The first position from `i` whose race starts after `x`.
pub open spec fn start_pos(q: Seq<(int, Seq<int>)>, x: (int, Seq<int>), i: int) -> int
    decreases q.len() - i,
{
    if i < 0 || i >= q.len() {
        q.len() as int
    } else if x.0 < q[i].0 {
        i
    } else {
        start_pos(q, x, i + 1)
    }
}

/// The races ordered by start, keeping the given order among races that start
/// together (a stable sort).
pub open spec fn by_start(gs: Seq<(int, Seq<int>)>) -> Seq<(int, Seq<int>)>
    decreases gs.len(),
{
    if gs.len() == 0 {
        Seq::empty()
    } else {
        let q = by_start(gs.drop_last());
        q.insert(start_pos(q, gs.last(), 0), gs.last())
    }
}

/// The row positions of each race, races in order of start.
pub open spec fn races_in_order(rows: Seq<ResultRow>) -> Seq<(int, Seq<int>)> {
    by_start(with_starts(rows, id_groups(rows)))
}

/// Positions as integers.
pub open spec fn idx_view(v: Seq<usize>) -> Seq<int> {
    v.map_values(|k: usize| k as int)
}

/// The races of an exec grouping.
pub open spec fn groups_view(g: Seq<(String, Vec<usize>)>) -> Seq<IdGroup> {
    g.map_values(|e: (String, Vec<usize>)| (e.0@, idx_view(e.1@)))
}

/// The races of an exec list with starts.
pub open spec fn keyed_view(g: Seq<(i32, Vec<usize>)>) -> Seq<(int, Seq<int>)> {
    g.map_values(|e: (i32, Vec<usize>)| (e.0 as int, idx_view(e.1@)))
}

/// Every race has a row, and every row position is below `n`.
pub open spec fn groups_within(g: Seq<IdGroup>, n: int) -> bool {
    forall|i: int|
        0 <= i < g.len() ==> (#[trigger] g[i]).1.len() >= 1 && forall|j: int|
            0 <= j < g[i].1.len() ==> 0 <= #[trigger] g[i].1[j] < n
}

// ---------------------------------------------------------------------------
// Grouping
// ---------------------------------------------------------------------------

/// The first found position in a prefix is the first in the whole.
proof fn lemma_id_index_prefix(g: Seq<IdGroup>, id: Seq<char>, n: int)
    requires
        0 <= n <= g.len(),
        id_index(g.take(n), id) is Some,
    ensures
        id_index(g, id) == id_index(g.take(n), id),
    decreases g.len(),
{
    if n < g.len() {
        assert(g.drop_last().take(n) =~= g.take(n));
        lemma_id_index_prefix(g.drop_last(), id, n);
    } else {
        assert(g.take(n) =~= g);
    }
}

/// A found position holds the id.
proof fn lemma_id_index_hit(g: Seq<IdGroup>, id: Seq<char>)
    requires
        id_index(g, id) is Some,
    ensures
        0 <= id_index(g, id)->0 < g.len(),
        g[id_index(g, id)->0].0 == id,
    decreases g.len(),
{
    if id_index(g.drop_last(), id) is Some {
        lemma_id_index_hit(g.drop_last(), id);
    }
}

/// The position of the race with the id.
fn find_id(g: &Vec<(String, Vec<usize>)>, id: &String) -> (res: Option<usize>)
    ensures
        match res {
            Some(i) => id_index(groups_view(g@), id@) == Some(i as int) && i < g@.len(),
            None => id_index(groups_view(g@), id@) is None,
        },
{
    let ghost gv = groups_view(g@);
    let idc = chars_of(id.as_str());
    let mut i: usize = 0;
    assert(gv.take(0) =~= Seq::<IdGroup>::empty());
    while i < g.len()
        invariant
            i <= g@.len(),
            gv == groups_view(g@),
            idc@ == id@,
            id_index(gv.take(i as int), id@) is None,
        decreases g@.len() - i,
    {
        assert(gv.take(i + 1).drop_last() =~= gv.take(i as int));
        assert(gv.take(i + 1).last() == gv[i as int]);
        let gc = chars_of(g[i].0.as_str());
        if chars_eq(&gc, &idc) {
            proof {
                lemma_id_index_prefix(gv, id@, i + 1);
            }
            return Some(i);
        }
        i = i + 1;
    }
    assert(gv.take(g@.len() as int) =~= gv);
    None
}

/// Whether a row counts.
fn counted_exec(r: &ResultRow) -> (res: bool)
    ensures
        res == counted(*r),
{
    if r.race_id.as_str().is_empty() {
        return false;
    }
    let h = chars_of(r.horse.as_str());
    let t = trimmed_chars(&h, 0, h.len());
    assert(h@.subrange(0, h@.len() as int) =~= h@);
    t.len() > 0
}

/// The races of the counted rows, in order of first appearance.
fn group_by_race(rows: &Vec<ResultRow>) -> (res: Vec<(String, Vec<usize>)>)
    ensures
        groups_view(res@) == id_groups(rows@),
        groups_within(groups_view(res@), rows@.len() as int),
{
    let mut g: Vec<(String, Vec<usize>)> = Vec::new();
    let mut n: usize = 0;
    assert(rows@.take(0) =~= Seq::<ResultRow>::empty());
    assert(groups_view(g@) =~= Seq::<IdGroup>::empty());
    while n < rows.len()
        invariant
            n <= rows@.len(),
            groups_view(g@) == id_groups(rows@.take(n as int)),
            groups_within(groups_view(g@), n as int),
        decreases rows@.len() - n,
    {
        let r = &rows[n];
        assert(rows@.take(n + 1).drop_last() =~= rows@.take(n as int));
        assert(rows@.take(n + 1).last() == *r);
        let ghost gv0 = groups_view(g@);
        if counted_exec(r) {
            match find_id(&g, &r.race_id) {
                Some(i) => {
                    proof {
                        lemma_id_index_hit(gv0, r.race_id@);
                    }
                    let (k, mut ix) = g.remove(i);
                    let ghost old_ix = idx_view(ix@);
                    assert(gv0[i as int] == (k@, old_ix));
                    ix.push(n);
                    assert(idx_view(ix@) =~= old_ix.push(n as int));
                    g.insert(i, (k, ix));
                    assert(groups_view(g@) =~= gv0.update(
                        i as int,
                        (gv0[i as int].0, gv0[i as int].1.push(n as int)),
                    ));
                },
                None => {
                    let mut ix: Vec<usize> = Vec::new();
                    ix.push(n);
                    assert(idx_view(ix@) =~= seq![n as int]);
                    g.push((r.race_id.clone(), ix));
                    assert(groups_view(g@) =~= gv0.push((r.race_id@, seq![n as int])));
                },
            }
        }
        assert(groups_within(groups_view(g@), n + 1)) by {
            let gv = groups_view(g@);
            assert forall|a: int| 0 <= a < gv.len() implies (#[trigger] gv[a]).1.len() >= 1 && forall|j: int|
                0 <= j < gv[a].1.len() ==> 0 <= #[trigger] gv[a].1[j] < n + 1 by {
                if a < gv0.len() && gv[a].1.len() > gv0[a].1.len() {
                    assert forall|j: int| 0 <= j < gv[a].1.len() implies 0 <= #[trigger] gv[a].1[j] < n + 1 by {
                        if j < gv0[a].1.len() {
                            assert(gv[a].1[j] == gv0[a].1[j]);
                        }
                    }
                } else if a < gv0.len() {
                    assert(gv[a] == gv0[a]);
                }
            }
        }
        n = n + 1;
    }
    assert(rows@.take(rows@.len() as int) =~= rows@);
    g
}

// ---------------------------------------------------------------------------
// Ordering by start
// ---------------------------------------------------------------------------

/// An insert position stays within the list.
proof fn lemma_start_pos_bounds(q: Seq<(int, Seq<int>)>, x: (int, Seq<int>), i: int)
    requires
        0 <= i <= q.len(),
    ensures
        i <= start_pos(q, x, i) <= q.len(),
    decreases q.len() - i,
{
    if i < q.len() && !(x.0 < q[i].0) {
        lemma_start_pos_bounds(q, x, i + 1);
    }
}

/// Every race before the found position starts no later than `x`; the race at it
/// starts later.
proof fn lemma_start_pos_spot(q: Seq<(int, Seq<int>)>, x: (int, Seq<int>), i: int)
    requires
        0 <= i <= q.len(),
    ensures
        forall|k: int| i <= k < start_pos(q, x, i) ==> (#[trigger] q[k]).0 <= x.0,
        start_pos(q, x, i) < q.len() ==> x.0 < q[start_pos(q, x, i)].0,
    decreases q.len() - i,
{
    if i < q.len() && !(x.0 < q[i].0) {
        lemma_start_pos_spot(q, x, i + 1);
    }
}

/// Races in order: none listed after another starts before it.
pub open spec fn starts_ordered(q: Seq<(int, Seq<int>)>) -> bool {
    forall|i: int, j: int| 0 <= i < j < q.len() ==> (#[trigger] q[i]).0 <= (#[trigger] q[j]).0
}

/// Sorting puts the races in order of start.
pub proof fn lemma_by_start_ordered(gs: Seq<(int, Seq<int>)>)
    ensures
        starts_ordered(by_start(gs)),
    decreases gs.len(),
{
    if gs.len() > 0 {
        lemma_by_start_ordered(gs.drop_last());
        let q = by_start(gs.drop_last());
        let x = gs.last();
        let p = start_pos(q, x, 0);
        lemma_start_pos_bounds(q, x, 0);
        lemma_start_pos_spot(q, x, 0);
        let r = q.insert(p, x);
        assert forall|i: int, j: int| 0 <= i < j < r.len() implies (#[trigger] r[i]).0 <= (#[trigger] r[j]).0 by {
            if j < p {
                assert(r[i] == q[i] && r[j] == q[j]);
            } else if j == p {
                assert(r[i] == q[i] && r[j] == x);
            } else if i == p {
                assert(r[j] == q[j - 1]);
                if j - 1 > p {
                    assert(q[p].0 <= q[j - 1].0);
                }
            } else if i < p {
                assert(r[i] == q[i] && r[j] == q[j - 1]);
            } else {
                assert(r[i] == q[i - 1] && r[j] == q[j - 1]);
            }
        }
    }
}

/// Sorting keeps the same races, each as often.
pub proof fn lemma_by_start_permutes(gs: Seq<(int, Seq<int>)>)
    ensures
        by_start(gs).to_multiset() == gs.to_multiset(),
    decreases gs.len(),
{
    broadcast use vstd::seq_lib::to_multiset_insert, vstd::seq_lib::to_multiset_build;

    if gs.len() == 0 {
        assert(by_start(gs) =~= gs);
    } else {
        lemma_by_start_permutes(gs.drop_last());
        let q = by_start(gs.drop_last());
        lemma_start_pos_bounds(q, gs.last(), 0);
        assert(gs =~= gs.drop_last().push(gs.last()));
    }
}

/// The races with the start read from each one's first row.
fn starts_of(rows: &Vec<ResultRow>, g: Vec<(String, Vec<usize>)>) -> (res: Vec<(i32, Vec<usize>)>)
    requires
        groups_within(groups_view(g@), rows@.len() as int),
    ensures
        keyed_view(res@) == with_starts(rows@, groups_view(g@)),
{
    let ghost gv = groups_view(g@);
    let mut rest = g;
    let mut out: Vec<(i32, Vec<usize>)> = Vec::new();
    let ghost n: int = 0;
    assert(groups_view(rest@) =~= gv.skip(0));
    assert(keyed_view(out@) =~= with_starts(rows@, gv.take(0)));
    while rest.len() > 0
        invariant
            0 <= n <= gv.len(),
            groups_within(gv, rows@.len() as int),
            groups_view(rest@) == gv.skip(n),
            keyed_view(out@) == with_starts(rows@, gv.take(n)),
        decreases rest@.len(),
    {
        assert(groups_view(rest@).len() == rest@.len());
        let ghost before_rest = rest@;
        let (_id, ix) = rest.remove(0);
        assert(rest@ =~= before_rest.subrange(1, before_rest.len() as int));
        assert(gv[n] == gv.skip(n)[0]);
        assert(gv[n].1 == idx_view(ix@));
        assert(gv[n].1.len() >= 1);
        assert(0 <= gv[n].1[0] < rows@.len());
        let first = ix[0];
        let start: i32 = match parse_time_minutes_from_title(rows[first].title.as_str()) {
            Some(m) => m,
            None => i32::MAX,
        };
        assert(start as int == title_start(rows@[first as int].title@));
        let ghost before = keyed_view(out@);
        out.push((start, ix));
        assert(gv.take(n + 1) =~= gv.take(n).push(gv[n]));
        assert(keyed_view(out@) =~= before.push((start as int, idx_view(ix@))));
        assert(with_starts(rows@, gv.take(n + 1)) =~= with_starts(rows@, gv.take(n)).push(
            (title_start(rows@[gv[n].1[0]].title@), gv[n].1),
        ));
        assert forall|j: int| 0 <= j < rest@.len() implies #[trigger] groups_view(rest@)[j] == gv.skip(n + 1)[j] by {
            assert(groups_view(rest@)[j] == groups_view(before_rest)[j + 1]);
        }
        assert(groups_view(rest@) =~= gv.skip(n + 1));
        proof {
            n = n + 1;
        }
    }
    assert(gv.skip(n).len() == 0);
    assert(gv.take(n) =~= gv);
    out
}

/// The races sorted by start, stably.
fn sort_by_start(races: Vec<(i32, Vec<usize>)>) -> (res: Vec<(i32, Vec<usize>)>)
    ensures
        keyed_view(res@) == by_start(keyed_view(races@)),
{
    let ghost gv = keyed_view(races@);
    let mut rest = races;
    let mut q: Vec<(i32, Vec<usize>)> = Vec::new();
    let ghost n: int = 0;
    assert(gv.take(0) =~= Seq::<(int, Seq<int>)>::empty());
    assert(keyed_view(q@) =~= Seq::<(int, Seq<int>)>::empty());
    assert(keyed_view(rest@) =~= gv.skip(0));
    while rest.len() > 0
        invariant
            0 <= n <= gv.len(),
            keyed_view(rest@) == gv.skip(n),
            keyed_view(q@) == by_start(gv.take(n)),
        decreases rest@.len(),
    {
        assert(keyed_view(rest@).len() == rest@.len());
        let ghost before_rest = rest@;
        let x = rest.remove(0);
        assert(rest@ =~= before_rest.subrange(1, before_rest.len() as int));
        assert forall|j: int| 0 <= j < rest@.len() implies #[trigger] keyed_view(rest@)[j] == gv.skip(n + 1)[j] by {
            assert(keyed_view(rest@)[j] == keyed_view(before_rest)[j + 1]);
        }
        let ghost xv = (x.0 as int, idx_view(x.1@));
        assert(gv.skip(n)[0] == xv);
        assert(gv[n] == xv);
        assert(gv.take(n + 1).drop_last() =~= gv.take(n));
        assert(gv.take(n + 1).last() == xv);
        assert(keyed_view(rest@) =~= gv.skip(n + 1));
        let ghost qv = keyed_view(q@);
        let mut i: usize = 0;
        loop
            invariant
                i <= q@.len(),
                qv == keyed_view(q@),
                xv.0 == x.0,
                start_pos(qv, xv, 0) == start_pos(qv, xv, i as int),
            ensures
                i <= q@.len(),
                start_pos(qv, xv, 0) == i,
            decreases q@.len() - i,
        {
            if i >= q.len() {
                break;
            }
            assert(qv[i as int].0 == q@[i as int].0);
            if x.0 < q[i].0 {
                break;
            }
            i = i + 1;
        }
        q.insert(i, x);
        assert(keyed_view(q@) =~= qv.insert(i as int, xv));
        proof {
            n = n + 1;
        }
    }
    assert(gv.skip(n).len() == 0);
    assert(gv.take(n) =~= gv);
    q
}

/// The day's stored rows as races: the positions of each race's rows (those with a
/// race id and a horse), in row order; races in order of the start named in the
/// title of their first row (races naming none last), keeping the order of first
/// appearance among races that start together.
pub fn race_order(rows: &Vec<ResultRow>) -> (res: Vec<Vec<usize>>)
    ensures
        res@.len() == races_in_order(rows@).len(),
        forall|i: int| 0 <= i < res@.len() ==> idx_view((#[trigger] res@[i])@) == races_in_order(rows@)[i].1,
        starts_ordered(races_in_order(rows@)),
        races_in_order(rows@).to_multiset() == with_starts(rows@, id_groups(rows@)).to_multiset(),
{
    proof {
        lemma_by_start_ordered(with_starts(rows@, id_groups(rows@)));
        lemma_by_start_permutes(with_starts(rows@, id_groups(rows@)));
    }
    let g = group_by_race(rows);
    let keyed = starts_of(rows, g);
    let sorted = sort_by_start(keyed);
    let ghost sv = keyed_view(sorted@);
    let mut out: Vec<Vec<usize>> = Vec::new();
    let mut rest = sorted;
    let ghost n: int = 0;
    assert(keyed_view(rest@) =~= sv.skip(0));
    while rest.len() > 0
        invariant
            0 <= n <= sv.len(),
            keyed_view(rest@) == sv.skip(n),
            out@.len() == n,
            forall|i: int| 0 <= i < n ==> idx_view((#[trigger] out@[i])@) == sv[i].1,
        decreases rest@.len(),
    {
        assert(keyed_view(rest@).len() == rest@.len());
        let ghost before_rest = rest@;
        let (_start, ix) = rest.remove(0);
        assert(rest@ =~= before_rest.subrange(1, before_rest.len() as int));
        assert(sv[n] == sv.skip(n)[0]);
        assert forall|j: int| 0 <= j < rest@.len() implies #[trigger] keyed_view(rest@)[j] == sv.skip(n + 1)[j] by {
            assert(keyed_view(rest@)[j] == keyed_view(before_rest)[j + 1]);
        }
        assert(keyed_view(rest@) =~= sv.skip(n + 1));
        out.push(ix);
        proof {
            n = n + 1;
        }
    }
    out
}

// ---------------------------------------------------------------------------
// The winner of a race
// ---------------------------------------------------------------------------

/// The first of the positions that names a row placed first.
pub open spec fn first_winner(rows: Seq<ResultRow>, idxs: Seq<int>) -> Option<int>
    decreases idxs.len(),
{
    if idxs.len() == 0 {
        None
    } else {
        match first_winner(rows, idxs.drop_last()) {
            Some(k) => Some(k),
            None => {
                let k = idxs.last();
                if 0 <= k < rows.len() && rows[k].position == Some(1i64) {
                    Some(k)
                } else {
                    None
                }
            },
        }
    }
}

/// The first row of a race (given by row positions) that finished first.
pub fn race_winner(rows: &Vec<ResultRow>, race: &Vec<usize>) -> (res: Option<usize>)
    ensures
        match res {
            Some(k) => first_winner(rows@, idx_view(race@)) == Some(k as int),
            None => first_winner(rows@, idx_view(race@)) is None,
        },
{
    let ghost iv = idx_view(race@);
    let mut i: usize = 0;
    assert(iv.take(0) =~= Seq::<int>::empty());
    while i < race.len()
        invariant
            i <= race@.len(),
            iv == idx_view(race@),
            first_winner(rows@, iv.take(i as int)) is None,
        decreases race@.len() - i,
    {
        let k = race[i];
        assert(iv.take(i + 1).drop_last() =~= iv.take(i as int));
        assert(iv.take(i + 1).last() == k as int);
        if k < rows.len() {
            match rows[k].position {
                Some(p) => {
                    if p == 1 {
                        proof {
                            lemma_first_winner_prefix(rows@, iv, i + 1);
                        }
                        return Some(k);
                    }
                },
                None => {},
            }
        }
        i = i + 1;
    }
    assert(iv.take(race@.len() as int) =~= iv);
    None
}

/// A winner found in a prefix is the first in the whole.
proof fn lemma_first_winner_prefix(rows: Seq<ResultRow>, idxs: Seq<int>, n: int)
    requires
        0 <= n <= idxs.len(),
        first_winner(rows, idxs.take(n)) is Some,
    ensures
        first_winner(rows, idxs) == first_winner(rows, idxs.take(n)),
    decreases idxs.len(),
{
    if n < idxs.len() {
        assert(idxs.drop_last().take(n) =~= idxs.take(n));
        lemma_first_winner_prefix(rows, idxs.drop_last(), n);
    } else {
        assert(idxs.take(n) =~= idxs);
    }
}


// ---------------------------------------------------------------------------
// Points for a finish
// ---------------------------------------------------------------------------

/// The points a finishing position earns: 5, 3, 2 and 1 for the first four places,
/// none for any other.
pub open spec fn points_for(position: i64) -> nat {
    if position == 1 {
        5
    } else if position == 2 {
        3
    } else if position == 3 {
        2
    } else if position == 4 {
        1
    } else {
        0
    }
}

/// A better finish never earns fewer points: each of the first four places earns
/// more than any place behind it, a win earns the most, and no position outside the
/// first four earns any.
pub proof fn lemma_points_follow_finish(p: i64, q: i64)
    ensures
        1 <= p < q ==> points_for(p) >= points_for(q),
        1 <= p <= 4 && p < q ==> points_for(p) > points_for(q),
        points_for(p) <= points_for(1),
        !(1 <= p <= 4) ==> points_for(p) == 0,
        1 <= p <= 4 ==> points_for(p) > 0,
{
}

/// The points a finishing position earns, and whether it is a win.
pub fn finish_points(position: i64) -> (res: (u64, bool))
    ensures
        res.0 == points_for(position),
        res.1 == (position == 1),
{
    let pts: u64 = if position == 1 {
        5
    } else if position == 2 {
        3
    } else if position == 3 {
        2
    } else if position == 4 {
        1
    } else {
        0
    };
    (pts, position == 1)
}

} // verus!
