//! The Athena query for the past results of the horses, jockeys and trainers of a
//! day's racecards, and the date read from a path.
use vstd::prelude::*;
use crate::text::{
    chars_of, join, push_char, push_str, push_joined, trim, trimmed_string, all_digits,
    is_digit_exec, vecs_view, string_of,
};
use crate::sorted::{sorted_set, sorted_unique, strings_view, strictly_sorted, same_texts, lemma_sorted_unique};
use crate::racecard::{RunnerRec, runners_view, opt_view, RunnerView};

verus! {

// ---------------------------------------------------------------------------
// SQL string literals
// ---------------------------------------------------------------------------

/// The text with every `'` doubled.
pub open spec fn sql_quoted(s: Seq<char>) -> Seq<char>
    decreases s.len(),
{
    if s.len() == 0 {
        Seq::empty()
    } else {
        sql_quoted(s.drop_last()) + if s.last() == '\'' {
            seq!['\'', '\'']
        } else {
            seq![s.last()]
        }
    }
}

/// A SQL string literal: the text quoted, between single quotes.
pub open spec fn sql_literal(s: Seq<char>) -> Seq<char> {
    seq!['\''] + sql_quoted(s) + seq!['\'']
}

/// A SQL string literal for `s`, with its single quotes doubled.
pub fn sql_string_literal(s: &str) -> (res: String)
    ensures
        res@ == sql_literal(s@),
        res@[0] == '\'',
        sql_string_body(res@.drop_first()) == (s@, res@.len() - 2),
{
    let c = chars_of(s);
    let mut out = String::new();
    push_char(&mut out, '\'');
    let mut i: usize = 0;
    while i < c.len()
        invariant
            i <= c@.len(),
            c@ == s@,
            out@ == seq!['\''] + sql_quoted(c@.take(i as int)),
        decreases c@.len() - i,
    {
        assert(c@.take(i + 1).drop_last() =~= c@.take(i as int));
        assert(c@.take(i + 1).last() == c@[i as int]);
        if c[i] == '\'' {
            push_char(&mut out, '\'');
            push_char(&mut out, '\'');
        } else {
            push_char(&mut out, c[i]);
        }
        assert(out@ =~= seq!['\''] + sql_quoted(c@.take(i + 1)));
        i = i + 1;
    }
    assert(c@.take(c@.len() as int) =~= c@);
    push_char(&mut out, '\'');
    assert(out@ =~= sql_literal(s@));
    proof {
        lemma_sql_literal_reads_back(s@);
    }
    out
}

/// Reads the inside of a SQL string literal, just after its opening quote: the text
/// it stands for, with each `''` read as one `'`, up to the first lone `'`; and
/// the position of that closing quote (the length when there is none).
pub open spec fn sql_string_body(q: Seq<char>) -> (Seq<char>, int)
    decreases q.len(),
{
    if q.len() == 0 {
        (Seq::empty(), 0)
    } else if q[0] == '\'' {
        if q.len() >= 2 && q[1] == '\'' {
            let (t, e) = sql_string_body(q.subrange(2, q.len() as int));
            (seq!['\''] + t, e + 2)
        } else {
            (Seq::empty(), 0)
        }
    } else {
        let (t, e) = sql_string_body(q.subrange(1, q.len() as int));
        (seq![q[0]] + t, e + 1)
    }
}

/// Reading through a quoted text gives the text back and goes on after it.
proof fn lemma_sql_body_quoted(s: Seq<char>, t: Seq<char>)
    ensures
        sql_string_body(sql_quoted(s) + t) == (
            s + sql_string_body(t).0,
            sql_quoted(s).len() + sql_string_body(t).1,
        ),
    decreases s.len(),
{
    if s.len() == 0 {
        assert(sql_quoted(s) + t =~= t);
        assert(s + sql_string_body(t).0 =~= sql_string_body(t).0);
    } else {
        let s0 = s.drop_last();
        let c = s.last();
        let enc = if c == '\'' { seq!['\'', '\''] } else { seq![c] };
        let t2 = enc + t;
        lemma_sql_body_quoted(s0, t2);
        assert(sql_quoted(s) + t =~= sql_quoted(s0) + t2);
        if c == '\'' {
            assert(t2.subrange(2, t2.len() as int) =~= t);
        } else {
            assert(t2.subrange(1, t2.len() as int) =~= t);
        }
        assert(s0 + (seq![c] + sql_string_body(t).0) =~= s + sql_string_body(t).0);
    }
}

/// A SQL reader given `sql_string_literal(s)` reads back exactly `s`, and the
/// literal ends at its closing quote: no quote inside it ends it early.
pub proof fn lemma_sql_literal_reads_back(s: Seq<char>)
    ensures
        sql_literal(s)[0] == '\'',
        sql_string_body(sql_literal(s).drop_first()) == (s, sql_literal(s).len() - 2),
{
    let q = sql_literal(s).drop_first();
    assert(q =~= sql_quoted(s) + seq!['\'']);
    lemma_sql_body_quoted(s, seq!['\'']);
    assert(sql_string_body(seq!['\'']) == (Seq::<char>::empty(), 0int));
    assert(s + Seq::<char>::empty() =~= s);
}

// ---------------------------------------------------------------------------
// The query
// ---------------------------------------------------------------------------

/// The texts as SQL literals, in lexicographic order and once each, separated by
/// `, `.
pub open spec fn in_list(vals: Seq<Seq<char>>) -> Seq<char> {
    join(sorted_set(vals).map_values(|t: Seq<char>| sql_literal(t)), ", "@)
}

/// The SQL list of the values, sorted, each once; `None` for no values.
pub fn build_in_list_sql(values: &Vec<String>) -> (res: Option<String>)
    ensures
        res is None <==> values@.len() == 0,
        res matches Some(r) ==> r@ == in_list(strings_view(values@)),
        strictly_sorted(sorted_set(strings_view(values@))),
        same_texts(sorted_set(strings_view(values@)), strings_view(values@)),
{
    if values.len() == 0 {
        proof {
            let e = Seq::<Seq<char>>::empty();
            assert(strictly_sorted(e) && same_texts(e, strings_view(values@)));
        }
        return None;
    }
    let items = sorted_unique(values);
    proof {
        let q = strings_view(items@);
        let vals = strings_view(values@);
        assert(strictly_sorted(q) && same_texts(q, vals));
        let q2 = sorted_set(vals);
        assert forall|x: Seq<char>| q.contains(x) <==> q2.contains(x) by {}
        lemma_sorted_unique(q, q2);
    }
    let mut lits: Vec<String> = Vec::new();
    let mut i: usize = 0;
    while i < items.len()
        invariant
            i <= items@.len(),
            lits@.len() == i,
            forall|j: int| 0 <= j < i ==> #[trigger] lits@[j]@ == sql_literal(items@[j]@),
        decreases items@.len() - i,
    {
        lits.push(sql_string_literal(items[i].as_str()));
        i = i + 1;
    }
    let mut out = String::new();
    push_joined(&mut out, &lits, ", ");
    assert(lits@.map_values(|p: String| p@) =~= strings_view(items@).map_values(
        |t: Seq<char>| sql_literal(t),
    ));
    assert(out@ =~= in_list(strings_view(values@)));
    Some(out)
}


/// The `IN` condition on a column, when there are values.
pub open spec fn in_pred(col: Seq<char>, vals: Seq<Seq<char>>) -> Seq<Seq<char>> {
    if vals.len() > 0 {
        seq![col + " IN ("@ + in_list(vals) + ")"@]
    } else {
        Seq::empty()
    }
}

/// The query for the past results of the given horses, jockeys and trainers: any of
/// them matches; with none of them nothing does.
pub open spec fn history_sql(
    db: Seq<char>,
    results_table: Seq<char>,
    horses: Seq<Seq<char>>,
    jockeys: Seq<Seq<char>>,
    trainers: Seq<Seq<char>>,
) -> Seq<char> {
    let preds = in_pred("r.horse"@, horses) + in_pred("r.jockey"@, jockeys) + in_pred(
        "r.trainer"@,
        trainers,
    );
    let where_clause = if preds.len() == 0 {
        "1 = 0"@
    } else {
        join(preds, "\n   OR "@)
    };
    "SELECT\n  r.*\nFROM "@ + db + "."@ + results_table + " r\nWHERE "@ + where_clause
        + "\nORDER BY year, month, day, course, title, position;\n"@
}

/// A part of a joined text stands in it whole: the join is some text, the part, and
/// some more text.
proof fn lemma_join_holds_part(parts: Seq<Seq<char>>, sep: Seq<char>, k: int) -> (ab: (
    Seq<char>,
    Seq<char>,
))
    requires
        0 <= k < parts.len(),
    ensures
        join(parts, sep) == ab.0 + parts[k] + ab.1,
    decreases parts.len(),
{
    if parts.len() == 1 {
        assert(join(parts, sep) =~= Seq::<char>::empty() + parts[k] + Seq::<char>::empty());
        (Seq::empty(), Seq::empty())
    } else if k == parts.len() - 1 {
        let a = join(parts.drop_last(), sep) + sep;
        assert(join(parts, sep) =~= a + parts[k] + Seq::<char>::empty());
        (a, Seq::empty())
    } else {
        let (a, b) = lemma_join_holds_part(parts.drop_last(), sep, k);
        assert(parts.drop_last()[k] == parts[k]);
        let b2 = b + sep + parts.last();
        assert(join(parts, sep) =~= a + parts[k] + b2);
        (a, b2)
    }
}

/// A text contains what stands in its middle.
proof fn lemma_contains_middle(x: Seq<char>, p: Seq<char>, y: Seq<char>)
    ensures
        crate::text::contains(x + p + y, p),
{
    let s = x + p + y;
    assert(s.subrange(x.len() as int, (x.len() + p.len()) as int) =~= p);
    assert(crate::text::matches_at(s, x.len() as int, p));
    crate::text::lemma_find_from(s, 0, p);
}

/// A query whose predicates are `preds` contains each of them.
proof fn lemma_query_holds_pred(db: Seq<char>, results_table: Seq<char>, preds: Seq<Seq<char>>, k: int)
    requires
        0 <= k < preds.len(),
    ensures
        crate::text::contains(
            "SELECT\n  r.*\nFROM "@ + db + "."@ + results_table + " r\nWHERE "@ + join(preds, "\n   OR "@)
                + "\nORDER BY year, month, day, course, title, position;\n"@,
            preds[k],
        ),
{
    let (a, b) = lemma_join_holds_part(preds, "\n   OR "@, k);
    let head = "SELECT\n  r.*\nFROM "@ + db + "."@ + results_table + " r\nWHERE "@;
    let tail = "\nORDER BY year, month, day, course, title, position;\n"@;
    assert(head + join(preds, "\n   OR "@) + tail =~= (head + a) + preds[k] + (b + tail));
    lemma_contains_middle(head + a, preds[k], b + tail);
}

/// Each list of names that is not empty is asked for in the query against its own
/// column: the horses by `r.horse`, the jockeys by `r.jockey`, the trainers by
/// `r.trainer`, each as `IN (...)` over that list's names.
pub proof fn lemma_history_sql_asks_each_list(
    db: Seq<char>,
    results_table: Seq<char>,
    horses: Seq<Seq<char>>,
    jockeys: Seq<Seq<char>>,
    trainers: Seq<Seq<char>>,
)
    ensures
        horses.len() > 0 ==> crate::text::contains(
            history_sql(db, results_table, horses, jockeys, trainers),
            "r.horse IN ("@ + in_list(horses) + ")"@,
        ),
        jockeys.len() > 0 ==> crate::text::contains(
            history_sql(db, results_table, horses, jockeys, trainers),
            "r.jockey IN ("@ + in_list(jockeys) + ")"@,
        ),
        trainers.len() > 0 ==> crate::text::contains(
            history_sql(db, results_table, horses, jockeys, trainers),
            "r.trainer IN ("@ + in_list(trainers) + ")"@,
        ),
{
    let ph = in_pred("r.horse"@, horses);
    let pj = in_pred("r.jockey"@, jockeys);
    let pt = in_pred("r.trainer"@, trainers);
    let preds = ph + pj + pt;
    reveal_strlit("r.horse");
    reveal_strlit("r.jockey");
    reveal_strlit("r.trainer");
    reveal_strlit(" IN (");
    reveal_strlit("r.horse IN (");
    reveal_strlit("r.jockey IN (");
    reveal_strlit("r.trainer IN (");
    assert("r.horse"@ + " IN ("@ =~= "r.horse IN ("@);
    assert("r.jockey"@ + " IN ("@ =~= "r.jockey IN ("@);
    assert("r.trainer"@ + " IN ("@ =~= "r.trainer IN ("@);
    if horses.len() > 0 {
        assert(preds[0] == ph[0]);
        lemma_query_holds_pred(db, results_table, preds, 0);
    }
    if jockeys.len() > 0 {
        let k = ph.len() as int;
        assert(preds[k] == pj[0]);
        lemma_query_holds_pred(db, results_table, preds, k);
    }
    if trainers.len() > 0 {
        let k = (ph.len() + pj.len()) as int;
        assert(preds[k] == pt[0]);
        lemma_query_holds_pred(db, results_table, preds, k);
    }
}

/// Appends the `IN` condition on a column when there are values.
fn push_in_pred(preds: &mut Vec<String>, col: &str, values: &Vec<String>)
    ensures
        strings_view(final(preds)@) == strings_view(old(preds)@) + in_pred(col@, strings_view(values@)),
{
    let ghost before = strings_view(preds@);
    match build_in_list_sql(values) {
        Some(v) => {
            let mut p = String::new();
            push_str(&mut p, col);
            push_str(&mut p, " IN (");
            push_str(&mut p, v.as_str());
            push_str(&mut p, ")");
            preds.push(p);
            assert(strings_view(preds@) =~= before + in_pred(col@, strings_view(values@)));
        },
        None => {
            assert(strings_view(preds@) =~= before + in_pred(col@, strings_view(values@)));
        },
    }
}

/// The Athena query for the past results of the day's horses, jockeys and trainers
/// (the racecard table and the date do not enter it).
pub fn build_athena_history_sql_for_day(
    db: &str,
    racecard_table: &str,
    results_table: &str,
    year: &str,
    month: &str,
    day: &str,
    horses: &Vec<String>,
    jockeys: &Vec<String>,
    trainers: &Vec<String>,
) -> (res: String)
    ensures
        res@ == history_sql(
            db@,
            results_table@,
            strings_view(horses@),
            strings_view(jockeys@),
            strings_view(trainers@),
        ),
        horses@.len() > 0 ==> crate::text::contains(
            res@,
            "r.horse IN ("@ + in_list(strings_view(horses@)) + ")"@,
        ),
        jockeys@.len() > 0 ==> crate::text::contains(
            res@,
            "r.jockey IN ("@ + in_list(strings_view(jockeys@)) + ")"@,
        ),
        trainers@.len() > 0 ==> crate::text::contains(
            res@,
            "r.trainer IN ("@ + in_list(strings_view(trainers@)) + ")"@,
        ),
{
    let mut preds: Vec<String> = Vec::new();
    assert(strings_view(preds@) =~= Seq::<Seq<char>>::empty());
    push_in_pred(&mut preds, "r.horse", horses);
    push_in_pred(&mut preds, "r.jockey", jockeys);
    push_in_pred(&mut preds, "r.trainer", trainers);
    let mut out = String::new();
    push_str(&mut out, "SELECT\n  r.*\nFROM ");
    push_str(&mut out, db);
    push_str(&mut out, ".");
    push_str(&mut out, results_table);
    push_str(&mut out, " r\nWHERE ");
    if preds.len() == 0 {
        push_str(&mut out, "1 = 0");
    } else {
        push_joined(&mut out, &preds, "\n   OR ");
    }
    push_str(&mut out, "\nORDER BY year, month, day, course, title, position;\n");
    proof {
        let hv = strings_view(horses@);
        let jv = strings_view(jockeys@);
        let tv = strings_view(trainers@);
        let pv = in_pred("r.horse"@, hv) + in_pred("r.jockey"@, jv) + in_pred("r.trainer"@, tv);
        assert(strings_view(preds@) =~= pv);
        assert(preds@.map_values(|p: String| p@) =~= pv);
    }
    assert(out@ =~= history_sql(
        db@,
        results_table@,
        strings_view(horses@),
        strings_view(jockeys@),
        strings_view(trainers@),
    ));
    proof {
        lemma_history_sql_asks_each_list(
            db@,
            results_table@,
            strings_view(horses@),
            strings_view(jockeys@),
            strings_view(trainers@),
        );
    }
    out
}

// ---------------------------------------------------------------------------
// Names of the day
// ---------------------------------------------------------------------------

/// The trimmed names among the fields that are not blank, in order.
pub open spec fn trimmed_names(fields: Seq<Option<Seq<char>>>) -> Seq<Seq<char>>
    decreases fields.len(),
{
    if fields.len() == 0 {
        Seq::empty()
    } else {
        trimmed_names(fields.drop_last()) + match fields.last() {
            Some(n) => if trim(n).len() > 0 {
                seq![trim(n)]
            } else {
                Seq::empty()
            },
            None => Seq::empty(),
        }
    }
}

/// The horses, jockeys and trainers of runners.
pub open spec fn horse_fields(rs: Seq<RunnerView>) -> Seq<Option<Seq<char>>> {
    rs.map_values(|r: RunnerView| r.horse)
}

pub open spec fn jockey_fields(rs: Seq<RunnerView>) -> Seq<Option<Seq<char>>> {
    rs.map_values(|r: RunnerView| r.jockey)
}

pub open spec fn trainer_fields(rs: Seq<RunnerView>) -> Seq<Option<Seq<char>>> {
    rs.map_values(|r: RunnerView| r.trainer)
}

/// A field that holds, once trimmed, the non-blank name `n`.
pub open spec fn gives_name(f: Option<Seq<char>>, n: Seq<char>) -> bool {
    f matches Some(x) && trim(x) == n && n.len() > 0
}

/// The names taken from fields are exactly the non-blank fields, trimmed.
proof fn lemma_trimmed_names_members(fs: Seq<Option<Seq<char>>>)
    ensures
        forall|n: Seq<char>|
            trimmed_names(fs).contains(n) <==> exists|i: int|
                0 <= i < fs.len() && #[trigger] gives_name(fs[i], n),
    decreases fs.len(),
{
    if fs.len() > 0 {
        let d = fs.drop_last();
        lemma_trimmed_names_members(d);
        let prev = trimmed_names(d);
        let tail: Seq<Seq<char>> = match fs.last() {
            Some(n) => if trim(n).len() > 0 {
                seq![trim(n)]
            } else {
                Seq::empty()
            },
            None => Seq::empty(),
        };
        let all = trimmed_names(fs);
        assert(all == prev + tail);
        assert forall|n: Seq<char>| all.contains(n) <==> exists|i: int|
            0 <= i < fs.len() && #[trigger] gives_name(fs[i], n) by {
            if all.contains(n) {
                let k = choose|k: int| 0 <= k < all.len() && all[k] == n;
                if k < prev.len() {
                    assert(prev[k] == n);
                    assert(prev.contains(n));
                    let i = choose|i: int|
                        0 <= i < d.len() && #[trigger] gives_name(d[i], n);
                    assert(fs[i] == d[i]);
                    assert(gives_name(fs[i], n));
                } else {
                    assert(tail[k - prev.len()] == n);
                    assert(fs[fs.len() - 1] == fs.last());
                    assert(gives_name(fs[fs.len() - 1], n));
                }
            }
            if exists|i: int| 0 <= i < fs.len() && #[trigger] gives_name(fs[i], n) {
                let i = choose|i: int| 0 <= i < fs.len() && #[trigger] gives_name(fs[i], n);
                if i < d.len() {
                    assert(d[i] == fs[i]);
                    assert(gives_name(d[i], n));
                    assert(prev.contains(n));
                    let k = choose|k: int| 0 <= k < prev.len() && prev[k] == n;
                    assert(all[k] == prev[k]);
                } else {
                    assert(fs[i] == fs.last());
                    assert(all[prev.len() as int] == n);
                }
            }
        }
    }
}

/// The horses, jockeys and trainers gathered from runners are exactly their
/// non-blank horse, jockey and trainer fields, trimmed, each list taken from the
/// field of its name.
pub proof fn lemma_names_from_own_fields(rs: Seq<RunnerView>)
    ensures
        forall|n: Seq<char>|
            trimmed_names(horse_fields(rs)).contains(n) <==> exists|i: int|
                0 <= i < rs.len() && #[trigger] gives_name(rs[i].horse, n),
        forall|n: Seq<char>|
            trimmed_names(jockey_fields(rs)).contains(n) <==> exists|i: int|
                0 <= i < rs.len() && #[trigger] gives_name(rs[i].jockey, n),
        forall|n: Seq<char>|
            trimmed_names(trainer_fields(rs)).contains(n) <==> exists|i: int|
                0 <= i < rs.len() && #[trigger] gives_name(rs[i].trainer, n),
{
    let hf = horse_fields(rs);
    let jf = jockey_fields(rs);
    let tf = trainer_fields(rs);
    lemma_trimmed_names_members(hf);
    lemma_trimmed_names_members(jf);
    lemma_trimmed_names_members(tf);
    assert forall|i: int| 0 <= i < rs.len() implies #[trigger] hf[i] == rs[i].horse && jf[i] == rs[i].jockey
        && tf[i] == rs[i].trainer by {}
    assert forall|n: Seq<char>| trimmed_names(hf).contains(n) <==> exists|i: int|
        0 <= i < rs.len() && #[trigger] gives_name(rs[i].horse, n) by {
        if trimmed_names(hf).contains(n) {
            let i = choose|i: int| 0 <= i < hf.len() && #[trigger] gives_name(hf[i], n);
            assert(hf[i] == rs[i].horse);
        }
        if exists|i: int| 0 <= i < rs.len() && #[trigger] gives_name(rs[i].horse, n) {
            let i = choose|i: int| 0 <= i < rs.len() && #[trigger] gives_name(rs[i].horse, n);
            assert(hf[i] == rs[i].horse);
        }
    }
    assert forall|n: Seq<char>| trimmed_names(jf).contains(n) <==> exists|i: int|
        0 <= i < rs.len() && #[trigger] gives_name(rs[i].jockey, n) by {
        if trimmed_names(jf).contains(n) {
            let i = choose|i: int| 0 <= i < jf.len() && #[trigger] gives_name(jf[i], n);
            assert(jf[i] == rs[i].jockey);
        }
        if exists|i: int| 0 <= i < rs.len() && #[trigger] gives_name(rs[i].jockey, n) {
            let i = choose|i: int| 0 <= i < rs.len() && #[trigger] gives_name(rs[i].jockey, n);
            assert(jf[i] == rs[i].jockey);
        }
    }
    assert forall|n: Seq<char>| trimmed_names(tf).contains(n) <==> exists|i: int|
        0 <= i < rs.len() && #[trigger] gives_name(rs[i].trainer, n) by {
        if trimmed_names(tf).contains(n) {
            let i = choose|i: int| 0 <= i < tf.len() && #[trigger] gives_name(tf[i], n);
            assert(tf[i] == rs[i].trainer);
        }
        if exists|i: int| 0 <= i < rs.len() && #[trigger] gives_name(rs[i].trainer, n) {
            let i = choose|i: int| 0 <= i < rs.len() && #[trigger] gives_name(rs[i].trainer, n);
            assert(tf[i] == rs[i].trainer);
        }
    }
}

/// Appends a field's name, trimmed, when it is not blank.
fn push_trimmed(out: &mut Vec<String>, f: &Option<String>)
    ensures
        strings_view(final(out)@) == strings_view(old(out)@) + trimmed_names(seq![opt_view(*f)]),
{
    let ghost before = strings_view(out@);
    assert(seq![opt_view(*f)].drop_last() =~= Seq::<Option<Seq<char>>>::empty());
    assert(trimmed_names(Seq::<Option<Seq<char>>>::empty()) =~= Seq::<Seq<char>>::empty());
    assert(seq![opt_view(*f)].last() == opt_view(*f));
    match f {
        Some(n) => {
            let c = chars_of(n.as_str());
            let t = trimmed_string(&c, 0, c.len());
            assert(c@.subrange(0, c@.len() as int) =~= c@);
            if !t.as_str().is_empty() {
                out.push(t);
            }
        },
        None => {},
    }
    assert(strings_view(out@) =~= before + trimmed_names(seq![opt_view(*f)]));
}

/// Names taken one field after another make the names of all the fields.
proof fn lemma_trimmed_names_push(fs: Seq<Option<Seq<char>>>, f: Option<Seq<char>>)
    ensures
        trimmed_names(fs.push(f)) == trimmed_names(fs) + trimmed_names(seq![f]),
{
    assert(fs.push(f).drop_last() =~= fs);
    assert(seq![f].drop_last() =~= Seq::<Option<Seq<char>>>::empty());
    assert(trimmed_names(Seq::<Option<Seq<char>>>::empty()) =~= Seq::<Seq<char>>::empty());
}

/// Adds the trimmed, non-blank horse, jockey and trainer names of the runners to the
/// three lists, in runner order.
pub fn collect_names(
    runners: &Vec<RunnerRec>,
    horses: &mut Vec<String>,
    jockeys: &mut Vec<String>,
    trainers: &mut Vec<String>,
)
    ensures
        strings_view(final(horses)@) == strings_view(old(horses)@) + trimmed_names(
            horse_fields(runners_view(runners@)),
        ),
        strings_view(final(jockeys)@) == strings_view(old(jockeys)@) + trimmed_names(
            jockey_fields(runners_view(runners@)),
        ),
        strings_view(final(trainers)@) == strings_view(old(trainers)@) + trimmed_names(
            trainer_fields(runners_view(runners@)),
        ),
{
    let ghost h0 = strings_view(horses@);
    let ghost j0 = strings_view(jockeys@);
    let ghost t0 = strings_view(trainers@);
    let ghost rv = runners_view(runners@);
    let mut i: usize = 0;
    assert(rv.take(0) =~= Seq::<RunnerView>::empty());
    assert(horse_fields(rv.take(0)) =~= Seq::<Option<Seq<char>>>::empty());
    assert(jockey_fields(rv.take(0)) =~= Seq::<Option<Seq<char>>>::empty());
    assert(trainer_fields(rv.take(0)) =~= Seq::<Option<Seq<char>>>::empty());
    while i < runners.len()
        invariant
            i <= runners@.len(),
            rv == runners_view(runners@),
            strings_view(horses@) == h0 + trimmed_names(horse_fields(rv.take(i as int))),
            strings_view(jockeys@) == j0 + trimmed_names(jockey_fields(rv.take(i as int))),
            strings_view(trainers@) == t0 + trimmed_names(trainer_fields(rv.take(i as int))),
        decreases runners@.len() - i,
    {
        let r = &runners[i];
        assert(rv[i as int] == r@);
        proof {
            let p = rv.take(i as int);
            assert(rv.take(i + 1) =~= p.push(r@));
            assert(horse_fields(p.push(r@)) =~= horse_fields(p).push(opt_view(r.horse)));
            assert(jockey_fields(p.push(r@)) =~= jockey_fields(p).push(opt_view(r.jockey)));
            assert(trainer_fields(p.push(r@)) =~= trainer_fields(p).push(opt_view(r.trainer)));
            lemma_trimmed_names_push(horse_fields(p), opt_view(r.horse));
            lemma_trimmed_names_push(jockey_fields(p), opt_view(r.jockey));
            lemma_trimmed_names_push(trainer_fields(p), opt_view(r.trainer));
        }
        push_trimmed(horses, &r.horse);
        push_trimmed(jockeys, &r.jockey);
        push_trimmed(trainers, &r.trainer);
        i = i + 1;
    }
    assert(rv.take(runners@.len() as int) =~= rv);
}

// ---------------------------------------------------------------------------
// The date in a path
// ---------------------------------------------------------------------------

/// A year of four digits, then a month and a day of two.
pub open spec fn ymd_ok(y: Seq<char>, m: Seq<char>, d: Seq<char>) -> bool {
    &&& y.len() == 4 && all_digits(y)
    &&& m.len() == 2 && all_digits(m)
    &&& d.len() == 2 && all_digits(d)
}

/// The first three neighbouring parts from `i` on that read as a date.
pub open spec fn first_ymd(parts: Seq<Seq<char>>, i: int) -> Option<(Seq<char>, Seq<char>, Seq<char>)>
    decreases parts.len() - i,
{
    if i < 0 || i + 3 > parts.len() {
        None
    } else if ymd_ok(parts[i], parts[i + 1], parts[i + 2]) {
        Some((parts[i], parts[i + 1], parts[i + 2]))
    } else {
        first_ymd(parts, i + 1)
    }
}

/// The date in a path: the first `YYYY/MM/DD` among its non-empty parts, with `\`
/// read as `/`.
pub open spec fn ymd_of_path(p: Seq<char>) -> Option<(Seq<char>, Seq<char>, Seq<char>)> {
    first_ymd(crate::racecard::path_parts(crate::text::replace_all(p, "\\"@, "/"@)), 0)
}

/// Whether a text is all ASCII digits.
fn all_digits_exec(s: &[char]) -> (res: bool)
    ensures
        res == all_digits(s@),
{
    let mut i: usize = 0;
    while i < s.len()
        invariant
            i <= s@.len(),
            forall|j: int| 0 <= j < i ==> crate::text::is_digit(#[trigger] s@[j]),
        decreases s@.len() - i,
    {
        if !is_digit_exec(s[i]) {
            return false;
        }
        i = i + 1;
    }
    true
}

/// The date in a path: the first year, month and day directories in a row.
pub fn infer_ymd_from_path(path: &str) -> (res: Option<(String, String, String)>)
    ensures
        match res {
            Some((y, m, d)) => ymd_of_path(path@) == Some((y@, m@, d@)),
            None => ymd_of_path(path@) is None,
        },
{
    let c = chars_of(path);
    let bs = chars_of("\\");
    let sl = chars_of("/");
    let p = crate::text::replace_chars(&c, &bs, &sl);
    let parts = crate::racecard::path_parts_exec(&p);
    let ghost pv = vecs_view(parts@);
    let mut i: usize = 0;
    while parts.len() >= 3 && i <= parts.len() - 3
        invariant
            pv == vecs_view(parts@),
            pv == crate::racecard::path_parts(crate::text::replace_all(path@, "\\"@, "/"@)),
            first_ymd(pv, 0) == first_ymd(pv, i as int),
        decreases parts@.len() - i,
    {
        assert(pv[i as int] == parts@[i as int]@);
        assert(pv[i + 1] == parts@[i + 1]@);
        assert(pv[i + 2] == parts@[i + 2]@);
        let y = &parts[i];
        let m = &parts[i + 1];
        let d = &parts[i + 2];
        if y.len() == 4 && m.len() == 2 && d.len() == 2 && all_digits_exec(y) && all_digits_exec(m)
            && all_digits_exec(d) {
            assert(y@.subrange(0, 4) =~= y@);
            assert(m@.subrange(0, 2) =~= m@);
            assert(d@.subrange(0, 2) =~= d@);
            return Some((string_of(y, 0, 4), string_of(m, 0, 2), string_of(d, 0, 2)));
        }
        i = i + 1;
    }
    None
}

} // verus!
