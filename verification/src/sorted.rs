//! Texts once each, in lexicographic order.
use vstd::prelude::*;
use crate::text::{chars_of, lex_lt, lex_order, lemma_lex_total, lemma_lex_trans};

verus! {

// ---------------------------------------------------------------------------
// Sorted sets of texts
// ---------------------------------------------------------------------------

/// Every text comes before the next in lexicographic order.
pub open spec fn strictly_sorted(q: Seq<Seq<char>>) -> bool {
    forall|i: int, j: int| 0 <= i < j < q.len() ==> lex_lt(#[trigger] q[i], #[trigger] q[j])
}

/// The two sequences hold the same texts.
pub open spec fn same_texts(a: Seq<Seq<char>>, b: Seq<Seq<char>>) -> bool {
    forall|x: Seq<char>| a.contains(x) <==> b.contains(x)
}

/// The texts of `vals` once each, in lexicographic order.
pub open spec fn sorted_set(vals: Seq<Seq<char>>) -> Seq<Seq<char>> {
    choose|q: Seq<Seq<char>>| strictly_sorted(q) && same_texts(q, vals)
}

/// The texts of strings.
pub open spec fn strings_view(v: Seq<String>) -> Seq<Seq<char>> {
    v.map_values(|s: String| s@)
}

/// Two sorted sequences of the same texts are the same sequence.
pub proof fn lemma_sorted_unique(q1: Seq<Seq<char>>, q2: Seq<Seq<char>>)
    requires
        strictly_sorted(q1),
        strictly_sorted(q2),
        same_texts(q1, q2),
    ensures
        q1 == q2,
    decreases q1.len(),
{
    if q1.len() == 0 {
        if q2.len() > 0 {
            assert(q2.contains(q2[0]));
        }
        assert(q1 =~= q2);
    } else {
        assert(q1.contains(q1[0]));
        let j = choose|j: int| 0 <= j < q2.len() && q2[j] == q1[0];
        assert(q2.contains(q2[0]));
        let i = choose|i: int| 0 <= i < q1.len() && q1[i] == q2[0];
        if q1[0] != q2[0] {
            assert(lex_lt(q2[0], q2[j]));
            assert(lex_lt(q1[0], q1[i]));
            lemma_lex_total(q1[0], q1[i]);
        }
        let r1 = q1.drop_first();
        let r2 = q2.drop_first();
        assert forall|x: Seq<char>| r1.contains(x) <==> r2.contains(x) by {
            if r1.contains(x) {
                let k = choose|k: int| 0 <= k < r1.len() && r1[k] == x;
                assert(q1[k + 1] == x);
                assert(lex_lt(q1[0], q1[k + 1]));
                lemma_lex_total(q1[0], x);
                assert(q1.contains(x));
                let m = choose|m: int| 0 <= m < q2.len() && q2[m] == x;
                assert(m != 0);
                assert(r2[m - 1] == x);
            }
            if r2.contains(x) {
                let k = choose|k: int| 0 <= k < r2.len() && r2[k] == x;
                assert(q2[k + 1] == x);
                assert(lex_lt(q2[0], q2[k + 1]));
                lemma_lex_total(q2[0], x);
                assert(q2.contains(x));
                let m = choose|m: int| 0 <= m < q1.len() && q1[m] == x;
                assert(m != 0);
                assert(r1[m - 1] == x);
            }
        }
        assert forall|a: int, b: int| 0 <= a < b < r1.len() implies lex_lt(#[trigger] r1[a], #[trigger] r1[b]) by {
            assert(r1[a] == q1[a + 1] && r1[b] == q1[b + 1]);
        }
        assert forall|a: int, b: int| 0 <= a < b < r2.len() implies lex_lt(#[trigger] r2[a], #[trigger] r2[b]) by {
            assert(r2[a] == q2[a + 1] && r2[b] == q2[b + 1]);
        }
        lemma_sorted_unique(r1, r2);
        assert(q1 =~= seq![q1[0]] + r1);
        assert(q2 =~= seq![q2[0]] + r2);
    }
}

/// The position in the sorted `q` before which every text comes before `c`.
fn sorted_position(q: &Vec<String>, c: &[char]) -> (res: usize)
    ensures
        res <= q@.len(),
        forall|i: int| 0 <= i < res ==> lex_lt(#[trigger] q@[i]@, c@),
        res < q@.len() ==> !lex_lt(q@[res as int]@, c@),
{
    let mut pos: usize = 0;
    while pos < q.len()
        invariant_except_break
            pos <= q@.len(),
            forall|i: int| 0 <= i < pos ==> lex_lt(#[trigger] q@[i]@, c@),
        ensures
            pos <= q@.len(),
            forall|i: int| 0 <= i < pos ==> lex_lt(#[trigger] q@[i]@, c@),
            pos < q@.len() ==> !lex_lt(q@[pos as int]@, c@),
        decreases q@.len() - pos,
    {
        let k = chars_of(q[pos].as_str());
        if lex_order(&k, c) >= 0 {
            break;
        }
        pos = pos + 1;
    }
    pos
}

/// The strings of `values` once each, in lexicographic order.
pub fn sorted_unique(values: &Vec<String>) -> (res: Vec<String>)
    ensures
        strictly_sorted(strings_view(res@)),
        same_texts(strings_view(res@), strings_view(values@)),
{
    let ghost vals = strings_view(values@);
    let mut q: Vec<String> = Vec::new();
    let mut n: usize = 0;
    while n < values.len()
        invariant
            n <= values@.len(),
            vals == strings_view(values@),
            strictly_sorted(strings_view(q@)),
            same_texts(strings_view(q@), vals.take(n as int)),
        decreases values@.len() - n,
    {
        let v = values[n].clone();
        let vc = chars_of(v.as_str());
        let ghost qv = strings_view(q@);
        let ghost x = vals[n as int];
        assert(x == v@);
        let ghost t0 = vals.take(n as int);
        let ghost t1 = vals.take(n + 1);
        assert(t1 =~= t0.push(x));
        let pos = sorted_position(&q, &vc);
        let dup = if pos < q.len() {
            let k = chars_of(q[pos].as_str());
            crate::text::chars_eq(&k, &vc)
        } else {
            false
        };
        if dup {
            assert(qv[pos as int] == x);
            assert forall|y: Seq<char>| qv.contains(y) <==> t1.contains(y) by {
                if y == x {
                    assert(qv.contains(qv[pos as int]));
                }
                if t0.contains(y) {
                    let k = choose|k: int| 0 <= k < n && t0[k] == y;
                    assert(t1[k] == y);
                }
                if t1.contains(y) && y != x {
                    let k = choose|k: int| 0 <= k < n + 1 && t1[k] == y;
                    assert(t0[k] == y);
                }
            }
        } else {
            proof {
                assert forall|i: int| pos <= i < qv.len() implies lex_lt(x, #[trigger] qv[i]) by {
                    assert(qv[pos as int] == q@[pos as int]@);
                    lemma_lex_total(qv[pos as int], x);
                    if i > pos {
                        lemma_lex_trans(x, qv[pos as int], qv[i]);
                    }
                }
            }
            q.insert(pos, v);
            let ghost q2 = strings_view(q@);
            assert(q2 =~= qv.insert(pos as int, x));
            assert forall|a: int, b: int| 0 <= a < b < q2.len() implies lex_lt(#[trigger] q2[a], #[trigger] q2[b]) by {
                if b < pos {
                } else if b == pos {
                    assert(q2[a] == qv[a]);
                    assert(q2[a] == q@[a]@);
                } else if a == pos {
                    assert(q2[b] == qv[b - 1]);
                } else if a < pos {
                    assert(q2[b] == qv[b - 1]);
                    assert(lex_lt(qv[a], x));
                    lemma_lex_trans(qv[a], x, qv[b - 1]);
                } else {
                    assert(q2[a] == qv[a - 1]);
                    assert(q2[b] == qv[b - 1]);
                }
            }
            assert forall|y: Seq<char>| q2.contains(y) <==> t1.contains(y) by {
                if y == x {
                    assert(q2[pos as int] == x);
                    assert(q2.contains(y));
                    assert(t1[n as int] == x);
                    assert(t1.contains(y));
                } else {
                    if q2.contains(y) {
                        let k = choose|k: int| 0 <= k < q2.len() && q2[k] == y;
                        if k < pos {
                            assert(qv[k] == y);
                        } else {
                            assert(qv[k - 1] == y);
                        }
                        assert(qv.contains(y));
                        assert(t0.contains(y));
                        let m = choose|m: int| 0 <= m < t0.len() && t0[m] == y;
                        assert(t1[m] == y);
                        assert(t1.contains(y));
                    }
                    if t1.contains(y) {
                        let k = choose|k: int| 0 <= k < t1.len() && t1[k] == y;
                        assert(k < n);
                        assert(t0[k] == y);
                        assert(t0.contains(y));
                        assert(qv.contains(y));
                        let m = choose|m: int| 0 <= m < qv.len() && qv[m] == y;
                        if m < pos {
                            assert(q2[m] == y);
                        } else {
                            assert(q2[m + 1] == y);
                        }
                        assert(q2.contains(y));
                    }
                }
            }
        }
        n = n + 1;
    }
    assert(vals.take(values@.len() as int) =~= vals);
    q
}

} // verus!
