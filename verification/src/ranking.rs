//! Ranking and selection.
//!
//! `top_central_nodes` sorts a metric map's entries by descending score and
//! truncates to the requested count.  Ties between equal scores break by
//! ascending node identifier (and, between equal representations of one
//! value, by the representation), so the order is total and the ranking is
//! a function of the map alone: ranking twice gives identical output.
//! Scores are exact rationals, so no non-comparable value can occur.

use crate::maps::MetricMap;
use crate::score::Score;
use vstd::prelude::*;
use vstd::relations::{sorted_by, total_ordering};
use vstd::seq_lib::lemma_multiset_commutative;
use vstd::seq_lib::lemma_sorted_unique;

verus! {

/// Tie-break order: ascending node identifier, then the score fields.
pub open spec fn lex_leq(a: (usize, Score), b: (usize, Score)) -> bool {
    ||| a.0 < b.0
    ||| (a.0 == b.0 && (a.1.num < b.1.num || (a.1.num == b.1.num && a.1.den <= b.1.den)))
}

/// The ranking order: higher score first, ties by `lex_leq`.  Scores with
/// a zero denominator (never produced by this crate) sort first among
/// themselves by `lex_leq`, which keeps the order total on all values.
pub open spec fn rank_leq(a: (usize, Score), b: (usize, Score)) -> bool {
    if a.1.den == 0 && b.1.den == 0 {
        lex_leq(a, b)
    } else if a.1.den == 0 {
        true
    } else if b.1.den == 0 {
        false
    } else if b.1.spec_lt(a.1) {
        true
    } else if a.1.spec_lt(b.1) {
        false
    } else {
        lex_leq(a, b)
    }
}

pub open spec fn rank_order() -> spec_fn((usize, Score), (usize, Score)) -> bool {
    |a: (usize, Score), b: (usize, Score)| rank_leq(a, b)
}

/// The ranking of a map's entries: sorted by the ranking order, truncated
/// to the first `n`.
pub open spec fn ranking_of(rows: Seq<(usize, Score)>, n: int) -> Seq<(usize, Score)> {
    rows.sort_by(rank_order()).take(
        if n <= rows.len() {
            n
        } else {
            rows.len() as int
        },
    )
}

proof fn lemma_le_trans(a: Score, b: Score, c: Score)
    requires
        a.den >= 1,
        b.den >= 1,
        c.den >= 1,
        a.spec_le(b),
        b.spec_le(c),
    ensures
        a.spec_le(c),
{
    assert(a.num * c.den <= c.num * a.den) by (nonlinear_arith)
        requires
            a.den >= 1,
            b.den >= 1,
            c.den >= 1,
            a.num * b.den <= b.num * a.den,
            b.num * c.den <= c.num * b.den,
            0 <= a.num,
            0 <= b.num,
            0 <= c.num,
    ;
}

/// Law: the ranking order is a total ordering, so a sorted arrangement of
/// given entries is unique.
pub proof fn lemma_rank_total_ordering()
    ensures
        total_ordering(rank_order()),
{
    let r = rank_order();
    assert forall|a: (usize, Score)| #[trigger] r(a, a) by {}
    assert forall|a: (usize, Score), b: (usize, Score)| #[trigger] r(a, b) && #[trigger] r(
        b,
        a,
    ) implies a == b by {
        if a.1.den >= 1 && b.1.den >= 1 {
            assert(!a.1.spec_lt(b.1) && !b.1.spec_lt(a.1));
            assert(lex_leq(a, b) && lex_leq(b, a));
        }
    }
    assert forall|a: (usize, Score), b: (usize, Score)| #[trigger] r(a, b) || #[trigger] r(
        b,
        a,
    ) by {}
    assert forall|a: (usize, Score), b: (usize, Score), c: (usize, Score)|
        #[trigger] r(a, b) && #[trigger] r(b, c) implies r(a, c) by {
        lemma_rank_trans(a, b, c);
    }
}

proof fn lemma_rank_trans(a: (usize, Score), b: (usize, Score), c: (usize, Score))
    requires
        rank_leq(a, b),
        rank_leq(b, c),
    ensures
        rank_leq(a, c),
{
    if a.1.den >= 1 && b.1.den >= 1 && c.1.den >= 1 {
        assert(b.1.spec_le(a.1));
        assert(c.1.spec_le(b.1));
        lemma_le_trans(c.1, b.1, a.1);
        if !c.1.spec_lt(a.1) {
            assert(a.1.spec_le(c.1));
            lemma_le_trans(a.1, c.1, b.1);
            lemma_le_trans(b.1, a.1, c.1);
            assert(!b.1.spec_lt(a.1) && !a.1.spec_lt(b.1));
            assert(!c.1.spec_lt(b.1) && !b.1.spec_lt(c.1));
            assert(lex_leq(a, b) && lex_leq(b, c));
            assert(lex_leq(a, c));
        }
    }
}

/// Exact executable comparison in the ranking order.
fn rank_le_exec(a: &(usize, Score), b: &(usize, Score)) -> (r: bool)
    ensures
        r == rank_leq(*a, *b),
{
    if a.1.den == 0 && b.1.den == 0 {
        lex_le_exec(a, b)
    } else if a.1.den == 0 {
        true
    } else if b.1.den == 0 {
        false
    } else if b.1.lt(&a.1) {
        true
    } else if a.1.lt(&b.1) {
        false
    } else {
        lex_le_exec(a, b)
    }
}

fn lex_le_exec(a: &(usize, Score), b: &(usize, Score)) -> (r: bool)
    ensures
        r == lex_leq(*a, *b),
{
    a.0 < b.0 || (a.0 == b.0 && (a.1.num < b.1.num || (a.1.num == b.1.num && a.1.den
        <= b.1.den)))
}

proof fn lemma_insert_multiset(s: Seq<(usize, Score)>, k: int, e: (usize, Score))
    requires
        0 <= k <= s.len(),
    ensures
        s.insert(k, e).to_multiset() == s.to_multiset().insert(e),
{
    broadcast use vstd::seq_lib::group_to_multiset_ensures;

    assert(s.insert(k, e) =~= s.take(k).push(e) + s.skip(k));
    assert(s =~= s.take(k) + s.skip(k));
    lemma_multiset_commutative(s.take(k).push(e), s.skip(k));
    lemma_multiset_commutative(s.take(k), s.skip(k));
    assert(s.take(k).push(e).to_multiset() =~= s.take(k).to_multiset().insert(e));
    assert(s.insert(k, e).to_multiset() =~= s.to_multiset().insert(e));
}

/// Sorts entries by the ranking order, by insertion into a sorted prefix.
fn rank_sort(entries: &Vec<(usize, Score)>) -> (r: Vec<(usize, Score)>)
    ensures
        sorted_by(r@, rank_order()),
        r@.to_multiset() == entries@.to_multiset(),
{
    let mut r: Vec<(usize, Score)> = Vec::new();
    let mut idx: usize = 0;
    proof {
        broadcast use vstd::seq_lib::group_to_multiset_ensures;

        assert(entries@.take(0) =~= Seq::<(usize, Score)>::empty());
        assert(r@.to_multiset() =~= entries@.take(0).to_multiset());
    }
    while idx < entries.len()
        invariant
            0 <= idx <= entries@.len(),
            sorted_by(r@, rank_order()),
            r@.to_multiset() == entries@.take(idx as int).to_multiset(),
            r@.len() == idx,
        decreases entries@.len() - idx,
    {
        let e = entries[idx];
        let mut k: usize = 0;
        while k < r.len() && rank_le_exec(&r[k], &e)
            invariant
                0 <= k <= r@.len(),
                forall|x: int| 0 <= x < k ==> rank_leq(#[trigger] r@[x], e),
            decreases r@.len() - k,
        {
            k = k + 1;
        }
        proof {
            broadcast use vstd::seq_lib::group_to_multiset_ensures;

            lemma_rank_total_ordering();
            lemma_insert_multiset(r@, k as int, e);
            assert(entries@.take(idx as int + 1) =~= entries@.take(idx as int).push(e));
            let ord = rank_order();
            let s0 = r@;
            let s1 = r@.insert(k as int, e);
            assert(s1.len() == s0.len() + 1);
            assert(s1[k as int] == e);
            assert forall|i: int, j: int| 0 <= i < j < s1.len() implies #[trigger] ord(
                s1[i],
                s1[j],
            ) by {
                if k < s0.len() {
                    assert(!rank_leq(s0[k as int], e));
                    assert(ord(s0[k as int], e) || ord(e, s0[k as int]));
                    assert(rank_leq(e, s0[k as int]));
                }
                if j < k {
                    assert(s1[i] == s0[i] && s1[j] == s0[j]);
                    assert(ord(s0[i], s0[j]));
                } else if j == k {
                    assert(s1[i] == s0[i] && s1[j] == e);
                    assert(rank_leq(s0[i], e));
                } else {
                    assert(s1[j] == s0[j - 1]);
                    if i < k {
                        assert(s1[i] == s0[i]);
                        assert(ord(s0[i], s0[j - 1]));
                    } else if i == k {
                        if j - 1 > k {
                            assert(ord(s0[k as int], s0[j - 1]));
                            lemma_rank_trans(e, s0[k as int], s0[j - 1]);
                        }
                        assert(rank_leq(e, s0[j - 1]));
                    } else {
                        assert(s1[i] == s0[i - 1]);
                        assert(ord(s0[i - 1], s0[j - 1]));
                    }
                }
                assert(rank_leq(s1[i], s1[j]));
            }
            assert(sorted_by(s1, ord));
        }
        r.insert(k, e);
        idx = idx + 1;
    }
    proof {
        assert(entries@.take(entries@.len() as int) =~= entries@);
    }
    r
}

/// The `top_n` highest-scoring entries of the map, descending; ties break
/// by ascending node identifier.  The result is a function of the map's
/// entries and `top_n` alone.
pub fn top_central_nodes(m: &MetricMap, top_n: usize) -> (r: Vec<(usize, Score)>)
    ensures
        r@ == ranking_of(m.rows(), top_n as int),
{
    let entries = m.entries();
    let mut sorted = rank_sort(entries);
    proof {
        broadcast use vstd::seq_lib::group_to_multiset_ensures;

        lemma_rank_total_ordering();
        entries@.lemma_sort_by_ensures(rank_order());
        lemma_sorted_unique(sorted@, entries@.sort_by(rank_order()), rank_order());
        assert(sorted@ == entries@.sort_by(rank_order()));
        assert(sorted@.to_multiset().len() == sorted@.len());
        assert(entries@.to_multiset().len() == entries@.len());
        assert(sorted@.len() == entries@.len());
    }
    let ghost full = sorted@;
    sorted.truncate(top_n);
    proof {
        if top_n as int <= m.rows().len() {
            assert(sorted@ =~= full.take(top_n as int));
        } else {
            assert(full.take(m.rows().len() as int) =~= full);
        }
    }
    sorted
}

/// Law: ranking is idempotent — two rankings of the same map with the same
/// count are identical, whatever order the entries were visited in.
pub proof fn lemma_ranking_deterministic(
    rows: Seq<(usize, Score)>,
    n: int,
    r1: Seq<(usize, Score)>,
    r2: Seq<(usize, Score)>,
)
    requires
        r1 == ranking_of(rows, n),
        r2 == ranking_of(rows, n),
    ensures
        r1 == r2,
{
}

} // verus!
