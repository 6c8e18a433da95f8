//! Local clustering coefficients.
//!
//! A node of degree `d >= 2` scores `2*T / (d*(d-1))`, where `T` counts the
//! edges among its neighbors; a node of degree below two scores zero.  The
//! adjacency test behind the pair enumeration is hash-based, as a linear
//! scan over high-degree neighborhoods would be quadratically slower.

use crate::graph::{lemma_distinct_bounded_len, lemma_wf_adjacency, UndirectedGraph, MAX_NODES};
use crate::maps::{keys_of, lemma_seq_get_some, MetricMap};
use crate::score::Score;
use std::collections::HashSet;
use vstd::prelude::*;

verus! {

/// How many entries of `row[j..]` are neighbors of `u` in `adj`.
pub open spec fn links_of(adj: Seq<Seq<usize>>, u: usize, row: Seq<usize>, j: int) -> int
    decreases row.len() - j,
{
    if j < 0 || j >= row.len() {
        0
    } else {
        (if 0 <= u < adj.len() && adj[u as int].contains(row[j]) {
            1int
        } else {
            0int
        }) + links_of(adj, u, row, j + 1)
    }
}

/// How many unordered position pairs `i <= x < y` of `row` are joined by an
/// edge of `adj`: the triangle count when `row` lists a node's neighbors.
pub open spec fn tri_count(adj: Seq<Seq<usize>>, row: Seq<usize>, i: int) -> int
    decreases row.len() - i,
{
    if i < 0 || i >= row.len() {
        0
    } else {
        links_of(adj, row[i], row, i + 1) + tri_count(adj, row, i + 1)
    }
}

/// The local clustering coefficient of node `u`, as an exact rational.
pub open spec fn clustering_score(adj: Seq<Seq<usize>>, u: int) -> Score {
    let d = adj[u].len();
    if d < 2 {
        Score { num: 0, den: 1 }
    } else {
        Score {
            num: (2 * tri_count(adj, adj[u], 0)) as u64,
            den: (d * (d - 1)) as u64,
        }
    }
}

/// Law: a node of degree below two has clustering coefficient zero.
pub proof fn lemma_low_degree_scores_zero(adj: Seq<Seq<usize>>, u: int)
    requires
        0 <= u < adj.len(),
        adj[u].len() < 2,
    ensures
        clustering_score(adj, u) == (Score { num: 0, den: 1 }),
{
}

proof fn lemma_links_bound(adj: Seq<Seq<usize>>, u: usize, row: Seq<usize>, j: int)
    requires
        0 <= j <= row.len(),
    ensures
        0 <= links_of(adj, u, row, j) <= row.len() - j,
    decreases row.len() - j,
{
    if j < row.len() {
        lemma_links_bound(adj, u, row, j + 1);
    }
}

proof fn lemma_tri_bound(adj: Seq<Seq<usize>>, row: Seq<usize>, i: int)
    requires
        0 <= i <= row.len(),
    ensures
        0 <= 2 * tri_count(adj, row, i) <= (row.len() - i) * (row.len() - i - 1),
    decreases row.len() - i,
{
    if i < row.len() {
        lemma_tri_bound(adj, row, i + 1);
        lemma_links_bound(adj, row[i], row, i + 1);
        assert(0 <= tri_count(adj, row, i));
        assert(2 * tri_count(adj, row, i) <= (row.len() - i) * (row.len() - i - 1)) by (nonlinear_arith)
            requires
                tri_count(adj, row, i) == links_of(adj, row[i], row, i + 1) + tri_count(
                    adj,
                    row,
                    i + 1,
                ),
                0 <= links_of(adj, row[i], row, i + 1) <= row.len() - i - 1,
                0 <= 2 * tri_count(adj, row, i + 1) <= (row.len() - i - 1) * (row.len() - i
                    - 2),
                i < row.len(),
        ;
    } else {
        assert((row.len() - i) * (row.len() - i - 1) == 0) by (nonlinear_arith)
            requires
                i == row.len(),
        ;
    }
}

/// Collects the values of `row` into a hash set, for constant-time
/// membership tests.
fn neighbor_set(row: &Vec<usize>) -> (hs: HashSet<usize>)
    ensures
        forall|v: usize| hs@.contains(v) <==> row@.contains(v),
{
    broadcast use vstd::std_specs::hash::group_hash_axioms;
    broadcast use vstd::seq_lib::group_seq_properties;

    let mut hs: HashSet<usize> = HashSet::new();
    let mut i: usize = 0;
    while i < row.len()
        invariant
            0 <= i <= row@.len(),
            forall|v: usize| hs@.contains(v) <==> row@.take(i as int).contains(v),
            vstd::std_specs::hash::obeys_key_model::<usize>(),
            vstd::std_specs::hash::builds_valid_hashers::<std::hash::RandomState>(),
        decreases row@.len() - i,
    {
        hs.insert(row[i]);
        proof {
            assert(row@.take(i as int + 1) =~= row@.take(i as int).push(row@[i as int]));
            assert forall|v: usize| #[trigger] row@.take(i as int + 1).contains(v)
                <==> (row@.take(i as int).contains(v) || v == row@[i as int]) by {
                let t1 = row@.take(i as int + 1);
                if t1.contains(v) {
                    let k = choose|k: int| 0 <= k < t1.len() && t1[k] == v;
                    if k < i as int {
                        assert(row@.take(i as int)[k] == v);
                    }
                }
                if row@.take(i as int).contains(v) {
                    let k = choose|k: int|
                        0 <= k < row@.take(i as int).len() && row@.take(i as int)[k] == v;
                    assert(t1[k] == v);
                }
                assert(t1[i as int] == row@[i as int]);
            }
        }
        i = i + 1;
    }
    proof {
        assert(row@.take(row@.len() as int) =~= row@);
    }
    hs
}

/// Every node's score is its local clustering coefficient: `2*T / (d*(d-1))`
/// for degree `d >= 2` and `T` triangles through the node, zero otherwise.
pub fn compute_clustering_coefficient(g: &UndirectedGraph) -> (m: MetricMap)
    requires
        g.wf(),
    ensures
        m.wf(),
        m.rows().len() == g.adj().len(),
        forall|i: int|
            0 <= i < m.rows().len() ==> #[trigger] m.rows()[i] == (
                i as usize,
                clustering_score(g.adj(), i),
            ),
{
    proof {
        lemma_wf_adjacency(*g);
    }
    let ghost adj = g.adj();
    let n = g.node_count();
    let mut m = MetricMap::new();
    let mut u: usize = 0;
    while u < n
        invariant
            g.wf(),
            adj == g.adj(),
            n == adj.len(),
            0 <= u <= n,
            m.wf(),
            m.rows().len() == u,
            forall|i: int|
                0 <= i < u ==> #[trigger] m.rows()[i] == (i as usize, clustering_score(adj, i)),
        decreases n - u,
    {
        let score = clustering_of_node(g, u);
        proof {
            lemma_seq_get_some(m.rows(), u);
            if keys_of(m.rows()).contains(u) {
                let i = choose|i: int|
                    0 <= i < keys_of(m.rows()).len() && keys_of(m.rows())[i] == u;
                assert(m.rows()[i].0 == u);
            }
        }
        m.insert(u, score);
        u = u + 1;
    }
    m
}

/// The clustering coefficient of one node, by testing every unordered pair
/// of its neighbors for an edge, against a hash set of the neighbors of the
/// pair's first member.
pub fn clustering_of_node(g: &UndirectedGraph, u: usize) -> (score: Score)
    requires
        g.wf(),
        u < g.node_count_spec(),
    ensures
        score.wf(),
        score == clustering_score(g.adj(), u as int),
{
    broadcast use vstd::std_specs::hash::group_hash_axioms;

    proof {
        lemma_wf_adjacency(*g);
    }
    let ghost adj = g.adj();
    let row = g.neighbors(u);
    let d = row.len();
    proof {
        assert(adj[u as int].no_duplicates());
        assert forall|k: int| 0 <= k < row@.len() implies #[trigger] row@[k] < adj.len() by {
            assert(adj[u as int][k] < adj.len());
        }
        lemma_distinct_bounded_len(row@, adj.len() as int);
        assert(d <= MAX_NODES);
    }
    if d < 2 {
        return Score::zero();
    }
    let mut t: u64 = 0;
    let mut i: usize = 0;
    proof {
        lemma_tri_bound(adj, row@, 0);
    }
    while i < d
        invariant
            g.wf(),
            adj == g.adj(),
            row@ == adj[u as int],
            u < adj.len(),
            d == row@.len(),
            2 <= d <= MAX_NODES,
            0 <= i <= d,
            forall|k: int| 0 <= k < row@.len() ==> #[trigger] row@[k] < adj.len(),
            t + tri_count(adj, row@, i as int) == tri_count(adj, row@, 0),
            0 <= 2 * tri_count(adj, row@, 0) <= d * (d - 1),
        decreases d - i,
    {
        proof {
            lemma_tri_bound(adj, row@, i as int);
            lemma_tri_bound(adj, row@, i as int + 1);
            lemma_links_bound(adj, row@[i as int], row@, i as int + 1);
        }
        let x = row[i];
        let xrow = g.neighbors(x);
        let hs = neighbor_set(xrow);
        let mut j: usize = i + 1;
        while j < d
            invariant
                g.wf(),
                adj == g.adj(),
                row@ == adj[u as int],
                u < adj.len(),
                d == row@.len(),
                x == row@[i as int],
                0 <= i < d,
                i < j <= d,
                2 <= d <= MAX_NODES,
                forall|k: int|
                    0 <= k < row@.len() ==> #[trigger] row@[k] < adj.len(),
                t + links_of(adj, x, row@, j as int) + tri_count(adj, row@, i as int + 1)
                    == tri_count(adj, row@, 0),
                0 <= 2 * tri_count(adj, row@, 0) <= d * (d - 1),
                0 <= links_of(adj, x, row@, j as int),
                0 <= tri_count(adj, row@, i as int + 1),
                forall|v: usize| hs@.contains(v) <==> adj[x as int].contains(v),
            decreases d - j,
        {
            proof {
                lemma_links_bound(adj, x, row@, j as int + 1);
                lemma_tri_bound(adj, row@, i as int + 1);
                assert(2 * t <= d * (d - 1));
                assert(d * (d - 1) < 0xFFFF_FFFF_FFFF_FFFF) by (nonlinear_arith)
                    requires
                        2 <= d <= 0xFFFF_FFFEusize,
                ;
            }
            let y = row[j];
            if hs.contains(&y) {
                t = t + 1;
            }
            j = j + 1;
        }
        i = i + 1;
    }
    proof {
        assert(d <= 0xFFFF_FFFEusize);
        assert(2 <= d * (d - 1) && d * (d - 1) < 0xFFFF_FFFF_FFFF_FFFF) by (nonlinear_arith)
            requires
                2 <= d <= 0xFFFF_FFFEusize,
        ;
        assert(tri_count(adj, row@, d as int) == 0);
        assert(t == tri_count(adj, row@, 0));
        assert(2 * t <= d * (d - 1));
    }
    let num: u64 = 2 * t;
    let den: u64 = (d as u64) * ((d - 1) as u64);
    proof {
        assert(num == (2 * tri_count(adj, row@, 0)) as u64);
        assert(den == (d * (d - 1)) as u64);
    }
    Score::ratio(num, den)
}

} // verus!
