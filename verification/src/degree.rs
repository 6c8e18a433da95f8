//! Degree centrality.
//!
//! Every node's score is the number of distinct edges incident to it.  The
//! map holds exactly one entry per node, and the scores sum to twice the
//! edge count.

use rayon::iter::{IntoParallelRefIterator, ParallelIterator};

use crate::graph::{lemma_distinct_bounded_len, lemma_wf_adjacency, sum_lens, UndirectedGraph};
use crate::maps::{keys_of, lemma_seq_get_some, MetricMap};
use crate::score::Score;
use vstd::prelude::*;

verus! {

/// The sum of the numerators of an entry sequence; with unit denominators,
/// as in a degree map, this is the sum of the scores themselves.
pub open spec fn num_sum(s: Seq<(usize, Score)>) -> int
    decreases s.len(),
{
    if s.len() == 0 {
        0
    } else {
        num_sum(s.drop_last()) + s.last().1.num
    }
}

/// A degree map for `adj`: entry `u` binds node `u` to `degree(u) / 1`.
pub open spec fn is_degree_map(adj: Seq<Seq<usize>>, s: Seq<(usize, Score)>) -> bool {
    &&& s.len() == adj.len()
    &&& forall|i: int|
        0 <= i < s.len() ==> #[trigger] s[i] == (
            i as usize,
            Score { num: adj[i].len() as u64, den: 1 },
        )
}

proof fn lemma_num_sum_push(s: Seq<(usize, Score)>, e: (usize, Score))
    ensures
        num_sum(s.push(e)) == num_sum(s) + e.1.num,
{
    assert(s.push(e).drop_last() =~= s);
}

/// Relies on rayon's parallel iterators over a slice: computes each listed
/// node's degree through the verified accessor on its own worker and
/// collects the counts in node order.
#[verifier::external_body]
fn par_degree_counts(g: &UndirectedGraph, nodes: &Vec<usize>) -> (r: Vec<(usize, u64)>)
    requires
        g.wf(),
        forall|i: int| 0 <= i < nodes@.len() ==> #[trigger] nodes@[i] < g.adj().len(),
    ensures
        r@.len() == nodes@.len(),
        forall|i: int|
            0 <= i < r@.len() ==> #[trigger] r@[i] == (
                nodes@[i],
                g.adj()[nodes@[i] as int].len() as u64,
            ),
{
    nodes.par_iter().map(|&u| (u, g.degree(u) as u64)).collect()
}

/// Every node's score is the count of its incident edges; one entry per
/// node, in node order, and the scores sum to twice the edge count.  The
/// per-node counts run in parallel, each worker reading only the shared
/// graph, and are merged afterwards.
pub fn compute_degree_centrality(g: &UndirectedGraph) -> (m: MetricMap)
    requires
        g.wf(),
    ensures
        m.wf(),
        is_degree_map(g.adj(), m.rows()),
        num_sum(m.rows()) == 2 * g.edge_count_spec(),
{
    proof {
        lemma_wf_adjacency(*g);
    }
    let ghost adj = g.adj();
    let n = g.node_count();
    let mut nodes: Vec<usize> = Vec::new();
    let mut w: usize = 0;
    while w < n
        invariant
            0 <= w <= n,
            nodes@.len() == w,
            forall|i: int| 0 <= i < w ==> #[trigger] nodes@[i] == i,
        decreases n - w,
    {
        nodes.push(w);
        w = w + 1;
    }
    let counts = par_degree_counts(g, &nodes);
    let mut m = MetricMap::new();
    let mut u: usize = 0;
    proof {
        assert(adj.take(0) =~= Seq::<Seq<usize>>::empty());
        assert forall|i: int| 0 <= i < n implies #[trigger] counts@[i] == (
            i as usize,
            adj[i].len() as u64,
        ) by {
            assert(nodes@[i] == i);
            assert(counts@[i] == (nodes@[i], adj[nodes@[i] as int].len() as u64));
        }
    }
    while u < n
        invariant
            g.wf(),
            adj == g.adj(),
            n == adj.len(),
            counts@.len() == n,
            forall|i: int|
                0 <= i < n ==> #[trigger] counts@[i] == (i as usize, adj[i].len() as u64),
            0 <= u <= n,
            m.wf(),
            m.rows().len() == u,
            forall|i: int|
                0 <= i < u ==> #[trigger] m.rows()[i] == (
                    i as usize,
                    Score { num: adj[i].len() as u64, den: 1 },
                ),
            num_sum(m.rows()) == sum_lens(adj.take(u as int)),
        decreases n - u,
    {
        let pair = counts[u];
        proof {
            lemma_wf_adjacency(*g);
            assert(adj[u as int].no_duplicates());
            assert forall|i: int| 0 <= i < adj[u as int].len() implies adj[u as int][i] < (
            adj.len() as int) by {
                assert(adj[u as int][i] < adj.len());
            }
            lemma_distinct_bounded_len(adj[u as int], adj.len() as int);
            assert(adj[u as int].len() <= n);
            assert(counts@[u as int] == (u, adj[u as int].len() as u64));
            assert(pair.0 == u && pair.1 == adj[u as int].len() as u64);
            // The key `u` is new: every key so far is smaller.
            lemma_seq_get_some(m.rows(), u);
            if keys_of(m.rows()).contains(u) {
                let i = choose|i: int|
                    0 <= i < keys_of(m.rows()).len() && keys_of(m.rows())[i] == u;
                assert(m.rows()[i].0 == u);
            }
            lemma_num_sum_push(
                m.rows(),
                (u, Score { num: adj[u as int].len() as u64, den: 1 }),
            );
            assert(adj.take(u as int + 1).drop_last() =~= adj.take(u as int));
        }
        m.insert(pair.0, Score::from_count(pair.1));
        u = u + 1;
    }
    proof {
        assert(adj.take(n as int) =~= adj);
    }
    m
}

} // verus!
