//! Approximate closeness centrality.
//!
//! A uniform sample of sources is drawn without replacement; from each
//! source a breadth-first search records the first-seen hop distance of
//! every node in the source's component.  With `R` nodes reached and `D`
//! the sum of their distances, the source scores `R / D` when `D > 0` and
//! zero otherwise (an isolated source reaches only itself).
//!
//! `bfs_distances` characterizes the distance table exactly: the source is
//! at distance zero, every other reached node extends some reached node by
//! one hop, and no reached node's neighbor lies more than one hop further.
//! Only the true hop distances satisfy all three at once.

use rand::seq::IndexedRandom;
use rayon::iter::{IntoParallelRefIterator, ParallelIterator};

use crate::graph::{lemma_distinct_bounded_len, lemma_wf_adjacency, UndirectedGraph, MAX_NODES};
use crate::maps::{keys_of, lemma_seq_get_some, MetricMap};
use crate::score::Score;
use vstd::prelude::*;

verus! {

/// The recorded distance of node `v`, meaningful when one is recorded.
pub open spec fn dval(d: Seq<Option<u32>>, v: int) -> int {
    d[v]->Some_0 as int
}

/// `d` records exactly the breadth-first hop distances from `s`.
pub open spec fn bfs_distances(adj: Seq<Seq<usize>>, s: int, d: Seq<Option<u32>>) -> bool {
    &&& d.len() == adj.len()
    &&& 0 <= s < d.len()
    &&& d[s] == Some(0u32)
    &&& forall|v: int|
        0 <= v < d.len() && (#[trigger] d[v]) is Some && v != s ==> dval(d, v) > 0
    &&& forall|v: int|
        0 <= v < d.len() && (#[trigger] d[v]) is Some && v != s ==> exists|u: int|
            0 <= u < d.len() && (#[trigger] d[u]) is Some && adj[u].contains(v as usize)
                && dval(d, u) + 1 == dval(d, v)
    &&& forall|u: int, j: int|
        #![trigger adj[u][j], d[u]]
        0 <= u < d.len() && d[u] is Some && 0 <= j < adj[u].len() ==> d[adj[u][j] as int] is Some
            && dval(d, adj[u][j] as int) <= dval(d, u) + 1
    &&& forall|v: int|
        0 <= v < d.len() && (#[trigger] d[v]) is Some ==> dval(d, v) < d.len()
}

/// How many nodes have a recorded distance.
pub open spec fn reach_count(d: Seq<Option<u32>>) -> int
    decreases d.len(),
{
    if d.len() == 0 {
        0
    } else {
        reach_count(d.drop_last()) + (if d.last() is Some {
            1int
        } else {
            0int
        })
    }
}

/// The sum of all recorded distances.
pub open spec fn dist_sum(d: Seq<Option<u32>>) -> int
    decreases d.len(),
{
    if d.len() == 0 {
        0
    } else {
        dist_sum(d.drop_last()) + (if d.last() is Some {
            d.last()->Some_0 as int
        } else {
            0int
        })
    }
}

/// The closeness score derived from a distance table: `R / D`, or zero
/// when no distance is positive.
pub open spec fn score_from(d: Seq<Option<u32>>) -> Score {
    if dist_sum(d) > 0 {
        Score { num: reach_count(d) as u64, den: dist_sum(d) as u64 }
    } else {
        Score { num: 0, den: 1 }
    }
}

/// What a closeness score for source `s` is: the score derived from the
/// breadth-first distance table of `s`.
pub open spec fn closeness_post(adj: Seq<Seq<usize>>, s: int, sc: Score) -> bool {
    exists|d: Seq<Option<u32>>| #[trigger] bfs_distances(adj, s, d) && sc == score_from(d)
}

proof fn lemma_counts_push(d: Seq<Option<u32>>, e: Option<u32>)
    ensures
        reach_count(d.push(e)) == reach_count(d) + (if e is Some {
            1int
        } else {
            0int
        }),
        dist_sum(d.push(e)) == dist_sum(d) + (if e is Some {
            e->Some_0 as int
        } else {
            0int
        }),
{
    assert(d.push(e).drop_last() =~= d);
}

proof fn lemma_bfs_dominates(
    adj: Seq<Seq<usize>>,
    s: int,
    d1: Seq<Option<u32>>,
    d2: Seq<Option<u32>>,
    v: int,
    k: int,
)
    requires
        adj.len() <= usize::MAX,
        bfs_distances(adj, s, d1),
        bfs_distances(adj, s, d2),
        0 <= v < d1.len(),
        d1[v] is Some,
        dval(d1, v) == k,
    ensures
        d2[v] is Some,
        dval(d2, v) <= k,
    decreases k,
{
    if v != s {
        assert(dval(d1, v) > 0);
        assert(exists|u: int|
            0 <= u < d1.len() && (#[trigger] d1[u]) is Some && adj[u].contains(v as usize)
                && dval(d1, u) + 1 == dval(d1, v));
        let u = choose|u: int|
            0 <= u < d1.len() && (#[trigger] d1[u]) is Some && adj[u].contains(v as usize)
                && dval(d1, u) + 1 == dval(d1, v);
        assert(0 <= u < d1.len() && d1[u] is Some && adj[u].contains(v as usize) && dval(
            d1,
            u,
        ) + 1 == k);
        lemma_bfs_dominates(adj, s, d1, d2, u, k - 1);
        let j = choose|j: int| 0 <= j < adj[u].len() && adj[u][j] == v as usize;
        assert(0 <= j < adj[u].len() && adj[u][j] == v as usize);
        assert(d2[adj[u][j] as int] is Some && dval(d2, adj[u][j] as int) <= dval(d2, u) + 1);
        assert(adj[u][j] as int == v);
        assert(d2[v] is Some && dval(d2, v) <= k);
    }
}

/// Law: the breadth-first characterization has exactly one solution — any
/// two distance tables for the same graph and source are equal, so a
/// closeness score satisfying `closeness_post` is uniquely determined.
pub proof fn lemma_bfs_distances_unique(
    adj: Seq<Seq<usize>>,
    s: int,
    d1: Seq<Option<u32>>,
    d2: Seq<Option<u32>>,
)
    requires
        adj.len() <= usize::MAX,
        bfs_distances(adj, s, d1),
        bfs_distances(adj, s, d2),
    ensures
        d1 == d2,
{
    assert forall|v: int| 0 <= v < d1.len() implies d1[v] == d2[v] by {
        if d1[v] is Some {
            lemma_bfs_dominates(adj, s, d1, d2, v, dval(d1, v));
            lemma_bfs_dominates(adj, s, d2, d1, v, dval(d2, v));
            assert(dval(d1, v) == dval(d2, v));
            assert(d1[v] == Some(d1[v]->Some_0) && d2[v] == Some(d2[v]->Some_0));
        } else {
            if d2[v] is Some {
                lemma_bfs_dominates(adj, s, d2, d1, v, dval(d2, v));
            }
        }
    }
    assert(d1 =~= d2);
}

/// Law: for one graph and one source there is only one closeness score.
pub proof fn lemma_closeness_post_unique(adj: Seq<Seq<usize>>, s: int, sc1: Score, sc2: Score)
    requires
        adj.len() <= usize::MAX,
        closeness_post(adj, s, sc1),
        closeness_post(adj, s, sc2),
    ensures
        sc1 == sc2,
{
    let d1 = choose|d: Seq<Option<u32>>| #[trigger] bfs_distances(adj, s, d) && sc1
        == score_from(d);
    let d2 = choose|d: Seq<Option<u32>>| #[trigger] bfs_distances(adj, s, d) && sc2
        == score_from(d);
    lemma_bfs_distances_unique(adj, s, d1, d2);
}

proof fn lemma_counts_nonneg(d: Seq<Option<u32>>)
    ensures
        reach_count(d) >= 0,
        dist_sum(d) >= 0,
    decreases d.len(),
{
    if d.len() > 0 {
        lemma_counts_nonneg(d.drop_last());
    }
}

/// Law: a closeness score is never negative; it is at most one whenever
/// the reached count does not exceed the distance sum (on some graphs, a
/// source can reach more nodes than its summed distances, and then the
/// score exceeds one); and a source whose distances sum to zero — in
/// particular an isolated source, which reaches only itself at distance
/// zero — scores exactly zero.
pub proof fn lemma_closeness_score_range(d: Seq<Option<u32>>)
    requires
        reach_count(d) <= u64::MAX,
        dist_sum(d) <= u64::MAX,
    ensures
        score_from(d).wf(),
        score_from(d).num >= 0,
        dist_sum(d) > 0 && reach_count(d) <= dist_sum(d) ==> score_from(d).num <= score_from(
            d,
        ).den,
        dist_sum(d) <= 0 ==> score_from(d) == (Score { num: 0, den: 1 }),
{
    lemma_counts_nonneg(d);
}

/// The stable part of the search state: distances recorded so far agree
/// with the queue of discovered nodes.
pub open spec fn bfs_inv(
    adj: Seq<Seq<usize>>,
    s: int,
    dist: Seq<Option<u32>>,
    queue: Seq<usize>,
) -> bool {
    &&& dist.len() == adj.len()
    &&& 0 <= s < dist.len()
    &&& dist[s] == Some(0u32)
    &&& queue.no_duplicates()
    &&& queue.len() <= adj.len()
    &&& forall|i: int| 0 <= i < queue.len() ==> (#[trigger] queue[i]) < adj.len()
    &&& forall|i: int| 0 <= i < queue.len() ==> dist[(#[trigger] queue[i]) as int] is Some
    &&& forall|v: int|
        0 <= v < dist.len() && (#[trigger] dist[v]) is Some ==> queue.contains(v as usize)
    &&& forall|v: int|
        0 <= v < dist.len() && (#[trigger] dist[v]) is Some && v != s ==> dval(dist, v) > 0
    &&& forall|v: int|
        0 <= v < dist.len() && (#[trigger] dist[v]) is Some && v != s ==> exists|u: int|
            0 <= u < dist.len() && (#[trigger] dist[u]) is Some && adj[u].contains(v as usize)
                && dval(dist, u) + 1 == dval(dist, v)
    &&& forall|i: int|
        0 <= i < queue.len() ==> dval(dist, (#[trigger] queue[i]) as int) < queue.len()
    &&& forall|i: int, j: int|
        #![trigger queue[i], queue[j]]
        0 <= i <= j < queue.len() ==> dval(dist, queue[i] as int) <= dval(dist, queue[j] as int)
}

/// Nodes already taken from the queue have every neighbor discovered, at
/// most one hop further out.
pub open spec fn processed_ok(
    adj: Seq<Seq<usize>>,
    dist: Seq<Option<u32>>,
    queue: Seq<usize>,
    head: int,
) -> bool {
    forall|p: int, j: int|
        #![trigger adj[queue[p] as int][j]]
        0 <= p < head && 0 <= j < adj[queue[p] as int].len() ==> dist[adj[queue[p] as int][j] as int] is Some
            && dval(dist, adj[queue[p] as int][j] as int) <= dval(dist, queue[p] as int) + 1
}

/// The closeness score of the single source `s`, by breadth-first search.
#[verifier::rlimit(100)]
pub fn closeness_from(g: &UndirectedGraph, s: usize) -> (sc: Score)
    requires
        g.wf(),
        s < g.node_count_spec(),
    ensures
        sc.wf(),
        closeness_post(g.adj(), s as int, sc),
{
    proof {
        lemma_wf_adjacency(*g);
    }
    let ghost adj = g.adj();
    let n = g.node_count();

    let mut dist: Vec<Option<u32>> = Vec::new();
    let mut k: usize = 0;
    while k < n
        invariant
            0 <= k <= n,
            dist@.len() == k,
            forall|i: int| 0 <= i < k ==> (#[trigger] dist@[i]) is None,
        decreases n - k,
    {
        dist.push(None);
        k = k + 1;
    }

    let mut queue: Vec<usize> = Vec::new();
    dist[s] = Some(0u32);
    queue.push(s);
    let mut head: usize = 0;
    proof {
        assert(queue@ =~= Seq::<usize>::empty().push(s));
        assert(queue@.len() == 1 && queue@[0] == s);
        assert(queue@.no_duplicates());
        assert(dist@[s as int] == Some(0u32));
        assert forall|v: int|
            0 <= v < dist@.len() && (#[trigger] dist@[v]) is Some implies queue@.contains(
            v as usize,
        ) by {
            assert(v == s as int);
            assert(queue@[0] == v as usize);
        }
        assert(bfs_inv(adj, s as int, dist@, queue@));
        assert(processed_ok(adj, dist@, queue@, 0));
    }

    while head < queue.len()
        invariant
            g.wf(),
            adj == g.adj(),
            n == adj.len(),
            n <= MAX_NODES,
            s < n,
            0 <= head <= queue@.len(),
            bfs_inv(adj, s as int, dist@, queue@),
            processed_ok(adj, dist@, queue@, head as int),
            forall|i: int|
                head <= i < queue@.len() ==> dval(dist@, (#[trigger] queue@[i]) as int) <= dval(
                    dist@,
                    queue@[head as int] as int,
                ) + 1,
        decreases n - head,
    {
        proof {
            lemma_wf_adjacency(*g);
        }
        let u = queue[head];
        head = head + 1;
        let du: u32 = dist[u].unwrap();
        let ghost head0 = head as int;
        let row = g.neighbors(u);
        let dlen = row.len();
        proof {
            assert forall|x: int| 0 <= x < row@.len() implies #[trigger] row@[x] < n by {
                assert(adj[u as int][x] < adj.len());
            }
            assert(dval(dist@, u as int) == du);
            assert(dval(dist@, u as int) < queue@.len());
        }
        let mut j: usize = 0;
        while j < dlen
            invariant
                g.wf(),
                adj == g.adj(),
                n == adj.len(),
                n <= MAX_NODES,
                s < n,
                u < n,
                row@ == adj[u as int],
                dlen == row@.len(),
                0 <= j <= dlen,
                head == head0,
                1 <= head <= queue@.len(),
                queue@[head0 - 1] == u,
                dist@[u as int] == Some(du),
                du < queue@.len(),
                bfs_inv(adj, s as int, dist@, queue@),
                processed_ok(adj, dist@, queue@, head0 - 1),
                forall|i: int|
                    0 <= i < queue@.len() ==> dval(dist@, (#[trigger] queue@[i]) as int) <= du
                        + 1,
                forall|jj: int|
                    #![trigger adj[u as int][jj]]
                    0 <= jj < j ==> dist@[adj[u as int][jj] as int] is Some && dval(
                        dist@,
                        adj[u as int][jj] as int,
                    ) <= du + 1,
            decreases dlen - j,
        {
            proof {
                lemma_wf_adjacency(*g);
                assert(row@[j as int] < n) by {
                    assert(adj[u as int][j as int] < adj.len());
                }
            }
            let v = row[j];
            if dist[v].is_none() {
                let ghost dist0 = dist@;
                let ghost queue0 = queue@;
                proof {
                    // `v` is new to the queue, which therefore stays short
                    // enough for one more entry.
                    assert(!queue@.contains(v)) by {
                        if queue@.contains(v) {
                            let i = choose|i: int|
                                0 <= i < queue@.len() && queue@[i] == v;
                            assert(dist@[queue@[i] as int] is Some);
                        }
                    }
                    assert(queue@.push(v).no_duplicates());
                    assert forall|i: int| 0 <= i < queue@.push(v).len() implies queue@.push(
                        v,
                    )[i] < n by {
                        if i < queue@.len() {
                            assert(queue@[i] < n);
                        }
                    }
                    lemma_distinct_bounded_len(queue@.push(v), n as int);
                }
                let nd: u32 = du + 1;
                dist[v] = Some(nd);
                queue.push(v);
                proof {
                    assert(dist@ == dist0.update(v as int, Some(nd)));
                    assert(queue@ == queue0.push(v));
                    assert(dist@[v as int] is Some && dval(dist@, v as int) == du + 1);
                    assert forall|w: int|
                        0 <= w < dist@.len() && (#[trigger] dist@[w]) is Some implies queue@.contains(
                        w as usize,
                    ) by {
                        if w == v as int {
                            assert(queue@[queue@.len() - 1] == v);
                        } else {
                            assert(dist0[w] is Some);
                            assert(queue0.contains(w as usize));
                            let i = choose|i: int|
                                0 <= i < queue0.len() && queue0[i] == w as usize;
                            assert(queue@[i] == w as usize);
                        }
                    }
                    assert forall|w: int|
                        0 <= w < dist@.len() && (#[trigger] dist@[w]) is Some && w != s as int implies exists|
                        u2: int,
                    |
                        0 <= u2 < dist@.len() && (#[trigger] dist@[u2]) is Some && adj[u2].contains(
                            w as usize,
                        ) && dval(dist@, u2) + 1 == dval(dist@, w) by {
                        if w == v as int {
                            assert(dist@[u as int] is Some && adj[u as int].contains(v) && dval(
                                dist@,
                                u as int,
                            ) + 1 == dval(dist@, v as int));
                        } else {
                            assert(dist0[w] is Some);
                            let u0 = choose|u0: int|
                                0 <= u0 < dist0.len() && (#[trigger] dist0[u0]) is Some
                                    && adj[u0].contains(w as usize) && dval(dist0, u0) + 1 == dval(
                                    dist0,
                                    w,
                                );
                            assert(dist@[u0] is Some && adj[u0].contains(w as usize) && dval(
                                dist@,
                                u0,
                            ) + 1 == dval(dist@, w));
                        }
                    }
                    assert(bfs_inv(adj, s as int, dist@, queue@));
                    assert(processed_ok(adj, dist@, queue@, head0 - 1)) by {
                        assert forall|p: int, jx: int|
                            0 <= p < head0 - 1 && 0 <= jx < adj[queue@[p] as int].len() implies dist@[adj[queue@[p] as int][jx] as int] is Some
                            && dval(dist@, adj[queue@[p] as int][jx] as int) <= dval(
                            dist@,
                            queue@[p] as int,
                        ) + 1 by {
                            assert(queue@[p] == queue0[p]);
                            assert(dist0[adj[queue0[p] as int][jx] as int] is Some);
                        }
                    }
                }
            }
            j = j + 1;
        }
        proof {
            assert(processed_ok(adj, dist@, queue@, head0)) by {
                assert forall|p: int, jx: int|
                    0 <= p < head0 && 0 <= jx < adj[queue@[p] as int].len() implies dist@[adj[queue@[p] as int][jx] as int] is Some
                    && dval(dist@, adj[queue@[p] as int][jx] as int) <= dval(
                    dist@,
                    queue@[p] as int,
                ) + 1 by {
                    if p == head0 - 1 {
                        assert(queue@[p] == u);
                        assert(dval(dist@, u as int) == du);
                    }
                }
            }
            if head < queue@.len() {
                assert(dval(dist@, queue@[head0 - 1] as int) <= dval(
                    dist@,
                    queue@[head as int] as int,
                ));
            }
        }
    }

    proof {
        assert(bfs_distances(adj, s as int, dist@)) by {
            assert forall|u2: int, j2: int|
                #![trigger adj[u2][j2], dist@[u2]]
                0 <= u2 < dist@.len() && dist@[u2] is Some && 0 <= j2
                    < adj[u2].len() implies dist@[adj[u2][j2] as int] is Some && dval(
                dist@,
                adj[u2][j2] as int,
            ) <= dval(dist@, u2) + 1 by {
                assert(queue@.contains(u2 as usize));
                let p = choose|p: int| 0 <= p < queue@.len() && queue@[p] == u2 as usize;
                assert(dist@[adj[queue@[p] as int][j2] as int] is Some);
            }
        }
    }

    // Aggregate: count the reached nodes and sum their distances.
    let ghost dfin = dist@;
    let mut rsum: u64 = 0;
    let mut dsumv: u64 = 0;
    let mut v: usize = 0;
    proof {
        assert(dfin.take(0) =~= Seq::<Option<u32>>::empty());
    }
    while v < n
        invariant
            dist@ == dfin,
            dfin.len() == n,
            n <= MAX_NODES,
            0 <= v <= n,
            rsum == reach_count(dfin.take(v as int)),
            dsumv == dist_sum(dfin.take(v as int)),
            rsum <= v,
            dsumv <= v * n,
            forall|i: int|
                0 <= i < n && (#[trigger] dfin[i]) is Some ==> dval(dfin, i) < n,
        decreases n - v,
    {
        proof {
            assert(dfin.take(v as int + 1).drop_last() =~= dfin.take(v as int));
            lemma_counts_push(dfin.take(v as int), dfin[v as int]);
            assert(dfin.take(v as int + 1) =~= dfin.take(v as int).push(dfin[v as int]));
            assert(dsumv + n <= (v + 1) * n) by (nonlinear_arith)
                requires
                    dsumv <= v * n,
                    0 <= v,
                    0 <= n,
            ;
            assert((v + 1) * n <= 0xFFFF_FFFE * 0xFFFF_FFFEint) by (nonlinear_arith)
                requires
                    0 <= v,
                    v + 1 <= n <= 0xFFFF_FFFEusize,
            ;
        }
        match dist[v] {
            Some(x) => {
                rsum = rsum + 1;
                dsumv = dsumv + (x as u64);
            },
            None => {
            },
        }
        v = v + 1;
    }
    proof {
        assert(dfin.take(n as int) =~= dfin);
    }

    let sc = if dsumv > 0 {
        Score::ratio(rsum, dsumv)
    } else {
        Score::zero()
    };
    proof {
        assert(sc == score_from(dfin));
        assert(closeness_post(adj, s as int, sc)) by {
            assert(bfs_distances(adj, s as int, dfin) && sc == score_from(dfin));
        }
    }
    sc
}

/// Relies on rand's `IndexedRandom::sample` on a slice: a uniform sample,
/// drawn without replacement, of `min(k, nodes.len())` positions; distinct
/// input values thus yield distinct sampled values, in unspecified order.
/// Nothing more is promised of which values come back.
#[verifier::external_body]
fn sample_nodes(nodes: &Vec<usize>, k: usize) -> (r: Vec<usize>)
    requires
        nodes@.no_duplicates(),
    ensures
        r@.len() == (if k as int <= nodes@.len() {
            k as int
        } else {
            nodes@.len() as int
        }),
        r@.no_duplicates(),
        forall|i: int| 0 <= i < r@.len() ==> nodes@.contains(#[trigger] r@[i]),
{
    nodes.as_slice().sample(&mut rand::rng(), k).cloned().collect()
}

/// Relies on rayon's parallel iterators over a slice: maps each source
/// through the verified per-source search on its own worker and collects
/// the results in source order.
#[verifier::external_body]
fn par_closeness_scores(g: &UndirectedGraph, sources: &Vec<usize>) -> (r: Vec<(usize, Score)>)
    requires
        g.wf(),
        forall|i: int| 0 <= i < sources@.len() ==> #[trigger] sources@[i] < g.adj().len(),
    ensures
        r@.len() == sources@.len(),
        forall|i: int|
            0 <= i < r@.len() ==> (#[trigger] r@[i]).0 == sources@[i] && r@[i].1.wf()
                && closeness_post(g.adj(), sources@[i] as int, r@[i].1),
{
    sources.par_iter().map(|src| (*src, closeness_from(g, *src))).collect()
}

/// Closeness centrality over a uniform sample, drawn without replacement,
/// of `min(sample_size, node_count)` sources; each sampled source scores
/// `R / D` from its own breadth-first search.  Searches run in parallel
/// and their results are merged afterwards, so the searches share nothing
/// mutable.
pub fn compute_closeness_centrality(g: &UndirectedGraph, sample_size: usize) -> (m: MetricMap)
    requires
        g.wf(),
    ensures
        m.wf(),
        m.rows().len() == (if sample_size as int <= g.adj().len() {
            sample_size as int
        } else {
            g.adj().len() as int
        }),
        forall|i: int|
            0 <= i < m.rows().len() ==> (#[trigger] m.rows()[i]).0 < g.adj().len()
                && closeness_post(g.adj(), m.rows()[i].0 as int, m.rows()[i].1),
{
    let ghost adj = g.adj();
    let n = g.node_count();
    let mut nodes: Vec<usize> = Vec::new();
    let mut u: usize = 0;
    while u < n
        invariant
            0 <= u <= n,
            nodes@.len() == u,
            forall|i: int| 0 <= i < u ==> #[trigger] nodes@[i] == i,
        decreases n - u,
    {
        nodes.push(u);
        u = u + 1;
    }
    proof {
        assert(nodes@.no_duplicates());
    }
    let sample = sample_nodes(&nodes, sample_size);
    proof {
        assert forall|i: int| 0 <= i < sample@.len() implies #[trigger] sample@[i] < n by {
            assert(nodes@.contains(sample@[i]));
            let x = choose|x: int| 0 <= x < nodes@.len() && nodes@[x] == sample@[i];
            assert(nodes@[x] == x);
        }
    }
    let scores = par_closeness_scores(g, &sample);
    let mut m = MetricMap::new();
    let mut i: usize = 0;
    while i < scores.len()
        invariant
            g.wf(),
            adj == g.adj(),
            scores@.len() == sample@.len(),
            sample@.no_duplicates(),
            forall|x: int| 0 <= x < sample@.len() ==> #[trigger] sample@[x] < adj.len(),
            forall|x: int|
                0 <= x < scores@.len() ==> (#[trigger] scores@[x]).0 == sample@[x]
                    && scores@[x].1.wf() && closeness_post(adj, sample@[x] as int, scores@[x].1),
            0 <= i <= scores@.len(),
            m.wf(),
            m.rows().len() == i,
            forall|x: int| 0 <= x < i ==> #[trigger] m.rows()[x] == scores@[x],
        decreases scores@.len() - i,
    {
        let pair = scores[i];
        proof {
            lemma_seq_get_some(m.rows(), pair.0);
            if keys_of(m.rows()).contains(pair.0) {
                let x = choose|x: int|
                    0 <= x < keys_of(m.rows()).len() && keys_of(m.rows())[x] == pair.0;
                assert(m.rows()[x] == scores@[x]);
                assert(sample@[x] == sample@[i as int]);
            }
        }
        m.insert(pair.0, pair.1);
        i = i + 1;
    }
    m
}

} // verus!
