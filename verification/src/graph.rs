//! The undirected graph model.
//!
//! The graph itself is held in a `petgraph` structure, built once and then
//! read only.  Because the verifier cannot look inside that structure, the
//! crate keeps a verified adjacency mirror (`Vec<Vec<usize>>`) beside it and
//! an invariant, stated over trusted names for the outside structure's
//! contents, that the two always agree.  All metric computations read the
//! mirror; edge-existence queries are answered by the outside structure.
//!
//! Nodes are dense identifiers `0 .. node_count()`.  The graph is kept
//! simple: no self loops and no parallel edges, which the construction
//! methods require of their callers.

use vstd::prelude::*;

verus! {

/// Node identifiers stay below this bound: the outside graph structure
/// indexes nodes with 32-bit values and refuses more.
pub const MAX_NODES: usize = 0xFFFF_FFFE;

/// Edge count stays below this bound: the outside graph structure indexes
/// edges with 32-bit values and refuses more.
pub const MAX_EDGES: usize = 0xFFFF_FFFD;

#[verifier::external_type_specification]
#[verifier::external_body]
#[verifier::reject_recursive_types(N)]
#[verifier::reject_recursive_types(E)]
#[verifier::reject_recursive_types(Ty)]
#[verifier::reject_recursive_types(Ix)]
pub struct ExPetgraphGraph<N, E, Ty, Ix>(petgraph::graph::Graph<N, E, Ty, Ix>);

#[verifier::external_type_specification]
#[verifier::external_body]
pub struct ExPetgraphUndirected(petgraph::Undirected);

/// How many nodes the outside graph structure holds.
pub uninterp spec fn pg_node_count(g: &petgraph::graph::UnGraph<(), ()>) -> usize;

/// The adjacency relation of the outside graph structure: the set of ordered
/// pairs `(u, v)` such that an edge joins `u` and `v`; every undirected edge
/// appears in both orders.
pub uninterp spec fn pg_edges(g: &petgraph::graph::UnGraph<(), ()>) -> Set<(usize, usize)>;

/// Whether the outside graph structure holds neither parallel edges nor self
/// loops, so that each adjacent pair corresponds to exactly one edge.
pub uninterp spec fn pg_simple(g: &petgraph::graph::UnGraph<(), ()>) -> bool;

/// Relies on petgraph's `Graph::new_undirected`: an undirected graph with no
/// nodes and no edges.
#[verifier::external_body]
fn pg_new() -> (g: petgraph::graph::UnGraph<(), ()>)
    ensures
        pg_node_count(&g) == 0,
        pg_edges(&g) == Set::<(usize, usize)>::empty(),
        pg_simple(&g),
{
    petgraph::graph::UnGraph::new_undirected()
}

/// Relies on petgraph's `Graph::add_node`: appends one node whose index is
/// the old node count and touches no edge.  The bound on the node count
/// keeps the call away from the index-exhaustion panic.
#[verifier::external_body]
fn pg_add_node(g: &mut petgraph::graph::UnGraph<(), ()>) -> (r: usize)
    requires
        pg_node_count(old(g)) < 0xFFFF_FFFEusize,
    ensures
        r == pg_node_count(old(g)),
        pg_node_count(final(g)) == pg_node_count(old(g)) + 1,
        pg_edges(final(g)) == pg_edges(old(g)),
        pg_simple(final(g)) == pg_simple(old(g)),
{
    g.add_node(()).index()
}

/// Relies on petgraph's `Graph::add_edge` on an undirected graph: joins two
/// existing, distinct, not yet adjacent nodes by one new edge.  The bounds
/// keep the call away from the out-of-bounds and index-exhaustion panics.
#[verifier::external_body]
fn pg_add_edge(g: &mut petgraph::graph::UnGraph<(), ()>, u: usize, v: usize)
    requires
        pg_simple(old(g)),
        u < pg_node_count(old(g)),
        v < pg_node_count(old(g)),
        u != v,
        !pg_edges(old(g)).contains((u, v)),
        pg_edges(old(g)).finite(),
        pg_edges(old(g)).len() < 0x1_FFFF_FFFCint,
    ensures
        pg_node_count(final(g)) == pg_node_count(old(g)),
        pg_edges(final(g)) == pg_edges(old(g)).insert((u, v)).insert((v, u)),
        pg_simple(final(g)),
{
    g.add_edge(
        petgraph::graph::NodeIndex::new(u),
        petgraph::graph::NodeIndex::new(v),
        (),
    );
}

/// Relies on petgraph's `Graph::contains_edge` on an undirected graph: true
/// exactly when some edge joins the two nodes, in either order.
#[verifier::external_body]
fn pg_contains_edge(g: &petgraph::graph::UnGraph<(), ()>, u: usize, v: usize) -> (r: bool)
    requires
        u < pg_node_count(g),
        v < pg_node_count(g),
    ensures
        r == pg_edges(g).contains((u, v)),
{
    g.contains_edge(
        petgraph::graph::NodeIndex::new(u),
        petgraph::graph::NodeIndex::new(v),
    )
}

/// A sequence of distinct values below `n` has at most `n` entries.
pub proof fn lemma_distinct_bounded_len(row: Seq<usize>, n: int)
    requires
        row.no_duplicates(),
        forall|i: int| 0 <= i < row.len() ==> row[i] < n,
        0 <= n,
    ensures
        row.len() <= n,
{
    let f = |x: usize| x as int;
    assert(vstd::relations::injective(f));
    let s = row.map_values(f);
    row.lemma_no_duplicates_injective(f);
    s.unique_seq_to_set();
    assert(s.to_set().subset_of(vstd::set_lib::set_int_range(0, n))) by {
        assert forall|x: int| s.to_set().contains(x) implies vstd::set_lib::set_int_range(
            0,
            n,
        ).contains(x) by {
            let i = choose|i: int| 0 <= i < s.len() && s[i] == x;
            assert(row[i] < n);
        }
    }
    vstd::set_lib::lemma_int_range(0, n);
    vstd::set_lib::lemma_len_subset(s.to_set(), vstd::set_lib::set_int_range(0, n));
}

/// The sum of the lengths of all adjacency rows: the total degree.
pub open spec fn sum_lens(adj: Seq<Seq<usize>>) -> int
    decreases adj.len(),
{
    if adj.len() == 0 {
        0
    } else {
        sum_lens(adj.drop_last()) + adj.last().len()
    }
}

proof fn lemma_sum_lens_push(adj: Seq<Seq<usize>>, row: Seq<usize>)
    ensures
        sum_lens(adj.push(row)) == sum_lens(adj) + row.len(),
{
    assert(adj.push(row).drop_last() =~= adj);
}

proof fn lemma_sum_lens_update(adj: Seq<Seq<usize>>, u: int, row: Seq<usize>)
    requires
        0 <= u < adj.len(),
    ensures
        sum_lens(adj.update(u, row)) == sum_lens(adj) - adj[u].len() + row.len(),
    decreases adj.len(),
{
    if u == adj.len() - 1 {
        assert(adj.update(u, row).drop_last() =~= adj.drop_last());
    } else {
        assert(adj.update(u, row).drop_last() =~= adj.drop_last().update(u, row));
        lemma_sum_lens_update(adj.drop_last(), u, row);
    }
}

/// An undirected graph: a set of dense node identifiers `0 .. node_count()`
/// and a set of undirected edges between distinct nodes, with no parallel
/// edges.  Once built it is only ever read.
pub struct UndirectedGraph {
    inner: petgraph::graph::UnGraph<(), ()>,
    mirror: Vec<Vec<usize>>,
    n_edges: usize,
}

impl UndirectedGraph {
    /// The adjacency model: row `u` lists the neighbors of node `u`,
    /// each exactly once, in insertion order.
    pub closed spec fn adj(self) -> Seq<Seq<usize>> {
        self.mirror@.map_values(|row: Vec<usize>| row@)
    }

    pub open spec fn node_count_spec(self) -> int {
        self.adj().len() as int
    }

    pub closed spec fn edge_count_spec(self) -> int {
        self.n_edges as int
    }

    /// Whether `v` is a neighbor of `u` in the model.
    pub open spec fn spec_has_edge(self, u: usize, v: usize) -> bool {
        0 <= u < self.adj().len() && self.adj()[u as int].contains(v)
    }

    /// Well-formedness: the mirror is a simple, symmetric adjacency list
    /// over in-range nodes, agreeing with the outside structure's contents,
    /// and the total degree is twice the edge count.
    pub closed spec fn wf(self) -> bool {
        &&& self.adj().len() <= MAX_NODES
        &&& self.n_edges <= MAX_EDGES
        &&& pg_node_count(&self.inner) == self.adj().len()
        &&& pg_simple(&self.inner)
        &&& pg_edges(&self.inner).finite()
        &&& pg_edges(&self.inner).len() == 2 * self.n_edges
        &&& forall|u: usize, v: usize|
            pg_edges(&self.inner).contains((u, v))
                ==> u < self.adj().len() && v < self.adj().len()
        &&& forall|u: usize, v: usize|
            u < self.adj().len()
                ==> ((#[trigger] self.adj()[u as int].contains(v))
                    <==> pg_edges(&self.inner).contains((u, v)))
        &&& forall|u: usize, v: usize|
            pg_edges(&self.inner).contains((u, v))
                == pg_edges(&self.inner).contains((v, u))
        &&& forall|u: int|
            0 <= u < self.adj().len() ==> (#[trigger] self.adj()[u]).no_duplicates()
        &&& forall|u: int, i: int|
            0 <= u < self.adj().len() && 0 <= i < self.adj()[u].len()
                ==> #[trigger] self.adj()[u][i] < self.adj().len()
        &&& forall|u: int|
            0 <= u < self.adj().len() ==> !(#[trigger] self.adj()[u]).contains(u as usize)
        &&& sum_lens(self.adj()) == 2 * self.n_edges
    }

    /// A fresh graph with no nodes and no edges.
    pub fn new() -> (g: UndirectedGraph)
        ensures
            g.wf(),
            g.adj() == Seq::<Seq<usize>>::empty(),
            g.edge_count_spec() == 0,
    {
        let g = UndirectedGraph { inner: pg_new(), mirror: Vec::new(), n_edges: 0 };
        proof {
            assert(g.adj() =~= Seq::<Seq<usize>>::empty());
        }
        g
    }

    pub fn node_count(&self) -> (n: usize)
        requires
            self.wf(),
        ensures
            n == self.node_count_spec(),
    {
        self.mirror.len()
    }

    pub fn edge_count(&self) -> (n: usize)
        ensures
            n == self.edge_count_spec(),
    {
        self.n_edges
    }

    /// Adds one node and returns its identifier, the old node count.
    pub fn add_node(&mut self) -> (r: usize)
        requires
            old(self).wf(),
            old(self).node_count_spec() < MAX_NODES,
        ensures
            final(self).wf(),
            r == old(self).node_count_spec(),
            final(self).adj() == old(self).adj().push(Seq::<usize>::empty()),
            final(self).edge_count_spec() == old(self).edge_count_spec(),
    {
        let r = pg_add_node(&mut self.inner);
        self.mirror.push(Vec::new());
        proof {
            assert(final(self).adj() =~= old(self).adj().push(Seq::<usize>::empty()));
            lemma_sum_lens_push(old(self).adj(), Seq::<usize>::empty());
        }
        r
    }

    /// Adds the undirected edge `{u, v}` between two existing, distinct,
    /// not yet adjacent nodes.
    pub fn add_edge(&mut self, u: usize, v: usize)
        requires
            old(self).wf(),
            u < old(self).node_count_spec(),
            v < old(self).node_count_spec(),
            u != v,
            !old(self).spec_has_edge(u, v),
            old(self).edge_count_spec() < MAX_EDGES,
        ensures
            final(self).wf(),
            final(self).adj() == old(self).adj()
                .update(u as int, old(self).adj()[u as int].push(v))
                .update(v as int, old(self).adj()[v as int].push(u)),
            final(self).edge_count_spec() == old(self).edge_count_spec() + 1,
    {
        proof {
            broadcast use vstd::set_lib::group_set_properties;
        }
        pg_add_edge(&mut self.inner, u, v);
        let ghost old_adj = old(self).adj();
        self.mirror[u].push(v);
        self.mirror[v].push(u);
        self.n_edges = self.n_edges + 1;
        proof {
            broadcast use vstd::set_lib::group_set_properties;
            broadcast use vstd::seq_lib::group_seq_properties;
            let e0 = pg_edges(&old(self).inner);
            let e1 = pg_edges(&self.inner);
            let n = old_adj.len();
            let mid = old_adj.update(u as int, old_adj[u as int].push(v));
            let fin = mid.update(v as int, mid[v as int].push(u));
            assert(self.adj() =~= fin);
            lemma_sum_lens_update(old_adj, u as int, old_adj[u as int].push(v));
            lemma_sum_lens_update(mid, v as int, mid[v as int].push(u));

            // The two inserted pairs are fresh, so the pair count rises by two.
            assert(!e0.contains((u, v)));
            assert(e0.contains((v, u)) == e0.contains((u, v)));
            assert((v, u) != (u, v));
            assert(e1.len() == e0.len() + 2);

            // Agreement of the updated mirror with the updated contents.
            assert forall|w: usize, x: usize| w < n implies ((#[trigger] fin[w as int].contains(
                x,
            )) <==> e1.contains((w, x))) by {
                if w == u {
                    assert(fin[w as int] =~= old_adj[u as int].push(v));
                    assert(fin[w as int].contains(x) <==> (old_adj[u as int].contains(x) || x
                        == v));
                } else if w == v {
                    assert(fin[w as int] =~= old_adj[v as int].push(u));
                    assert(fin[w as int].contains(x) <==> (old_adj[v as int].contains(x) || x
                        == u));
                } else {
                    assert(fin[w as int] =~= old_adj[w as int]);
                }
                assert(e1.contains((w, x)) <==> (e0.contains((w, x)) || (w, x) == (u, v) || (
                w,
                x,
                ) == (v, u)));
            }

            // Rows stay duplicate-free, in range, and free of self loops.
            assert(old_adj[u as int].push(v).no_duplicates());
            assert(!old_adj[v as int].contains(u)) by {
                assert(old_adj[v as int].contains(u) <==> e0.contains((v, u)));
                assert(e0.contains((v, u)) == e0.contains((u, v)));
                assert(old_adj[u as int].contains(v) <==> e0.contains((u, v)));
            }
            assert(old_adj[v as int].push(u).no_duplicates());
            assert(!fin[u as int].contains(u as usize)) by {
                assert(fin[u as int] =~= old_adj[u as int].push(v));
            }
            assert(!fin[v as int].contains(v as usize)) by {
                assert(fin[v as int] =~= old_adj[v as int].push(u));
            }
            assert forall|w: int, i: int|
                0 <= w < n && 0 <= i < fin[w].len() implies #[trigger] fin[w][i] < n by {
                if w == u as int {
                    assert(fin[w] =~= old_adj[u as int].push(v));
                } else if w == v as int {
                    assert(fin[w] =~= old_adj[v as int].push(u));
                } else {
                    assert(fin[w] =~= old_adj[w]);
                }
            }

            assert(final(self).adj() =~= old(self).adj()
                .update(u as int, old(self).adj()[u as int].push(v))
                .update(v as int, old(self).adj()[v as int].push(u)));
        }
    }

    /// The neighbors of `u`, each exactly once.
    pub fn neighbors(&self, u: usize) -> (r: &Vec<usize>)
        requires
            self.wf(),
            u < self.node_count_spec(),
        ensures
            r@ == self.adj()[u as int],
    {
        &self.mirror[u]
    }

    /// The number of distinct edges incident to `u`.
    pub fn degree(&self, u: usize) -> (d: usize)
        requires
            self.wf(),
            u < self.node_count_spec(),
        ensures
            d == self.adj()[u as int].len(),
    {
        self.mirror[u].len()
    }

    /// Whether an edge joins `u` and `v`; answered by the outside structure.
    pub fn has_edge(&self, u: usize, v: usize) -> (r: bool)
        requires
            self.wf(),
            u < self.node_count_spec(),
            v < self.node_count_spec(),
        ensures
            r == self.spec_has_edge(u, v),
    {
        pg_contains_edge(&self.inner, u, v)
    }
}

/// Law: in a well-formed graph the degrees sum to twice the edge count.
pub proof fn lemma_degree_sum_is_twice_edges(g: UndirectedGraph)
    requires
        g.wf(),
    ensures
        sum_lens(g.adj()) == 2 * g.edge_count_spec(),
{
}

/// What well-formedness guarantees of the adjacency model: rows list
/// distinct, in-range neighbors, no node neighbors itself, the relation is
/// symmetric, and the degrees sum to twice the edge count.
pub proof fn lemma_wf_adjacency(g: UndirectedGraph)
    requires
        g.wf(),
    ensures
        g.adj().len() <= MAX_NODES,
        g.edge_count_spec() <= MAX_EDGES,
        forall|u: int| 0 <= u < g.adj().len() ==> (#[trigger] g.adj()[u]).no_duplicates(),
        forall|u: int, i: int|
            0 <= u < g.adj().len() && 0 <= i < g.adj()[u].len()
                ==> #[trigger] g.adj()[u][i] < g.adj().len(),
        forall|u: int| 0 <= u < g.adj().len() ==> !(#[trigger] g.adj()[u]).contains(u as usize),
        forall|u: usize, v: usize|
            u < g.adj().len() && v < g.adj().len()
                ==> ((#[trigger] g.adj()[u as int].contains(v)) <==> g.adj()[v as int].contains(
                    u,
                )),
        sum_lens(g.adj()) == 2 * g.edge_count_spec(),
{
    assert forall|u: usize, v: usize|
        u < g.adj().len() && v < g.adj().len() implies ((#[trigger] g.adj()[u as int].contains(v))
        <==> g.adj()[v as int].contains(u)) by {
        assert(g.adj()[u as int].contains(v) <==> pg_edges(&g.inner).contains((u, v)));
        assert(g.adj()[v as int].contains(u) <==> pg_edges(&g.inner).contains((v, u)));
        assert(pg_edges(&g.inner).contains((u, v)) == pg_edges(&g.inner).contains((v, u)));
    }
}

} // verus!
