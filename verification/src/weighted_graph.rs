//! A dense weighted undirected graph and its all-pairs shortest-path engine,
//! computed by triple-nested relaxation over a weight matrix.

use vstd::prelude::*;
use crate::undirected_graph::lemma_push_contains;

verus! {

/// A weighted undirected graph over dense integer node ids.  Each adjacency
/// entry carries the edge's target and its weight; parallel edges and
/// self-loops are permitted.
pub struct WeightedGraph {
    n_nodes: usize,
    out: Vec<Vec<(usize, i32)>>,
}

/// The all-pairs shortest-path matrix computed from a `WeightedGraph`
/// snapshot.  `i32::MAX` is the sentinel for "unreachable"; the matrix is
/// immutable after construction and owns no reference to the graph.
pub struct FloydShortestPaths {
    w: Vec<Vec<i32>>,
}

/// The adjacency sequences after appending the weighted edge `u - v`:
/// `(v, wt)` is appended to `u`'s list and `(u, wt)` to `v`'s list, in that
/// order.
pub open spec fn wadj_with_edge(
    adj: Seq<Seq<(usize, i32)>>,
    u: usize,
    v: usize,
    wt: i32,
) -> Seq<Seq<(usize, i32)>> {
    let a1 = adj.update(u as int, adj[u as int].push((v, wt)));
    a1.update(v as int, a1[v as int].push((u, wt)))
}

impl WeightedGraph {
    /// The adjacency lists, as mathematical sequences.
    pub closed spec fn adjacency(&self) -> Seq<Seq<(usize, i32)>> {
        self.out@.map_values(|l: Vec<(usize, i32)>| l@)
    }

    /// The number of nodes, fixed at construction.
    pub closed spec fn node_count(&self) -> nat {
        self.n_nodes as nat
    }

    /// Well-formedness: one adjacency list per node, every edge target in
    /// range, and adjacency symmetric with matching weight.
    pub open spec fn wf(&self) -> bool {
        &&& self.adjacency().len() == self.node_count()
        &&& forall|u: int, i: int|
            0 <= u < self.node_count() && 0 <= i < self.adjacency()[u].len()
                ==> (#[trigger] self.adjacency()[u][i]).0 < self.node_count()
        &&& forall|u: int, v: usize, wt: i32|
            0 <= u < self.node_count() && v < self.node_count()
                ==> (#[trigger] self.adjacency()[u].contains((v, wt)) <==> self.adjacency()[
                v as int
            ].contains((u as usize, wt)))
    }

    /// Creates a weighted graph with `size` isolated nodes.
    pub fn new(size: usize) -> (g: WeightedGraph)
        ensures
            g.wf(),
            g.node_count() == size,
            forall|u: int|
                0 <= u < size ==> #[trigger] g.adjacency()[u] == Seq::<(usize, i32)>::empty(),
    {
        let mut g = WeightedGraph { n_nodes: size, out: Vec::with_capacity(size) };
        for i in 0..size
            invariant
                g.n_nodes == size,
                g.out@.len() == i,
                forall|u: int| 0 <= u < i ==> #[trigger] g.out@[u]@ == Seq::<(usize, i32)>::empty(),
        {
            g.out.push(Vec::new());
        }
        g
    }

    /// Appends the undirected edge `u - v` with weight `weight`.  Both
    /// endpoints must be in range; this is a fatal precondition, not a
    /// recoverable error.
    pub fn add_edge(&mut self, u: usize, v: usize, weight: i32)
        requires
            old(self).wf(),
            u < old(self).node_count(),
            v < old(self).node_count(),
        ensures
            final(self).wf(),
            final(self).node_count() == old(self).node_count(),
            final(self).adjacency() == wadj_with_edge(old(self).adjacency(), u, v, weight),
    {
        let ghost old_adj = self.adjacency();
        self.out[u].push((v, weight));
        self.out[v].push((u, weight));
        proof {
            assert(self.adjacency() =~= wadj_with_edge(old_adj, u, v, weight));
            lemma_wadj_with_edge_wf(old(self).adjacency(), old(self).node_count(), u, v, weight);
        }
    }

    /// Computes the all-pairs shortest-path snapshot of this graph.
    pub fn get_floyd(&self) -> (sp: FloydShortestPaths)
        requires
            self.wf(),
        ensures
            sp.matrix() == floyd_matrix(*self),
            sp.matrix().len() == self.node_count(),
            forall|u: int| 0 <= u < self.node_count() ==> (#[trigger] sp.matrix()[u]).len()
                == self.node_count(),
    {
        FloydShortestPaths::compute(self)
    }
}

/// Appending a weighted undirected edge between in-range endpoints preserves
/// the range and symmetry conditions of `WeightedGraph::wf`.
proof fn lemma_wadj_with_edge_wf(adj: Seq<Seq<(usize, i32)>>, n: nat, u: usize, v: usize, wt: i32)
    requires
        adj.len() == n,
        n <= usize::MAX,
        u < n,
        v < n,
        forall|a: int, i: int|
            0 <= a < n && 0 <= i < adj[a].len() ==> (#[trigger] adj[a][i]).0 < n,
        forall|a: int, b: usize, w0: i32|
            0 <= a < n && b < n ==> (#[trigger] adj[a].contains((b, w0)) <==> adj[
                b as int
            ].contains((a as usize, w0))),
    ensures
        wadj_with_edge(adj, u, v, wt).len() == n,
        forall|a: int, i: int|
            0 <= a < n && 0 <= i < wadj_with_edge(adj, u, v, wt)[a].len()
                ==> (#[trigger] wadj_with_edge(adj, u, v, wt)[a][i]).0 < n,
        forall|a: int, b: usize, w0: i32|
            0 <= a < n && b < n ==> (#[trigger] wadj_with_edge(adj, u, v, wt)[a].contains((b, w0))
                <==> wadj_with_edge(adj, u, v, wt)[b as int].contains((a as usize, w0))),
{
    let r = wadj_with_edge(adj, u, v, wt);
    assert forall|a: int, b: usize, w0: i32| 0 <= a < n && b < n implies (#[trigger] r[a].contains(
        (b, w0),
    ) <==> adj[a].contains((b, w0)) || (a == u && b == v && w0 == wt) || (a == v && b == u && w0
        == wt)) by {
        if u == v {
            if a == u {
                assert(r[a] == adj[u as int].push((v, wt)).push((u, wt)));
                lemma_push_contains(adj[u as int].push((v, wt)), (u, wt), (b, w0));
                lemma_push_contains(adj[u as int], (v, wt), (b, w0));
            } else {
                assert(r[a] == adj[a]);
            }
        } else {
            if a == u {
                assert(r[a] == adj[u as int].push((v, wt)));
                lemma_push_contains(adj[u as int], (v, wt), (b, w0));
            } else if a == v {
                assert(r[a] == adj[v as int].push((u, wt)));
                lemma_push_contains(adj[v as int], (u, wt), (b, w0));
            } else {
                assert(r[a] == adj[a]);
            }
        }
    }
    assert forall|a: int, b: usize, w0: i32| 0 <= a < n && b < n implies (#[trigger] r[a].contains(
        (b, w0),
    ) <==> r[b as int].contains((a as usize, w0))) by {
        assert(r[a].contains((b, w0)) <==> adj[a].contains((b, w0)) || (a == u && b == v && w0
            == wt) || (a == v && b == u && w0 == wt));
        assert(r[b as int].contains((a as usize, w0)) <==> adj[b as int].contains((a as usize, w0))
            || (b == u && a == v && w0 == wt) || (b == v && a == u && w0 == wt));
        assert(adj[a].contains((b, w0)) <==> adj[b as int].contains((a as usize, w0)));
    }
    assert forall|a: int, i: int| 0 <= a < n && 0 <= i < r[a].len() implies (#[trigger] r[a][i]).0
        < n by {
        if a == u || a == v {
            if i < adj[a].len() {
                assert((adj[a][i]).0 < n);
            }
        }
    }
}

/// Symmetry of the weighted adjacency relation: `(v, wt)` appears among the
/// edges out of `u` exactly when `(u, wt)` appears among the edges out of
/// `v`.  This holds of every well-formed graph, hence after any sequence of
/// `add_edge` calls.
pub proof fn lemma_weighted_neighbors_symmetric(g: &WeightedGraph, u: usize, v: usize, wt: i32)
    requires
        g.wf(),
        u < g.node_count(),
        v < g.node_count(),
    ensures
        g.adjacency()[u as int].contains((v, wt)) <==> g.adjacency()[v as int].contains((u, wt)),
{
}

/// A row of `n` sentinel entries: no path found so far.
pub open spec fn inf_row(n: nat) -> Seq<i32> {
    Seq::new(n, |v: int| i32::MAX)
}

/// A row after seeding the direct edges `adj` in order, last write winning.
pub open spec fn seed_row(row: Seq<i32>, adj: Seq<(usize, i32)>) -> Seq<i32>
    decreases adj.len(),
{
    if adj.len() == 0 {
        row
    } else {
        seed_row(row, adj.drop_last()).update(adj.last().0 as int, adj.last().1)
    }
}

/// The weight matrix before relaxation: all sentinel, then each node's
/// direct edges seeded in adjacency order.
pub open spec fn seeded_matrix(g: WeightedGraph) -> Seq<Seq<i32>> {
    Seq::new(g.node_count(), |u: int| seed_row(inf_row(g.node_count()), g.adjacency()[u]))
}

/// One relaxation of cell `(u, v)` through intermediate `k`, guarding the
/// sentinel (no arithmetic on "unreachable") and refusing sums that do not
/// fit in the cell type.
pub open spec fn relax_cell(m: Seq<Seq<i32>>, k: int, u: int, v: int) -> i32 {
    let duk = m[u][k];
    let dkv = m[k][v];
    let duv = m[u][v];
    if duk == i32::MAX || dkv == i32::MAX {
        duv
    } else if duk + dkv >= i32::MIN && duk + dkv < duv {
        (duk + dkv) as i32
    } else {
        duv
    }
}

/// The matrix after relaxing cells `(u, 0) .. (u, v)` through `k`, in order.
pub open spec fn relax_row(m: Seq<Seq<i32>>, k: int, u: int, v: nat) -> Seq<Seq<i32>>
    decreases v,
{
    if v == 0 {
        m
    } else {
        let m1 = relax_row(m, k, u, (v - 1) as nat);
        m1.update(u, m1[u].update(v - 1, relax_cell(m1, k, u, v - 1)))
    }
}

/// The matrix after relaxing rows `0 .. u` through `k`, in order.
pub open spec fn relax_rows(m: Seq<Seq<i32>>, k: int, u: nat, n: nat) -> Seq<Seq<i32>>
    decreases u,
{
    if u == 0 {
        m
    } else {
        relax_row(relax_rows(m, k, (u - 1) as nat, n), k, u - 1, n)
    }
}

/// The matrix after the relaxation passes for intermediates `0 .. k`.
pub open spec fn relax_upto(m: Seq<Seq<i32>>, k: nat, n: nat) -> Seq<Seq<i32>>
    decreases k,
{
    if k == 0 {
        m
    } else {
        relax_rows(relax_upto(m, (k - 1) as nat, n), k - 1, n, n)
    }
}

/// The complete Floyd relaxation of a weighted graph: seed the direct edges,
/// then relax every cell through every intermediate node, in order.
pub open spec fn floyd_matrix(g: WeightedGraph) -> Seq<Seq<i32>> {
    relax_upto(seeded_matrix(g), g.node_count(), g.node_count())
}

/// The rows of a vector-of-vectors matrix, as mathematical sequences.
pub open spec fn rows_view(w: Seq<Vec<i32>>) -> Seq<Seq<i32>> {
    w.map_values(|r: Vec<i32>| r@)
}

impl FloydShortestPaths {
    /// The distance matrix, as mathematical sequences.
    pub closed spec fn matrix(&self) -> Seq<Seq<i32>> {
        rows_view(self.w@)
    }

    /// Computes the matrix for a graph snapshot: a sentinel-filled `n` by
    /// `n` matrix is seeded with the direct edges in adjacency order (last
    /// write wins for parallel edges), then every cell is relaxed through
    /// every intermediate node.
    pub fn compute(graph: &WeightedGraph) -> (sp: FloydShortestPaths)
        requires
            graph.wf(),
        ensures
            sp.matrix() == floyd_matrix(*graph),
            sp.matrix().len() == graph.node_count(),
            forall|u: int| 0 <= u < graph.node_count() ==> (#[trigger] sp.matrix()[u]).len()
                == graph.node_count(),
    {
        let n = graph.n_nodes;
        let mut w: Vec<Vec<i32>> = Vec::with_capacity(n);
        for u in 0..n
            invariant
                w@.len() == u,
                forall|r: int| 0 <= r < u ==> #[trigger] w@[r]@ =~= inf_row(n as nat),
        {
            let mut row: Vec<i32> = Vec::with_capacity(n);
            for v in 0..n
                invariant
                    row@.len() == v,
                    forall|j: int| 0 <= j < v ==> #[trigger] row@[j] == i32::MAX,
            {
                row.push(i32::MAX);
            }
            proof {
                assert(row@ =~= inf_row(n as nat));
            }
            w.push(row);
        }
        // seed the direct edges
        for u in 0..n
            invariant
                graph.wf(),
                n == graph.node_count(),
                w@.len() == n,
                forall|r: int| 0 <= r < n ==> (#[trigger] w@[r])@.len() == n,
                forall|r: int|
                    0 <= r < u ==> #[trigger] w@[r]@ == seed_row(
                        inf_row(n as nat),
                        graph.adjacency()[r],
                    ),
                forall|r: int| u <= r < n ==> #[trigger] w@[r]@ == inf_row(n as nat),
        {
            let m = graph.out[u].len();
            for j in 0..m
                invariant
                    graph.wf(),
                    n == graph.node_count(),
                    u < n,
                    m == graph.adjacency()[u as int].len(),
                    w@.len() == n,
                    forall|r: int| 0 <= r < n ==> (#[trigger] w@[r])@.len() == n,
                    forall|r: int|
                        0 <= r < u ==> #[trigger] w@[r]@ == seed_row(
                            inf_row(n as nat),
                            graph.adjacency()[r],
                        ),
                    forall|r: int| u < r < n ==> #[trigger] w@[r]@ == inf_row(n as nat),
                    w@[u as int]@ == seed_row(
                        inf_row(n as nat),
                        graph.adjacency()[u as int].take(j as int),
                    ),
            {
                let (v, wt) = graph.out[u][j];
                proof {
                    assert(graph.adjacency()[u as int][j as int] == (v, wt));
                    assert(v < n);
                    let taken = graph.adjacency()[u as int].take(j as int + 1);
                    assert(taken.drop_last() =~= graph.adjacency()[u as int].take(j as int));
                    assert(taken.last() == (v, wt));
                }
                w[u][v] = wt;
            }
            proof {
                assert(graph.adjacency()[u as int].take(m as int) =~= graph.adjacency()[u as int]);
            }
        }
        let ghost seeded = rows_view(w@);
        proof {
            assert(seeded =~= seeded_matrix(*graph));
        }
        // relax every cell through every intermediate node
        for k in 0..n
            invariant
                n == graph.node_count(),
                w@.len() == n,
                forall|r: int| 0 <= r < n ==> (#[trigger] w@[r])@.len() == n,
                rows_view(w@) == relax_upto(seeded, k as nat, n as nat),
        {
            let ghost mk = rows_view(w@);
            for u in 0..n
                invariant
                    n == graph.node_count(),
                    w@.len() == n,
                    forall|r: int| 0 <= r < n ==> (#[trigger] w@[r])@.len() == n,
                    mk == relax_upto(seeded, k as nat, n as nat),
                    k < n,
                    rows_view(w@) == relax_rows(mk, k as int, u as nat, n as nat),
            {
                let ghost mu = rows_view(w@);
                for v in 0..n
                    invariant
                        n == graph.node_count(),
                        w@.len() == n,
                        forall|r: int| 0 <= r < n ==> (#[trigger] w@[r])@.len() == n,
                        mk == relax_upto(seeded, k as nat, n as nat),
                        mu == relax_rows(mk, k as int, u as nat, n as nat),
                        k < n,
                        u < n,
                        rows_view(w@) == relax_row(mu, k as int, u as int, v as nat),
                {
                    let ghost mv = rows_view(w@);
                    let wuk = w[u][k];
                    let wkv = w[k][v];
                    let wuv = w[u][v];
                    proof {
                        assert(wuk == mv[u as int][k as int]);
                        assert(wkv == mv[k as int][v as int]);
                        assert(wuv == mv[u as int][v as int]);
                    }
                    if wuk != i32::MAX && wkv != i32::MAX {
                        match wuk.checked_add(wkv) {
                            Some(s) => {
                                if s < wuv {
                                    w[u][v] = s;
                                    proof {
                                        assert(relax_cell(mv, k as int, u as int, v as int) == s);
                                        assert(rows_view(w@) =~= mv.update(
                                            u as int,
                                            mv[u as int].update(v as int, s),
                                        ));
                                    }
                                } else {
                                    proof {
                                        lemma_relax_cell_noop(mv, k as int, u as int, v as int);
                                    }
                                }
                            },
                            None => {
                                proof {
                                    lemma_relax_cell_noop(mv, k as int, u as int, v as int);
                                }
                            },
                        }
                    } else {
                        proof {
                            lemma_relax_cell_noop(mv, k as int, u as int, v as int);
                        }
                    }
                }
            }
        }
        let sp = FloydShortestPaths { w };
        proof {
            assert(sp.matrix() == relax_upto(seeded, n as nat, n as nat));
        }
        sp
    }

    /// A pure read of the precomputed matrix: the minimum total edge weight
    /// from `u` to `v`, or the sentinel `i32::MAX` when `v` is unreachable
    /// from `u`.
    pub fn get_shortest_path(&self, u: usize, v: usize) -> (r: i32)
        requires
            u < self.matrix().len(),
            v < self.matrix()[u as int].len(),
        ensures
            r == self.matrix()[u as int][v as int],
    {
        self.w[u][v]
    }
}

/// When the relaxation does not improve a cell, writing it back leaves the
/// matrix unchanged.
proof fn lemma_relax_cell_noop(m: Seq<Seq<i32>>, k: int, u: int, v: int)
    requires
        0 <= u < m.len(),
        0 <= v < m[u].len(),
        relax_cell(m, k, u, v) == m[u][v],
    ensures
        m.update(u, m[u].update(v, relax_cell(m, k, u, v))) == m,
{
    assert(m[u].update(v, m[u][v]) =~= m[u]);
    assert(m.update(u, m[u]) =~= m);
}

/// Recomputing the matrix from an unmodified graph yields an identical
/// matrix: the relaxation is a function of the graph snapshot alone.
pub proof fn lemma_floyd_idempotent(g: &WeightedGraph, a: &FloydShortestPaths, b: &FloydShortestPaths)
    requires
        a.matrix() == floyd_matrix(*g),
        b.matrix() == floyd_matrix(*g),
    ensures
        a.matrix() == b.matrix(),
{
}

/// A single isolated node has no path to itself: the diagonal is never
/// pre-seeded to zero, so without any edge the cell keeps the unreachable
/// sentinel.
pub proof fn lemma_isolated_node_unreachable(g: &WeightedGraph)
    requires
        g.wf(),
        g.node_count() == 1,
        g.adjacency()[0].len() == 0,
    ensures
        floyd_matrix(*g)[0][0] == i32::MAX,
{
    let s = seeded_matrix(*g);
    assert(g.adjacency()[0] =~= Seq::<(usize, i32)>::empty());
    assert(seed_row(inf_row(1), g.adjacency()[0]) == inf_row(1));
    assert(s[0] == inf_row(1));
    assert(s[0][0] == i32::MAX);
    let m1 = relax_upto(s, 1, 1);
    assert(relax_upto(s, 0, 1) == s);
    assert(m1 == relax_rows(s, 0, 1, 1));
    assert(relax_rows(s, 0, 0, 1) == s);
    assert(m1 == relax_row(s, 0, 0, 1));
    assert(relax_row(s, 0, 0, 0) == s);
    assert(relax_cell(s, 0, 0, 0) == s[0][0]);
    assert(m1 == s.update(0, s[0].update(0, s[0][0])));
    assert(m1[0][0] == i32::MAX);
    assert(floyd_matrix(*g) == m1);
}

} // verus!
