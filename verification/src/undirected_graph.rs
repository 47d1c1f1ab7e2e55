//! An undirected graph over dense integer node ids, with optional per-node
//! payloads and lazy depth-first / breadth-first traversal producers.

use vstd::prelude::*;

verus! {

/// An undirected graph with `node_count` nodes addressed by dense ids in
/// `[0, node_count)`.  Each node has an adjacency list (parallel edges and
/// self-loops permitted) and an optional payload.
pub struct UndirectedGraph<T> {
    edges: Vec<Vec<usize>>,
    data: Vec<Option<T>>,
}

/// The adjacency sequences after appending the undirected edge `u - v`:
/// `v` is appended to `u`'s list and `u` to `v`'s list, in that order.
pub open spec fn adj_with_edge(adj: Seq<Seq<usize>>, u: usize, v: usize) -> Seq<Seq<usize>> {
    let a1 = adj.update(u as int, adj[u as int].push(v));
    a1.update(v as int, a1[v as int].push(u))
}

impl<T> UndirectedGraph<T> {
    /// The adjacency lists, as mathematical sequences.
    pub closed spec fn adjacency(&self) -> Seq<Seq<usize>> {
        self.edges@.map_values(|l: Vec<usize>| l@)
    }

    /// The per-node payloads.
    pub closed spec fn payloads(&self) -> Seq<Option<T>> {
        self.data@
    }

    /// The number of nodes, fixed at construction.
    pub open spec fn node_count(&self) -> nat {
        self.payloads().len()
    }

    /// Well-formedness: one adjacency list per node, every listed neighbor is
    /// in range, and adjacency is symmetric (the graph is undirected).
    pub open spec fn wf(&self) -> bool {
        &&& self.adjacency().len() == self.node_count()
        &&& forall|u: int, i: int|
            0 <= u < self.node_count() && 0 <= i < self.adjacency()[u].len()
                ==> #[trigger] self.adjacency()[u][i] < self.node_count()
        &&& forall|u: int, v: usize|
            0 <= u < self.node_count() && v < self.node_count()
                ==> (#[trigger] self.adjacency()[u].contains(v) <==> self.adjacency()[
                v as int
            ].contains(u as usize))
    }

    /// The number of nodes.
    pub fn size(&self) -> (n: usize)
        ensures
            n == self.node_count(),
    {
        self.data.len()
    }

    /// Creates a graph with `size` isolated nodes and no payloads.
    pub fn new(size: usize) -> (g: UndirectedGraph<T>)
        ensures
            g.wf(),
            g.node_count() == size,
            forall|u: int| 0 <= u < size ==> #[trigger] g.adjacency()[u] == Seq::<usize>::empty(),
            forall|u: int| 0 <= u < size ==> #[trigger] g.payloads()[u] is None,
    {
        let mut g = UndirectedGraph { edges: Vec::with_capacity(size), data: Vec::with_capacity(size) };
        for i in 0..size
            invariant
                g.edges@.len() == i,
                g.data@.len() == i,
                forall|u: int| 0 <= u < i ==> #[trigger] g.edges@[u]@ == Seq::<usize>::empty(),
                forall|u: int| 0 <= u < i ==> #[trigger] g.data@[u] is None,
        {
            g.edges.push(Vec::new());
            g.data.push(None);
        }
        g
    }

    /// Appends the undirected edge `u - v`.  Both endpoints must be in range;
    /// parallel edges and self-loops are recorded as given, never deduplicated.
    pub fn add_edge(&mut self, u: usize, v: usize)
        requires
            old(self).wf(),
            u < old(self).node_count(),
            v < old(self).node_count(),
        ensures
            final(self).wf(),
            final(self).node_count() == old(self).node_count(),
            final(self).payloads() == old(self).payloads(),
            final(self).adjacency() == adj_with_edge(old(self).adjacency(), u, v),
    {
        let ghost old_adj = self.adjacency();
        // reading the length records that the node count fits in usize,
        // which the symmetry proof needs
        let n = self.data.len();
        self.edges[u].push(v);
        self.edges[v].push(u);
        proof {
            assert(self.adjacency() =~= adj_with_edge(old_adj, u, v));
            lemma_adj_with_edge_wf(old(self).adjacency(), old(self).node_count(), u, v);
        }
    }

    /// The current adjacency list of `u`, in insertion order.
    pub fn from(&self, u: usize) -> (r: &Vec<usize>)
        requires
            u < self.adjacency().len(),
        ensures
            r@ == self.adjacency()[u as int],
    {
        &self.edges[u]
    }

    /// Attaches `t` to node `u`; a silent no-op when `u` is out of range.
    pub fn set_data(&mut self, u: usize, t: T)
        ensures
            final(self).adjacency() == old(self).adjacency(),
            final(self).node_count() == old(self).node_count(),
            u < old(self).node_count() ==> final(self).payloads() == old(self).payloads().update(
                u as int,
                Some(t),
            ),
            u >= old(self).node_count() ==> final(self).payloads() == old(self).payloads(),
            old(self).wf() ==> final(self).wf(),
    {
        if u < self.data.len() {
            self.data[u] = Some(t);
        }
    }

    /// The payload attached to `u`, or `None` when none was set or `u` is out
    /// of range (absence is lenient here, unlike `add_edge`).
    pub fn get_data(&self, u: usize) -> (r: Option<&T>)
        ensures
            match r {
                Some(t) => u < self.node_count() && self.payloads()[u as int] == Some(*t),
                None => u >= self.node_count() || self.payloads()[u as int] is None,
            },
    {
        if u < self.data.len() {
            match &self.data[u] {
                Some(t) => Some(t),
                None => None,
            }
        } else {
            None
        }
    }
}

/// Appending an element to a sequence extends what it contains by exactly
/// that element.
pub proof fn lemma_push_contains<A>(s: Seq<A>, x: A, y: A)
    ensures
        s.push(x).contains(y) <==> (s.contains(y) || x == y),
{
    if s.contains(y) {
        let i = choose|i: int| 0 <= i < s.len() && s[i] == y;
        assert(s.push(x)[i] == y);
    }
    if x == y {
        assert(s.push(x)[s.len() as int] == y);
    }
    if s.push(x).contains(y) {
        let i = choose|i: int| 0 <= i < s.push(x).len() && s.push(x)[i] == y;
        if i < s.len() {
            assert(s[i] == y);
        }
    }
}

/// Appending an undirected edge between in-range endpoints preserves the
/// range and symmetry conditions of `UndirectedGraph::wf`.
proof fn lemma_adj_with_edge_wf(adj: Seq<Seq<usize>>, n: nat, u: usize, v: usize)
    requires
        adj.len() == n,
        n <= usize::MAX,
        u < n,
        v < n,
        forall|a: int, i: int| 0 <= a < n && 0 <= i < adj[a].len() ==> #[trigger] adj[a][i] < n,
        forall|a: int, b: usize|
            0 <= a < n && b < n ==> (#[trigger] adj[a].contains(b) <==> adj[b as int].contains(
                a as usize,
            )),
    ensures
        adj_with_edge(adj, u, v).len() == n,
        forall|a: int, i: int|
            0 <= a < n && 0 <= i < adj_with_edge(adj, u, v)[a].len()
                ==> #[trigger] adj_with_edge(adj, u, v)[a][i] < n,
        forall|a: int, b: usize|
            0 <= a < n && b < n ==> (#[trigger] adj_with_edge(adj, u, v)[a].contains(b)
                <==> adj_with_edge(adj, u, v)[b as int].contains(a as usize)),
{
    let r = adj_with_edge(adj, u, v);
    assert forall|a: int, b: usize| 0 <= a < n && b < n implies (#[trigger] r[a].contains(b)
        <==> adj[a].contains(b) || (a == u && b == v) || (a == v && b == u)) by {
        if u == v {
            if a == u {
                assert(r[a] == adj[u as int].push(v).push(u));
                lemma_push_contains(adj[u as int].push(v), u, b);
                lemma_push_contains(adj[u as int], v, b);
            } else {
                assert(r[a] == adj[a]);
            }
        } else {
            if a == u {
                assert(r[a] == adj[u as int].push(v));
                lemma_push_contains(adj[u as int], v, b);
            } else if a == v {
                assert(r[a] == adj[v as int].push(u));
                lemma_push_contains(adj[v as int], u, b);
            } else {
                assert(r[a] == adj[a]);
            }
        }
    }
    assert forall|a: int, b: usize| 0 <= a < n && b < n implies (#[trigger] r[a].contains(b)
        <==> r[b as int].contains(a as usize)) by {
        assert(r[a].contains(b) <==> adj[a].contains(b) || (a == u && b == v) || (a == v && b
            == u));
        assert(r[b as int].contains(a as usize) <==> adj[b as int].contains(a as usize) || (b == u
            && a == v) || (b == v && a == u));
        assert(adj[a].contains(b) <==> adj[b as int].contains(a as usize));
    }
    assert forall|a: int, i: int| 0 <= a < n && 0 <= i < r[a].len() implies #[trigger] r[a][i]
        < n by {
        if a == u || a == v {
            if i < adj[a].len() {
                assert(adj[a][i] < n);
            }
        }
    }
}

/// `p` is a walk in `g`: nonempty, every entry in range, and consecutive
/// entries adjacent.
pub open spec fn is_path<T>(g: UndirectedGraph<T>, p: Seq<usize>) -> bool {
    &&& p.len() >= 1
    &&& forall|i: int| 0 <= i < p.len() ==> (#[trigger] p[i]) < g.node_count()
    &&& forall|i: int|
        0 <= i < p.len() - 1 ==> #[trigger] g.adjacency()[p[i] as int].contains(p[i + 1])
}

/// Some walk in `g` leads from `from` to `to`.
pub open spec fn reachable<T>(g: UndirectedGraph<T>, from: usize, to: usize) -> bool {
    exists|p: Seq<usize>| is_path(g, p) && p[0] == from && p.last() == to
}

/// The nodes of `g` reachable from `from`.
pub open spec fn reachable_set<T>(g: UndirectedGraph<T>, from: usize) -> Set<usize> {
    Set::new(|v: usize| v < g.node_count() && reachable(g, from, v))
}

/// Every node in range is reachable from itself, by the one-node walk.
pub proof fn lemma_reachable_refl<T>(g: UndirectedGraph<T>, u: usize)
    requires
        u < g.node_count(),
    ensures
        reachable(g, u, u),
{
    let p = seq![u];
    assert(is_path(g, p));
    assert(p[0] == u && p.last() == u);
}

/// Reachability extends along an edge.
pub proof fn lemma_reachable_step<T>(g: UndirectedGraph<T>, s: usize, u: usize, v: usize)
    requires
        reachable(g, s, u),
        g.adjacency()[u as int].contains(v),
        v < g.node_count(),
    ensures
        reachable(g, s, v),
{
    let p = choose|p: Seq<usize>| is_path(g, p) && p[0] == s && p.last() == u;
    let q = p.push(v);
    assert forall|i: int| 0 <= i < q.len() - 1 implies #[trigger] g.adjacency()[
        q[i] as int
    ].contains(q[i + 1]) by {
        if i < p.len() - 1 {
            assert(q[i] == p[i] && q[i + 1] == p[i + 1]);
        } else {
            assert(q[i] == u && q[i + 1] == v);
        }
    }
    assert(is_path(g, q) && q[0] == s && q.last() == v);
}

/// A visited map that holds at the start of a walk and is closed under
/// adjacency holds at the end of the walk.
proof fn lemma_closed_under_adjacency<T>(g: UndirectedGraph<T>, vis: Seq<bool>, p: Seq<usize>)
    requires
        g.wf(),
        vis.len() == g.node_count(),
        is_path(g, p),
        vis[p[0] as int],
        forall|u: int, j: int|
            0 <= u < g.node_count() && vis[u] && 0 <= j < g.adjacency()[u].len()
                ==> vis[#[trigger] g.adjacency()[u][j] as int],
    ensures
        vis[p.last() as int],
    decreases p.len(),
{
    if p.len() > 1 {
        let q = p.drop_first();
        // an explicit index steers the adjacency clause of `is_path` to
        // its first step
        let i0: int = 0;
        assert(g.adjacency()[p[i0] as int].contains(p[i0 + 1]));
        assert(g.adjacency()[p[0] as int].contains(p[1]));
        let j = choose|j: int|
            0 <= j < g.adjacency()[p[0] as int].len() && g.adjacency()[p[0] as int][j] == p[1];
        assert(vis[p[1] as int]);
        assert(is_path(g, q)) by {
            assert forall|i: int| 0 <= i < q.len() - 1 implies #[trigger] g.adjacency()[
                q[i] as int
            ].contains(q[i + 1]) by {
                assert(q[i] == p[i + 1] && q[i + 1] == p[i + 2]);
            }
        }
        lemma_closed_under_adjacency(g, vis, q);
        assert(q.last() == p.last());
    }
}

/// Number of entries of a visited map that are still false.
pub open spec fn count_unvisited(vis: Seq<bool>) -> nat
    decreases vis.len(),
{
    if vis.len() == 0 {
        0
    } else {
        (if vis[0] {
            0nat
        } else {
            1nat
        }) + count_unvisited(vis.drop_first())
    }
}

/// Marking a yet-unvisited entry strictly lowers the unvisited count.
proof fn lemma_count_unvisited_update(vis: Seq<bool>, v: int)
    requires
        0 <= v < vis.len(),
        !vis[v],
    ensures
        count_unvisited(vis.update(v, true)) < count_unvisited(vis),
    decreases vis.len(),
{
    if v == 0 {
        assert(vis.update(0, true).drop_first() =~= vis.drop_first());
    } else {
        assert(vis.update(v, true).drop_first() =~= vis.drop_first().update(v - 1, true));
        lemma_count_unvisited_update(vis.drop_first(), v - 1);
    }
}

/// The first entry of `adj` that the visited map does not yet hold, if any.
pub open spec fn first_unvisited(adj: Seq<usize>, vis: Seq<bool>) -> Option<usize>
    decreases adj.len(),
{
    if adj.len() == 0 {
        None
    } else if !vis[adj[0] as int] {
        Some(adj[0])
    } else {
        first_unvisited(adj.drop_first(), vis)
    }
}

proof fn lemma_first_unvisited_none(adj: Seq<usize>, vis: Seq<bool>)
    requires
        first_unvisited(adj, vis) is None,
    ensures
        forall|j: int| 0 <= j < adj.len() ==> vis[#[trigger] adj[j] as int],
    decreases adj.len(),
{
    if adj.len() > 0 {
        lemma_first_unvisited_none(adj.drop_first(), vis);
        assert forall|j: int| 0 <= j < adj.len() implies vis[#[trigger] adj[j] as int] by {
            if j > 0 {
                assert(adj.drop_first()[j - 1] == adj[j]);
            }
        }
    }
}

proof fn lemma_first_unvisited_some(adj: Seq<usize>, vis: Seq<bool>)
    requires
        first_unvisited(adj, vis) is Some,
    ensures
        adj.contains(first_unvisited(adj, vis).unwrap()),
        !vis[first_unvisited(adj, vis).unwrap() as int],
    decreases adj.len(),
{
    if adj.len() > 0 {
        if !vis[adj[0] as int] {
            assert(adj[0] == first_unvisited(adj, vis).unwrap());
        } else {
            lemma_first_unvisited_some(adj.drop_first(), vis);
            let v = first_unvisited(adj, vis).unwrap();
            let j = choose|j: int|
                0 <= j < adj.drop_first().len() && adj.drop_first()[j] == v;
            assert(adj[j + 1] == v);
        }
    }
}

/// If the first `i` entries are all visited, the scan outcome is decided by
/// the rest.
proof fn lemma_first_unvisited_skip(adj: Seq<usize>, vis: Seq<bool>, i: int)
    requires
        0 <= i <= adj.len(),
        forall|j: int| 0 <= j < i ==> vis[#[trigger] adj[j] as int],
    ensures
        first_unvisited(adj, vis) == first_unvisited(adj.skip(i), vis),
    decreases i,
{
    if i == 0 {
        assert(adj.skip(0) =~= adj);
    } else {
        assert(adj.drop_first().skip(i - 1) =~= adj.skip(i));
        lemma_first_unvisited_skip(adj.drop_first(), vis, i - 1);
    }
}

impl<T: Copy> UndirectedGraph<T> {
    /// Starts a lazy depth-first traversal at `start`; the producer borrows
    /// the graph read-only for its lifetime.
    pub fn dfs(&self, start: usize) -> (it: DfsIterator<'_, T>)
        requires
            self.wf(),
            start < self.node_count(),
        ensures
            it.wf(),
            it.graph_view() == *self,
            it.start_node() == start,
            it.stack_view() == seq![start],
            it.popped_view() == Seq::<usize>::empty(),
            it.visited_view() == Seq::new(self.node_count(), |i: int| i == start),
    {
        DfsIterator::new(self, start)
    }

    /// Starts a lazy breadth-first traversal at `start`; the producer borrows
    /// the graph read-only for its lifetime.
    pub fn bfs(&self, start: usize) -> (it: BfsIterator<'_, T>)
        requires
            self.wf(),
            start < self.node_count(),
        ensures
            it.wf(),
            it.graph_view() == *self,
            it.start_node() == start,
            it.queue_view() == seq![start],
            it.popped_view() == Seq::<usize>::empty(),
            it.visited_view() == Seq::new(self.node_count(), |i: int| i == start),
    {
        BfsIterator::new(self, start)
    }
}

/// No entry occurs twice.
pub open spec fn all_distinct(s: Seq<usize>) -> bool {
    forall|i: int, j: int| 0 <= i < j < s.len() ==> s[i] != s[j]
}

/// A nonempty sequence contains an element exactly when its head is that
/// element or its tail contains it.
proof fn lemma_head_contains(s: Seq<usize>, y: usize)
    requires
        s.len() > 0,
    ensures
        s.contains(y) <==> (s[0] == y || s.drop_first().contains(y)),
{
    if s.contains(y) {
        let i = choose|i: int| 0 <= i < s.len() && s[i] == y;
        if i > 0 {
            assert(s.drop_first()[i - 1] == y);
        }
    }
    if s.drop_first().contains(y) {
        let i = choose|i: int| 0 <= i < s.drop_first().len() && s.drop_first()[i] == y;
        assert(s[i + 1] == y);
    }
}

/// The state that one breadth-first pull reaches after scanning the neighbor
/// list `adj`: every yet-unvisited entry is marked visited and enqueued, in
/// adjacency order.
pub open spec fn bfs_scan(adj: Seq<usize>, vis: Seq<bool>, q: Seq<usize>) -> (Seq<bool>, Seq<
    usize,
>)
    decreases adj.len(),
{
    if adj.len() == 0 {
        (vis, q)
    } else {
        let v = adj[0];
        if vis[v as int] {
            bfs_scan(adj.drop_first(), vis, q)
        } else {
            bfs_scan(adj.drop_first(), vis.update(v as int, true), q.push(v))
        }
    }
}

/// Extending the scanned prefix by one entry applies one marking step to the
/// scan's outcome.
proof fn lemma_bfs_scan_snoc(adj: Seq<usize>, vis: Seq<bool>, q: Seq<usize>, k: int)
    requires
        0 <= k < adj.len(),
    ensures
        ({
            let s = bfs_scan(adj.take(k), vis, q);
            let v = adj[k];
            bfs_scan(adj.take(k + 1), vis, q) == if s.0[v as int] {
                s
            } else {
                (s.0.update(v as int, true), s.1.push(v))
            }
        }),
    decreases k,
{
    if k == 0 {
        let e = Seq::<usize>::empty();
        assert(adj.take(0) =~= e);
        assert(bfs_scan(e, vis, q) == (vis, q));
        let v = adj[0];
        assert(adj.take(1).len() == 1 && adj.take(1)[0] == v);
        if vis[v as int] {
            assert(bfs_scan(adj.take(1), vis, q) == bfs_scan(adj.take(1).drop_first(), vis, q));
            assert(adj.take(1).drop_first() =~= e);
        } else {
            let vis2 = vis.update(v as int, true);
            let q2 = q.push(v);
            assert(bfs_scan(adj.take(1), vis, q) == bfs_scan(adj.take(1).drop_first(), vis2, q2));
            assert(adj.take(1).drop_first() =~= e);
            assert(bfs_scan(e, vis2, q2) == (vis2, q2));
        }
    } else {
        let h = adj[0];
        assert(adj.take(k + 1).len() == k + 1 && adj.take(k + 1)[0] == h);
        assert(adj.take(k).len() == k && adj.take(k)[0] == h);
        assert(adj.take(k + 1).drop_first() =~= adj.drop_first().take(k));
        assert(adj.take(k).drop_first() =~= adj.drop_first().take(k - 1));
        assert(adj.drop_first()[k - 1] == adj[k]);
        if vis[h as int] {
            lemma_bfs_scan_snoc(adj.drop_first(), vis, q, k - 1);
            assert(bfs_scan(adj.take(k + 1), vis, q) == bfs_scan(adj.drop_first().take(k), vis, q));
            assert(bfs_scan(adj.take(k), vis, q) == bfs_scan(
                adj.drop_first().take(k - 1),
                vis,
                q,
            ));
        } else {
            let vis2 = vis.update(h as int, true);
            let q2 = q.push(h);
            lemma_bfs_scan_snoc(adj.drop_first(), vis2, q2, k - 1);
            assert(bfs_scan(adj.take(k + 1), vis, q) == bfs_scan(
                adj.drop_first().take(k),
                vis2,
                q2,
            ));
            assert(bfs_scan(adj.take(k), vis, q) == bfs_scan(
                adj.drop_first().take(k - 1),
                vis2,
                q2,
            ));
        }
    }
}

/// What a full scan does: the visited map gains exactly the scanned entries,
/// and the queue is extended, without duplication, by exactly the scanned
/// entries that were not yet visited.
proof fn lemma_bfs_scan_props(adj: Seq<usize>, vis: Seq<bool>, q: Seq<usize>, n: nat)
    requires
        n <= usize::MAX,
        vis.len() == n,
        forall|i: int| 0 <= i < adj.len() ==> (#[trigger] adj[i]) < n,
        forall|i: int| 0 <= i < q.len() ==> (#[trigger] q[i]) < n && vis[q[i] as int],
        all_distinct(q),
    ensures
        ({
            let s = bfs_scan(adj, vis, q);
            &&& s.0.len() == n
            &&& forall|x: int| 0 <= x < n ==> (s.0[x] <==> vis[x] || adj.contains(x as usize))
            &&& s.1.len() >= q.len()
            &&& forall|i: int|
                0 <= i < s.1.len() ==> (#[trigger] s.1[i]) < n && s.0[s.1[i] as int]
            &&& forall|i: int| 0 <= i < q.len() ==> s.1[i] == q[i]
            &&& forall|i: int| q.len() <= i < s.1.len() ==> !vis[#[trigger] s.1[i] as int]
            &&& all_distinct(s.1)
            &&& forall|x: usize|
                s.1.contains(x) <==> q.contains(x) || (x < n && !vis[x as int] && adj.contains(
                    x,
                ))
        }),
    decreases adj.len(),
{
    let s = bfs_scan(adj, vis, q);
    if adj.len() == 0 {
        assert(forall|x: usize| !adj.contains(x));
        assert(forall|x: int| !(#[trigger] adj.contains(x as usize)));
    } else {
        let h = adj[0];
        assert(adj.contains(h)) by { assert(adj[0] == h) }
        assert forall|x: usize| #[trigger] adj.contains(x) implies h == x
            || adj.drop_first().contains(x) by {
            lemma_head_contains(adj, x);
        }
        assert forall|x: usize| adj.drop_first().contains(x) implies adj.contains(x) by {
            lemma_head_contains(adj, x);
        }
        assert(forall|i: int|
            0 <= i < adj.drop_first().len() ==> (#[trigger] adj.drop_first()[i]) == adj[i + 1]);
        let adj1 = adj.drop_first();
        if vis[h as int] {
            assert(s == bfs_scan(adj1, vis, q));
            lemma_bfs_scan_props(adj1, vis, q, n);
            assert forall|x: int|
                0 <= x < n implies (s.0[x] <==> vis[x] || adj.contains(x as usize)) by {
                assert(s.0[x] <==> vis[x] || adj1.contains(x as usize));
            }
            assert forall|x: usize|
                s.1.contains(x) <==> q.contains(x) || (x < n && !vis[x as int] && adj.contains(
                x,
            )) by {
                assert(s.1.contains(x) <==> q.contains(x) || (x < n && !vis[x as int]
                    && adj1.contains(x)));
            }
        } else {
            let vis2 = vis.update(h as int, true);
            let q2 = q.push(h);
            assert(!q.contains(h)) by {
                if q.contains(h) {
                    let i = choose|i: int| 0 <= i < q.len() && q[i] == h;
                    assert(vis[q[i] as int]);
                }
            }
            assert(forall|i: int| 0 <= i < q.len() ==> q2[i] == q[i]);
            assert(q2[q.len() as int] == h);
            assert(forall|i: int|
                0 <= i < q2.len() ==> (#[trigger] q2[i]) < n && vis2[q2[i] as int]);
            assert(all_distinct(q2));
            assert(s == bfs_scan(adj1, vis2, q2));
            lemma_bfs_scan_props(adj1, vis2, q2, n);
            assert forall|x: int|
                0 <= x < n implies (s.0[x] <==> vis[x] || adj.contains(x as usize)) by {
                assert(s.0[x] <==> vis2[x] || adj1.contains(x as usize));
                if x == h as int {
                    assert(adj.contains(h));
                }
            }
            assert(forall|i: int| 0 <= i < q2.len() ==> s.1[i] == q2[i]);
            assert forall|i: int| 0 <= i < q.len() implies s.1[i] == q[i] by {
                assert(s.1[i] == q2[i]);
            }
            assert forall|i: int| q.len() <= i < s.1.len() implies !vis[#[trigger] s.1[i] as int] by {
                if i == q.len() {
                    assert(s.1[i] == q2[i]);
                    assert(q2[i] == h);
                } else {
                    assert(q2.len() <= i);
                    assert(!vis2[s.1[i] as int]);
                }
            }
            assert forall|x: usize|
                s.1.contains(x) <==> q.contains(x) || (x < n && !vis[x as int] && adj.contains(
                x,
            )) by {
                assert(s.1.contains(x) <==> q2.contains(x) || (x < n && !vis2[x as int]
                    && adj1.contains(x)));
                lemma_push_contains(q, h, x);
            }
        }
    }
}

/// The invariant that both traversal producers maintain: every node on the
/// frontier or already yielded is visited, in range, recorded once, and
/// reachable from the start node; the visited map records exactly those
/// nodes; and every neighbor of a yielded node is visited.
pub open spec fn traversal_invariant<T>(
    g: UndirectedGraph<T>,
    start: usize,
    popped: Seq<usize>,
    frontier: Seq<usize>,
    vis: Seq<bool>,
) -> bool {
    &&& g.wf()
    &&& g.node_count() <= usize::MAX
    &&& start < g.node_count()
    &&& vis.len() == g.node_count()
    &&& vis[start as int]
    &&& forall|i: int|
        0 <= i < frontier.len() ==> (#[trigger] frontier[i]) < g.node_count()
            && vis[frontier[i] as int]
    &&& forall|i: int|
        0 <= i < popped.len() ==> (#[trigger] popped[i]) < g.node_count()
            && vis[popped[i] as int]
    &&& all_distinct(popped + frontier)
    &&& forall|x: usize| x < g.node_count() ==> (vis[x as int] <==> (popped + frontier).contains(x))
    &&& forall|i: int, j: int|
        0 <= i < popped.len() && 0 <= j < g.adjacency()[popped[i] as int].len()
            ==> vis[#[trigger] g.adjacency()[popped[i] as int][j] as int]
    &&& forall|x: usize| x < g.node_count() && vis[x as int] ==> reachable(g, start, x)
}

/// A breadth-first pull preserves the traversal invariant: the head of the
/// queue moves to the yielded nodes and its unvisited neighbors join the
/// queue.
proof fn lemma_bfs_step_invariant<T>(
    g: UndirectedGraph<T>,
    start: usize,
    popped: Seq<usize>,
    queue: Seq<usize>,
    vis: Seq<bool>,
)
    requires
        traversal_invariant(g, start, popped, queue, vis),
        queue.len() > 0,
    ensures
        ({
            let u = queue[0];
            let s = bfs_scan(g.adjacency()[u as int], vis, queue.drop_first());
            traversal_invariant(g, start, popped.push(u), s.1, s.0)
        }),
{
    let n = g.node_count();
    let u = queue[0];
    let adj = g.adjacency()[u as int];
    let q0 = queue.drop_first();
    assert(forall|i: int| 0 <= i < q0.len() ==> (#[trigger] q0[i]) == queue[i + 1]);
    assert(all_distinct(q0)) by {
        assert(forall|i: int, j: int|
            0 <= i < j < q0.len() ==> q0[i] == (popped + queue)[popped.len() + i + 1] && q0[j]
                == (popped + queue)[popped.len() + j + 1]);
    }
    assert(forall|i: int| 0 <= i < q0.len() ==> q0[i] < n && vis[q0[i] as int]);
    lemma_bfs_scan_props(adj, vis, q0, n);
    let s = bfs_scan(adj, vis, q0);
    let popped2 = popped.push(u);
    // every node recorded by the new state is in range and visited
    assert(forall|i: int| 0 <= i < popped2.len() ==> (#[trigger] popped2[i]) < n);
    assert forall|i: int| 0 <= i < popped2.len() implies s.0[popped2[i] as int] by {
        assert(s.0[popped2[i] as int] <==> vis[popped2[i] as int] || adj.contains(
            popped2[i] as usize,
        ));
    }
    // the new combined record is duplicate-free: up to the newly marked
    // nodes it coincides with the old record, and the newly marked nodes
    // were unvisited while every older entry was visited
    assert(all_distinct(popped2 + s.1)) by {
        let c = popped2 + s.1;
        let old_c = popped + queue;
        assert forall|i: int| 0 <= i < popped2.len() + q0.len() implies c[i] == old_c[i] by {
            if i < popped.len() {
                assert(c[i] == popped[i] && old_c[i] == popped[i]);
            } else if i == popped.len() {
                assert(c[i] == popped2[i] && popped2[i] == u);
                assert(old_c[i] == queue[0]);
            } else {
                assert(c[i] == s.1[i - popped2.len()]);
                assert(s.1[i - popped2.len()] == q0[i - popped2.len()]);
                assert(old_c[i] == queue[i - popped.len()]);
                assert(q0[i - popped2.len()] == queue[i - popped.len()]);
            }
        }
        assert forall|i: int, j: int| 0 <= i < j < c.len() implies c[i] != c[j] by {
            if j < popped2.len() + q0.len() {
                assert(c[i] == old_c[i] && c[j] == old_c[j]);
            } else {
                // c[j] is a newly marked node: unvisited before, while c[i]
                // was visited
                assert(c[j] == s.1[j - popped2.len()]);
                assert(!vis[c[j] as int]);
                if i >= popped2.len() + q0.len() {
                    assert(c[i] == s.1[i - popped2.len()]);
                    assert(c[i] != c[j]);
                } else {
                    assert(c[i] == old_c[i]);
                    assert(vis[c[i] as int]);
                }
            }
        }
    }
    // visited is exactly the new combined record
    assert forall|x: usize| x < n implies (s.0[x as int] <==> (popped2 + s.1).contains(x)) by {
        assert(s.0[x as int] <==> vis[x as int] || adj.contains(x));
        assert(s.1.contains(x) <==> q0.contains(x) || (x < n && !vis[x as int] && adj.contains(x)));
        lemma_concat_contains(popped2, s.1, x);
        lemma_concat_contains(popped, queue, x);
        lemma_push_contains(popped, u, x);
        lemma_head_contains(queue, x);
    }
    // every neighbor of a yielded node is visited
    assert forall|i: int, j: int|
        0 <= i < popped2.len() && 0 <= j < g.adjacency()[popped2[i] as int].len() implies s.0[
        #[trigger] g.adjacency()[popped2[i] as int][j] as int] by {
        let w = g.adjacency()[popped2[i] as int][j];
        assert(w < n);
        if i < popped.len() {
            assert(vis[w as int]);
        } else {
            assert(popped2[i] == u);
            assert(adj.contains(w)) by { assert(adj[j] == w) }
        }
        assert(s.0[w as int] <==> vis[w as int] || adj.contains(w));
    }
    // every visited node is reachable
    assert forall|x: usize| x < n && s.0[x as int] implies reachable(g, start, x) by {
        if !vis[x as int] {
            assert(adj.contains(x));
            assert(reachable(g, start, u));
            lemma_reachable_step(g, start, u, x);
        }
    }
}

/// Concatenation contains an element exactly when one of the parts does.
proof fn lemma_concat_contains(a: Seq<usize>, b: Seq<usize>, x: usize)
    ensures
        (a + b).contains(x) <==> a.contains(x) || b.contains(x),
{
    if a.contains(x) {
        let i = choose|i: int| 0 <= i < a.len() && a[i] == x;
        assert((a + b)[i] == x);
    }
    if b.contains(x) {
        let i = choose|i: int| 0 <= i < b.len() && b[i] == x;
        assert((a + b)[a.len() + i] == x);
    }
    if (a + b).contains(x) {
        let i = choose|i: int| 0 <= i < (a + b).len() && (a + b)[i] == x;
        if i < a.len() {
            assert(a[i] == x);
        } else {
            assert(b[i - a.len()] == x);
        }
    }
}

/// Once the frontier is exhausted the yielded nodes are exactly the nodes
/// reachable from the start, each recorded exactly once.
pub proof fn lemma_traversal_exhausted<T>(
    g: UndirectedGraph<T>,
    start: usize,
    popped: Seq<usize>,
    vis: Seq<bool>,
)
    requires
        traversal_invariant(g, start, popped, Seq::<usize>::empty(), vis),
    ensures
        forall|v: usize| v < g.node_count() ==> (popped.contains(v) <==> reachable(g, start, v)),
        all_distinct(popped),
        popped.len() == reachable_set(g, start).len(),
{
    let n = g.node_count();
    assert(popped + Seq::<usize>::empty() =~= popped);
    assert forall|v: usize| v < n && popped.contains(v) implies reachable(g, start, v) by {
        let i = choose|i: int| 0 <= i < popped.len() && popped[i] == v;
        assert(vis[v as int]);
    }
    assert forall|v: usize| v < n && reachable(g, start, v) implies popped.contains(v) by {
        let p = choose|p: Seq<usize>| is_path(g, p) && p[0] == start && p.last() == v;
        assert forall|u: int, j: int|
            0 <= u < n && vis[u] && 0 <= j < g.adjacency()[u].len() implies vis[#[trigger] g.adjacency()[
            u
        ][j] as int] by {
            let uu = u as usize;
            assert(uu as int == u);
            assert(vis[uu as int]);
            assert(popped.contains(uu));
            let i = choose|i: int| 0 <= i < popped.len() && popped[i] == uu;
            assert(vis[g.adjacency()[popped[i] as int][j] as int]);
            assert(popped[i] as int == u);
        }
        lemma_closed_under_adjacency(g, vis, p);
        assert(vis[v as int]);
    }
    assert(all_distinct(popped)) by {
        assert(forall|i: int| 0 <= i < popped.len() ==> popped[i] == (popped
            + Seq::<usize>::empty())[i]);
    }
    // distinct entries that are exactly the reachable nodes: the count of
    // yields equals the number of reachable nodes
    assert(popped.to_set() =~= reachable_set(g, start)) by {
        assert forall|v: usize| popped.contains(v) implies v < n && reachable(g, start, v) by {
            let i = choose|i: int| 0 <= i < popped.len() && popped[i] == v;
        }
    }
    assert(popped.no_duplicates());
    popped.unique_seq_to_set();
}

/// A lazy breadth-first traversal producer: holds a read-only borrow of the
/// graph, the queue frontier, and the visited map.  The sequence of nodes
/// yielded so far is recorded in ghost state.
pub struct BfsIterator<'a, T> {
    graph: &'a UndirectedGraph<T>,
    queue: Vec<usize>,
    visited: Vec<bool>,
    start: Ghost<usize>,
    popped: Ghost<Seq<usize>>,
}

impl<'a, T> BfsIterator<'a, T> {
    /// The traversed graph.
    pub closed spec fn graph_view(&self) -> UndirectedGraph<T> {
        *self.graph
    }

    /// The queued frontier, front first.
    pub closed spec fn queue_view(&self) -> Seq<usize> {
        self.queue@
    }

    /// The visited map.
    pub closed spec fn visited_view(&self) -> Seq<bool> {
        self.visited@
    }

    /// The nodes yielded so far, in order.
    pub closed spec fn popped_view(&self) -> Seq<usize> {
        self.popped@
    }

    /// The node the traversal started from.
    pub closed spec fn start_node(&self) -> usize {
        self.start@
    }

    pub open spec fn wf(&self) -> bool {
        traversal_invariant(
            self.graph_view(),
            self.start_node(),
            self.popped_view(),
            self.queue_view(),
            self.visited_view(),
        )
    }
}

impl<'a, T: Copy> BfsIterator<'a, T> {
    /// Starts a breadth-first traversal at `start`: the start node is marked
    /// visited and queued.
    pub fn new(graph: &'a UndirectedGraph<T>, start: usize) -> (it: BfsIterator<'a, T>)
        requires
            graph.wf(),
            start < graph.node_count(),
        ensures
            it.wf(),
            it.graph_view() == *graph,
            it.start_node() == start,
            it.queue_view() == seq![start],
            it.popped_view() == Seq::<usize>::empty(),
            it.visited_view() == Seq::new(graph.node_count(), |i: int| i == start),
    {
        let size = graph.size();
        let mut visited: Vec<bool> = Vec::with_capacity(size);
        for i in 0..size
            invariant
                visited@.len() == i,
                forall|j: int| 0 <= j < i ==> (#[trigger] visited@[j] <==> j == start),
        {
            visited.push(i == start);
        }
        let it = BfsIterator {
            graph,
            queue: vec![start],
            visited,
            start: Ghost(start),
            popped: Ghost(Seq::empty()),
        };
        proof {
            assert(it.visited_view() =~= Seq::new(graph.node_count(), |i: int| i == start));
            let c = it.popped_view() + it.queue_view();
            assert(c.len() == 1 && c[0] == start);
            assert forall|x: usize| x < graph.node_count() implies (it.visited_view()[x as int]
                <==> c.contains(x)) by {
                if c.contains(x) {
                    let i = choose|i: int| 0 <= i < c.len() && c[i] == x;
                    assert(i == 0);
                }
                if x == start {
                    assert(c[0] == x);
                }
            }
            assert forall|x: usize|
                x < graph.node_count() && it.visited_view()[x as int] implies reachable(
                *graph,
                start,
                x,
            ) by {
                lemma_reachable_refl(*graph, start);
            }
        }
        it
    }

    /// One breadth-first pull.  When the queue is empty the traversal is
    /// exhausted and the state is unchanged.  Otherwise the front node `u` is
    /// dequeued, each yet-unvisited neighbor of `u` is marked visited and
    /// enqueued in adjacency order, and `u`'s payload (or `None` when `u` has
    /// none) is yielded.
    pub fn next(&mut self) -> (r: Option<T>)
        requires
            old(self).wf(),
        ensures
            final(self).wf(),
            final(self).graph_view() == old(self).graph_view(),
            final(self).start_node() == old(self).start_node(),
            old(self).queue_view().len() == 0 ==> {
                &&& r is None
                &&& final(self).queue_view() == old(self).queue_view()
                &&& final(self).visited_view() == old(self).visited_view()
                &&& final(self).popped_view() == old(self).popped_view()
            },
            old(self).queue_view().len() > 0 ==> {
                let u = old(self).queue_view()[0];
                let s = bfs_scan(
                    old(self).graph_view().adjacency()[u as int],
                    old(self).visited_view(),
                    old(self).queue_view().drop_first(),
                );
                &&& final(self).visited_view() == s.0
                &&& final(self).queue_view() == s.1
                &&& final(self).popped_view() == old(self).popped_view().push(u)
                &&& r == old(self).graph_view().payloads()[u as int]
            },
    {
        if self.queue.len() == 0 {
            return None;
        }
        let u = self.queue.remove(0);
        proof {
            assert(self.queue@ =~= old(self).queue_view().drop_first());
        }
        let g = self.graph;
        let ghost vis0 = self.visited@;
        let ghost q0 = self.queue@;
        let adj = g.from(u);
        let m = adj.len();
        for idx in 0..m
            invariant
                self.graph == g,
                *g == old(self).graph_view(),
                self.start == old(self).start,
                self.popped == old(self).popped,
                g.wf(),
                g.node_count() <= usize::MAX,
                u < g.node_count(),
                adj@ == g.adjacency()[u as int],
                m == adj@.len(),
                self.visited@ == bfs_scan(adj@.take(idx as int), vis0, q0).0,
                self.queue@ == bfs_scan(adj@.take(idx as int), vis0, q0).1,
                self.visited@.len() == g.node_count(),
        {
            let v = adj[idx];
            proof {
                lemma_bfs_scan_snoc(adj@, vis0, q0, idx as int);
                assert(g.adjacency()[u as int][idx as int] < g.node_count());
            }
            if !self.visited[v] {
                self.visited[v] = true;
                self.queue.push(v);
            }
        }
        proof {
            assert(adj@.take(m as int) =~= adj@);
            self.popped = Ghost(self.popped@.push(u));
            lemma_bfs_step_invariant(
                *g,
                self.start@,
                old(self).popped_view(),
                old(self).queue_view(),
                vis0,
            );
            assert(old(self).queue_view()[0] == u);
        }
        let d = self.graph.data[u];
        d
    }
}

/// Once a breadth-first traversal is exhausted it has yielded exactly the
/// nodes reachable from its start node, each exactly once.
pub proof fn lemma_bfs_exhausted_yields_reachable<T>(it: &BfsIterator<T>)
    requires
        it.wf(),
        it.queue_view().len() == 0,
    ensures
        forall|v: usize|
            v < it.graph_view().node_count() ==> (it.popped_view().contains(v) <==> reachable(
                it.graph_view(),
                it.start_node(),
                v,
            )),
        all_distinct(it.popped_view()),
        it.popped_view().len() == reachable_set(it.graph_view(), it.start_node()).len(),
{
    assert(it.queue_view() =~= Seq::<usize>::empty());
    lemma_traversal_exhausted(it.graph_view(), it.start_node(), it.popped_view(), it.visited_view());
}

/// A nonempty sequence contains an element exactly when its last entry is
/// that element or the rest contains it.
proof fn lemma_last_contains(s: Seq<usize>, y: usize)
    requires
        s.len() > 0,
    ensures
        s.contains(y) <==> (s.last() == y || s.drop_last().contains(y)),
{
    if s.contains(y) {
        let i = choose|i: int| 0 <= i < s.len() && s[i] == y;
        if i < s.len() - 1 {
            assert(s.drop_last()[i] == y);
        }
    }
    if s.drop_last().contains(y) {
        let i = choose|i: int| 0 <= i < s.drop_last().len() && s.drop_last()[i] == y;
        assert(s[i] == y);
    }
}

/// The states from which a depth-first descent is well defined: a nonempty
/// stack of in-range nodes over a well-formed graph.
pub open spec fn descend_state_ok<T>(g: UndirectedGraph<T>, stack: Seq<usize>, vis: Seq<bool>) -> bool {
    &&& g.wf()
    &&& stack.len() > 0
    &&& vis.len() == g.node_count()
    &&& forall|i: int| 0 <= i < stack.len() ==> (#[trigger] stack[i]) < g.node_count()
}

/// The state a depth-first pull reaches by descending greedily from the top
/// of the stack: as long as the top node has a yet-unvisited neighbor, the
/// first such neighbor is marked visited and pushed.
pub open spec fn dfs_descend<T>(g: UndirectedGraph<T>, stack: Seq<usize>, vis: Seq<bool>) -> (Seq<
    usize,
>, Seq<bool>)
    decreases count_unvisited(vis),
    when descend_state_ok(g, stack, vis)
    via dfs_descend_decreases::<T>
{
    let top = stack.last();
    match first_unvisited(g.adjacency()[top as int], vis) {
        None => (stack, vis),
        Some(v) => dfs_descend(g, stack.push(v), vis.update(v as int, true)),
    }
}

#[via_fn]
proof fn dfs_descend_decreases<T>(g: UndirectedGraph<T>, stack: Seq<usize>, vis: Seq<bool>) {
    let top = stack.last();
    let adj = g.adjacency()[top as int];
    match first_unvisited(adj, vis) {
        None => {},
        Some(v) => {
            lemma_first_unvisited_some(adj, vis);
            let i = choose|i: int| 0 <= i < adj.len() && adj[i] == v;
            assert(v < g.node_count());
            lemma_count_unvisited_update(vis, v as int);
        },
    }
}

/// Finds the first entry of `adj` that the visited map does not yet hold.
fn find_first_unvisited(adj: &Vec<usize>, visited: &Vec<bool>) -> (r: Option<usize>)
    requires
        forall|i: int| 0 <= i < adj@.len() ==> (#[trigger] adj@[i]) < visited@.len(),
    ensures
        r == first_unvisited(adj@, visited@),
{
    let m = adj.len();
    for i in 0..m
        invariant
            m == adj@.len(),
            forall|j: int| 0 <= j < adj@.len() ==> (#[trigger] adj@[j]) < visited@.len(),
            forall|j: int| 0 <= j < i ==> visited@[#[trigger] adj@[j] as int],
    {
        let v = adj[i];
        if !visited[v] {
            proof {
                lemma_first_unvisited_skip(adj@, visited@, i as int);
                assert(adj@.skip(i as int).len() > 0);
                assert(adj@.skip(i as int)[0] == adj@[i as int]);
            }
            return Some(v);
        }
    }
    proof {
        lemma_first_unvisited_skip(adj@, visited@, adj@.len() as int);
        assert(adj@.skip(adj@.len() as int) =~= Seq::<usize>::empty());
    }
    None
}

/// Marking and pushing a yet-unvisited neighbor of the stack top preserves
/// the traversal invariant.
proof fn lemma_dfs_push_step<T>(
    g: UndirectedGraph<T>,
    start: usize,
    popped: Seq<usize>,
    stack: Seq<usize>,
    vis: Seq<bool>,
    v: usize,
)
    requires
        traversal_invariant(g, start, popped, stack, vis),
        stack.len() > 0,
        g.adjacency()[stack.last() as int].contains(v),
        v < g.node_count(),
        !vis[v as int],
    ensures
        traversal_invariant(g, start, popped, stack.push(v), vis.update(v as int, true)),
{
    let n = g.node_count();
    let vis2 = vis.update(v as int, true);
    let stack2 = stack.push(v);
    let c = popped + stack;
    let c2 = popped + stack2;
    assert(c2 =~= c.push(v));
    assert(!c.contains(v));
    assert forall|i: int, j: int| 0 <= i < j < c2.len() implies c2[i] != c2[j] by {
        if j < c.len() {
            assert(c2[i] == c[i] && c2[j] == c[j]);
        } else {
            assert(c2[j] == v);
            assert(c2[i] == c[i]);
            if c2[i] == v {
                assert(c.contains(v)) by { assert(c[i] == v) }
            }
        }
    }
    assert forall|x: usize| x < n implies (vis2[x as int] <==> c2.contains(x)) by {
        lemma_push_contains(c, v, x);
    }
    assert forall|x: usize| x < n && vis2[x as int] implies reachable(g, start, x) by {
        if !vis[x as int] {
            assert(x == v);
            let u = stack.last();
            assert(vis[u as int]);
            assert(reachable(g, start, u));
            lemma_reachable_step(g, start, u, v);
        }
    }
}

/// Popping a stack top with no remaining unvisited neighbor preserves the
/// traversal invariant, moving the top to the yielded nodes.
proof fn lemma_dfs_pop_step<T>(
    g: UndirectedGraph<T>,
    start: usize,
    popped: Seq<usize>,
    stack: Seq<usize>,
    vis: Seq<bool>,
)
    requires
        traversal_invariant(g, start, popped, stack, vis),
        stack.len() > 0,
        first_unvisited(g.adjacency()[stack.last() as int], vis) is None,
    ensures
        traversal_invariant(g, start, popped.push(stack.last()), stack.drop_last(), vis),
{
    let n = g.node_count();
    let u = stack.last();
    let popped2 = popped.push(u);
    let stack2 = stack.drop_last();
    let c = popped + stack;
    let c2 = popped2 + stack2;
    // c2 is a reordering of c: the former stack top moves before the rest
    assert forall|i: int| 0 <= i < c2.len() implies c2[i] == c[
        if i < popped.len() {
            i
        } else if i == popped.len() {
            c.len() - 1
        } else {
            i - 1
        }
    ] by {
        if i < popped.len() {
        } else if i == popped.len() {
            assert(c2[i] == u);
            assert(c[c.len() - 1] == stack.last());
        } else {
            assert(c2[i] == stack2[i - popped.len() - 1]);
            assert(stack2[i - popped.len() - 1] == stack[i - popped.len() - 1]);
            assert(c[i - 1] == stack[i - 1 - popped.len()]);
        }
    }
    assert forall|i: int, j: int| 0 <= i < j < c2.len() implies c2[i] != c2[j] by {
        let mi = if i < popped.len() {
            i
        } else if i == popped.len() {
            c.len() - 1
        } else {
            i - 1
        };
        let mj = if j < popped.len() {
            j
        } else if j == popped.len() {
            c.len() - 1
        } else {
            j - 1
        };
        assert(c2[i] == c[mi] && c2[j] == c[mj]);
        assert(mi != mj);
        if mi < mj {
            assert(c[mi] != c[mj]);
        } else {
            assert(c[mj] != c[mi]);
        }
    }
    assert forall|x: usize| x < n implies (vis[x as int] <==> c2.contains(x)) by {
        lemma_push_contains(popped, u, x);
        lemma_last_contains(stack, x);
        lemma_concat_contains(popped, stack, x);
        lemma_concat_contains(popped2, stack2, x);
    }
    assert forall|i: int, j: int|
        0 <= i < popped2.len() && 0 <= j < g.adjacency()[popped2[i] as int].len() implies vis[#[trigger] g.adjacency()[
        popped2[i] as int
    ][j] as int] by {
        if i < popped.len() {
            assert(popped2[i] == popped[i]);
            assert(vis[g.adjacency()[popped[i] as int][j] as int]);
        } else {
            assert(popped2[i] == u);
            lemma_first_unvisited_none(g.adjacency()[u as int], vis);
        }
    }
}

/// A lazy depth-first traversal producer: holds a read-only borrow of the
/// graph, the descent stack, and the visited map.  On each pull it descends
/// greedily from the stack top, then pops and yields; the nodes yielded so
/// far are recorded in ghost state.
pub struct DfsIterator<'a, T> {
    graph: &'a UndirectedGraph<T>,
    stack: Vec<usize>,
    visited: Vec<bool>,
    start: Ghost<usize>,
    popped: Ghost<Seq<usize>>,
}

impl<'a, T> DfsIterator<'a, T> {
    /// The traversed graph.
    pub closed spec fn graph_view(&self) -> UndirectedGraph<T> {
        *self.graph
    }

    /// The descent stack, bottom first.
    pub closed spec fn stack_view(&self) -> Seq<usize> {
        self.stack@
    }

    /// The visited map.
    pub closed spec fn visited_view(&self) -> Seq<bool> {
        self.visited@
    }

    /// The nodes yielded so far, in order.
    pub closed spec fn popped_view(&self) -> Seq<usize> {
        self.popped@
    }

    /// The node the traversal started from.
    pub closed spec fn start_node(&self) -> usize {
        self.start@
    }

    pub open spec fn wf(&self) -> bool {
        traversal_invariant(
            self.graph_view(),
            self.start_node(),
            self.popped_view(),
            self.stack_view(),
            self.visited_view(),
        )
    }
}

impl<'a, T: Copy> DfsIterator<'a, T> {
    /// Starts a depth-first traversal at `start`: the start node is marked
    /// visited and pushed.
    pub fn new(graph: &'a UndirectedGraph<T>, start: usize) -> (it: DfsIterator<'a, T>)
        requires
            graph.wf(),
            start < graph.node_count(),
        ensures
            it.wf(),
            it.graph_view() == *graph,
            it.start_node() == start,
            it.stack_view() == seq![start],
            it.popped_view() == Seq::<usize>::empty(),
            it.visited_view() == Seq::new(graph.node_count(), |i: int| i == start),
    {
        let size = graph.size();
        let mut visited: Vec<bool> = Vec::with_capacity(size);
        for i in 0..size
            invariant
                visited@.len() == i,
                forall|j: int| 0 <= j < i ==> (#[trigger] visited@[j] <==> j == start),
        {
            visited.push(i == start);
        }
        let it = DfsIterator {
            graph,
            stack: vec![start],
            visited,
            start: Ghost(start),
            popped: Ghost(Seq::empty()),
        };
        proof {
            assert(it.visited_view() =~= Seq::new(graph.node_count(), |i: int| i == start));
            let c = it.popped_view() + it.stack_view();
            assert(c.len() == 1 && c[0] == start);
            assert forall|x: usize| x < graph.node_count() implies (it.visited_view()[x as int]
                <==> c.contains(x)) by {
                if c.contains(x) {
                    let i = choose|i: int| 0 <= i < c.len() && c[i] == x;
                    assert(i == 0);
                }
                if x == start {
                    assert(c[0] == x);
                }
            }
            assert forall|x: usize|
                x < graph.node_count() && it.visited_view()[x as int] implies reachable(
                *graph,
                start,
                x,
            ) by {
                lemma_reachable_refl(*graph, start);
            }
        }
        it
    }

    /// One depth-first pull.  When the stack is empty the traversal is
    /// exhausted and the state is unchanged.  Otherwise the producer descends
    /// greedily from the stack top, marking and pushing the first
    /// yet-unvisited neighbor until none remains, then pops the top node and
    /// yields its payload (or `None` when it has none).
    pub fn next(&mut self) -> (r: Option<T>)
        requires
            old(self).wf(),
        ensures
            final(self).wf(),
            final(self).graph_view() == old(self).graph_view(),
            final(self).start_node() == old(self).start_node(),
            old(self).stack_view().len() == 0 ==> {
                &&& r is None
                &&& final(self).stack_view() == old(self).stack_view()
                &&& final(self).visited_view() == old(self).visited_view()
                &&& final(self).popped_view() == old(self).popped_view()
            },
            old(self).stack_view().len() > 0 ==> {
                let d = dfs_descend(
                    old(self).graph_view(),
                    old(self).stack_view(),
                    old(self).visited_view(),
                );
                let u = d.0.last();
                &&& final(self).stack_view() == d.0.drop_last()
                &&& final(self).visited_view() == d.1
                &&& final(self).popped_view() == old(self).popped_view().push(u)
                &&& r == old(self).graph_view().payloads()[u as int]
            },
    {
        if self.stack.len() == 0 {
            return None;
        }
        let g = self.graph;
        let ghost s0 = self.stack@;
        let ghost vis0 = self.visited@;
        loop
            invariant
                self.graph == g,
                *g == old(self).graph_view(),
                self.start == old(self).start,
                self.popped == old(self).popped,
                self.stack@.len() > 0,
                traversal_invariant(*g, self.start@, self.popped@, self.stack@, self.visited@),
                dfs_descend(*g, self.stack@, self.visited@) == dfs_descend(*g, s0, vis0),
            ensures
                self.graph == g,
                *g == old(self).graph_view(),
                self.start == old(self).start,
                self.popped == old(self).popped,
                self.stack@.len() > 0,
                traversal_invariant(*g, self.start@, self.popped@, self.stack@, self.visited@),
                (self.stack@, self.visited@) == dfs_descend(*g, s0, vis0),
                first_unvisited(g.adjacency()[self.stack@.last() as int], self.visited@) is None,
            decreases count_unvisited(self.visited@),
        {
            let top = self.stack[self.stack.len() - 1];
            let found = find_first_unvisited(g.from(top), &self.visited);
            match found {
                Some(v) => {
                    proof {
                        lemma_first_unvisited_some(g.adjacency()[top as int], self.visited@);
                        let i = choose|i: int|
                            0 <= i < g.adjacency()[top as int].len() && g.adjacency()[
                                top as int
                            ][i] == v;
                        assert(v < g.node_count());
                        assert(dfs_descend(*g, self.stack@, self.visited@) == dfs_descend(
                            *g,
                            self.stack@.push(v),
                            self.visited@.update(v as int, true),
                        ));
                        lemma_dfs_push_step(
                            *g,
                            self.start@,
                            self.popped@,
                            self.stack@,
                            self.visited@,
                            v,
                        );
                        lemma_count_unvisited_update(self.visited@, v as int);
                    }
                    self.visited[v] = true;
                    self.stack.push(v);
                },
                None => {
                    proof {
                        assert(dfs_descend(*g, self.stack@, self.visited@) == (
                            self.stack@,
                            self.visited@,
                        ));
                    }
                    break ;
                },
            }
        }
        let ghost pre_stack = self.stack@;
        let ghost pre_vis = self.visited@;
        let u = self.stack.pop().unwrap();
        proof {
            assert(u == pre_stack.last());
            assert(self.stack@ == pre_stack.drop_last());
            lemma_dfs_pop_step(*g, self.start@, self.popped@, pre_stack, pre_vis);
            self.popped = Ghost(self.popped@.push(u));
        }
        let d = self.graph.data[u];
        d
    }
}

/// Once a depth-first traversal is exhausted it has yielded exactly the
/// nodes reachable from its start node, each exactly once.
pub proof fn lemma_dfs_exhausted_yields_reachable<T>(it: &DfsIterator<T>)
    requires
        it.wf(),
        it.stack_view().len() == 0,
    ensures
        forall|v: usize|
            v < it.graph_view().node_count() ==> (it.popped_view().contains(v) <==> reachable(
                it.graph_view(),
                it.start_node(),
                v,
            )),
        all_distinct(it.popped_view()),
        it.popped_view().len() == reachable_set(it.graph_view(), it.start_node()).len(),
{
    assert(it.stack_view() =~= Seq::<usize>::empty());
    lemma_traversal_exhausted(it.graph_view(), it.start_node(), it.popped_view(), it.visited_view());
}

/// Symmetry of the adjacency relation: `v` appears among the neighbors of `u`
/// exactly when `u` appears among the neighbors of `v`.  This holds of every
/// well-formed graph, hence after any sequence of `add_edge` calls.
pub proof fn lemma_neighbors_symmetric<T>(g: &UndirectedGraph<T>, u: usize, v: usize)
    requires
        g.wf(),
        u < g.node_count(),
        v < g.node_count(),
    ensures
        g.adjacency()[u as int].contains(v) <==> g.adjacency()[v as int].contains(u),
{
}

} // verus!
