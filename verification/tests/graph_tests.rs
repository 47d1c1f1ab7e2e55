use structures::undirected_graph::UndirectedGraph;
use structures::weighted_graph::WeightedGraph;

fn collect_dfs(g: &UndirectedGraph<i32>, start: usize) -> Vec<i32> {
    let mut out = Vec::new();
    let mut it = g.dfs(start);
    while let Some(x) = it.next() {
        out.push(x);
    }
    out
}

fn collect_bfs(g: &UndirectedGraph<i32>, start: usize) -> Vec<i32> {
    let mut out = Vec::new();
    let mut it = g.bfs(start);
    while let Some(x) = it.next() {
        out.push(x);
    }
    out
}

#[test]
fn simple_graph() {
    let mut s = UndirectedGraph::<i32>::new(3);
    s.add_edge(0, 1);
    s.add_edge(1, 2);
    assert_eq!(s.from(0), &[1]);
    assert_eq!(s.from(1), &[0, 2]);
    assert_eq!(s.from(2), &[1]);
}

#[test]
fn size_non_zero() {
    let s = UndirectedGraph::<i32>::new(10);
    assert_eq!(s.size(), 10);
}

#[test]
fn size_zero() {
    let s = UndirectedGraph::<i32>::new(0);
    assert_eq!(s.size(), 0);
}

#[test]
fn with_data() {
    let mut s = UndirectedGraph::<i32>::new(2);
    s.set_data(0, 1337);
    assert_eq!(*s.get_data(0).unwrap(), 1337);
    assert!(s.get_data(1).is_none());
}

#[test]
fn data_out_of_range() {
    let mut s = UndirectedGraph::<i32>::new(2);
    // setting data out of range is a silent no-op, reading it yields absent
    s.set_data(5, 7);
    assert!(s.get_data(5).is_none());
    assert!(s.get_data(0).is_none());
    assert_eq!(s.size(), 2);
}

#[test]
fn parallel_edges_and_self_loop() {
    let mut s = UndirectedGraph::<i32>::new(2);
    s.add_edge(0, 1);
    s.add_edge(0, 1);
    s.add_edge(1, 1);
    assert_eq!(s.from(0), &[1, 1]);
    assert_eq!(s.from(1), &[0, 0, 1, 1]);
}

#[test]
fn depth_first_search() {
    let mut s = UndirectedGraph::<i32>::new(5);
    s.set_data(0, 0);
    s.set_data(1, 1);
    s.set_data(2, 2);
    s.set_data(3, 3);
    s.set_data(4, 4);

    s.add_edge(0, 1);
    s.add_edge(0, 2);

    s.add_edge(1, 3);
    s.add_edge(3, 4);

    assert_eq!(collect_dfs(&s, 2), vec![4, 3, 1, 0, 2]);
    assert_eq!(collect_dfs(&s, 1), vec![2, 0, 4, 3, 1]);
}

#[test]
fn breadth_first_search() {
    let mut s = UndirectedGraph::<i32>::new(5);
    s.set_data(0, 0);
    s.set_data(1, 1);
    s.set_data(2, 2);
    s.set_data(3, 3);
    s.set_data(4, 4);

    s.add_edge(0, 1);
    s.add_edge(0, 2);

    s.add_edge(1, 3);
    s.add_edge(3, 4);

    assert_eq!(collect_bfs(&s, 2), vec![2, 0, 1, 3, 4]);
    assert_eq!(collect_bfs(&s, 1), vec![1, 0, 3, 2, 4]);
}

#[test]
fn traversals_visit_reachable_component_once() {
    // two components: {0, 1, 2} connected, {3, 4} connected
    let mut s = UndirectedGraph::<i32>::new(5);
    for i in 0..5 {
        s.set_data(i, i as i32);
    }
    s.add_edge(0, 1);
    s.add_edge(1, 2);
    s.add_edge(3, 4);

    let mut dfs = collect_dfs(&s, 0);
    dfs.sort();
    assert_eq!(dfs, vec![0, 1, 2]);

    let mut bfs = collect_bfs(&s, 3);
    bfs.sort();
    assert_eq!(bfs, vec![3, 4]);
}

#[test]
fn traversal_yields_absent_marker_for_missing_payload() {
    // node 1 has no payload: the pull for it yields None, but the
    // traversal goes on and later pulls still yield
    let mut s = UndirectedGraph::<i32>::new(3);
    s.set_data(0, 10);
    s.set_data(2, 30);
    s.add_edge(0, 1);
    s.add_edge(1, 2);

    let mut it = s.bfs(0);
    assert_eq!(it.next(), Some(10));
    assert_eq!(it.next(), None);
    assert_eq!(it.next(), Some(30));
    assert_eq!(it.next(), None);
}

#[test]
fn weighted_graph_basics() {
    let mut g = WeightedGraph::new(10);

    g.add_edge(0, 1, 4);
    g.add_edge(0, 5, 1);
    g.add_edge(1, 2, 4);
    g.add_edge(1, 6, 2);
    g.add_edge(1, 8, 4);
    g.add_edge(2, 3, 5);
    g.add_edge(2, 6, 1);
    g.add_edge(2, 8, 1);
    g.add_edge(3, 4, 1);
    g.add_edge(3, 9, 10);
    g.add_edge(4, 5, 3);
    g.add_edge(4, 6, 5);
    g.add_edge(4, 7, 1);
    g.add_edge(4, 9, 2);
    g.add_edge(5, 6, 1);
    g.add_edge(5, 7, 5);
    g.add_edge(7, 9, 2);
}

#[test]
fn all_pairs_shortest_path() {
    let mut g = WeightedGraph::new(10);

    g.add_edge(0, 1, 4);
    g.add_edge(0, 5, 1);
    g.add_edge(1, 2, 4);
    g.add_edge(1, 6, 2);
    g.add_edge(1, 8, 4);
    g.add_edge(2, 3, 5);
    g.add_edge(2, 6, 1);
    g.add_edge(2, 8, 1);
    g.add_edge(3, 4, 1);
    g.add_edge(3, 9, 10);
    g.add_edge(4, 5, 3);
    g.add_edge(4, 6, 5);
    g.add_edge(4, 7, 1);
    g.add_edge(4, 9, 2);
    g.add_edge(5, 6, 1);
    g.add_edge(5, 7, 5);
    g.add_edge(7, 9, 2);

    let floyd = g.get_floyd();

    assert_eq!(floyd.get_shortest_path(0, 1), 4);
    assert_eq!(floyd.get_shortest_path(0, 5), 1);
    assert_eq!(floyd.get_shortest_path(0, 9), 6);
    assert_eq!(floyd.get_shortest_path(0, 6), 2);
    assert_eq!(floyd.get_shortest_path(3, 1), 7);
}

#[test]
fn recompute_is_identical() {
    let mut g = WeightedGraph::new(6);
    g.add_edge(0, 1, 3);
    g.add_edge(1, 2, 7);
    g.add_edge(2, 3, 1);
    g.add_edge(0, 4, 2);
    g.add_edge(4, 3, 9);

    let a = g.get_floyd();
    let b = g.get_floyd();
    for u in 0..6 {
        for v in 0..6 {
            assert_eq!(a.get_shortest_path(u, v), b.get_shortest_path(u, v));
        }
    }
}

#[test]
fn isolated_node_is_unreachable_from_itself() {
    let g = WeightedGraph::new(1);
    let floyd = g.get_floyd();
    assert_eq!(floyd.get_shortest_path(0, 0), i32::MAX);
}

#[test]
fn self_loop_reaches_itself() {
    let mut g = WeightedGraph::new(1);
    g.add_edge(0, 0, 0);
    let floyd = g.get_floyd();
    assert_eq!(floyd.get_shortest_path(0, 0), 0);
}
