use digraph_rs::analyzer::fs::{BFS, DFS};
use digraph_rs::analyzer::SearchRes;
use digraph_rs::DiGraph;
use digraph_rs::EmptyPayload;

fn reach_graph() -> DiGraph<EmptyPayload, EmptyPayload> {
    let mut g = DiGraph::empty();
    for id in 1..=10u64 {
        g.add_bare_node(id);
    }
    g.add_bare_edge(1, 2);
    g.add_bare_edge(2, 3);
    g.add_bare_edge(2, 4);
    g.add_bare_edge(2, 5);
    g.add_bare_edge(3, 6);
    g.add_bare_edge(6, 1);
    g.add_bare_edge(6, 7);
    g.add_bare_edge(6, 8);
    g.add_bare_edge(8, 9);
    g.add_bare_edge(9, 1);
    g.add_bare_edge(9, 10);
    g
}

#[test]
fn bfs_simple_test() {
    let graph = reach_graph();
    let bfs = BFS::new(&graph);
    let res = bfs.search_by_eq(&1, &10);
    assert_eq!(res, Some(10))
}

#[test]
fn simple_test2() {
    let graph = reach_graph();
    let dfs = DFS::new(&graph);
    let res = dfs.search_by_eq(&1, &10);
    assert_eq!(res, Some(10))
}

#[test]
fn cap_test() {
    let graph = reach_graph();

    let dfs = DFS::new(&graph);
    let bfs = BFS::new(&graph);

    let res = dfs.search(&1, move |n: &u64| {
        if &10 == n {
            SearchRes::Find
        } else {
            println!("n = {}", n);
            SearchRes::Next
        }
    });
    assert_eq!(res, Some(10));

    println!("bfs");

    let res = bfs.search(&1, move |n: &u64| {
        if &10 == n {
            SearchRes::Find
        } else {
            println!("n = {}", n);
            SearchRes::Next
        }
    });
    assert_eq!(res, Some(10));
}

#[test]
fn unreachable_search_is_none() {
    let mut g: DiGraph<EmptyPayload, EmptyPayload> = DiGraph::new();
    g.add_bare_node(1);
    g.add_bare_node(2);
    g.add_bare_node(3);
    g.add_bare_edge(1, 2);
    let bfs = BFS::new(&g);
    assert_eq!(bfs.search_by_eq(&1, &3), None);
    let dfs = DFS::new(&g);
    assert_eq!(dfs.search_by_eq(&1, &3), None);
}

#[test]
fn stop_aborts_search() {
    let graph = reach_graph();
    let dfs = DFS::new(&graph);
    let res = dfs.search(&1, |_n: &u64| SearchRes::Stop);
    assert_eq!(res, None);
}

#[test]
fn skip_drops_branch() {
    let mut g: DiGraph<EmptyPayload, EmptyPayload> = DiGraph::new();
    for id in 1..=3u64 {
        g.add_bare_node(id);
    }
    g.add_bare_edge(1, 2);
    g.add_bare_edge(2, 3);
    let bfs = BFS::new(&g);
    // the only way to 3 leads through 2, whose branch is dropped
    let res = bfs.search(&1, |n: &u64| {
        if *n == 3 {
            SearchRes::Find
        } else if *n == 2 {
            SearchRes::Skip
        } else {
            SearchRes::Next
        }
    });
    assert_eq!(res, None);
}

#[test]
fn self_loops_and_cycles_are_safe() {
    let mut g: DiGraph<EmptyPayload, EmptyPayload> = DiGraph::new();
    g.add_bare_node(1);
    g.add_bare_node(2);
    g.add_bare_edge(1, 1);
    g.add_bare_edge(1, 2);
    g.add_bare_edge(2, 1);
    let bfs = BFS::new(&g);
    assert_eq!(bfs.search_by_eq(&1, &2), Some(2));
}

#[test]
fn traversal_orders_differ() {
    let mut g: DiGraph<EmptyPayload, EmptyPayload> = DiGraph::new();
    g.add_bare_node(1);
    g.add_bare_node(2);
    g.add_bare_node(3);
    g.add_bare_edge(1, 2);
    g.add_bare_edge(1, 3);
    // both children would be found; the frontier order decides which
    let bfs = BFS::new(&g);
    let res = bfs.search(&1, |n: &u64| {
        if *n == 1 {
            SearchRes::Next
        } else {
            SearchRes::Find
        }
    });
    assert_eq!(res, Some(2));
    let dfs = DFS::new(&g);
    let res = dfs.search(&1, |n: &u64| {
        if *n == 1 {
            SearchRes::Next
        } else {
            SearchRes::Find
        }
    });
    assert_eq!(res, Some(3));
}
