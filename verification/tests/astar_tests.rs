use digraph_rs::analyzer::astar::AStarPath;
use digraph_rs::analyzer::dijkstra::DijkstraPath;
use digraph_rs::DiGraph;
use digraph_rs::EmptyPayload;

fn cycled_graph() -> DiGraph<EmptyPayload, u64> {
    let mut g: DiGraph<EmptyPayload, u64> = DiGraph::new();
    for id in 1..=11u64 {
        g.add_bare_node(id);
    }
    g.add_edge(1, 2, 1);
    g.add_edge(1, 3, 1);
    g.add_edge(2, 4, 2);
    g.add_edge(3, 5, 3);
    g.add_edge(4, 6, 1);
    g.add_edge(5, 6, 1);
    g.add_edge(5, 11, 4);
    g.add_edge(6, 7, 1);
    g.add_edge(6, 1, 1);
    g.add_edge(7, 8, 1);
    g.add_edge(7, 9, 2);
    g.add_edge(7, 10, 3);
    g.add_edge(8, 11, 1);
    g.add_edge(9, 11, 1);
    g.add_edge(10, 11, 1);
    g
}

#[test]
fn astar_simple_test() {
    let graph = cycled_graph();

    let astar = AStarPath::new(&graph);

    let astar_res = astar.on_edge(1, 11, |_from: &u64| 0).path();
    let dijkstra_res = DijkstraPath::new(&graph).on_edge(1).trail(&11).unwrap();

    assert_eq!(astar_res, dijkstra_res);
}

#[test]
fn astar_unreached_target_walk() {
    let graph = cycled_graph();
    let astar = AStarPath::new(&graph);
    // node 1 is not reachable from 8, so the walk never gets back to 8
    let path = astar.on_edge(8, 1, |_from: &u64| 0).path();
    assert_ne!(path.first(), Some(&8));
}

#[test]
fn astar_custom_weights() {
    let mut g: DiGraph<EmptyPayload, (u64, u64)> = DiGraph::new();
    for id in 1..=4u64 {
        g.add_bare_node(id);
    }
    // two routes; the second pair component is the real cost
    g.add_edge(1, 2, (9, 1));
    g.add_edge(2, 4, (9, 1));
    g.add_edge(1, 3, (1, 5));
    g.add_edge(3, 4, (1, 5));
    let astar = AStarPath::new(&g);
    let res = astar.on_edge_custom(1, 4, |_n: &u64| 0, |el: &(u64, u64)| el.1);
    assert_eq!(res.path(), vec![1, 2, 4]);
}

#[test]
fn astar_target_is_start() {
    let graph = cycled_graph();
    let astar = AStarPath::new(&graph);
    // the search returns at once and records nothing
    let path = astar.on_edge(1, 1, |_from: &u64| 0).path();
    assert_eq!(path, Vec::<u64>::new());
}
