use digraph_rs::analyzer::dijkstra::{DijkstraPath, MinPath};
use digraph_rs::analyzer::min_weight::{MinWeight, Score};
use digraph_rs::analyzer::min_weight::Score::{Inf, Value, Zero};
use digraph_rs::DiGraph;
use digraph_rs::EmptyPayload;

fn cycled_graph() -> DiGraph<EmptyPayload, u64> {
    let mut g: DiGraph<EmptyPayload, u64> = DiGraph::new();
    for id in 1..=11u64 {
        g.add_bare_node(id);
    }
    g.add_edge(1, 2, 1);
    g.add_edge(1, 3, 1);
    g.add_edge(2, 4, 2);
    g.add_edge(3, 5, 3);
    g.add_edge(4, 6, 1);
    g.add_edge(5, 6, 1);
    g.add_edge(5, 11, 4);
    g.add_edge(6, 7, 1);
    g.add_edge(6, 1, 1);
    g.add_edge(7, 8, 1);
    g.add_edge(7, 9, 2);
    g.add_edge(7, 10, 3);
    g.add_edge(8, 11, 1);
    g.add_edge(9, 11, 1);
    g.add_edge(10, 11, 1);
    g
}

#[test]
fn dijkstra_simple_test() {
    // the frontier entry order is the reverse of the score order, so
    // sorting in decreasing entry order yields increasing scores
    let mut q = vec![
        MinWeight(EmptyPayload, Zero),
        MinWeight(EmptyPayload, Inf),
        MinWeight(EmptyPayload, Value(1)),
        MinWeight(EmptyPayload, Value(5)),
        MinWeight(EmptyPayload, Value(3)),
        MinWeight(EmptyPayload, Zero),
    ];
    q.sort_by(|a, b| b.partial_cmp(a).unwrap());

    assert_eq!(q[0], MinWeight(EmptyPayload, Zero));
    assert_eq!(q[1], MinWeight(EmptyPayload, Zero));
    assert_eq!(q[2], MinWeight(EmptyPayload, Value(1)));
    assert_eq!(q[3], MinWeight(EmptyPayload, Value(3)));
    assert_eq!(q[4], MinWeight(EmptyPayload, Value(5)));
    assert_eq!(q[5], MinWeight(EmptyPayload, Inf));
    assert_eq!(q.len(), 6);
}

#[test]
fn simple_dijkstra_test() {
    let mut graph: DiGraph<EmptyPayload, u64> = DiGraph::new();
    for id in 1..=11u64 {
        graph.add_bare_node(id);
    }
    graph.add_edge(1, 2, 1);
    graph.add_edge(1, 3, 1);
    graph.add_edge(2, 4, 2);
    graph.add_edge(3, 5, 3);
    graph.add_edge(4, 6, 1);
    graph.add_edge(5, 6, 1);
    graph.add_edge(6, 7, 1);
    graph.add_edge(7, 8, 1);
    graph.add_edge(7, 9, 2);
    graph.add_edge(7, 10, 3);
    graph.add_edge(8, 11, 1);
    graph.add_edge(9, 11, 1);
    graph.add_edge(10, 11, 1);
    let d = DijkstraPath::new(&graph);
    let d = d.on_edge(1).score(&11);
    println!("{:?}", d)
}

#[test]
fn cycled_dijkstra_test() {
    let graph = cycled_graph();

    let d = DijkstraPath::new(&graph);
    let to = d.on_edge(1).score(&11);
    assert_eq!(to, Some(Value(7)));

    let d = DijkstraPath::new(&graph);
    let to = d.on_edge(8).score(&1);
    assert_eq!(to, Some(Inf));

    let d = DijkstraPath::new(&graph);
    let to = d.on_edge(1).trail(&11);
    assert_eq!(to, Some(vec![1, 2, 4, 6, 7, 8, 11]));

    let d = DijkstraPath::new(&graph);
    let to = d.on_edge(8).trail(&1);
    assert_eq!(to, None);
}

#[test]
fn viz_cycled_dijkstra_test() {
    let graph = cycled_graph();

    let d = DijkstraPath::new(&graph);
    let to = d.on_edge(1).trail(&11).unwrap();
    assert_eq!(to, vec![1, 2, 4, 6, 7, 8, 11]);
}

#[test]
fn viz_l_cycled_dijkstra_test() {
    let mut graph: DiGraph<&str, u64> = DiGraph::new();
    let labels = ["a", "b", "c", "d", "e", "f", "g", "h", "y", "u", "i"];
    for id in 1..=11u64 {
        graph.add_node(id, labels[(id - 1) as usize]);
    }
    graph.add_edge(1, 2, 1);
    graph.add_edge(1, 3, 1);
    graph.add_edge(2, 4, 2);
    graph.add_edge(3, 5, 3);
    graph.add_edge(4, 6, 1);
    graph.add_edge(5, 6, 1);
    graph.add_edge(5, 11, 4);
    graph.add_edge(6, 7, 1);
    graph.add_edge(6, 1, 1);
    graph.add_edge(7, 8, 1);
    graph.add_edge(7, 9, 2);
    graph.add_edge(7, 10, 3);
    graph.add_edge(8, 11, 1);
    graph.add_edge(9, 11, 1);
    graph.add_edge(10, 11, 1);
    let dijkstra = DijkstraPath::new(&graph);
    let map = dijkstra.on_edge(1);
    let to = map.trail(&11).unwrap();
    assert_eq!(to, vec![1, 2, 4, 6, 7, 8, 11]);
}

#[derive(Clone, Ord, PartialOrd, PartialEq, Eq)]
struct One(usize);

impl Default for One {
    fn default() -> Self {
        One(1)
    }
}

#[test]
fn one_dijkstra_test() {
    let mut graph: DiGraph<EmptyPayload, One> = DiGraph::new();
    for id in 1..=8u64 {
        graph.add_bare_node(id);
    }
    graph.add_bare_edge(1, 2);
    graph.add_bare_edge(1, 3);
    graph.add_bare_edge(1, 4);
    graph.add_bare_edge(2, 5);
    graph.add_bare_edge(3, 5);
    graph.add_bare_edge(4, 6);
    graph.add_bare_edge(5, 6);
    graph.add_bare_edge(6, 7);
    graph.add_bare_edge(7, 8);
    let d_path = DijkstraPath::new(&graph);
    let path = d_path.on_edge_custom(1, |el: &One| el.0 as u64);
    let trail = path.trail(&8).unwrap();
    assert_eq!(trail.first(), Some(&1));
    assert_eq!(trail.last(), Some(&8));
}

#[test]
fn trail_to_source_is_none() {
    let graph = cycled_graph();
    let d = DijkstraPath::new(&graph);
    // the source has no predecessor entry, so its own trail is absent
    assert_eq!(d.on_edge(1).trail(&1), None);
}

#[test]
fn min_path_lookup_of_unknown_node() {
    let p = MinPath::new(1, vec![(1, Zero), (2, Value(4))], vec![(2, 1)]);
    assert_eq!(p.score(&2), Some(Value(4)));
    assert_eq!(p.score(&9), None);
    assert_eq!(p.trail(&2), Some(vec![1, 2]));
}
