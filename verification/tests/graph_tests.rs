use digraph_rs::analyzer::dijkstra::DijkstraPath;
use digraph_rs::DiGraph;
use digraph_rs::EmptyPayload;

fn sample_graph() -> DiGraph<EmptyPayload, u64> {
    let mut g: DiGraph<EmptyPayload, u64> = DiGraph::new();
    for id in 1..=8u64 {
        g.add_bare_node(id);
    }
    g.add_edge(1, 2, 3);
    g.add_edge(1, 3, 1);
    g.add_edge(1, 4, 2);
    g.add_edge(2, 5, 2);
    g.add_edge(3, 5, 2);
    g.add_edge(4, 5, 2);
    g.add_edge(5, 6, 1);
    g.add_edge(6, 7, 2);
    g.add_edge(6, 8, 3);
    g
}

#[test]
fn it_works() {
    let graph = sample_graph();

    assert!(graph.analyze().edge(&1, &2).is_some());
    assert!(graph.analyze().edge(&1, &6).is_none());

    let path_finder = DijkstraPath::new(&graph);
    let paths = path_finder.on_edge(1);
    let trail = paths.trail(&8).unwrap();
    assert_eq!(trail, vec![1, 3, 5, 6, 8]);
}

#[test]
fn lookups_are_idempotent() {
    let mut g: DiGraph<u64, u64> = DiGraph::new();
    g.add_node(1, 10);
    g.add_node(2, 20);
    g.add_edge(1, 2, 7);

    let a1 = g.analyze().node_by_id(&1).copied();
    let a2 = g.analyze().node_by_id(&1).copied();
    assert_eq!(a1, a2);
    assert_eq!(a1, Some(10));

    let e1 = g.analyze().edge(&1, &2).copied();
    let e2 = g.analyze().edge(&1, &2).copied();
    assert_eq!(e1, e2);
    assert_eq!(e1, Some(7));

    let m1 = g.analyze().node_by_id(&9).copied();
    let m2 = g.analyze().node_by_id(&9).copied();
    assert_eq!(m1, m2);
    assert_eq!(m1, None);
}

#[test]
fn insertion_overwrites() {
    let mut g: DiGraph<u64, u64> = DiGraph::new();
    assert_eq!(g.add_node(1, 10), None);
    assert_eq!(g.add_node(1, 11), Some(1));
    assert_eq!(g.analyze().node_by_id(&1), Some(&11));

    assert_eq!(g.add_edge(1, 2, 5), None);
    assert_eq!(g.add_edge(1, 2, 6), Some(5));
    assert_eq!(g.analyze().edge(&1, &2), Some(&6));
}

#[test]
fn first_node_by_payload_finds_earliest() {
    let mut g: DiGraph<u64, u64> = DiGraph::new();
    g.add_node(1, 10);
    g.add_node(2, 20);
    g.add_node(3, 20);
    assert_eq!(g.analyze().first_node_by_payload(&20), Some(&20));
    assert_eq!(g.analyze().first_node_by_payload(&99), None);
    assert_eq!(g.analyze().node(&2, &20), Some(&20));
    assert_eq!(g.analyze().node(&2, &21), None);
}

#[test]
fn start_survives_removal() {
    let mut g: DiGraph<u64, u64> = DiGraph::new();
    assert_eq!(*g.start(), None);
    g.add_node(5, 50);
    g.add_node(6, 60);
    assert_eq!(*g.start(), Some(5));
    assert_eq!(g.remove_node(5), Some(50));
    // the tracked start node is kept even after its removal
    assert_eq!(*g.start(), Some(5));
    assert_eq!(g.analyze().node_by_id(&5), None);
}

#[test]
fn remove_edge_reports_payload() {
    let mut g: DiGraph<u64, u64> = DiGraph::new();
    g.add_node(1, 1);
    g.add_node(2, 2);
    g.add_edge(1, 2, 9);
    assert_eq!(g.remove_edge(1, 2), Some(9));
    assert_eq!(g.remove_edge(1, 2), None);
    assert!(g.analyze().edge(&1, &2).is_none());
    // a source that never had an outgoing edge stays without a row
    assert_eq!(g.remove_edge(7, 8), None);
    assert!(g.descendants(7).is_none());
}

#[test]
fn bare_insertions_store_defaults() {
    let mut g: DiGraph<u64, u64> = DiGraph::new();
    assert_eq!(g.add_bare_node(1), None);
    assert_eq!(g.add_bare_node(2), None);
    assert_eq!(g.add_bare_edge(1, 2), None);
    assert_eq!(g.analyze().node_by_id(&1), Some(&0));
    assert_eq!(g.analyze().edge(&1, &2), Some(&0));
}
