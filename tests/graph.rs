use backend::{Edge, Graph, Node};

fn node(id: i32) -> Node {
    Node { id, x: id * 10, y: -id }
}

fn edge(a: i32, b: i32, w: i32) -> Edge {
    Edge { node_a_id: a, node_b_id: b, weight: w }
}

fn graph_of(nodes: &[i32], edges: &[(i32, i32, i32)]) -> Graph {
    let mut g = Graph::new();
    for &n in nodes {
        g.add_node(node(n));
    }
    for &(a, b, w) in edges {
        g.add_edge(edge(a, b, w));
    }
    g
}

#[test]
fn two_hop_path_sums_weights() {
    let g = graph_of(&[1, 2, 3], &[(1, 2, 4), (2, 3, 3)]);
    assert_eq!(g.shortest_path(1, 3), 7);
}

#[test]
fn direct_edge_beats_longer_path() {
    let g = graph_of(&[1, 2, 3], &[(1, 2, 4), (2, 3, 3), (1, 3, 5)]);
    assert_eq!(g.shortest_path(1, 3), 5);
}

#[test]
fn isolated_nodes_are_unreachable() {
    let g = graph_of(&[1, 2], &[]);
    assert_eq!(g.shortest_path(1, 2), i32::MAX);
}

#[test]
fn cheaper_parallel_edge_wins() {
    let g = graph_of(&[1, 2], &[(1, 2, 10), (1, 2, 2)]);
    assert_eq!(g.shortest_path(1, 2), 2);
    assert_eq!(g.shortest_path(2, 1), 2);
}

#[test]
fn self_query_on_empty_graph_is_zero() {
    let g = Graph::new();
    assert_eq!(g.shortest_path(42, 42), 0);
    assert_eq!(g.shortest_path(-7, -7), 0);
}

#[test]
fn self_query_with_edges_is_zero() {
    let g = graph_of(&[1, 2], &[(1, 2, 3), (2, 2, 5)]);
    assert_eq!(g.shortest_path(1, 1), 0);
    assert_eq!(g.shortest_path(2, 2), 0);
}

#[test]
fn inserted_edge_bounds_both_directions() {
    let g = graph_of(&[], &[(1, 2, 9), (2, 3, 1), (3, 1, 1)]);
    assert!(g.shortest_path(1, 2) <= 9);
    assert!(g.shortest_path(2, 1) <= 9);
    assert_eq!(g.shortest_path(1, 2), 2);
}

#[test]
fn distances_are_symmetric() {
    let g = graph_of(&[], &[(1, 2, 4), (2, 3, 3), (3, 4, 8), (1, 4, 20), (2, 4, 11)]);
    for a in 1..=5 {
        for b in 1..=5 {
            assert_eq!(g.shortest_path(a, b), g.shortest_path(b, a));
        }
    }
    assert_eq!(g.shortest_path(1, 4), 15);
}

#[test]
fn triangle_inequality_holds() {
    let g = graph_of(&[], &[(1, 2, 4), (2, 3, 3), (3, 4, 8), (1, 4, 20), (5, 6, 1)]);
    for a in 1..=6 {
        for b in 1..=6 {
            for c in 1..=6 {
                let ac = g.shortest_path(a, c) as i64;
                let ab = g.shortest_path(a, b) as i64;
                let bc = g.shortest_path(b, c) as i64;
                assert!(ac <= ab + bc);
            }
        }
    }
}

#[test]
fn other_component_is_unreachable() {
    let g = graph_of(&[1, 2, 3, 4], &[(1, 2, 1), (3, 4, 1)]);
    assert_eq!(g.shortest_path(1, 4), i32::MAX);
    assert_eq!(g.shortest_path(4, 2), i32::MAX);
    assert_eq!(g.shortest_path(3, 4), 1);
}

#[test]
fn unknown_source_is_unreachable() {
    let g = graph_of(&[1, 2], &[(1, 2, 1)]);
    assert_eq!(g.shortest_path(99, 1), i32::MAX);
    assert_eq!(g.shortest_path(1, 99), i32::MAX);
}

#[test]
fn costs_past_the_maximum_are_capped() {
    let g = graph_of(&[], &[(1, 2, i32::MAX - 1), (2, 3, 5)]);
    assert_eq!(g.shortest_path(1, 2), i32::MAX - 1);
    assert_eq!(g.shortest_path(1, 3), i32::MAX);
    assert_eq!(g.shortest_path(2, 3), 5);
}

#[test]
fn zero_weight_edges() {
    let g = graph_of(&[], &[(1, 2, 0), (2, 3, 0), (3, 4, 2)]);
    assert_eq!(g.shortest_path(1, 3), 0);
    assert_eq!(g.shortest_path(4, 1), 2);
}

#[test]
fn stale_entries_do_not_change_the_result() {
    // Node 4 is first reached at cost 10, then improved to 3 through 2 and 3.
    let g = graph_of(&[], &[(1, 4, 10), (1, 2, 1), (2, 3, 1), (3, 4, 1), (4, 5, 1)]);
    assert_eq!(g.shortest_path(1, 4), 3);
    assert_eq!(g.shortest_path(1, 5), 4);
}

#[test]
fn add_edge_stores_both_directions() {
    let mut g = Graph::new();
    g.add_edge(edge(1, 2, 6));
    let forward = g.edges.get(&1).unwrap();
    let backward = g.edges.get(&2).unwrap();
    assert_eq!(forward.len(), 1);
    assert_eq!(backward.len(), 1);
    assert_eq!((forward[0].node_a_id, forward[0].node_b_id, forward[0].weight), (1, 2, 6));
    assert_eq!((backward[0].node_a_id, backward[0].node_b_id, backward[0].weight), (2, 1, 6));
}

#[test]
fn self_loop_is_stored_twice() {
    let mut g = Graph::new();
    g.add_edge(edge(3, 3, 2));
    assert_eq!(g.edges.get(&3).unwrap().len(), 2);
    assert_eq!(g.shortest_path(3, 3), 0);
}

#[test]
fn add_node_overwrites_same_id() {
    let mut g = Graph::new();
    g.add_node(Node { id: 1, x: 0, y: 0 });
    g.add_node(Node { id: 1, x: 5, y: 6 });
    g.add_node(Node { id: 2, x: 1, y: 1 });
    assert_eq!(g.nodes.len(), 2);
    let n = g.nodes.get(&1).unwrap();
    assert_eq!((n.x, n.y), (5, 6));
    assert!(g.edges.is_empty());
}

#[test]
fn path_without_node_records() {
    let g = graph_of(&[], &[(10, 20, 3), (20, 30, 4)]);
    assert!(g.nodes.is_empty());
    assert_eq!(g.shortest_path(30, 10), 7);
}
