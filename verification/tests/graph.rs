use critter_graph::ann_graph::{AnnGraph, GraphError};

#[test]
fn sequential_ids_from_empty() {
    let mut g: AnnGraph<i32, i32> = AnnGraph::new();
    assert_eq!(g.add_node(10, vec![]), Ok(0));
    assert_eq!(g.add_node(11, vec![]), Ok(1));
    assert_eq!(g.add_node(12, vec![]), Ok(2));
    assert_eq!(g.nodes().len(), 3);
    assert_eq!(g.edges().len(), 0);
}

#[test]
fn symmetric_adjacency_after_linking() {
    let mut g: AnnGraph<i32, i32> = AnnGraph::new();
    assert_eq!(g.add_node(1, vec![]), Ok(0));
    assert_eq!(g.edges().len(), 0);
    let id = g.add_node(2, vec![(0, 99)]).unwrap();
    assert_eq!(id, 1);
    assert_eq!(g.edges().len(), 1);
    assert_eq!(g.neighbour_ids(0), Ok(vec![1]));
    assert_eq!(g.neighbour_ids(1), Ok(vec![0]));
}

#[test]
fn add_node_unknown_neighbour_fails_and_leaves_graph_unchanged() {
    let mut g: AnnGraph<i32, i32> = AnnGraph::new();
    g.add_node(1, vec![]).unwrap();
    let r = g.add_node(2, vec![(5, 0)]);
    assert_eq!(r, Err(GraphError::IndexOutOfRange));
    assert_eq!(g.nodes().len(), 1);
    assert_eq!(g.edges().len(), 0);
    assert_eq!(g.neighbour_ids(0), Ok(vec![]));
}

#[test]
fn duplicate_neighbour_mentions_make_parallel_edges() {
    let mut g: AnnGraph<i32, i32> = AnnGraph::new();
    g.add_node(0, vec![]).unwrap();
    g.add_node(1, vec![(0, 1), (0, 2)]).unwrap();
    assert_eq!(g.edges().len(), 2);
    assert_eq!(g.neighbour_ids(0), Ok(vec![1, 1]));
    assert_eq!(g.neighbour_ids(1), Ok(vec![0, 0]));
}

#[test]
fn get_node_and_lookups_report_out_of_range() {
    let mut g: AnnGraph<i32, i32> = AnnGraph::new();
    g.add_node(7, vec![]).unwrap();
    assert_eq!(g.get_node(0), Ok(&7));
    assert_eq!(g.get_node(1), Err(GraphError::IndexOutOfRange));
    assert_eq!(g.neighbour_ids(3), Err(GraphError::IndexOutOfRange));
    assert_eq!(g.neighbours(3).unwrap_err(), GraphError::IndexOutOfRange);
}

#[test]
fn ends_resolves_both_endpoints_in_stored_order() {
    let mut g: AnnGraph<i32, i32> = AnnGraph::new();
    g.add_node(5, vec![]).unwrap();
    g.add_node(6, vec![(0, 1)]).unwrap();
    let es = g.edges();
    assert_eq!(es.len(), 1);
    let (a, b) = g.ends(&es[0]).unwrap();
    assert_eq!((*a, *b), (6, 5));
}

#[test]
fn ends_rejects_edge_of_a_larger_graph() {
    let mut big: AnnGraph<i32, i32> = AnnGraph::new();
    big.add_node(0, vec![]).unwrap();
    big.add_node(1, vec![(0, 9)]).unwrap();
    let small: AnnGraph<i32, i32> = AnnGraph::new();
    let e = &big.edges()[0];
    assert_eq!(small.ends(e).unwrap_err(), GraphError::IndexOutOfRange);
}

#[test]
fn modify_nodes_preserves_structure_and_maps_values() {
    let mut g: AnnGraph<i32, i32> = AnnGraph::new();
    g.add_node(1, vec![]).unwrap();
    g.add_node(2, vec![(0, 10)]).unwrap();
    g.add_node(3, vec![(1, 20)]).unwrap();
    let g2 = g.modify_nodes(|id, v| *v * 10 + id as i32);
    let vals: Vec<i32> = g2.nodes().iter().map(|v| **v).collect();
    assert_eq!(vals, vec![10, 21, 32]);
    assert_eq!(g2.edges().len(), 2);
    for i in 0..3 {
        assert_eq!(g2.neighbour_ids(i), g.neighbour_ids(i));
    }
    let old_vals: Vec<i32> = g.nodes().iter().map(|v| **v).collect();
    assert_eq!(old_vals, vec![1, 2, 3]);
}

#[test]
fn modify_nodes_update_is_synchronous_on_a_chain() {
    let mut g: AnnGraph<i64, i32> = AnnGraph::new();
    g.add_node(1, vec![]).unwrap();
    g.add_node(2, vec![(0, 0)]).unwrap();
    g.add_node(3, vec![(1, 0)]).unwrap();
    let g2 = g.modify_nodes(|id, v| {
        let mut s = *v;
        for n in g.neighbours(id).unwrap() {
            s += *n;
        }
        s
    });
    let vals: Vec<i64> = g2.nodes().iter().map(|v| **v).collect();
    assert_eq!(vals, vec![3, 6, 5]);
}

#[test]
fn neighbours_resolve_in_adjacency_order() {
    let mut g: AnnGraph<char, i32> = AnnGraph::new();
    g.add_node('a', vec![]).unwrap();
    g.add_node('b', vec![]).unwrap();
    g.add_node('c', vec![(1, 0), (0, 0)]).unwrap();
    let ns: Vec<char> = g.neighbours(2).unwrap().iter().map(|v| **v).collect();
    assert_eq!(ns, vec!['b', 'a']);
}
