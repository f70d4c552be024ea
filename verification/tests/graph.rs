use exey_engine::render::sort::graph::{topological_sort, Graph};

#[test]
fn empty_graph() {
    let g = Graph::with_nodes(0);
    assert_eq!(topological_sort(&g), Vec::<u32>::new());
}

#[test]
fn no_edges() {
    let g = Graph::with_nodes(3);
    let r = topological_sort(&g);
    assert_eq!(r.len(), 3);
}

#[test]
fn chain() {
    let mut g = Graph::with_nodes(3);
    g.add_edge(0, 1);
    g.add_edge(1, 2);
    assert_eq!(topological_sort(&g), vec![0, 1, 2]);
}

#[test]
fn diamond() {
    let mut g = Graph::with_nodes(4);
    g.add_edge(0, 1);
    g.add_edge(0, 2);
    g.add_edge(1, 3);
    g.add_edge(2, 3);
    let r = topological_sort(&g);
    assert_eq!(r[0], 0);
    assert_eq!(r[3], 3);
}

#[test]
fn cycle_falls_back_gracefully() {
    let mut g = Graph::with_nodes(3);
    g.add_edge(0, 1);
    g.add_edge(1, 2);
    g.add_edge(2, 0);
    let r = topological_sort(&g);
    assert_eq!(r.len(), 3);
}

#[test]
fn nodes_without_edges_come_in_index_order() {
    let g = Graph::with_nodes(3);
    assert_eq!(topological_sort(&g), vec![0, 1, 2]);
}

#[test]
fn nodes_are_taken_first_in_first_out() {
    // 3 and 4 start; 3 frees 1, 4 frees 2, 1 frees 0.
    let mut g = Graph::with_nodes(5);
    g.add_edge(3, 1);
    g.add_edge(4, 2);
    g.add_edge(1, 0);
    assert_eq!(topological_sort(&g), vec![3, 4, 1, 2, 0]);
}

#[test]
fn parallel_edges_are_one_constraint() {
    let mut g = Graph::with_nodes(3);
    g.add_edge(2, 0);
    g.add_edge(2, 0);
    g.add_edge(0, 1);
    assert_eq!(g.edge_count(), 3);
    assert_eq!(topological_sort(&g), vec![2, 0, 1]);
}

#[test]
fn stuck_nodes_come_last_in_index_order() {
    // 1 and 3 form a cycle, 0 hangs off it, 2 and 4 are free.
    let mut g = Graph::with_nodes(5);
    g.add_edge(3, 1);
    g.add_edge(1, 3);
    g.add_edge(1, 0);
    g.add_edge(4, 2);
    assert_eq!(topological_sort(&g), vec![4, 2, 0, 1, 3]);
}

#[test]
fn edges_are_counted() {
    let mut g = Graph::with_nodes(4);
    assert_eq!(g.edge_count(), 0);
    g.add_edge(0, 1);
    g.add_edge(3, 1);
    assert_eq!(g.edge_count(), 2);
    assert_eq!(g.n, 4);
    assert_eq!(g.edges[0], vec![1]);
    assert_eq!(g.edges[3], vec![1]);
}
