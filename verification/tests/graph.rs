use precedence_scheduling::graph::{GraphError, PrecedenceGraph};

fn graph(nodes: Vec<u128>, edges: Vec<(u128, u128)>) -> PrecedenceGraph {
    match PrecedenceGraph::new(nodes, edges) {
        Ok(g) => g,
        Err(e) => panic!("no graph: {:?}", e),
    }
}

fn error(nodes: Vec<u128>, edges: Vec<(u128, u128)>) -> GraphError {
    match PrecedenceGraph::new(nodes, edges) {
        Ok(_) => panic!("a graph was built"),
        Err(e) => e,
    }
}

#[test]
fn nodes_come_out_ascending_and_once() {
    let g = graph(vec![5, 1, 3, 1, 5], vec![(5, 1)]);
    assert_eq!(g.all_nodes(), vec![1, 3, 5]);
    assert_eq!(g.len(), 3);
    assert_eq!(g.node(0), 1);
    assert_eq!(g.node(2), 5);
    assert_eq!(g.index_of(3), Some(1));
    assert_eq!(g.index_of(4), None);
    assert!(g.contains(5));
    assert!(!g.contains(2));
}

#[test]
fn empty_graph_is_a_graph() {
    let g = graph(vec![], vec![]);
    assert_eq!(g.len(), 0);
    assert_eq!(g.all_nodes(), Vec::<u128>::new());
    assert_eq!(g.successors(1), Vec::<u128>::new());
    assert!(!g.is_ordered_before(1, 2));
}

#[test]
fn edges_are_read_as_a_set() {
    let g = graph(vec![1, 2], vec![(1, 2), (1, 2), (1, 2)]);
    assert_eq!(g.successors(1), vec![2]);
    assert_eq!(g.predecessors(2), vec![1]);
}

#[test]
fn successors_and_predecessors_are_immediate() {
    let g = graph(vec![1, 2, 3, 4], vec![(1, 2), (2, 3), (1, 4), (4, 3)]);
    assert_eq!(g.successors(1), vec![2, 4]);
    assert_eq!(g.successors(2), vec![3]);
    assert_eq!(g.successors(3), Vec::<u128>::new());
    assert_eq!(g.predecessors(3), vec![2, 4]);
    assert_eq!(g.predecessors(1), Vec::<u128>::new());
    assert_eq!(g.successors(9), Vec::<u128>::new());
    assert_eq!(g.predecessors(9), Vec::<u128>::new());
    assert!(g.has_edge_at(0, 1));
    assert!(!g.has_edge_at(0, 2));
    assert!(!g.has_edge_at(1, 0));
}

#[test]
fn ordered_before_is_the_transitive_closure() {
    let g = graph(vec![1, 2, 3, 4, 5], vec![(1, 2), (2, 3), (3, 4)]);
    assert!(g.is_ordered_before(1, 2));
    assert!(g.is_ordered_before(1, 3));
    assert!(g.is_ordered_before(1, 4));
    assert!(g.is_ordered_before(2, 4));
    assert!(!g.is_ordered_before(4, 1));
    assert!(!g.is_ordered_before(1, 1));
    assert!(!g.is_ordered_before(1, 5));
    assert!(!g.is_ordered_before(5, 1));
    assert!(!g.is_ordered_before(1, 9));
    assert!(!g.is_ordered_before(9, 1));
    assert!(g.precedes_at(0, 3));
    assert!(!g.precedes_at(3, 0));
    assert!(!g.precedes_at(0, 4));
}

#[test]
fn closure_of_a_long_chain_given_backwards() {
    let nodes: Vec<u128> = (1..=12).collect();
    let mut edges: Vec<(u128, u128)> = Vec::new();
    let mut a: u128 = 11;
    while a >= 1 {
        edges.push((a, a + 1));
        a -= 1;
    }
    let g = graph(nodes, edges);
    let mut i: u128 = 1;
    while i <= 12 {
        let mut j: u128 = 1;
        while j <= 12 {
            assert_eq!(g.is_ordered_before(i, j), i < j);
            j += 1;
        }
        i += 1;
    }
}

#[test]
fn self_loop_is_refused() {
    assert_eq!(error(vec![1, 2], vec![(1, 2), (2, 2)]), GraphError::SelfLoop { node: 2 });
}

#[test]
fn self_loop_on_an_unknown_node_is_dangling() {
    assert_eq!(error(vec![1, 2], vec![(7, 7)]), GraphError::DanglingEdge { from: 7, to: 7 });
}

#[test]
fn dangling_edge_is_refused() {
    assert_eq!(
        error(vec![1, 2], vec![(1, 2), (2, 3)]),
        GraphError::DanglingEdge { from: 2, to: 3 }
    );
    assert_eq!(error(vec![1, 2], vec![(4, 1)]), GraphError::DanglingEdge { from: 4, to: 1 });
}

#[test]
fn the_first_dangling_edge_is_reported_before_anything_else() {
    assert_eq!(
        error(vec![1, 2], vec![(1, 2), (1, 9), (2, 2), (8, 1)]),
        GraphError::DanglingEdge { from: 1, to: 9 }
    );
    assert_eq!(
        error(vec![1, 2], vec![(2, 2), (1, 9)]),
        GraphError::DanglingEdge { from: 1, to: 9 }
    );
    assert_eq!(
        error(vec![1, 2], vec![(1, 2), (2, 1), (1, 9)]),
        GraphError::DanglingEdge { from: 1, to: 9 }
    );
}

#[test]
fn the_first_self_loop_is_reported() {
    assert_eq!(
        error(vec![1, 2, 3], vec![(1, 2), (3, 3), (2, 2)]),
        GraphError::SelfLoop { node: 3 }
    );
}

#[test]
fn cycle_is_refused_with_its_least_node() {
    assert_eq!(
        error(vec![1, 2, 3], vec![(1, 2), (2, 3), (3, 1)]),
        GraphError::CycleDetected { node: 1 }
    );
    assert_eq!(
        error(vec![1, 2, 3, 4], vec![(1, 2), (3, 4), (4, 2), (2, 3)]),
        GraphError::CycleDetected { node: 2 }
    );
    assert_eq!(error(vec![1, 2], vec![(1, 2), (2, 1)]), GraphError::CycleDetected { node: 1 });
}

#[test]
fn a_cycle_is_reported_before_a_self_loop() {
    assert_eq!(
        error(vec![1, 2], vec![(1, 2), (2, 1), (1, 1)]),
        GraphError::CycleDetected { node: 1 }
    );
    assert_eq!(
        error(vec![1, 2, 3], vec![(1, 1), (2, 3), (3, 2)]),
        GraphError::CycleDetected { node: 2 }
    );
}

#[test]
fn diamond_is_no_cycle() {
    let g = graph(vec![1, 2, 3, 4], vec![(1, 2), (1, 3), (2, 4), (3, 4), (1, 4)]);
    assert!(g.is_ordered_before(1, 4));
    assert!(!g.is_ordered_before(2, 3));
}

#[test]
fn identifiers_may_be_as_large_as_they_come() {
    let g = graph(vec![u128::MAX, 0, u128::MAX - 1], vec![(u128::MAX, 0)]);
    assert_eq!(g.all_nodes(), vec![0, u128::MAX - 1, u128::MAX]);
    assert!(g.is_ordered_before(u128::MAX, 0));
    assert_eq!(g.msf_list(), vec![u128::MAX, 0, u128::MAX - 1]);
}
