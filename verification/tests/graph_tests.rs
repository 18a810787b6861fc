use marked_tree::graph::{position_of, remove_all, Graph};

fn graph_with(size: usize, edges: &[(usize, usize)]) -> Graph {
    let mut graph = Graph::new(size, 0);
    for &(a, b) in edges {
        graph.add_edge(a, b);
    }
    graph
}

fn sorted_lists(graph: &Graph) -> Vec<Vec<usize>> {
    let mut lists = graph.data.clone();
    for list in lists.iter_mut() {
        list.sort();
    }
    lists
}

#[test]
fn new_without_attempts_has_no_edges() {
    let graph = Graph::new(7, 0);
    assert_eq!(graph.size, 7);
    assert_eq!(graph.data.len(), 7);
    for vertex in 0..7 {
        assert!(graph.get_neighbors(vertex).is_empty());
    }
}

#[test]
fn add_edge_records_both_ends_in_insertion_order() {
    let graph = graph_with(4, &[(0, 1), (0, 2), (3, 0)]);
    assert_eq!(graph.get_neighbors(0), &vec![1, 2, 3]);
    assert_eq!(graph.get_neighbors(1), &vec![0]);
    assert_eq!(graph.get_neighbors(2), &vec![0]);
    assert_eq!(graph.get_neighbors(3), &vec![0]);
}

#[test]
fn add_edge_twice_makes_parallel_entries() {
    let graph = graph_with(3, &[(0, 1), (1, 0)]);
    assert_eq!(graph.get_neighbors(0), &vec![1, 1]);
    assert_eq!(graph.get_neighbors(1), &vec![0, 0]);
}

#[test]
fn has_edge_sees_an_edge_from_both_ends() {
    let graph = graph_with(4, &[(0, 1), (2, 3)]);
    assert!(graph.has_edge(0, 1));
    assert!(graph.has_edge(1, 0));
    assert!(graph.has_edge(3, 2));
    assert!(!graph.has_edge(0, 2));
    assert!(!graph.has_edge(1, 1));
    assert!(!graph.has_edge(0, 9));
}

#[test]
fn pop_edges_returns_the_neighbors_in_order_and_detaches() {
    let mut graph = graph_with(5, &[(0, 1), (2, 0), (0, 3), (1, 2), (3, 4)]);
    let detached = graph.pop_edges(0);
    assert_eq!(detached, vec![1, 2, 3]);
    assert!(graph.get_neighbors(0).is_empty());
    assert_eq!(sorted_lists(&graph), vec![vec![], vec![2], vec![1], vec![4], vec![3]]);
}

#[test]
fn pop_edges_removes_every_parallel_edge() {
    let mut graph = graph_with(3, &[(0, 1), (0, 1), (1, 2)]);
    let detached = graph.pop_edges(0);
    assert_eq!(detached, vec![1, 1]);
    assert_eq!(graph.get_neighbors(1), &vec![2]);
}

#[test]
fn pop_edges_of_an_isolated_vertex_changes_nothing() {
    let mut graph = graph_with(3, &[(1, 2)]);
    let detached = graph.pop_edges(0);
    assert!(detached.is_empty());
    assert_eq!(graph.data, vec![vec![], vec![2], vec![1]]);
}

#[test]
fn pop_edges_then_add_edges_gives_the_same_edges() {
    let edges = [(0, 1), (1, 2), (2, 3), (3, 4), (0, 5), (5, 4), (1, 4), (1, 4)];
    for vertex in 0..6 {
        let mut graph = graph_with(6, &edges);
        let before = sorted_lists(&graph);
        let detached = graph.pop_edges(vertex);
        assert!(graph.get_neighbors(vertex).is_empty());
        graph.add_edges(vertex, &detached);
        assert_eq!(sorted_lists(&graph), before);
    }
}

#[test]
fn add_edges_appends_in_the_order_given() {
    let mut graph = graph_with(5, &[(0, 4)]);
    graph.add_edges(0, &vec![3, 1, 2]);
    assert_eq!(graph.get_neighbors(0), &vec![4, 3, 1, 2]);
    assert_eq!(graph.get_neighbors(1), &vec![0]);
    assert_eq!(graph.get_neighbors(2), &vec![0]);
    assert_eq!(graph.get_neighbors(3), &vec![0]);
}

#[test]
fn remove_edge_takes_all_copies_and_counts_them() {
    let mut graph = graph_with(4, &[(0, 1), (1, 2), (1, 0), (0, 3)]);
    assert_eq!(graph.remove_edge(0, 1), 2);
    assert!(!graph.has_edge(0, 1));
    assert!(!graph.has_edge(1, 0));
    assert_eq!(sorted_lists(&graph), vec![vec![3], vec![2], vec![1], vec![0]]);
    assert_eq!(graph.remove_edge(0, 1), 0);
    assert_eq!(graph.remove_edge(2, 3), 0);
}

#[test]
fn add_sampled_edge_skips_a_pair_of_equal_vertices() {
    let mut graph = Graph::new(3, 0);
    assert!(!graph.add_sampled_edge(1, 1));
    assert!(graph.get_neighbors(1).is_empty());
    assert!(graph.add_sampled_edge(1, 2));
    assert_eq!(graph.get_neighbors(1), &vec![2]);
    assert_eq!(graph.get_neighbors(2), &vec![1]);
}

#[test]
fn fill_adds_at_most_one_edge_per_attempt() {
    let mut graph = Graph::new(20, 0);
    graph.fill(50);
    let entries: usize = graph.data.iter().map(|list| list.len()).sum();
    assert!(entries <= 100);
    assert_eq!(entries % 2, 0);
    assert!(entries > 0);
}

#[test]
fn fill_keeps_the_graph_symmetric_and_free_of_loops() {
    let graph = Graph::new(15, 200);
    assert_eq!(graph.size, 15);
    for u in 0..15 {
        for &v in graph.get_neighbors(u) {
            assert!(v < 15);
            assert_ne!(u, v);
            let there = graph.get_neighbors(u).iter().filter(|&&w| w == v).count();
            let back = graph.get_neighbors(v).iter().filter(|&&w| w == u).count();
            assert_eq!(there, back);
        }
    }
}

#[test]
fn fill_keeps_what_was_there() {
    let mut graph = graph_with(6, &[(0, 1), (2, 3)]);
    let before = graph.data.clone();
    graph.fill(30);
    for vertex in 0..6 {
        let list = graph.get_neighbors(vertex);
        assert!(list.len() >= before[vertex].len());
        assert_eq!(&list[..before[vertex].len()], &before[vertex][..]);
    }
}

#[test]
fn position_of_finds_the_first_occurrence() {
    assert_eq!(position_of(&vec![4, 7, 7, 1], 7), 1);
    assert_eq!(position_of(&vec![4, 7, 7, 1], 1), 3);
}

#[test]
fn remove_all_counts_and_removes() {
    let mut list = vec![3, 1, 3, 2, 3];
    assert_eq!(remove_all(&mut list, 3), 3);
    list.sort();
    assert_eq!(list, vec![1, 2]);
    assert_eq!(remove_all(&mut list, 9), 0);
    assert_eq!(list, vec![1, 2]);
}

#[test]
fn fill_without_attempts_changes_nothing() {
    let mut graph = graph_with(4, &[(0, 1), (2, 3), (1, 2)]);
    let before = graph.data.clone();
    graph.fill(0);
    assert_eq!(graph.data, before);
}

#[test]
fn fill_on_a_single_vertex_adds_nothing() {
    let mut graph = Graph::new(1, 0);
    graph.fill(25);
    assert!(graph.get_neighbors(0).is_empty());
}

#[test]
fn fill_on_two_vertices_adds_edges_between_them_only() {
    let mut graph = Graph::new(2, 0);
    graph.fill(40);
    let there = graph.get_neighbors(0).len();
    assert!(there <= 40);
    assert_eq!(graph.get_neighbors(1).len(), there);
    assert!(graph.get_neighbors(0).iter().all(|&v| v == 1));
    assert!(graph.get_neighbors(1).iter().all(|&v| v == 0));
}

fn two_routes() -> Graph {
    graph_with(10, &[(0, 1), (1, 2), (2, 3), (3, 4), (0, 5), (5, 4)])
}

#[test]
fn pop_edges_leaves_the_other_lists_entry_by_entry() {
    let mut graph = two_routes();
    assert_eq!(graph.pop_edges(0), vec![1, 5]);
    let empty: Vec<usize> = Vec::new();
    assert_eq!(graph.data[0], empty);
    assert_eq!(graph.data[1], vec![2]);
    assert_eq!(graph.data[2], vec![1, 3]);
    assert_eq!(graph.data[3], vec![2, 4]);
    assert_eq!(graph.data[4], vec![3, 5]);
    assert_eq!(graph.data[5], vec![4]);
    assert_eq!(graph.size, 10);
}

#[test]
fn pop_edges_moves_the_last_entry_into_the_gap() {
    let mut graph = graph_with(5, &[(0, 1), (0, 2), (0, 3), (0, 1), (0, 4)]);
    assert_eq!(graph.data[0], vec![1, 2, 3, 1, 4]);
    assert_eq!(graph.pop_edges(1), vec![0, 0]);
    assert_eq!(graph.data[0], vec![4, 2, 3]);
    assert_eq!(graph.data[2], vec![0]);
}

#[test]
fn pop_edges_a_second_time_changes_nothing() {
    let mut graph = two_routes();
    graph.pop_edges(4);
    let after = graph.data.clone();
    assert!(graph.pop_edges(4).is_empty());
    assert_eq!(graph.data, after);
}

#[test]
fn pop_edges_then_add_edges_on_the_graph_of_two_routes() {
    let mut graph = two_routes();
    let detached = graph.pop_edges(5);
    assert_eq!(detached, vec![0, 4]);
    graph.add_edges(5, &detached);
    let empty: Vec<usize> = Vec::new();
    assert_eq!(
        &graph.data[..6],
        &[vec![1, 5], vec![0, 2], vec![1, 3], vec![2, 4], vec![3, 5], vec![0, 4]]
    );
    assert!(graph.data[6..].iter().all(|list| *list == empty));
    assert_eq!(graph.size, 10);
}

#[test]
fn add_edges_puts_the_vertex_at_the_end_of_each_neighbor() {
    let mut graph = graph_with(5, &[(1, 2), (3, 4), (1, 3)]);
    graph.add_edges(0, &vec![3, 1, 3]);
    assert_eq!(graph.data[0], vec![3, 1, 3]);
    assert_eq!(graph.data[1], vec![2, 3, 0]);
    assert_eq!(graph.data[2], vec![1]);
    assert_eq!(graph.data[3], vec![4, 1, 0, 0]);
    assert_eq!(graph.data[4], vec![3]);
}

#[test]
fn add_edges_then_pop_edges_gives_every_list_back_in_its_order() {
    let mut graph = graph_with(6, &[(1, 2), (2, 3), (3, 1), (4, 1), (2, 4)]);
    let before = graph.data.clone();
    let neighbors = vec![2, 4, 1, 2];
    graph.add_edges(0, &neighbors);
    assert_eq!(graph.pop_edges(0), neighbors);
    assert_eq!(graph.data, before);
}

#[test]
fn remove_edge_moves_the_last_entry_into_the_gap() {
    let mut graph = graph_with(4, &[(0, 1), (0, 2), (0, 1), (0, 3)]);
    assert_eq!(graph.remove_edge(0, 1), 2);
    assert_eq!(graph.data[0], vec![3, 2]);
    assert!(graph.data[1].is_empty());
    assert_eq!(graph.data[2], vec![0]);
    assert_eq!(graph.data[3], vec![0]);
}
