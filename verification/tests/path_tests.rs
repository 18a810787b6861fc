use marked_tree::backtrack::{exhaustive_path, extend};
use marked_tree::chain::UNREACHED;
use marked_tree::fixed::fixed_length_bfs;
use marked_tree::graph::Graph;
use marked_tree::path::{breadth_first, reversed, shortest_path};
use marked_tree::yen::{
    add_parallel_edges, alternative_paths, contains_path, detach_all, exclude_edges,
    restore_all, restore_edges, same_path, shares_prefix, shortest_index, spur_candidate,
};

fn graph_with(size: usize, edges: &[(usize, usize)]) -> Graph {
    let mut graph = Graph::new(size, 0);
    for &(a, b) in edges {
        graph.add_edge(a, b);
    }
    graph
}

fn two_routes() -> Graph {
    graph_with(10, &[(0, 1), (1, 2), (2, 3), (3, 4), (0, 5), (5, 4)])
}

fn sorted_lists(graph: &Graph) -> Vec<Vec<usize>> {
    let mut lists = graph.data.clone();
    for list in lists.iter_mut() {
        list.sort();
    }
    lists
}

fn is_simple_path(graph: &Graph, path: &[usize], start: usize, end: usize) -> bool {
    if path.is_empty() || path[0] != start || path[path.len() - 1] != end {
        return false;
    }
    for i in 0..path.len() {
        for j in i + 1..path.len() {
            if path[i] == path[j] {
                return false;
            }
        }
    }
    path.windows(2).all(|pair| graph.has_edge(pair[0], pair[1]))
}

fn extend_paths(
    graph: &Graph,
    end: usize,
    current: &mut Vec<usize>,
    found: &mut Vec<Vec<usize>>,
) {
    let last = current[current.len() - 1];
    if last == end {
        found.push(current.clone());
        return;
    }
    for &next in graph.get_neighbors(last) {
        if !current.contains(&next) {
            current.push(next);
            extend_paths(graph, end, current, found);
            current.pop();
        }
    }
}

fn all_simple_paths(graph: &Graph, start: usize, end: usize) -> Vec<Vec<usize>> {
    let mut found = Vec::new();
    let mut current = vec![start];
    extend_paths(graph, end, &mut current, &mut found);
    found
}

fn sample_graphs() -> Vec<Graph> {
    vec![
        two_routes(),
        graph_with(5, &[(0, 1), (1, 2), (2, 3), (3, 4), (4, 0)]),
        graph_with(6, &[(0, 1), (0, 2), (1, 2), (1, 3), (2, 4), (3, 4), (3, 5), (4, 5)]),
        graph_with(5, &[(0, 1), (1, 4), (1, 2), (1, 3), (2, 3)]),
        graph_with(7, &[(0, 1), (1, 2), (3, 4), (4, 5), (5, 3), (0, 2), (0, 2)]),
    ]
}

#[test]
fn shortest_path_takes_the_route_with_fewest_edges() {
    let graph = two_routes();
    assert_eq!(shortest_path(&graph, 0, 4), Some(vec![0, 5, 4]));
    assert_eq!(shortest_path(&graph, 4, 0), Some(vec![4, 5, 0]));
    assert_eq!(shortest_path(&graph, 1, 3), Some(vec![1, 2, 3]));
}

#[test]
fn shortest_path_from_a_vertex_to_itself_is_that_vertex() {
    let graph = two_routes();
    assert_eq!(shortest_path(&graph, 3, 3), Some(vec![3]));
    assert_eq!(shortest_path(&graph, 9, 9), Some(vec![9]));
}

#[test]
fn shortest_path_is_none_between_components() {
    let graph = two_routes();
    assert_eq!(shortest_path(&graph, 0, 7), None);
    assert_eq!(shortest_path(&graph, 8, 9), None);
}

#[test]
fn shortest_path_first_neighbor_wins_a_tie() {
    let graph = graph_with(4, &[(0, 2), (0, 1), (1, 3), (2, 3)]);
    assert_eq!(shortest_path(&graph, 0, 3), Some(vec![0, 2, 3]));
}

#[test]
fn shortest_path_is_no_longer_than_any_path() {
    for graph in sample_graphs() {
        for start in 0..graph.size {
            for end in 0..graph.size {
                let others = all_simple_paths(&graph, start, end);
                match shortest_path(&graph, start, end) {
                    Some(path) => {
                        assert!(is_simple_path(&graph, &path, start, end));
                        assert!(others.iter().all(|other| path.len() <= other.len()));
                        assert!(!others.is_empty());
                    }
                    None => assert!(others.is_empty()),
                }
            }
        }
    }
}

#[test]
fn breadth_first_records_distances_and_predecessors() {
    let graph = two_routes();
    let (distance, predecessor) = breadth_first(&graph, 0, None);
    assert_eq!(&distance[..6], &[0, 1, 2, 3, 2, 1]);
    assert_eq!(&predecessor[..6], &[UNREACHED, 0, 1, 2, 5, 0]);
    assert!(distance[6..].iter().all(|&d| d == UNREACHED));
    assert!(predecessor[6..].iter().all(|&p| p == UNREACHED));
}

#[test]
fn breadth_first_stops_at_its_target() {
    let graph = two_routes();
    let (distance, _) = breadth_first(&graph, 0, Some(5));
    assert_eq!(distance[5], 1);
    assert_eq!(distance[1], 1);
    assert_eq!(distance[2], UNREACHED);
    let (distance, _) = breadth_first(&graph, 0, Some(0));
    assert_eq!(distance[0], 0);
    assert_eq!(distance[1], UNREACHED);
}

#[test]
fn reversed_turns_a_list_around() {
    assert_eq!(reversed(&vec![1, 2, 3]), vec![3, 2, 1]);
    assert_eq!(reversed(&vec![]), Vec::<usize>::new());
}

#[test]
fn fixed_length_on_the_graph_of_two_routes() {
    let graph = two_routes();
    assert_eq!(fixed_length_bfs(&graph, 0, 4, 4), Some(vec![0, 1, 2, 3, 4]));
    assert_eq!(fixed_length_bfs(&graph, 0, 4, 2), Some(vec![0, 5, 4]));
    assert_eq!(fixed_length_bfs(&graph, 0, 4, 1), None);
    assert_eq!(fixed_length_bfs(&graph, 0, 4, 3), None);
    assert_eq!(fixed_length_bfs(&graph, 0, 4, 5), None);
}

#[test]
fn fixed_length_zero_joins_a_vertex_to_itself_only() {
    let graph = two_routes();
    assert_eq!(fixed_length_bfs(&graph, 2, 2, 0), Some(vec![2]));
    assert_eq!(fixed_length_bfs(&graph, 2, 3, 0), None);
    assert_eq!(fixed_length_bfs(&graph, 2, 2, 2), None);
}

#[test]
fn fixed_length_is_none_between_components() {
    let graph = two_routes();
    assert_eq!(fixed_length_bfs(&graph, 0, 7, 1), None);
    assert_eq!(fixed_length_bfs(&graph, 0, 7, 3), None);
}

#[test]
fn fixed_length_refuses_a_joint_that_visits_a_vertex_twice() {
    // 0 - 1 - 4 with the triangle 1, 2, 3 hanging on 1: the only walk of
    // five edges from 0 to 4 passes 1 twice.
    let graph = graph_with(6, &[(0, 1), (1, 4), (1, 2), (1, 3), (2, 3)]);
    assert_eq!(fixed_length_bfs(&graph, 0, 4, 5), None);
    assert_eq!(fixed_length_bfs(&graph, 0, 4, 2), Some(vec![0, 1, 4]));
}

#[test]
fn fixed_length_answers_are_paths_of_the_wanted_length() {
    for graph in sample_graphs() {
        for start in 0..graph.size {
            for end in 0..graph.size {
                let others = all_simple_paths(&graph, start, end);
                for length in 0..graph.size {
                    let exists = others.iter().any(|other| other.len() == length + 1);
                    match fixed_length_bfs(&graph, start, end, length) {
                        Some(path) => {
                            assert!(is_simple_path(&graph, &path, start, end));
                            assert_eq!(path.len(), length + 1);
                            assert!(exists);
                        }
                        None => assert!(!exists),
                    }
                }
            }
        }
    }
}

#[test]
fn fixed_length_finds_the_way_round_a_square() {
    // On the square 0 - 1 - 2 - 3 - 0 the way 1, 0, 3, 2 has three edges;
    // the search from both ends does not come upon it.
    let graph = graph_with(4, &[(3, 0), (2, 3), (1, 2), (0, 1)]);
    assert_eq!(fixed_length_bfs(&graph, 1, 2, 3), Some(vec![1, 0, 3, 2]));
    assert_eq!(fixed_length_bfs(&graph, 1, 2, 1), Some(vec![1, 2]));
    assert_eq!(fixed_length_bfs(&graph, 1, 2, 2), None);
}

#[test]
fn fixed_length_finds_the_way_round_a_triangle() {
    let graph = graph_with(3, &[(0, 1), (1, 2), (0, 2)]);
    assert_eq!(fixed_length_bfs(&graph, 0, 2, 2), Some(vec![0, 1, 2]));
    assert_eq!(fixed_length_bfs(&graph, 0, 2, 1), Some(vec![0, 2]));
}

#[test]
fn alternative_paths_finds_the_way_round_a_triangle() {
    // The shortest path has two vertices and so no place to branch off.
    let mut graph = graph_with(3, &[(0, 1), (2, 1), (0, 2)]);
    let before = sorted_lists(&graph);
    assert_eq!(alternative_paths(&mut graph, 1, 2, 2), Some(vec![1, 0, 2]));
    assert_eq!(alternative_paths(&mut graph, 1, 2, 1), Some(vec![1, 2]));
    assert_eq!(sorted_lists(&graph), before);
}

#[test]
fn exhaustive_path_finds_a_path_exactly_where_there_is_one() {
    for graph in sample_graphs() {
        for start in 0..graph.size {
            for end in 0..graph.size {
                let others = all_simple_paths(&graph, start, end);
                for length in 0..graph.size + 1 {
                    let exists = others.iter().any(|other| other.len() == length + 1);
                    match exhaustive_path(&graph, start, end, length) {
                        Some(path) => {
                            assert!(is_simple_path(&graph, &path, start, end));
                            assert_eq!(path.len(), length + 1);
                        }
                        None => assert!(!exists),
                    }
                }
            }
        }
    }
}

#[test]
fn exhaustive_path_tries_the_neighbors_in_their_order() {
    let graph = graph_with(5, &[(0, 2), (0, 1), (1, 3), (2, 3), (3, 4)]);
    assert_eq!(exhaustive_path(&graph, 0, 4, 3), Some(vec![0, 2, 3, 4]));
    assert_eq!(exhaustive_path(&graph, 0, 3, 2), Some(vec![0, 2, 3]));
    assert_eq!(exhaustive_path(&graph, 0, 0, 0), Some(vec![0]));
    assert_eq!(exhaustive_path(&graph, 0, 4, 2), None);
}

#[test]
fn extend_goes_on_from_a_path_or_leaves_it() {
    let graph = two_routes();
    let (distance, _) = breadth_first(&graph, 4, None);
    let mut path = vec![0, 1];
    let mut used = vec![false; 10];
    used[0] = true;
    used[1] = true;
    assert!(!extend(&graph, &distance, &mut path, &mut used, 4, 2));
    assert_eq!(path, vec![0, 1]);
    assert_eq!(used.iter().filter(|&&mark| mark).count(), 2);
    assert!(extend(&graph, &distance, &mut path, &mut used, 4, 3));
    assert_eq!(path, vec![0, 1, 2, 3, 4]);
}

#[test]
fn alternative_paths_finds_the_longer_route() {
    let mut graph = two_routes();
    let before = sorted_lists(&graph);
    assert_eq!(alternative_paths(&mut graph, 0, 4, 4), Some(vec![0, 1, 2, 3, 4]));
    assert_eq!(sorted_lists(&graph), before);
    assert_eq!(alternative_paths(&mut graph, 0, 4, 2), Some(vec![0, 5, 4]));
    assert_eq!(sorted_lists(&graph), before);
}

#[test]
fn alternative_paths_is_none_where_no_path_has_the_length() {
    let mut graph = two_routes();
    let before = sorted_lists(&graph);
    assert_eq!(alternative_paths(&mut graph, 0, 4, 3), None);
    assert_eq!(sorted_lists(&graph), before);
    assert_eq!(alternative_paths(&mut graph, 0, 4, 1), None);
    assert_eq!(alternative_paths(&mut graph, 0, 7, 2), None);
    assert_eq!(sorted_lists(&graph), before);
}

#[test]
fn alternative_paths_answers_are_paths_of_the_wanted_length() {
    for mut graph in sample_graphs() {
        let before = sorted_lists(&graph);
        for start in 0..graph.size {
            for end in 0..graph.size {
                let others = all_simple_paths(&graph, start, end);
                for length in 0..graph.size {
                    let exists = others.iter().any(|other| other.len() == length + 1);
                    match alternative_paths(&mut graph, start, end, length) {
                        Some(path) => {
                            assert!(is_simple_path(&graph, &path, start, end));
                            assert_eq!(path.len(), length + 1);
                            assert!(exists);
                        }
                        None => assert!(!exists),
                    }
                    assert_eq!(sorted_lists(&graph), before);
                }
            }
        }
    }
}

#[test]
fn spur_candidate_leaves_the_accepted_path() {
    let mut graph = two_routes();
    let before = sorted_lists(&graph);
    let accepted = vec![vec![0, 5, 4]];
    let previous = vec![0, 5, 4];
    assert_eq!(
        spur_candidate(&mut graph, &accepted, &previous, 0, 4),
        Some(vec![0, 1, 2, 3, 4])
    );
    assert_eq!(sorted_lists(&graph), before);
    assert_eq!(spur_candidate(&mut graph, &accepted, &previous, 1, 4), None);
    assert_eq!(sorted_lists(&graph), before);
}

#[test]
fn add_parallel_edges_adds_the_number_asked_for() {
    let mut graph = Graph::new(3, 0);
    add_parallel_edges(&mut graph, 0, 2, 3);
    assert_eq!(graph.get_neighbors(0), &vec![2, 2, 2]);
    assert_eq!(graph.get_neighbors(2), &vec![0, 0, 0]);
    add_parallel_edges(&mut graph, 0, 1, 0);
    assert!(graph.get_neighbors(1).is_empty());
}

#[test]
fn path_lists_are_compared_entry_by_entry() {
    assert!(same_path(&vec![1, 2, 3], &vec![1, 2, 3]));
    assert!(!same_path(&vec![1, 2, 3], &vec![1, 2]));
    assert!(!same_path(&vec![1, 2, 3], &vec![1, 3, 2]));
    assert!(shares_prefix(&vec![1, 2, 3], &vec![1, 2, 4], 2));
    assert!(!shares_prefix(&vec![1, 2], &vec![1, 2, 4], 2));
    assert!(!shares_prefix(&vec![1, 5, 3], &vec![1, 2, 4], 2));
    let paths = vec![vec![0, 1, 2, 3], vec![0, 3], vec![0, 2, 3], vec![1, 3]];
    assert!(contains_path(&paths, &vec![0, 2, 3]));
    assert!(!contains_path(&paths, &vec![0, 2]));
    assert_eq!(shortest_index(&paths), 1);
}

#[test]
fn detach_all_and_restore_all_undo_each_other() {
    let mut graph = two_routes();
    let before = sorted_lists(&graph);
    let vertices = vec![0, 1, 2, 9];
    let log = detach_all(&mut graph, &vertices, 3);
    assert_eq!(log, vec![vec![1, 5], vec![2], vec![3]]);
    for vertex in 0..3 {
        assert!(graph.get_neighbors(vertex).is_empty());
    }
    assert!(graph.has_edge(3, 4));
    assert!(graph.has_edge(5, 4));
    restore_all(&mut graph, &vertices, &log);
    assert_eq!(sorted_lists(&graph), before);
}

#[test]
fn exclude_edges_and_restore_edges_undo_each_other() {
    let mut graph = graph_with(5, &[(0, 1), (0, 1), (1, 2), (0, 3), (3, 2), (0, 4)]);
    let before = sorted_lists(&graph);
    let accepted = vec![vec![0, 1, 2], vec![0, 3, 2], vec![4, 0, 1]];
    let previous = vec![0, 3, 2];
    let log = exclude_edges(&mut graph, &accepted, &previous, 0);
    assert_eq!(log, vec![(0, 1, 2), (0, 3, 1)]);
    assert!(!graph.has_edge(0, 1));
    assert!(!graph.has_edge(0, 3));
    assert!(graph.has_edge(0, 4));
    assert!(graph.has_edge(1, 2));
    restore_edges(&mut graph, &log);
    assert_eq!(sorted_lists(&graph), before);
}
