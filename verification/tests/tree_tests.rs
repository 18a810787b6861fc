use marked_tree::graph::Graph;
use marked_tree::tree::{build_tree, contains, search, Fatal, SearchStrategy, TreeBuilder};

fn graph_with(size: usize, edges: &[(usize, usize)]) -> Graph {
    let mut graph = Graph::new(size, 0);
    for &(a, b) in edges {
        graph.add_edge(a, b);
    }
    graph
}

fn cycle() -> Graph {
    graph_with(5, &[(0, 1), (1, 2), (2, 3), (3, 4), (4, 0)])
}

fn branches() -> Graph {
    graph_with(8, &[(0, 1), (1, 2), (2, 3), (1, 4), (4, 5), (2, 6)])
}

fn spans_a_tree(whole: &Graph, tree: &[usize]) -> bool {
    for i in 0..tree.len() {
        for j in i + 1..tree.len() {
            if tree[i] == tree[j] {
                return false;
            }
        }
    }
    (1..tree.len()).all(|k| (0..k).any(|m| whole.has_edge(tree[m], tree[k])))
}

#[test]
fn build_tree_on_a_cycle_takes_a_shortest_route() {
    let mut graph = cycle();
    let marked = vec![(0, 0), (2, 0)];
    let tree = build_tree(&mut graph, &marked, SearchStrategy::ShortestPath);
    assert!(tree == Ok(vec![0, 1, 2]) || tree == Ok(vec![0, 4, 3, 2]));
}

#[test]
fn build_tree_consumes_the_vertices_of_the_tree() {
    let mut graph = cycle();
    let marked = vec![(0, 0), (2, 0)];
    let tree = build_tree(&mut graph, &marked, SearchStrategy::ShortestPath).unwrap();
    for &vertex in &tree {
        assert!(graph.get_neighbors(vertex).is_empty());
    }
    assert!(graph.has_edge(3, 4));
    assert!(!graph.has_edge(4, 0));
    assert!(!graph.has_edge(2, 3));
}

#[test]
fn build_tree_fails_on_a_vertex_that_nothing_reaches() {
    let mut graph = graph_with(4, &[(0, 1), (1, 2)]);
    let marked = vec![(0, 1), (3, 1), (2, 2)];
    assert_eq!(
        build_tree(&mut graph, &marked, SearchStrategy::FixedLength),
        Err(Fatal::UnattachableVertex(1))
    );
}

#[test]
fn build_tree_fails_when_no_path_has_the_wanted_length() {
    let marked = vec![(0, 0), (3, 5), (2, 2)];
    for strategy in [SearchStrategy::FixedLength, SearchStrategy::AlternativePaths] {
        let mut graph = graph_with(8, &[(0, 1), (1, 2), (1, 3)]);
        assert_eq!(
            build_tree(&mut graph, &marked, strategy),
            Err(Fatal::UnattachableVertex(1))
        );
    }
}

#[test]
fn build_tree_fails_when_the_ends_cannot_be_joined() {
    let marked = vec![(0, 1), (1, 1), (3, 2)];
    for strategy in [
        SearchStrategy::ShortestPath,
        SearchStrategy::FixedLength,
        SearchStrategy::AlternativePaths,
    ] {
        let mut graph = graph_with(4, &[(0, 1), (1, 2)]);
        let before = graph.data.clone();
        assert_eq!(
            build_tree(&mut graph, &marked, strategy),
            Err(Fatal::UnattachableVertex(2))
        );
        assert_eq!(graph.data, before);
    }
}

#[test]
fn build_tree_attaches_branches_of_the_wanted_length() {
    let marked = vec![(0, 0), (5, 2), (6, 1), (3, 3)];
    for strategy in [SearchStrategy::FixedLength, SearchStrategy::AlternativePaths] {
        let whole = branches();
        let mut graph = branches();
        let tree = build_tree(&mut graph, &marked, strategy).unwrap();
        assert_eq!(tree, vec![0, 1, 2, 3, 4, 5, 6]);
        assert!(spans_a_tree(&whole, &tree));
        for &vertex in &tree {
            assert!(graph.get_neighbors(vertex).is_empty());
        }
    }
}

#[test]
fn build_tree_with_shortest_paths_ignores_the_lengths() {
    let whole = branches();
    let mut graph = branches();
    let marked = vec![(0, 7), (5, 7), (6, 7), (3, 7)];
    let tree = build_tree(&mut graph, &marked, SearchStrategy::ShortestPath).unwrap();
    assert_eq!(tree, vec![0, 1, 2, 3, 4, 5, 6]);
    assert!(spans_a_tree(&whole, &tree));
}

#[test]
fn build_tree_skips_a_marked_vertex_that_the_tree_holds() {
    let mut graph = branches();
    let marked = vec![(0, 0), (2, 6), (1, 6), (3, 3)];
    assert_eq!(
        build_tree(&mut graph, &marked, SearchStrategy::FixedLength),
        Ok(vec![0, 1, 2, 3])
    );
}

#[test]
fn build_tree_of_two_marked_vertices_is_a_path_of_the_original() {
    let whole = graph_with(6, &[(0, 1), (1, 2), (2, 3), (3, 4), (0, 5), (5, 4)]);
    let mut graph = graph_with(6, &[(0, 1), (1, 2), (2, 3), (3, 4), (0, 5), (5, 4)]);
    let marked = vec![(0, 0), (4, 4)];
    let tree = build_tree(&mut graph, &marked, SearchStrategy::FixedLength).unwrap();
    assert_eq!(tree, vec![0, 1, 2, 3, 4]);
    assert!(tree.windows(2).all(|pair| whole.has_edge(pair[0], pair[1])));
    assert!(graph.get_neighbors(5).is_empty());
}

#[test]
fn seed_and_attach_report_each_path() {
    let mut graph = branches();
    let mut builder =
        TreeBuilder::seed(&mut graph, 0, 3, 3, SearchStrategy::FixedLength).unwrap();
    assert_eq!(builder.vertices, vec![0, 1, 2, 3]);
    assert_eq!(builder.detached.len(), 4);
    assert_eq!(builder.detached[0], vec![1]);
    assert_eq!(
        builder.attach(&mut graph, 5, 2, SearchStrategy::FixedLength),
        Some(vec![1, 4, 5])
    );
    assert_eq!(builder.vertices, vec![0, 1, 2, 3, 4, 5]);
    let before = graph.data.clone();
    assert_eq!(builder.attach(&mut graph, 6, 3, SearchStrategy::FixedLength), None);
    assert_eq!(builder.vertices, vec![0, 1, 2, 3, 4, 5]);
    assert_eq!(graph.data, before);
    assert_eq!(
        builder.attach(&mut graph, 6, 1, SearchStrategy::FixedLength),
        Some(vec![2, 6])
    );
    assert_eq!(builder.vertices, vec![0, 1, 2, 3, 4, 5, 6]);
}

#[test]
fn seed_without_a_path_leaves_the_graph() {
    let mut graph = branches();
    let before = graph.data.clone();
    assert!(TreeBuilder::seed(&mut graph, 0, 7, 1, SearchStrategy::ShortestPath).is_none());
    assert_eq!(graph.data, before);
}

#[test]
fn extend_along_consumes_what_follows_the_first_vertex() {
    let mut graph = branches();
    let mut builder =
        TreeBuilder::seed(&mut graph, 0, 1, 1, SearchStrategy::ShortestPath).unwrap();
    assert_eq!(builder.vertices, vec![0, 1]);
    builder.extend_along(&mut graph, &vec![1, 4, 5]);
    assert_eq!(builder.vertices, vec![0, 1, 4, 5]);
    assert!(graph.get_neighbors(4).is_empty());
    assert!(graph.get_neighbors(5).is_empty());
    assert!(graph.has_edge(2, 3));
}

#[test]
fn search_follows_the_strategy() {
    let mut graph = graph_with(6, &[(0, 1), (1, 2), (2, 3), (3, 4), (0, 5), (5, 4)]);
    assert_eq!(
        search(&mut graph, 0, 4, 4, SearchStrategy::ShortestPath),
        Some(vec![0, 5, 4])
    );
    assert_eq!(
        search(&mut graph, 0, 4, 4, SearchStrategy::FixedLength),
        Some(vec![0, 1, 2, 3, 4])
    );
    assert_eq!(
        search(&mut graph, 0, 4, 4, SearchStrategy::AlternativePaths),
        Some(vec![0, 1, 2, 3, 4])
    );
    assert_eq!(search(&mut graph, 0, 4, 3, SearchStrategy::FixedLength), None);
    assert_eq!(search(&mut graph, 0, 4, 3, SearchStrategy::AlternativePaths), None);
}

#[test]
fn contains_looks_for_a_vertex() {
    assert!(contains(&vec![4, 2, 9], 9));
    assert!(!contains(&vec![4, 2, 9], 3));
    assert!(!contains(&vec![], 0));
}
