use graph_paths::graph::Graph;

fn sorted<T: Ord>(mut paths: Vec<Vec<T>>) -> Vec<Vec<T>> {
    paths.sort();
    paths
}

fn complete_graph(nodes: u32) -> Graph<u32> {
    let mut graph = Graph::new(None);
    for a in 0..nodes {
        for b in (a + 1)..nodes {
            graph.add_edge(a, b);
        }
    }
    graph
}

fn ladder() -> Graph<u32> {
    // 0 - 1 - 2 - 3
    // |   |   |   |
    // 4 - 5 - 6 - 7
    let mut graph = Graph::new(None);
    for a in 0..3 {
        graph.add_edge(a, a + 1);
        graph.add_edge(a + 4, a + 5);
    }
    for a in 0..4 {
        graph.add_edge(a, a + 4);
    }
    graph
}

fn assert_simple_path(graph: &Graph<u32>, start: u32, end: u32, path: &Vec<u32>) {
    assert!(!path.is_empty());
    assert_eq!(path[0], start);
    assert_eq!(path[path.len() - 1], end);
    for i in 0..path.len() {
        for j in (i + 1)..path.len() {
            assert_ne!(path[i], path[j]);
        }
    }
    for i in 0..path.len() - 1 {
        assert!(graph.neighbors(&path[i]).unwrap().contains(&path[i + 1]));
    }
}

#[test]
fn path_from_a_node_to_itself_is_that_node_alone() {
    let empty = Graph::<u32>::new(None);
    assert_eq!(empty.find_all_paths(3, 3), vec![vec![3]]);

    let dense = complete_graph(5);
    for node in 0..5 {
        assert_eq!(dense.find_all_paths(node, node), vec![vec![node]]);
    }
    assert_eq!(dense.find_all_paths(99, 99), vec![vec![99]]);

    let mut directed = Graph::new(Some(true));
    directed.add_edge(1, 2);
    directed.add_edge(2, 1);
    assert_eq!(directed.find_all_paths(1, 1), vec![vec![1]]);
    assert_eq!(directed.find_all_paths(2, 2), vec![vec![2]]);
}

#[test]
fn path_from_a_node_to_itself_passes_any_limit() {
    let dense = complete_graph(4);
    for limit in 0..6 {
        assert_eq!(dense.find_paths_with_max_steps(2, 2, limit), vec![vec![2]]);
        assert_eq!(dense.find_paths_with_max_steps(42, 42, limit), vec![vec![42]]);
    }
}

#[test]
fn limit_below_two_finds_nothing_between_distinct_nodes() {
    let mut graph = Graph::new(None);
    graph.add_edge(1, 2);
    assert_eq!(graph.find_paths_with_max_steps(1, 2, 0), Vec::<Vec<i32>>::new());
    assert_eq!(graph.find_paths_with_max_steps(1, 2, 1), Vec::<Vec<i32>>::new());
    assert_eq!(graph.find_paths_with_max_steps(1, 2, 2), vec![vec![1, 2]]);
}

#[test]
fn limit_counts_nodes_not_edges() {
    let mut graph = Graph::new(Some(true));
    graph.add_edge('a', 'b');
    graph.add_edge('b', 'c');
    graph.add_edge('c', 'd');
    graph.add_edge('d', 'e');
    assert_eq!(graph.find_paths_with_max_steps('a', 'e', 4), Vec::<Vec<char>>::new());
    assert_eq!(graph.find_paths_with_max_steps('a', 'e', 5), vec![vec!['a', 'b', 'c', 'd', 'e']]);
    assert_eq!(
        graph.find_paths_with_max_steps('a', 'e', usize::MAX),
        vec![vec!['a', 'b', 'c', 'd', 'e']]
    );
    assert_eq!(graph.find_paths_with_max_steps('b', 'd', 3), vec![vec!['b', 'c', 'd']]);
    assert_eq!(graph.find_paths_with_max_steps('b', 'd', 2), Vec::<Vec<char>>::new());
}

#[test]
fn two_routes_around_a_diamond() {
    let mut graph = Graph::new(Some(true));
    graph.add_edge(1, 2);
    graph.add_edge(1, 3);
    graph.add_edge(2, 4);
    graph.add_edge(3, 4);
    assert_eq!(sorted(graph.find_all_paths(1, 4)), vec![vec![1, 2, 4], vec![1, 3, 4]]);
    assert_eq!(graph.find_all_paths(4, 1), Vec::<Vec<i32>>::new());
    assert_eq!(graph.find_all_paths(2, 3), Vec::<Vec<i32>>::new());
}

#[test]
fn triangle_has_a_short_and_a_long_way() {
    let mut graph = Graph::new(None);
    graph.add_edge(1, 2);
    graph.add_edge(2, 3);
    graph.add_edge(3, 1);
    assert_eq!(sorted(graph.find_all_paths(1, 3)), vec![vec![1, 2, 3], vec![1, 3]]);
    assert_eq!(graph.find_paths_with_max_steps(1, 3, 2), vec![vec![1, 3]]);
    assert_eq!(sorted(graph.find_paths_with_max_steps(1, 3, 3)), vec![vec![1, 2, 3], vec![1, 3]]);
}

#[test]
fn directed_cycle_is_walked_once() {
    let mut graph = Graph::new(Some(true));
    graph.add_edge(1, 2);
    graph.add_edge(2, 3);
    graph.add_edge(3, 1);
    assert_eq!(graph.find_all_paths(1, 3), vec![vec![1, 2, 3]]);
    assert_eq!(graph.find_all_paths(3, 2), vec![vec![3, 1, 2]]);
    assert_eq!(graph.find_all_paths(2, 1), vec![vec![2, 3, 1]]);
}

#[test]
fn directed_edge_is_not_walked_backwards() {
    let mut graph = Graph::new(Some(true));
    graph.add_edge(1, 2);
    assert_eq!(graph.find_all_paths(2, 1), Vec::<Vec<i32>>::new());
    assert_eq!(graph.find_all_paths(1, 2), vec![vec![1, 2]]);
}

#[test]
fn start_without_an_entry_finds_nothing() {
    let mut graph = Graph::new(Some(true));
    graph.add_edge(1, 2);
    graph.add_edge(3, 2);
    assert_eq!(graph.find_all_paths(2, 3), Vec::<Vec<i32>>::new());
    assert_eq!(graph.find_all_paths(9, 2), Vec::<Vec<i32>>::new());
    assert_eq!(graph.find_paths_with_max_steps(2, 3, 5), Vec::<Vec<i32>>::new());
}

#[test]
fn search_does_not_go_on_past_the_end() {
    // 1 - 2 - 3 - 4 and 1 - 4: from 1 to 2 the way round through 4 and 3 counts,
    // but no path runs through 2 and comes back to it.
    let mut graph = Graph::new(None);
    graph.add_edge(1, 2);
    graph.add_edge(2, 3);
    graph.add_edge(3, 4);
    graph.add_edge(4, 1);
    assert_eq!(sorted(graph.find_all_paths(1, 2)), vec![vec![1, 2], vec![1, 4, 3, 2]]);
    for path in graph.find_all_paths(1, 2) {
        assert_eq!(path.iter().filter(|node| **node == 2).count(), 1);
    }
}

#[test]
fn every_path_found_is_simple() {
    let graph = ladder();
    for start in 0..8 {
        for end in 0..8 {
            for path in graph.find_all_paths(start, end) {
                assert_simple_path(&graph, start, end, &path);
            }
            for path in graph.find_paths_with_max_steps(start, end, 5) {
                assert_simple_path(&graph, start, end, &path);
            }
        }
    }
}

#[test]
fn no_path_is_found_twice() {
    let graph = complete_graph(5);
    let mut paths = sorted(graph.find_all_paths(0, 4));
    let found = paths.len();
    paths.dedup();
    assert_eq!(paths.len(), found);
}

#[test]
fn complete_graph_has_every_ordering_of_the_nodes_between() {
    // Between two nodes of a complete graph on n nodes, the paths are the
    // ordered selections from the other n - 2 nodes.
    assert_eq!(complete_graph(2).find_all_paths(0, 1).len(), 1);
    assert_eq!(complete_graph(3).find_all_paths(0, 2).len(), 2);
    assert_eq!(complete_graph(4).find_all_paths(0, 3).len(), 5);
    assert_eq!(complete_graph(5).find_all_paths(0, 4).len(), 16);
    assert_eq!(complete_graph(6).find_all_paths(0, 5).len(), 65);

    assert_eq!(
        sorted(complete_graph(4).find_all_paths(0, 3)),
        vec![vec![0, 1, 2, 3], vec![0, 1, 3], vec![0, 2, 1, 3], vec![0, 2, 3], vec![0, 3]]
    );
}

#[test]
fn complete_graph_under_a_limit() {
    let graph = complete_graph(5);
    assert_eq!(graph.find_paths_with_max_steps(0, 4, 1).len(), 0);
    assert_eq!(graph.find_paths_with_max_steps(0, 4, 2).len(), 1);
    assert_eq!(graph.find_paths_with_max_steps(0, 4, 3).len(), 4);
    assert_eq!(graph.find_paths_with_max_steps(0, 4, 4).len(), 10);
    assert_eq!(graph.find_paths_with_max_steps(0, 4, 5).len(), 16);
    assert_eq!(graph.find_paths_with_max_steps(0, 4, 6).len(), 16);
}

#[test]
fn limit_keeps_the_paths_that_are_short_enough() {
    let graph = ladder();
    for start in 0..8 {
        for end in 0..8 {
            let all = sorted(graph.find_all_paths(start, end));
            for limit in 1..10 {
                let expected: Vec<Vec<u32>> =
                    all.iter().filter(|path| path.len() <= limit).cloned().collect();
                assert_eq!(sorted(graph.find_paths_with_max_steps(start, end, limit)), expected);
            }
        }
    }
}

#[test]
fn limit_of_zero_still_finds_the_path_of_one_node() {
    let graph = ladder();
    let all = graph.find_all_paths(3, 3);
    let bounded = graph.find_paths_with_max_steps(3, 3, 0);
    assert_eq!(all, vec![vec![3]]);
    assert_eq!(bounded, vec![vec![3]]);
    assert!(bounded[0].len() > 0);
}

#[test]
fn raising_the_limit_loses_no_path() {
    let graph = ladder();
    for start in 0..8 {
        for end in 0..8 {
            for limit in 0..9 {
                let fewer = graph.find_paths_with_max_steps(start, end, limit);
                let more = graph.find_paths_with_max_steps(start, end, limit + 1);
                for path in &fewer {
                    assert!(more.contains(path));
                }
                assert!(fewer.len() <= more.len());
            }
        }
    }
}

#[test]
fn ladder_corner_to_corner() {
    let graph = ladder();
    assert_eq!(
        sorted(graph.find_all_paths(0, 7)),
        vec![
            vec![0, 1, 2, 3, 7],
            vec![0, 1, 2, 6, 7],
            vec![0, 1, 5, 6, 2, 3, 7],
            vec![0, 1, 5, 6, 7],
            vec![0, 4, 5, 1, 2, 3, 7],
            vec![0, 4, 5, 1, 2, 6, 7],
            vec![0, 4, 5, 6, 2, 3, 7],
            vec![0, 4, 5, 6, 7],
        ]
    );
    assert_eq!(
        sorted(graph.find_paths_with_max_steps(0, 7, 5)),
        vec![vec![0, 1, 2, 3, 7], vec![0, 1, 2, 6, 7], vec![0, 1, 5, 6, 7], vec![0, 4, 5, 6, 7]]
    );
    assert_eq!(graph.find_paths_with_max_steps(0, 7, 4), Vec::<Vec<u32>>::new());
}

#[test]
fn text_keys_round_a_square() {
    let mut graph = Graph::new(None);
    graph.add_edge("north".to_string(), "east".to_string());
    graph.add_edge("east".to_string(), "south".to_string());
    graph.add_edge("south".to_string(), "west".to_string());
    graph.add_edge("west".to_string(), "north".to_string());
    let found = sorted(graph.find_all_paths("north".to_string(), "south".to_string()));
    assert_eq!(
        found,
        vec![
            vec!["north".to_string(), "east".to_string(), "south".to_string()],
            vec!["north".to_string(), "west".to_string(), "south".to_string()],
        ]
    );
    assert_eq!(
        graph.find_paths_with_max_steps("north".to_string(), "south".to_string(), 2),
        Vec::<Vec<String>>::new()
    );
    assert_eq!(
        graph.find_all_paths("east".to_string(), "east".to_string()),
        vec![vec!["east".to_string()]]
    );
}
