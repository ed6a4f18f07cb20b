use graph_paths::graph::Graph;

#[test]
fn test_add_edge() {
    let mut graph = Graph::new(Some(false));
    graph.add_edge(1, 2);
    assert!(graph.neighbors(&1).unwrap().contains(&2));
    assert!(graph.neighbors(&2).is_some());

    let mut graph = Graph::new(Some(true));
    graph.add_edge(1, 2);
    assert!(graph.neighbors(&1).unwrap().contains(&2));
    assert!(!graph.neighbors(&2).is_some());
}

#[test]
fn test_find_all_paths() {
    let mut graph = Graph::new(Some(false));
    graph.add_edge(1, 2);
    graph.add_edge(2, 3);
    graph.add_edge(3, 4);
    let paths = graph.find_all_paths(1, 4);
    assert_eq!(paths, vec![vec![1, 2, 3, 4]]);
}

#[test]
fn test_find_paths_with_max_steps() {
    let mut graph = Graph::new(None);
    graph.add_edge(1, 2);
    graph.add_edge(2, 3);
    graph.add_edge(3, 4);
    let paths = graph.find_paths_with_max_steps(1, 4, 3);
    assert_eq!(paths, Vec::<Vec<i64>>::new());
    let paths = graph.find_paths_with_max_steps(1, 4, 4);
    assert_eq!(paths, vec![vec![1, 2, 3, 4]]);
}

#[test]
fn test_add_edge_string() {
    let mut graph = Graph::new(Some(false));
    graph.add_edge("Node1".to_string(), "Node2".to_string());
    assert!(graph
        .neighbors(&"Node1".to_string())
        .unwrap()
        .contains(&"Node2".to_string()));
    assert!(graph
        .neighbors(&"Node2".to_string())
        .unwrap()
        .contains(&"Node1".to_string()));

    let mut graph = Graph::new(Some(true));
    graph.add_edge("Node1".to_string(), "Node2".to_string());
    assert!(graph
        .neighbors(&"Node1".to_string())
        .unwrap()
        .contains(&"Node2".to_string()));
    assert!(!graph.neighbors(&"Node2".to_string()).is_some());
}

#[test]
fn test_find_all_paths_string() {
    let mut graph = Graph::new(Some(false));
    graph.add_edge("Node1".to_string(), "Node2".to_string());
    graph.add_edge("Node2".to_string(), "Node3".to_string());
    graph.add_edge("Node3".to_string(), "Node4".to_string());
    let paths = graph.find_all_paths("Node1".to_string(), "Node4".to_string());
    assert_eq!(
        paths,
        vec![vec!["Node1", "Node2", "Node3", "Node4"]
            .into_iter()
            .map(|s| s.to_string())
            .collect::<Vec<_>>()]
    );
}

#[test]
fn test_find_paths_with_max_steps_string() {
    let mut graph = Graph::new(Some(false));
    graph.add_edge("Node1".to_string(), "Node2".to_string());
    graph.add_edge("Node2".to_string(), "Node3".to_string());
    graph.add_edge("Node3".to_string(), "Node4".to_string());
    let paths = graph.find_paths_with_max_steps("Node1".to_string(), "Node4".to_string(), 3);
    assert_eq!(paths, Vec::<Vec<String>>::new());
    let paths = graph.find_paths_with_max_steps("Node1".to_string(), "Node4".to_string(), 4);
    assert_eq!(
        paths,
        vec![vec!["Node1", "Node2", "Node3", "Node4"]
            .into_iter()
            .map(|s| s.to_string())
            .collect::<Vec<_>>()]
    );
}
