use hermes::graph::{Edge, EdgeType, KnowledgeGraph, Node, NodeType};

fn sample_node(project_id: &str) -> Node {
    Node {
        id: "node-1".to_string(),
        project_id: project_id.to_string(),
        name: "my_function".to_string(),
        node_type: NodeType::Function,
        file_path: Some("src/lib.rs".to_string()),
        start_line: Some(10),
        end_line: Some(20),
        summary: Some("Does something".to_string()),
        content_hash: Some("abc123".to_string()),
    }
}

#[test]
fn node_type_roundtrip() {
    let variants = [
        NodeType::File,
        NodeType::Module,
        NodeType::Function,
        NodeType::Struct,
        NodeType::Impl,
        NodeType::Trait,
        NodeType::Enum,
        NodeType::Concept,
        NodeType::Document,
    ];
    for v in &variants {
        assert_eq!(&NodeType::parse_str(v.as_str()), v);
    }
}

#[test]
fn node_type_unknown_falls_back_to_concept() {
    assert_eq!(NodeType::parse_str("mystery"), NodeType::Concept);
}

#[test]
fn edge_type_roundtrip() {
    let variants = [
        EdgeType::Calls,
        EdgeType::Imports,
        EdgeType::Implements,
        EdgeType::DependsOn,
        EdgeType::Contains,
        EdgeType::Documents,
    ];
    for v in &variants {
        assert_eq!(&EdgeType::parse_str(v.as_str()), v);
    }
}

#[test]
fn edge_type_unknown_falls_back_to_depends_on() {
    assert_eq!(EdgeType::parse_str("blah"), EdgeType::DependsOn);
}

#[test]
fn add_and_get_node_roundtrip() {
    let mut graph = KnowledgeGraph::new("graph-crud");
    let node = sample_node("graph-crud");
    graph.add_node(&node);

    let fetched = graph.get_node("node-1").expect("node must exist");
    assert_eq!(fetched.name, "my_function");
    assert_eq!(fetched.node_type, NodeType::Function);
    assert_eq!(fetched.start_line, Some(10));
    assert_eq!(fetched.summary.as_deref(), Some("Does something"));
}

#[test]
fn get_node_returns_none_for_missing_id() {
    let graph = KnowledgeGraph::new("graph-missing");
    let result = graph.get_node("nonexistent");
    assert!(result.is_none());
}

#[test]
fn add_node_is_idempotent_with_replace() {
    let mut graph = KnowledgeGraph::new("graph-replace");
    let node = sample_node("graph-replace");
    graph.add_node(&node);

    let mut updated = node.clone();
    updated.name = "renamed_function".to_string();
    graph.add_node(&updated);

    let fetched = graph.get_node("node-1").unwrap();
    assert_eq!(fetched.name, "renamed_function");
}

#[test]
fn add_edge_and_get_neighbors() {
    let mut graph = KnowledgeGraph::new("graph-edge");

    let n1 = Node {
        id: "n1".to_string(),
        project_id: "graph-edge".to_string(),
        name: "caller".to_string(),
        node_type: NodeType::Function,
        file_path: None,
        start_line: None,
        end_line: None,
        summary: None,
        content_hash: None,
    };
    let n2 = Node {
        id: "n2".to_string(),
        project_id: "graph-edge".to_string(),
        name: "callee".to_string(),
        node_type: NodeType::Function,
        file_path: None,
        start_line: None,
        end_line: None,
        summary: None,
        content_hash: None,
    };
    graph.add_node(&n1);
    graph.add_node(&n2);

    let edge = Edge {
        id: "e1".to_string(),
        project_id: "graph-edge".to_string(),
        source_id: "n1".to_string(),
        target_id: "n2".to_string(),
        edge_type: EdgeType::Calls,
        weight: 1000,
    };
    graph.add_edge(&edge);

    let neighbors_of_n1 = graph.get_neighbors("n1");
    assert_eq!(neighbors_of_n1.len(), 1);
    assert_eq!(neighbors_of_n1[0].1.name, "callee");
    assert_eq!(neighbors_of_n1[0].0.edge_type, EdgeType::Calls);

    let neighbors_of_n2 = graph.get_neighbors("n2");
    assert_eq!(neighbors_of_n2.len(), 1);
    assert_eq!(neighbors_of_n2[0].1.name, "caller");
}

#[test]
fn add_edge_ignore_duplicates() {
    let mut graph = KnowledgeGraph::new("graph-edge-dup");

    for id in ["na", "nb"] {
        graph.add_node(&Node {
            id: id.to_string(),
            project_id: "graph-edge-dup".to_string(),
            name: id.to_string(),
            node_type: NodeType::Concept,
            file_path: None,
            start_line: None,
            end_line: None,
            summary: None,
            content_hash: None,
        });
    }

    let edge = Edge {
        id: "dup-e".to_string(),
        project_id: "graph-edge-dup".to_string(),
        source_id: "na".to_string(),
        target_id: "nb".to_string(),
        edge_type: EdgeType::Imports,
        weight: 1000,
    };
    graph.add_edge(&edge);
    graph.add_edge(&edge); // should not panic

    assert_eq!(graph.get_neighbors("na").len(), 1);
}

#[test]
fn index_fts_stores_and_replaces_content() {
    let mut graph = KnowledgeGraph::new("graph-fts");
    let node = sample_node("graph-fts");
    graph.add_node(&node);

    graph.index_fts(&node, "initial content");
    // Second call should replace without error
    graph.index_fts(&node, "updated content");

    // Verify via raw FTS query returns one row
    let results = graph.fts_search("\"updated\"", 10);
    assert_eq!(results.len(), 1);
    assert_eq!(results[0].0.id, "node-1");
}

#[test]
fn no_neighbors_for_isolated_node() {
    let mut graph = KnowledgeGraph::new("graph-isolated");
    let node = sample_node("graph-isolated");
    graph.add_node(&node);
    assert!(graph.get_neighbors("node-1").is_empty());
}

fn insert_node(graph: &mut KnowledgeGraph, id: &str, name: &str, file_path: &str) -> Node {
    let node = Node {
        id: id.to_string(),
        project_id: graph.project_id().to_string(),
        name: name.to_string(),
        node_type: NodeType::Function,
        file_path: Some(file_path.to_string()),
        start_line: Some(1),
        end_line: Some(10),
        summary: None,
        content_hash: None,
    };
    graph.add_node(&node);
    node
}

#[test]
fn literal_search_prefix_match() {
    let mut graph = KnowledgeGraph::new("gq-literal");
    insert_node(&mut graph, "n1", "fetch_alerts", "src/api.rs");
    insert_node(&mut graph, "n2", "process_alerts", "src/api.rs");

    let results = graph.literal_search_by_name("fetch");
    assert_eq!(results.len(), 1);
    assert_eq!(results[0].name, "fetch_alerts");
}

#[test]
fn literal_search_contains_fallback() {
    let mut graph = KnowledgeGraph::new("gq-contains");
    insert_node(&mut graph, "n1", "fetch_alerts_handler", "src/api.rs");

    // "alerts" is not a prefix but is contained in the name
    let results = graph.literal_search_by_name("alerts");
    assert!(!results.is_empty());
    assert_eq!(results[0].name, "fetch_alerts_handler");
}

#[test]
fn literal_search_is_case_insensitive() {
    let mut graph = KnowledgeGraph::new("gq-case");
    insert_node(&mut graph, "n1", "HandleRequest", "src/server.rs");

    let results = graph.literal_search_by_name("handlerequest");
    assert_eq!(results.len(), 1);
}

#[test]
fn literal_search_returns_empty_for_no_match() {
    let mut graph = KnowledgeGraph::new("gq-nomatch");
    insert_node(&mut graph, "n1", "my_func", "src/lib.rs");

    let results = graph.literal_search_by_name("nonexistent_xyz");
    assert!(results.is_empty());
}

#[test]
fn get_all_nodes_empty() {
    let graph = KnowledgeGraph::new("gq-allnodes-empty");
    assert!(graph.get_all_nodes().is_empty());
}

#[test]
fn get_all_nodes_returns_inserted_nodes() {
    let mut graph = KnowledgeGraph::new("gq-allnodes");
    insert_node(&mut graph, "n1", "alpha", "src/a.rs");
    insert_node(&mut graph, "n2", "beta", "src/b.rs");

    let all = graph.get_all_nodes();
    assert_eq!(all.len(), 2);
}

#[test]
fn get_all_file_paths_only_returns_file_type_nodes() {
    let mut graph = KnowledgeGraph::new("gq-filepaths");

    let file_node = Node {
        id: "file-1".to_string(),
        project_id: "gq-filepaths".to_string(),
        name: "src/main.rs".to_string(),
        node_type: NodeType::File,
        file_path: Some("src/main.rs".to_string()),
        start_line: None,
        end_line: None,
        summary: None,
        content_hash: None,
    };
    graph.add_node(&file_node);

    // Add a Function-typed node (must NOT appear in file paths)
    insert_node(&mut graph, "fn-1", "some_fn", "src/main.rs");

    let paths = graph.get_all_file_paths();
    assert_eq!(paths.len(), 1);
    assert!(paths.iter().any(|p| p == "src/main.rs"));
}

#[test]
fn delete_nodes_for_file_removes_correct_nodes() {
    let mut graph = KnowledgeGraph::new("gq-delete");
    insert_node(&mut graph, "n1", "fn_a", "src/a.rs");
    insert_node(&mut graph, "n2", "fn_b", "src/b.rs");

    graph.delete_nodes_for_file("src/a.rs");

    let all = graph.get_all_nodes();
    assert_eq!(all.len(), 1);
    assert_eq!(all[0].name, "fn_b");
}

#[test]
fn delete_nodes_removes_associated_edges() {
    let mut graph = KnowledgeGraph::new("gq-delete-edges");
    let n1 = insert_node(&mut graph, "n1", "fn_a", "src/a.rs");
    let n2 = insert_node(&mut graph, "n2", "fn_b", "src/b.rs");

    let edge = Edge {
        id: "e1".to_string(),
        project_id: "gq-delete-edges".to_string(),
        source_id: n1.id.clone(),
        target_id: n2.id.clone(),
        edge_type: EdgeType::Calls,
        weight: 1000,
    };
    graph.add_edge(&edge);

    graph.delete_nodes_for_file("src/a.rs");

    // n2 still exists but has no neighbors since n1 and the edge are gone
    let neighbors = graph.get_neighbors("n2");
    assert!(neighbors.is_empty());
}

#[test]
fn fts_search_finds_indexed_content() {
    let mut graph = KnowledgeGraph::new("gq-fts");
    let node = insert_node(&mut graph, "n1", "alerts_handler", "src/api.rs");
    graph.index_fts(&node, "handles incoming alert notifications");

    let results = graph.fts_search("\"alert\"", 10);
    assert!(!results.is_empty());
    assert_eq!(results[0].0.id, "n1");
}

#[test]
fn fts_search_returns_empty_for_no_match() {
    let mut graph = KnowledgeGraph::new("gq-fts-empty");
    let node = insert_node(&mut graph, "n1", "handler", "src/api.rs");
    graph.index_fts(&node, "something completely different");

    let results = graph.fts_search("\"xyznonexistent\"", 10);
    assert!(results.is_empty());
}

#[test]
fn fts_search_respects_limit() {
    let mut graph = KnowledgeGraph::new("gq-fts-limit");

    for i in 0..5 {
        let node = insert_node(
            &mut graph,
            &format!("n{i}"),
            &format!("handler_{i}"),
            "src/api.rs",
        );
        graph.index_fts(&node, "shared keyword present in content");
    }

    let results = graph.fts_search("\"shared\"", 3);
    assert!(results.len() <= 3);
}
