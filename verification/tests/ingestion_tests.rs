use hermes::graph::KnowledgeGraph;
use hermes::ingestion::hash_tracker::HashTracker;
use hermes::ingestion::{IngestionPipeline, SourceFile};
use hermes::hashing::compute_hash;
use hermes::ingestion::crawler::{crawl_directory, is_supported_file, path_is_ignored};

fn file(path: &str, content: &str) -> SourceFile {
    SourceFile { path: path.to_string(), content: content.to_string() }
}

#[test]
fn hash_is_deterministic() {
    let h1 = compute_hash("hello world");
    let h2 = compute_hash("hello world");
    assert_eq!(h1, h2);
}

#[test]
fn different_content_different_hash() {
    let h1 = compute_hash("hello");
    let h2 = compute_hash("world");
    assert_ne!(h1, h2);
}

#[test]
fn hash_is_64_hex_chars() {
    let h = compute_hash("test");
    assert_eq!(h.len(), 64);
    assert!(h.chars().all(|c| c.is_ascii_hexdigit()));
}

#[test]
fn hash_known_value() {
    // SHA-256 of the empty string, a published constant.
    assert_eq!(
        compute_hash(""),
        "e3b0c44298fc1c149afbf4c8996fb92427ae41e4649b934ca495991b7852b855"
    );
}

#[test]
fn test_chunk_unchanged_returns_false_when_not_stored() {
    let tracker = HashTracker::new("chunk-test");
    let result = tracker.is_chunk_unchanged("path/to/file.rs::fn_name", "abc123");
    assert!(!result);
}

#[test]
fn test_chunk_unchanged_returns_true_after_store() {
    let mut tracker = HashTracker::new("chunk-test2");
    let key = "path/to/file.rs::fn_main";
    let hash = compute_hash("fn main() { println!(\"hello\"); }");
    tracker.update_chunk_hash(key, &hash);
    assert!(tracker.is_chunk_unchanged(key, &hash));
}

#[test]
fn test_chunk_changed_returns_false_on_different_hash() {
    let mut tracker = HashTracker::new("chunk-test3");
    let key = "path/to/file.rs::fn_foo";
    let old_hash = compute_hash("fn foo() {}");
    let new_hash = compute_hash("fn foo() { do_something(); }");
    tracker.update_chunk_hash(key, &old_hash);
    assert!(!tracker.is_chunk_unchanged(key, &new_hash));
}

#[test]
fn test_ingest_empty_dir_returns_zero_report() {
    let mut graph = KnowledgeGraph::new("test-ingest");
    let mut pipeline = IngestionPipeline::new("test-ingest");
    let files: Vec<SourceFile> = Vec::new();
    let report = pipeline.ingest_directory(&mut graph, &files);
    assert_eq!(report.total_files, 0);
    assert_eq!(report.nodes_created, 0);
}

#[test]
fn test_unchanged_file_is_skipped_on_reindex() {
    let mut graph = KnowledgeGraph::new("test-skip");
    let mut pipeline = IngestionPipeline::new("test-skip");
    let files = vec![file("test.rs", "fn main() {}")];

    let report1 = pipeline.ingest_directory(&mut graph, &files);
    assert_eq!(report1.indexed, 1);
    assert_eq!(report1.skipped, 0);

    let report2 = pipeline.ingest_directory(&mut graph, &files);
    assert_eq!(report2.indexed, 0);
    assert_eq!(report2.skipped, 1);
}

#[test]
fn test_stale_file_removed_after_deletion() {
    let mut graph = KnowledgeGraph::new("test-stale");
    let mut pipeline = IngestionPipeline::new("test-stale");

    // First index
    let files = vec![file("will_be_deleted.rs", "fn foo() {}")];
    pipeline.ingest_directory(&mut graph, &files);
    let paths_after_first = graph.get_all_file_paths();
    assert!(!paths_after_first.is_empty());

    // Remove the file from the crawl set and re-index
    let none: Vec<SourceFile> = Vec::new();
    pipeline.ingest_directory(&mut graph, &none);
    let paths_after_second = graph.get_all_file_paths();
    assert!(paths_after_second.is_empty());
}

#[test]
fn ingest_scenario_counts() {
    // Two files: first run indexes both, second run skips both.
    let mut graph = KnowledgeGraph::new("scenario");
    let mut pipeline = IngestionPipeline::new("scenario");
    let files = vec![
        file("a.rs", "pub fn main() {}"),
        file("b.md", "# Title\nhi\n"),
    ];
    let r1 = pipeline.ingest_directory(&mut graph, &files);
    assert_eq!(r1.total_files, 2);
    assert_eq!(r1.indexed, 2);
    assert_eq!(r1.skipped, 0);
    assert_eq!(r1.errors, 0);
    assert!(r1.nodes_created >= 3);

    let r2 = pipeline.ingest_directory(&mut graph, &files);
    assert_eq!(r2.indexed, 0);
    assert_eq!(r2.skipped, 2);
}

#[test]
fn stale_cleanup_scenario() {
    // After deleting a.rs, its nodes are gone and b.md remains.
    let mut graph = KnowledgeGraph::new("stale-scenario");
    let mut pipeline = IngestionPipeline::new("stale-scenario");
    let files = vec![
        file("a.rs", "pub fn main() {}"),
        file("b.md", "# Title\nhi\n"),
    ];
    pipeline.ingest_directory(&mut graph, &files);

    let only_b = vec![file("b.md", "# Title\nhi\n")];
    let r = pipeline.ingest_directory(&mut graph, &only_b);
    assert_eq!(r.total_files, 1);
    assert_eq!(r.indexed, 0);
    assert_eq!(r.skipped, 1);

    let paths = graph.get_all_file_paths();
    assert!(paths.iter().any(|p| p == "b.md"));
    assert!(!paths.iter().any(|p| p == "a.rs"));
}

#[test]
fn crawl_finds_rust_files() {
    let listing = vec!["main.rs".to_string(), "readme.txt".to_string()];
    let files = crawl_directory(&listing);
    assert_eq!(files.len(), 1);
    assert!(files[0].contains("main.rs"));
}

#[test]
fn crawl_ignores_node_modules() {
    let listing = vec!["node_modules/lib.js".to_string(), "app.ts".to_string()];
    let files = crawl_directory(&listing);
    assert_eq!(files.len(), 1);
    assert!(files[0].contains("app.ts"));
}

#[test]
fn crawl_sorts_paths() {
    let listing = vec!["b.rs".to_string(), "a.rs".to_string(), "c.md".to_string()];
    let files = crawl_directory(&listing);
    assert_eq!(files, vec!["a.rs".to_string(), "b.rs".to_string(), "c.md".to_string()]);
}

#[test]
fn crawl_empty_listing_is_empty() {
    let listing: Vec<String> = Vec::new();
    assert!(crawl_directory(&listing).is_empty());
}

#[test]
fn supported_extensions_check() {
    assert!(is_supported_file("foo.rs"));
    assert!(is_supported_file("bar.tsx"));
    assert!(is_supported_file("doc.md"));
    assert!(!is_supported_file("image.png"));
    assert!(!is_supported_file("data.csv"));
}

#[test]
fn ignored_dir_components() {
    assert!(path_is_ignored("target/debug/foo.rs"));
    assert!(path_is_ignored("a/.git/b.rs"));
    assert!(!path_is_ignored("src/target.rs"));
}

#[test]
fn report_describe_counts() {
    let mut graph = KnowledgeGraph::new("describe");
    let mut pipeline = IngestionPipeline::new("describe");
    let files = vec![file("a.rs", "pub fn main() {}")];
    let r = pipeline.ingest_directory(&mut graph, &files);
    let line = r.describe();
    assert!(line.contains("1 files"));
    assert!(line.contains("1 indexed"));
}

#[test]
fn ingest_writes_chunk_rows() {
    // The written chunk is reachable: its node carries the chunk name, a
    // containment edge hangs off the file node, and the mirror row answers
    // a query for the chunk text.
    let mut graph = KnowledgeGraph::new("rows");
    let mut pipeline = IngestionPipeline::new("rows");
    let files = vec![file("lib.rs", "pub fn solo() {\n    work();\n}\n")];
    let report = pipeline.ingest_directory(&mut graph, &files);
    assert_eq!(report.nodes_created, 2);

    let all = graph.get_all_nodes();
    let file_node = all.iter().find(|n| n.name == "lib.rs").expect("file node");
    let chunk_node = all.iter().find(|n| n.name == "solo").expect("chunk node");
    let neighbors = graph.get_neighbors(&file_node.id);
    assert!(neighbors.iter().any(|(e, n)| n.id == chunk_node.id
        && e.edge_type == hermes::graph::EdgeType::Contains));
    assert!(!graph.fts_search("\"work\"", 10).is_empty());
}
