use hermes::HermesEngine;
use hermes::ingestion::SourceFile;
use hermes::search::SearchMode;
use hermes::temporal::FactType;

fn file(path: &str, content: &str) -> SourceFile {
    SourceFile { path: path.to_string(), content: content.to_string() }
}

#[test]
fn create_in_memory_engine() {
    let engine = HermesEngine::in_memory("test-project");
    assert_eq!(engine.project_id(), "test-project");
}

#[test]
fn search_cache_starts_empty() {
    let engine = HermesEngine::in_memory("test-cache");
    assert_eq!(engine.search_cache_len(), 0);
}

#[test]
fn invalidate_clears_cache() {
    let mut engine = HermesEngine::in_memory("test-inv");
    let files = vec![file("a.rs", "pub fn alpha() {}\n")];
    engine.index(&files);
    let g = &engine.graph;
    let resp = engine.search.search(g, "alpha", 10, &SearchMode::Smart);
    assert!(resp.pointers.len() >= 1);
    assert!(engine.search_cache_len() > 0);
    engine.invalidate_search_cache();
    assert_eq!(engine.search_cache_len(), 0);
}

#[test]
fn index_then_search_finds_function() {
    let mut engine = HermesEngine::in_memory("flow");
    let files = vec![file(
        "src/api.rs",
        "pub fn handle_request() {\n    respond();\n}\n",
    )];
    let report = engine.index(&files);
    assert_eq!(report.indexed, 1);
    let resp = engine.search.search(&engine.graph, "handle_request", 5, &SearchMode::Smart);
    assert!(resp.pointers.iter().any(|p| p.chunk == "handle_request"));
}

#[test]
fn index_search_fetch_round_trip() {
    let mut engine = HermesEngine::in_memory("round");
    let files = vec![file(
        "src/one.rs",
        "pub fn only_one() {\n    work();\n}\n",
    )];
    engine.index(&files);
    let resp = engine.search.search(&engine.graph, "only_one", 5, &SearchMode::Smart);
    assert!(!resp.pointers.is_empty());
    let id = resp.pointers[0].id.clone();
    let fetched = engine.search.fetch(&engine.graph, &id).unwrap();
    assert!(fetched.content.contains("only_one"));
}

#[test]
fn facts_flow_through_engine() {
    let mut engine = HermesEngine::in_memory("facts");
    let id = engine.temporal.add_fact(None, FactType::Decision, "keep it simple", None);
    let active = engine.temporal.get_active_facts(None);
    assert_eq!(active.len(), 1);
    assert_eq!(active[0].id, id);
}

#[test]
fn accounting_flows_through_engine() {
    let mut engine = HermesEngine::in_memory("acct");
    engine.accountant.record_query("q", 300, 0, 4500);
    let stats = engine.accountant.get_session_stats();
    assert_eq!(stats.total_queries, 1);
    assert_eq!(stats.total_traditional_estimate, 4500);
}
