use hermes::graph::{KnowledgeGraph, Node, NodeType};
use hermes::search::fts::{is_fts_operator, normalize_bm25_score, query_words};
use hermes::search::literal::compute_literal_score;
use hermes::search::vector::{build_vector, cosine_milli, tokenize};
use hermes::search::{
    SearchEngine, SearchMode, SearchResult, SearchTier, deduplicate_and_rank,
};
use hermes::text::{chars_of, string_of};

fn test_node(id: &str, name: &str, project: &str) -> Node {
    Node {
        id: id.to_string(),
        project_id: project.to_string(),
        name: name.to_string(),
        node_type: NodeType::Function,
        file_path: None,
        start_line: None,
        end_line: None,
        summary: None,
        content_hash: None,
    }
}

#[test]
fn dedup_keeps_highest_score() {
    let node = test_node("n1", "test_fn", "test");

    let results = vec![
        SearchResult {
            node: node.clone(),
            score: 500,
            tier: SearchTier::L1Fts,
            matched_content: None,
        },
        SearchResult {
            node: node.clone(),
            score: 900,
            tier: SearchTier::L0Literal,
            matched_content: None,
        },
    ];

    let deduped = deduplicate_and_rank(results, 10);
    assert_eq!(deduped.len(), 1);
    assert_eq!(deduped[0].tier, SearchTier::L0Literal);
}

#[test]
fn dedup_reports_raw_score_of_winner() {
    // An L1 hit with a higher adjusted score replaces the L0 entry, and the
    // reported relevance is the winner's raw score.
    let node = test_node("nx", "fetch", "test");
    let results = vec![
        SearchResult { node: node.clone(), score: 500, tier: SearchTier::L0Literal, matched_content: None },
        SearchResult { node: node.clone(), score: 900, tier: SearchTier::L1Fts, matched_content: None },
    ];
    let deduped = deduplicate_and_rank(results, 10);
    assert_eq!(deduped.len(), 1);
    assert_eq!(deduped[0].tier, SearchTier::L1Fts);
    assert_eq!(deduped[0].score, 900);
}

#[test]
fn tier_merge_single_entry() {
    // A node found by both tiers keeps the literal hit and its raw score.
    let node = test_node("x1", "fetch", "test");
    let results = vec![
        SearchResult { node: node.clone(), score: 1000, tier: SearchTier::L0Literal, matched_content: None },
        SearchResult { node: node.clone(), score: 700, tier: SearchTier::L1Fts, matched_content: None },
    ];
    let deduped = deduplicate_and_rank(results, 10);
    assert_eq!(deduped.len(), 1);
    assert_eq!(deduped[0].score, 1000);
    assert_eq!(deduped[0].tier, SearchTier::L0Literal);
}

#[test]
fn short_circuit_skips_on_high_l0_confidence() {
    // The short-circuit thresholds, in thousandths.
    let skip_all: u64 = 900;
    let skip_l2: u64 = 800;
    assert!(skip_all > skip_l2);
    assert!(skip_all <= 1000);
    assert!(skip_l2 > 0);
}

#[test]
fn cache_miss_then_hit() {
    let mut graph = KnowledgeGraph::new("cache-mod");
    let node = test_node("n1", "handleRequest", "cache-mod");
    let mut g = graph;
    g.add_node(&node);
    let mut engine = SearchEngine::new();
    let first = engine.search_at(&g, "handleRequest", 10, &SearchMode::Smart, 1000);
    // Within the lifetime the same response comes back.
    let second = engine.search_at(&g, "handleRequest", 10, &SearchMode::Smart, 2000);
    assert_eq!(first.pointers.len(), second.pointers.len());
    assert_eq!(first.accounting, second.accounting);
    // Past the lifetime the entry is gone and the search recomputes.
    let third = engine.search_at(&g, "handleRequest", 10, &SearchMode::Smart, 1000 + 60_000);
    assert_eq!(first.pointers.len(), third.pointers.len());
}

#[test]
fn estimate_tokens_word_count_based() {
    // four words scale to ceil(16 / 3) = 6 tokens
    let tokens = hermes::pointer::estimate_tokens("hello world foo bar");
    assert_eq!(tokens, 6);
}

#[test]
fn estimate_tokens_empty() {
    assert_eq!(hermes::pointer::estimate_tokens(""), 0);
}

#[test]
fn single_word_uses_phrase_strategy() {
    // One meaningful word becomes a single quoted term.
    let words = query_words("main");
    assert_eq!(words.len(), 1);
    assert_eq!(string_of(&words[0]), "main");
}

#[test]
fn filters_fts_operators() {
    let words = query_words("NOT main AND test OR foo");
    let rendered: Vec<String> = words.iter().map(|w| string_of(w)).collect();
    assert!(!rendered.contains(&"NOT".to_string()));
    assert!(!rendered.contains(&"AND".to_string()));
    assert!(!rendered.contains(&"OR".to_string()));
    assert!(rendered.contains(&"main".to_string()));
    assert!(rendered.contains(&"test".to_string()));
    assert!(rendered.contains(&"foo".to_string()));
}

#[test]
fn truncates_to_ten_words() {
    let words = query_words("a b c d e f g h i j k l m n");
    assert_eq!(words.len(), 10);
}

#[test]
fn bm25_normalization() {
    // More occurrences score better; no occurrences are neutral.
    assert!(normalize_bm25_score(5) > 500);
    assert!(normalize_bm25_score(10) > normalize_bm25_score(5));
    assert!(normalize_bm25_score(0) < 600);
}

#[test]
fn fts_operator_check_is_caseless() {
    assert!(is_fts_operator(&chars_of("AND")));
    assert!(is_fts_operator(&chars_of("or")));
    assert!(!is_fts_operator(&chars_of("android")));
}

#[test]
fn empty_query_returns_empty() {
    let graph = KnowledgeGraph::new("test-fts");
    let results = hermes::search::fts::fts_search(&graph, "");
    assert!(results.is_empty());
}

#[test]
fn operator_only_query_returns_empty() {
    let graph = KnowledgeGraph::new("test-fts2");
    let results = hermes::search::fts::fts_search(&graph, "AND OR NOT");
    assert!(results.is_empty());
}

#[test]
fn exact_match_scores_highest() {
    assert_eq!(compute_literal_score(&chars_of("main"), &chars_of("main")), 1000);
}

#[test]
fn prefix_match_scores_high() {
    let score = compute_literal_score(&chars_of("fetch"), &chars_of("fetch_exchange_rate"));
    assert!(score >= 800);
}

#[test]
fn partial_match_scores_moderate() {
    let score = compute_literal_score(&chars_of("rate"), &chars_of("exchange_rate_service"));
    assert!(score > 500 && score < 900);
}

#[test]
fn tokenize_ignores_short_tokens() {
    let tokens = tokenize(&chars_of("fn a fetch_exchange_rate"));
    let rendered: Vec<String> = tokens.iter().map(|t| string_of(t)).collect();
    assert!(rendered.contains(&"fetch_exchange_rate".to_string()));
    assert!(!rendered.contains(&"a".to_string()));
}

#[test]
fn cosine_similarity_is_high_for_similar_text() {
    let lhs = build_vector(&tokenize(&chars_of("fetch exchange rate currency")));
    let rhs = build_vector(&tokenize(&chars_of("exchange rate service currency")));
    let score = cosine_milli(&lhs, &rhs);
    assert!(score > 400);
}

#[test]
fn cosine_similarity_is_low_for_unrelated_text() {
    let lhs = build_vector(&tokenize(&chars_of("redis pubsub worker")));
    let rhs = build_vector(&tokenize(&chars_of("currency exchange rate")));
    let score = cosine_milli(&lhs, &rhs);
    assert!(score < 400);
}

#[test]
fn literal_short_circuit_scenario() {
    // An exact-name hit answers with full relevance, even with no mirror
    // rows for the other tiers to read.
    let mut g = KnowledgeGraph::new("s3");
    g.add_node(&test_node("h1", "handleRequest", "s3"));
    g.add_node(&test_node("h2", "handleRequestWithRetry", "s3"));
    let mut engine = SearchEngine::new();
    let resp = engine.search_at(&g, "handleRequest", 1, &SearchMode::Smart, 0);
    assert_eq!(resp.pointers.len(), 1);
    assert_eq!(resp.pointers[0].id, "h1");
    assert_eq!(resp.pointers[0].relevance, 1000);
}

#[test]
fn search_empty_query_returns_no_pointers() {
    let mut g = KnowledgeGraph::new("s-empty");
    g.add_node(&test_node("n1", "anything", "s-empty"));
    let mut engine = SearchEngine::new();
    let resp = engine.search_at(&g, "   ", 10, &SearchMode::Smart, 0);
    assert_eq!(resp.pointers.len(), 0);
}

#[test]
fn search_top_k_zero_is_empty_with_zero_tokens() {
    let mut g = KnowledgeGraph::new("s-zero");
    g.add_node(&test_node("n1", "anything", "s-zero"));
    let mut engine = SearchEngine::new();
    let resp = engine.search_at(&g, "anything", 0, &SearchMode::Smart, 0);
    assert_eq!(resp.pointers.len(), 0);
    assert_eq!(resp.accounting.pointer_tokens, 0);
}

#[test]
fn search_cache_invalidation_forgets_responses() {
    let mut g = KnowledgeGraph::new("s5");
    g.add_node(&test_node("n1", "foo", "s5"));
    let mut engine = SearchEngine::new();
    let _ = engine.search_at(&g, "foo", 10, &SearchMode::Smart, 0);
    assert!(engine.result_cache.len() > 0);
    engine.invalidate();
    assert_eq!(engine.result_cache.len(), 0);
}

#[test]
fn fetch_returns_none_for_missing_node() {
    let g = KnowledgeGraph::new("f-missing");
    let mut engine = SearchEngine::new();
    assert!(engine.fetch(&g, "nope").is_none());
}

#[test]
fn fetch_end_line_zero_returns_full_file() {
    let mut g = KnowledgeGraph::new("f-full");
    g.store_file_text("src/a.rs", "line one\nline two\nline three");
    let mut node = test_node("n1", "a", "f-full");
    node.file_path = Some("src/a.rs".to_string());
    node.start_line = Some(1);
    node.end_line = Some(0);
    g.add_node(&node);
    let mut engine = SearchEngine::new();
    let resp = engine.fetch(&g, "n1").unwrap();
    assert_eq!(resp.content, "line one\nline two\nline three");
}

#[test]
fn fetch_extracts_line_range() {
    let mut g = KnowledgeGraph::new("f-range");
    g.store_file_text("src/a.rs", "one\ntwo\nthree\nfour");
    let mut node = test_node("n1", "a", "f-range");
    node.file_path = Some("src/a.rs".to_string());
    node.start_line = Some(2);
    node.end_line = Some(3);
    g.add_node(&node);
    let mut engine = SearchEngine::new();
    let resp = engine.fetch(&g, "n1").unwrap();
    assert_eq!(resp.content, "two\nthree");
}

#[test]
fn fetch_missing_file_gives_placeholder() {
    let mut g = KnowledgeGraph::new("f-placeholder");
    let mut node = test_node("n1", "a", "f-placeholder");
    node.file_path = Some("gone.rs".to_string());
    node.start_line = Some(1);
    node.end_line = Some(2);
    g.add_node(&node);
    let mut engine = SearchEngine::new();
    let resp = engine.fetch(&g, "n1").unwrap();
    assert_eq!(resp.content, "[File not found: gone.rs]");
    assert!(resp.token_count > 0);
}

#[test]
fn fts_round_trip_query_finds_indexed_node() {
    // Indexing text and querying one of its words returns the node.
    let mut g = KnowledgeGraph::new("p-fts");
    let node = test_node("n1", "doc", "p-fts");
    g.add_node(&node);
    g.index_fts(&node, "the quick brown fox");
    let results = g.fts_search("\"quick\"", 10);
    assert_eq!(results.len(), 1);
    assert_eq!(results[0].0.id, "n1");
}

#[test]
fn literal_score_ratio_exact() {
    // 500 + 400 * |q| / |name| = 500 + 1600 / 21 = 576 thousandths
    let score = compute_literal_score(&chars_of("rate"), &chars_of("exchange_rate_service"));
    assert_eq!(score, 576);
}

#[test]
fn normalize_rank_exact_values() {
    assert_eq!(normalize_bm25_score(0), 500);
    assert_eq!(normalize_bm25_score(1), 500);
    assert_eq!(normalize_bm25_score(3), 750);
    assert_eq!(normalize_bm25_score(9), 900);
}

#[test]
fn cosine_identical_text_is_full_scale() {
    let v = build_vector(&tokenize(&chars_of("alpha beta gamma")));
    assert_eq!(cosine_milli(&v, &v), 1000);
}

#[test]
fn fts_phrase_requires_consecutive_words() {
    let mut g = KnowledgeGraph::new("phrase");
    let node = test_node("n1", "doc", "phrase");
    g.add_node(&node);
    g.index_fts(&node, "the quick brown fox");
    assert_eq!(g.fts_search("\"quick brown\"", 10).len(), 1);
    assert_eq!(g.fts_search("\"brown quick\"", 10).len(), 0);
}

#[test]
fn fts_prefix_term_matches_longer_token() {
    let mut g = KnowledgeGraph::new("prefix");
    let node = test_node("n1", "doc", "prefix");
    g.add_node(&node);
    g.index_fts(&node, "the quick brown fox");
    assert_eq!(g.fts_search("\"qui\"*", 10).len(), 1);
    assert_eq!(g.fts_search("\"qui\"", 10).len(), 0);
}

#[test]
fn full_cascade_reaches_fulltext_tier() {
    // No name matches the query, so the cascade runs the full-text tier and
    // finds the mirror row.
    let mut g = KnowledgeGraph::new("cascade");
    let node = test_node("n1", "unrelated_name", "cascade");
    g.add_node(&node);
    g.index_fts(&node, "the quick brown fox");
    let mut engine = SearchEngine::new();
    let resp = engine.search_at(&g, "quick", 10, &SearchMode::Smart, 0);
    assert!(resp.pointers.iter().any(|p| p.id == "n1"));
}

#[test]
fn fetch_repeats_identically() {
    let mut g = KnowledgeGraph::new("f-repeat");
    g.store_file_text("src/a.rs", "one\ntwo\nthree");
    let mut node = test_node("n1", "a", "f-repeat");
    node.file_path = Some("src/a.rs".to_string());
    node.start_line = Some(1);
    node.end_line = Some(2);
    g.add_node(&node);
    let mut engine = SearchEngine::new();
    let first = engine.fetch(&g, "n1").unwrap();
    let second = engine.fetch(&g, "n1").unwrap();
    assert_eq!(first.content, second.content);
    assert_eq!(first.token_count, second.token_count);
}
