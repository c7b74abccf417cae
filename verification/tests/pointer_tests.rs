use hermes::pointer::{Pointer, PointerResponse};

fn ptr(id: &str, source: &str, chunk: &str, lines: &str, relevance: u64, summary: &str) -> Pointer {
    Pointer {
        id: id.to_string(),
        source: source.to_string(),
        chunk: chunk.to_string(),
        lines: lines.to_string(),
        relevance,
        summary: summary.to_string(),
        node_type: "function".to_string(),
        last_modified: None,
    }
}

#[test]
fn pointer_token_estimation() {
    let p = ptr("abc", "src/main.rs", "fn main", "1-20", 950, "Application entry point");
    let tokens = p.estimate_token_count();
    assert!(tokens > 0 && tokens < 100);
}

#[test]
fn pointer_token_estimation_exact() {
    // seven words scale to ceil(28 / 3) + 2 = 12 tokens
    let p = ptr("x", "src/a.rs", "fn b", "1-2", 500, "one two three");
    assert_eq!(p.estimate_token_count(), 12);
}

#[test]
fn pointer_response_calculates_savings() {
    let ptrs = vec![ptr(
        "1",
        "src/lib.rs",
        "struct Engine",
        "10-30",
        900,
        "Main engine struct with configuration",
    )];
    let resp = PointerResponse::build(ptrs, 0);
    assert!(resp.accounting.savings_pct > 0);
    assert!(resp.accounting.traditional_rag_estimate > resp.accounting.pointer_tokens);
}

#[test]
fn pointer_response_empty_has_zero_savings() {
    let resp = PointerResponse::build(vec![], 0);
    assert_eq!(resp.accounting.pointer_tokens, 0);
    assert_eq!(resp.accounting.savings_pct, 0);
    assert_eq!(resp.accounting.total_tokens, 0);
}

#[test]
fn pointer_response_with_fetched_tokens_reduces_savings() {
    let p = ptr(
        "p1",
        "src/search.rs",
        "fn search",
        "1-50",
        800,
        "Performs a hybrid search over the knowledge graph",
    );
    let no_fetch = PointerResponse::build(vec![p.clone()], 0);
    let with_fetch = PointerResponse::build(vec![p], 5000);
    // Adding fetched tokens should reduce (or maintain) savings percentage
    assert!(with_fetch.accounting.savings_pct <= no_fetch.accounting.savings_pct);
    assert_eq!(with_fetch.accounting.fetched_tokens, 5000);
}

#[test]
fn savings_pct_floored_at_zero() {
    // With no pointers the traditional estimate is zero and so are the
    // savings, whatever was fetched.
    let resp = PointerResponse::build(vec![], 9999);
    assert_eq!(resp.accounting.savings_pct, 0);
}

#[test]
fn total_tokens_equals_pointer_plus_fetched() {
    let p = ptr("x", "a", "b", "1-2", 500, "short");
    let fetched = 123;
    let resp = PointerResponse::build(vec![p], fetched);
    assert_eq!(resp.accounting.total_tokens, resp.accounting.pointer_tokens + fetched);
}

#[test]
fn traditional_estimate_is_fifteen_fold() {
    let p = ptr("x", "src/a.rs", "fn b", "1-2", 500, "one two three");
    let resp = PointerResponse::build(vec![p], 0);
    assert_eq!(
        resp.accounting.traditional_rag_estimate,
        resp.accounting.pointer_tokens * 15
    );
}
