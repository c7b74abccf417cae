use hermes::accounting::{Accountant, parse_since_duration};
use hermes::temporal::{FactType, TemporalStore};

#[test]
fn add_and_retrieve_fact() {
    let mut store = TemporalStore::new("test");

    let id = store.add_fact(
        None,
        FactType::Architecture,
        "Backend uses Axum + Tokio",
        Some("initial setup"),
    );

    let facts = store.get_active_facts(None);
    assert_eq!(facts.len(), 1);
    assert_eq!(facts[0].id, id);
    assert_eq!(facts[0].content, "Backend uses Axum + Tokio");
    assert!(facts[0].valid_to.is_none());
}

#[test]
fn invalidate_fact_sets_valid_to() {
    let mut store = TemporalStore::new("test");

    let id = store.add_fact(None, FactType::Decision, "Use the embedded store", None);

    store.invalidate_fact(&id, None);

    let active = store.get_active_facts(None);
    assert!(active.is_empty());
}

#[test]
fn supersede_fact_creates_chain() {
    let mut store = TemporalStore::new("test");

    let old_id = store.add_fact(None, FactType::Decision, "Use X", None);
    let new_id = store.add_fact(None, FactType::Decision, "Use Y instead", None);

    store.invalidate_fact(&old_id, Some(&new_id));

    let active = store.get_active_facts(None);
    assert_eq!(active.len(), 1);
    assert_eq!(active[0].content, "Use Y instead");
}

#[test]
fn supersede_chain_history_keeps_invalidated_fact() {
    let mut store = TemporalStore::new("chain");
    let id_a = store.add_fact(Some("n1"), FactType::Decision, "use X", None);
    let id_b = store.add_fact(Some("n1"), FactType::Decision, "use Y", None);
    store.invalidate_fact(&id_a, Some(&id_b));

    let active = store.get_active_facts(Some(&FactType::Decision));
    assert_eq!(active.len(), 1);
    assert_eq!(active[0].content, "use Y");

    let history = store.get_fact_history("n1");
    assert_eq!(history.len(), 2);
    let a = history.iter().find(|f| f.id == id_a).unwrap();
    assert!(a.valid_to.is_some());
    assert_eq!(a.superseded_by.as_deref(), Some(id_b.as_str()));
}

#[test]
fn history_length_is_nondecreasing() {
    let mut store = TemporalStore::new("hist");
    assert_eq!(store.get_fact_history("n1").len(), 0);
    let id = store.add_fact(Some("n1"), FactType::Learning, "first", None);
    assert_eq!(store.get_fact_history("n1").len(), 1);
    store.invalidate_fact(&id, None);
    assert_eq!(store.get_fact_history("n1").len(), 1);
    store.add_fact(Some("n1"), FactType::Learning, "second", None);
    assert_eq!(store.get_fact_history("n1").len(), 2);
}

#[test]
fn filter_by_fact_type() {
    let mut store = TemporalStore::new("test");

    store.add_fact(None, FactType::Architecture, "Layered backend", None);
    store.add_fact(None, FactType::Decision, "Use Rust", None);

    let arch_facts = store.get_active_facts(Some(&FactType::Architecture));
    assert_eq!(arch_facts.len(), 1);
    assert_eq!(arch_facts[0].content, "Layered backend");
}

#[test]
fn record_and_aggregate_queries() {
    let mut acct = Accountant::new("test", "session-1");

    acct.record_query("find main function", 300, 0, 15000);
    acct.record_query("search currency service", 250, 1200, 12000);

    let stats = acct.get_cumulative_stats();
    assert_eq!(stats.total_queries, 2);
    assert_eq!(stats.total_pointer_tokens, 550);
    assert_eq!(stats.total_fetched_tokens, 1200);
    assert_eq!(stats.total_traditional_estimate, 27000);
    assert_eq!(stats.cumulative_savings_tokens, 25250);
    assert!(stats.cumulative_savings_pct > 90);

    let session = acct.get_session_stats();
    assert_eq!(session.total_queries, 2);
    assert_eq!(session.cumulative_savings_tokens, 25250);
}

#[test]
fn empty_stats_returns_zeros() {
    let acct = Accountant::new("test", "session-1");

    let stats = acct.get_cumulative_stats();
    assert_eq!(stats.total_queries, 0);
    assert_eq!(stats.cumulative_savings_pct, 0);

    let session = acct.get_session_stats();
    assert_eq!(session.total_queries, 0);
}

#[test]
fn get_stats_since_returns_only_recent_rows() {
    let mut acct = Accountant::new("test-since", "session-1");

    acct.record_query("q1", 100, 0, 5000);

    let stats = acct.get_stats_since(Some(3600));
    assert_eq!(stats.total_queries, 1);
}

#[test]
fn stats_cutoff_excludes_older_rows() {
    let mut acct = Accountant::new("test-cutoff", "session-1");
    acct.record_query("q1", 100, 0, 5000);
    // A cutoff far in the future excludes everything recorded so far.
    let stats = acct.stats_at(None, u64::MAX);
    assert_eq!(stats.total_queries, 0);
}

#[test]
fn parse_since_24h() {
    let dur = parse_since_duration("24h").unwrap();
    assert_eq!(dur, 86400);
}

#[test]
fn parse_since_7d() {
    let dur = parse_since_duration("7d").unwrap();
    assert_eq!(dur, 7 * 86400);
}

#[test]
fn parse_since_all_returns_none() {
    assert!(parse_since_duration("all").is_none());
}

#[test]
fn parse_since_invalid_returns_none() {
    assert!(parse_since_duration("yesterday").is_none());
    assert!(parse_since_duration("").is_none());
    assert!(parse_since_duration("abc").is_none());
}

#[test]
fn parse_since_1h() {
    let dur = parse_since_duration("1h").unwrap();
    assert_eq!(dur, 3600);
}

#[test]
fn session_stats_are_isolated_by_session_id() {
    let mut acct_a = Accountant::new("test-session-iso", "session-A");
    acct_a.record_query("q1", 100, 0, 1000);
    let stats_a = acct_a.get_session_stats();
    assert_eq!(stats_a.total_queries, 1);
    assert_eq!(stats_a.total_pointer_tokens, 100);

    // A row from a different session is excluded from session stats but
    // counted in cumulative stats.
    acct_a.rows.push(hermes::accounting::AccountingRow {
        project_id: "test-session-iso".to_string(),
        session_id: "session-B".to_string(),
        query_text: "q2".to_string(),
        pointer_tokens: 200,
        fetched_tokens: 0,
        traditional_est: 2000,
        created_at: 0,
    });
    let stats_a2 = acct_a.get_session_stats();
    assert_eq!(stats_a2.total_queries, 1);
    assert_eq!(stats_a2.total_pointer_tokens, 100);

    let all = acct_a.get_cumulative_stats();
    assert_eq!(all.total_queries, 2);
}

#[test]
fn savings_pct_zero_when_no_traditional_estimate() {
    let mut acct = Accountant::new("test-zero-est", "s");
    acct.record_query("q", 50, 0, 0);
    let stats = acct.get_cumulative_stats();
    assert_eq!(stats.cumulative_savings_pct, 0);
}

#[test]
fn savings_pct_exact_floor() {
    let mut acct = Accountant::new("pct", "s");
    acct.record_query("q1", 300, 0, 15000);
    acct.record_query("q2", 250, 1200, 12000);
    let stats = acct.get_cumulative_stats();
    // floor(25250 * 100 / 27000)
    assert_eq!(stats.cumulative_savings_pct, 93);
}
