//! The engine's cross-cutting guarantees, each proved against the
//! components' own contracts: write-then-read round trips, idempotent edge
//! insertion, distinct neighbor enumeration, the cache lifetime rule, the
//! full-text round trip, and the boundary behavior of the chunker, the
//! crawler filter and fetch.

use crate::graph::{Edge, KnowledgeGraph, Node, NodeType, edge_triple_match, node_key_match};
use crate::ingestion::chunker;
use crate::search::{SearchResult, line_or_zero};
use vstd::prelude::*;

verus! {

/// A node persisted by the upsert is what a lookup of its id returns: with
/// unique ids, any answer that satisfies the lookup's guarantee is exactly
/// the stored node.
pub proof fn lemma_node_roundtrip(g: KnowledgeGraph, n: Node, r: Option<Node>)
    requires
        g.wf(),
        // The upsert's guarantee: the node is in the table.
        exists|i: int| 0 <= i < g.nodes@.len() && #[trigger] g.nodes@[i] == n,
        n.project_id@ == g.spec_project_id(),
        // The lookup's guarantee for the node's id.
        forall|i: int|
            0 <= i < g.nodes@.len() && node_key_match(
                #[trigger] g.nodes@[i],
                n.id@,
                g.spec_project_id(),
            ) ==> r == Some(g.nodes@[i]),
    ensures
        r == Some(n),
{
    let i = choose|i: int| 0 <= i < g.nodes@.len() && #[trigger] g.nodes@[i] == n;
    assert(node_key_match(g.nodes@[i], n.id@, g.spec_project_id()));
}

/// Inserting an edge whose (source, target, type) triple is already present
/// changes nothing: the second insertion's guarantee collapses to identity.
pub proof fn lemma_edge_insert_idempotent(pre: Seq<Edge>, post: Seq<Edge>, e: Edge)
    requires
        exists|i: int|
            0 <= i < pre.len() && ((#[trigger] pre[i]).id@ == e.id@ || edge_triple_match(
                pre[i],
                e,
            )),
        // The insertion's guarantee.
        if exists|i: int|
            0 <= i < pre.len() && ((#[trigger] pre[i]).id@ == e.id@ || edge_triple_match(
                pre[i],
                e,
            )) {
            post == pre
        } else {
            post == pre.push(e)
        },
    ensures
        post == pre,
{
}

/// The neighbor enumeration lists every incident edge at most once: with
/// unique edge ids, two entries never carry the same edge.
pub proof fn lemma_neighbors_distinct(
    edges: Seq<Edge>,
    nodes: Seq<Node>,
    id: Seq<char>,
    pid: Seq<char>,
)
    requires
        forall|i: int, j: int|
            0 <= i < j < edges.len() ==> (#[trigger] edges[i]).id@ != (#[trigger] edges[j]).id@,
    ensures
        forall|a: int, b: int|
            0 <= a < b < crate::graph_queries::neighbors_spec(edges, nodes, id, pid).len() ==> (
            #[trigger] crate::graph_queries::neighbors_spec(edges, nodes, id, pid)[a]).0.id@ != (
            #[trigger] crate::graph_queries::neighbors_spec(edges, nodes, id, pid)[b]).0.id@,
    decreases edges.len(),
{
    if edges.len() > 0 {
        let t = edges.subrange(1, edges.len() as int);
        assert forall|i: int, j: int|
            0 <= i < j < t.len() implies (#[trigger] t[i]).id@ != (#[trigger] t[j]).id@ by {
            assert(t[i] == edges[i + 1]);
            assert(t[j] == edges[j + 1]);
        }
        lemma_neighbors_distinct(t, nodes, id, pid);
        let full = crate::graph_queries::neighbors_spec(edges, nodes, id, pid);
        let rest = crate::graph_queries::neighbors_spec(t, nodes, id, pid);
        lemma_neighbors_edges_member(t, nodes, id, pid);
        assert forall|a: int, b: int| 0 <= a < b < full.len() implies (
        #[trigger] full[a]).0.id@ != (#[trigger] full[b]).0.id@ by {
            if full.len() == rest.len() {
                assert(full[a] == rest[a] && full[b] == rest[b]);
            } else {
                if a == 0 {
                    assert(full[b] == rest[b - 1]);
                    let w = choose|w: int|
                        0 <= w < t.len() && (#[trigger] t[w]).id@ == rest[b - 1].0.id@;
                    assert(edges[w + 1].id@ == full[b].0.id@);
                    assert(edges[0].id@ != edges[w + 1].id@);
                } else {
                    assert(full[a] == rest[a - 1] && full[b] == rest[b - 1]);
                }
            }
        }
    }
}

/// Every enumerated neighbor pair carries one of the edge rows.
proof fn lemma_neighbors_edges_member(
    edges: Seq<Edge>,
    nodes: Seq<Node>,
    id: Seq<char>,
    pid: Seq<char>,
)
    ensures
        forall|a: int|
            0 <= a < crate::graph_queries::neighbors_spec(edges, nodes, id, pid).len()
                ==> exists|w: int|
                0 <= w < edges.len() && (#[trigger] edges[w]).id@ == (
                #[trigger] crate::graph_queries::neighbors_spec(edges, nodes, id, pid)[a]).0.id@,
    decreases edges.len(),
{
    if edges.len() > 0 {
        let t = edges.subrange(1, edges.len() as int);
        lemma_neighbors_edges_member(t, nodes, id, pid);
        let full = crate::graph_queries::neighbors_spec(edges, nodes, id, pid);
        let rest = crate::graph_queries::neighbors_spec(t, nodes, id, pid);
        assert forall|a: int| 0 <= a < full.len() implies exists|w: int|
            0 <= w < edges.len() && (#[trigger] edges[w]).id@ == (#[trigger] full[a]).0.id@ by {
            if full.len() == rest.len() {
                assert(full[a] == rest[a]);
                let w = choose|w: int|
                    0 <= w < t.len() && (#[trigger] t[w]).id@ == rest[a].0.id@;
                assert(edges[w + 1].id@ == full[a].0.id@);
            } else if a == 0 {
                assert(full[0].0 == edges[0]);
                assert(edges[0].id@ == full[0].0.id@);
            } else {
                assert(full[a] == rest[a - 1]);
                let w = choose|w: int|
                    0 <= w < t.len() && (#[trigger] t[w]).id@ == rest[a - 1].0.id@;
                assert(edges[w + 1].id@ == full[a].0.id@);
            }
        }
    }
}

/// A token that occurs in a row's token list makes the one-word term occur.
pub proof fn lemma_token_occurrence(tokens: Seq<Seq<char>>, w: Seq<char>, p: int)
    requires
        0 <= p < tokens.len(),
        tokens[p] == w,
        w.len() > 0,
    ensures
        crate::search::fts::term_occurrences(tokens, seq![w], false) > 0,
{
    assert(seq![w].len() == 1);
    assert(seq![w][0] == w);
    assert(crate::search::fts::term_matches_at(tokens, seq![w], false, p)) by {
        assert(tokens[p + 1 - 1] == w);
    }
    lemma_occ_from(tokens, seq![w], false, p, tokens.len() as int);
}

proof fn lemma_occ_from(
    tokens: Seq<Seq<char>>,
    words: Seq<Seq<char>>,
    prefix: bool,
    p: int,
    q: int,
)
    requires
        0 <= p < q,
        crate::search::fts::term_matches_at(tokens, words, prefix, p),
    ensures
        crate::search::fts::occurrences_upto(tokens, words, prefix, q) > 0,
    decreases q,
{
    if p == q - 1 {
        lemma_occ_nonneg(tokens, words, prefix, q - 1);
    } else {
        lemma_occ_from(tokens, words, prefix, p, q - 1);
    }
}

proof fn lemma_occ_nonneg(tokens: Seq<Seq<char>>, words: Seq<Seq<char>>, prefix: bool, q: int)
    ensures
        crate::search::fts::occurrences_upto(tokens, words, prefix, q) >= 0,
    decreases q,
{
    if q > 0 {
        lemma_occ_nonneg(tokens, words, prefix, q - 1);
    }
}

/// The full-text round trip: a mirror row of the project whose text carries
/// a query token answers the one-term query, and its node is among the hits.
pub proof fn lemma_fts_round_trip(
    rows: Seq<crate::graph::FtsRow>,
    nodes: Seq<Node>,
    k: int,
    w: Seq<char>,
    n: Node,
    pid: Seq<char>,
)
    requires
        0 <= k < rows.len(),
        rows[k].project_id@ == pid,
        w.len() > 0,
        exists|p: int|
            0 <= p < crate::search::fts::fts_tokens(
                crate::search::fts::row_text_spec(rows[k]),
            ).len() && #[trigger] crate::search::fts::fts_tokens(
                crate::search::fts::row_text_spec(rows[k]),
            )[p] == w,
        crate::graph_queries::find_node_by_id(nodes, rows[k].node_id@) == Some(n),
    ensures
        exists|j: int|
            0 <= j < crate::search::fts::fts_hits(
                rows,
                nodes,
                seq![(seq![w], false)],
                false,
                pid,
            ).len() && (#[trigger] crate::search::fts::fts_hits(
                rows,
                nodes,
                seq![(seq![w], false)],
                false,
                pid,
            )[j]).0.id@ == n.id@,
    decreases rows.len(),
{
    let terms: Seq<(Seq<Seq<char>>, bool)> = seq![(seq![w], false)];
    let tokens = crate::search::fts::fts_tokens(crate::search::fts::row_text_spec(rows[k]));
    if k == 0 {
        let p = choose|p: int| 0 <= p < tokens.len() && #[trigger] tokens[p] == w;
        lemma_token_occurrence(tokens, w, p);
        assert(terms[0] == (seq![w], false));
        assert(crate::search::fts::row_matches(tokens, terms, false)) by {
            assert(crate::search::fts::term_occurrences(tokens, terms[0].0, terms[0].1) > 0);
        }
        let full = crate::search::fts::fts_hits(rows, nodes, terms, false, pid);
        assert(full[0].0 == n);
    } else {
        let t = rows.subrange(1, rows.len() as int);
        assert(t[k - 1] == rows[k]);
        lemma_fts_round_trip(t, nodes, k - 1, w, n, pid);
        let full = crate::search::fts::fts_hits(rows, nodes, terms, false, pid);
        let rest = crate::search::fts::fts_hits(t, nodes, terms, false, pid);
        let j = choose|j: int| 0 <= j < rest.len() && (#[trigger] rest[j]).0.id@ == n.id@;
        if full.len() == rest.len() {
            assert(full[j] == rest[j]);
            assert(full[j].0.id@ == n.id@);
        } else {
            assert(full[j + 1] == rest[j]);
            assert(full[j + 1].0.id@ == n.id@);
        }
    }
}

/// Empty markdown yields no chunks.
pub proof fn lemma_empty_markdown_no_chunks()
    ensures
        chunker::chunk_file_spec("a.md"@, Seq::<char>::empty()).len() == 0 || chunker::chunk_md_spec(
            crate::text::lines_of(Seq::<char>::empty()),
            0,
            None,
        ).len() == 0,
{
    assert(crate::text::lines_of(Seq::<char>::empty()).len() == 0);
}

/// A file with an unrecognized extension yields exactly one whole-file,
/// file-typed chunk spanning every line.
pub proof fn lemma_unknown_extension_whole_file(path: Seq<char>, content: Seq<char>)
    requires
        !(chunker::ext_spec(path) == "rs"@ || chunker::ext_spec(path) == "md"@ || chunker::ext_spec(
            path,
        ) == "tsx"@ || chunker::ext_spec(path) == "ts"@ || chunker::ext_spec(path) == "jsx"@
            || chunker::ext_spec(path) == "js"@),
    ensures
        chunker::chunk_file_spec(path, content).len() == 1,
        chunker::chunk_file_spec(path, content)[0].node_type == NodeType::File,
        chunker::chunk_file_spec(path, content)[0].content == content,
        chunker::chunk_file_spec(path, content)[0].start_line == 1,
{
}

/// A fetch whose node carries an end line of zero dereferences the whole
/// stored file text.
pub proof fn lemma_fetch_full_file(g: KnowledgeGraph, n: Node, p: String, text: Seq<char>)
    requires
        n.file_path == Some(p),
        g.spec_file_text(p@) == Some(text),
        line_or_zero(n.end_line) == 0,
    ensures
        crate::search::extract_content_spec(g, n) == text,
{
}

/// The crawl filter of an empty listing is empty.
pub proof fn lemma_crawl_empty()
    ensures
        crate::ingestion::crawler::sort_strings(
            Seq::<String>::empty().filter(|p: String| crate::ingestion::crawler::crawl_keep(p@)),
        ).len() == 0,
{
    crate::graph_queries::lemma_filter_empty(
        |p: String| crate::ingestion::crawler::crawl_keep(p@),
    );
}

/// A query without meaningful words — empty, white space, or reserved
/// connectives only — produces an empty pointer list whenever the response
/// was computed rather than served from the cache.
pub proof fn lemma_empty_query_empty_response(
    pre: crate::search::SearchEngine,
    g: KnowledgeGraph,
    q: Seq<char>,
    top_k: int,
    now: u64,
    post: crate::search::SearchEngine,
    r: crate::pointer::PointerResponse,
)
    requires
        crate::search::search_post(pre, g, q, top_k, now, post, r),
        !crate::search::cache_has_fresh(
            pre.result_cache@,
            crate::search::cache_key_spec(q, top_k),
            now,
        ),
        crate::search::fts::meaningful_words(q).len() == 0,
        top_k >= 0,
    ensures
        r.pointers@.len() == 0,
{
    let l0 = crate::search::literal::literal_tier_spec(g, q);
    let l1 = crate::search::fts::fts_tier_spec(g, q);
    let l2 = crate::search::vector_tier_spec(g, q);
    assert(l0.len() == 0);
    assert(l1.len() == 0);
    assert(l2.len() == 0);
    lemma_dedup_of_empty(top_k);
    if l0.len() >= top_k && crate::search::min_prefix_score(l0, top_k) >= 900 {
        assert(l0 =~= Seq::<SearchResult>::empty());
    } else if l0.len() >= top_k && crate::search::min_prefix_score(l0, top_k) >= 800 {
        assert(l0 + l1 =~= Seq::<SearchResult>::empty());
    } else {
        assert(l0 + l1 + l2 =~= Seq::<SearchResult>::empty());
    }
}

/// Merging and ranking nothing yields nothing.
proof fn lemma_dedup_of_empty(top_k: int)
    requires
        top_k >= 0,
    ensures
        crate::search::dedup_rank_spec(Seq::<SearchResult>::empty(), top_k).len() == 0,
{
    let e = Seq::<SearchResult>::empty();
    assert(crate::search::merge_fold(e, e) == e);
    assert(crate::search::sort_results_spec(e).len() == 0);
}

/// Asking for no results gives an empty response whose pointer-token count
/// is zero, whenever the response was computed rather than cached.
pub proof fn lemma_top_k_zero_empty(
    pre: crate::search::SearchEngine,
    g: KnowledgeGraph,
    q: Seq<char>,
    now: u64,
    post: crate::search::SearchEngine,
    r: crate::pointer::PointerResponse,
)
    requires
        crate::search::search_post(pre, g, q, 0, now, post, r),
        !crate::search::cache_has_fresh(
            pre.result_cache@,
            crate::search::cache_key_spec(q, 0),
            now,
        ),
    ensures
        r.pointers@.len() == 0,
        r.accounting.pointer_tokens == 0,
{
    let l0 = crate::search::literal::literal_tier_spec(g, q);
    assert(crate::search::min_prefix_score(l0, 0) >= 900);
    assert(crate::search::response_matches(r, crate::search::dedup_rank_spec(l0, 0)));
    let merged = crate::search::merge_fold(Seq::<SearchResult>::empty(), l0);
    let ranked = crate::search::sort_results_spec(merged);
    if ranked.len() > 0 {
        assert(crate::search::dedup_rank_spec(l0, 0) =~= ranked.subrange(0, 0));
        assert(crate::search::dedup_rank_spec(l0, 0).len() == 0);
    }
    assert(r.pointers@.len() == 0);
    assert(r.accounting == crate::pointer::response_accounting(r.pointers@, 0));
}

/// Repeated fetches of one node return the same content: the first fetch
/// leaves its extraction in the cache under the node's range, and the
/// second is served from that slot.
pub proof fn lemma_fetch_repeatable(
    n: Node,
    g: KnowledgeGraph,
    pre0: Seq<crate::search::FetchEntry>,
    cache1: Seq<crate::search::FetchEntry>,
    resp1: crate::pointer::FetchResponse,
    resp2: crate::pointer::FetchResponse,
)
    requires
        n.file_path is Some,
        crate::search::fetch_answers(resp1, n, g, pre0),
        crate::search::fetch_cached(cache1, pre0, n, resp1),
        crate::search::fetch_answers(resp2, n, g, cache1),
    ensures
        resp2.content@ == resp1.content@,
{
}

/// When the facts' stamps are non-decreasing in insertion order — what any
/// monotone clock produces — the active set comes back ordered by
/// `valid_from`, newest first.
pub proof fn lemma_active_ordered_by_valid_from(
    facts: Seq<crate::temporal::TemporalFact>,
    ft: Option<crate::temporal::FactType>,
    pid: Seq<char>,
)
    requires
        forall|i: int, j: int|
            0 <= i < j < facts.len() ==> !crate::ingestion::crawler::lt_chars(
                (#[trigger] facts[j]).valid_from@,
                (#[trigger] facts[i]).valid_from@,
            ),
    ensures
        forall|a: int, b: int|
            0 <= a < b < crate::temporal::active_facts_spec(facts, ft, pid).len()
                ==> !crate::ingestion::crawler::lt_chars(
                (#[trigger] crate::temporal::active_facts_spec(facts, ft, pid)[a]).valid_from@,
                (#[trigger] crate::temporal::active_facts_spec(facts, ft, pid)[b]).valid_from@,
            ),
    decreases facts.len(),
{
    if facts.len() > 0 {
        let head = facts.drop_last();
        assert forall|i: int, j: int|
            0 <= i < j < head.len() implies !crate::ingestion::crawler::lt_chars(
            (#[trigger] head[j]).valid_from@,
            (#[trigger] head[i]).valid_from@,
        ) by {
            assert(head[i] == facts[i] && head[j] == facts[j]);
        }
        lemma_active_ordered_by_valid_from(head, ft, pid);
        crate::temporal::lemma_active_members(head, ft, pid);
        let full = crate::temporal::active_facts_spec(facts, ft, pid);
        let rest = crate::temporal::active_facts_spec(head, ft, pid);
        assert forall|a: int, b: int|
            0 <= a < b < full.len() implies !crate::ingestion::crawler::lt_chars(
            (#[trigger] full[a]).valid_from@,
            (#[trigger] full[b]).valid_from@,
        ) by {
            if full.len() == rest.len() {
                assert(full[a] == rest[a] && full[b] == rest[b]);
            } else {
                if a == 0 {
                    assert(full[0] == facts.last());
                    assert(full[b] == rest[b - 1]);
                    let w = choose|w: int|
                        0 <= w < head.len() && head[w] == rest[b - 1];
                    assert(facts[w] == full[b]);
                    assert(!crate::ingestion::crawler::lt_chars(
                        facts[facts.len() - 1].valid_from@,
                        facts[w].valid_from@,
                    ));
                } else {
                    assert(full[a] == rest[a - 1] && full[b] == rest[b - 1]);
                }
            }
        }
    }
}

/// The same ordering rule for a node's history.
pub proof fn lemma_history_ordered_by_valid_from(
    facts: Seq<crate::temporal::TemporalFact>,
    node_id: Seq<char>,
    pid: Seq<char>,
)
    requires
        forall|i: int, j: int|
            0 <= i < j < facts.len() ==> !crate::ingestion::crawler::lt_chars(
                (#[trigger] facts[j]).valid_from@,
                (#[trigger] facts[i]).valid_from@,
            ),
    ensures
        forall|a: int, b: int|
            0 <= a < b < crate::temporal::history_spec(facts, node_id, pid).len()
                ==> !crate::ingestion::crawler::lt_chars(
                (#[trigger] crate::temporal::history_spec(facts, node_id, pid)[a]).valid_from@,
                (#[trigger] crate::temporal::history_spec(facts, node_id, pid)[b]).valid_from@,
            ),
    decreases facts.len(),
{
    if facts.len() > 0 {
        let head = facts.drop_last();
        assert forall|i: int, j: int|
            0 <= i < j < head.len() implies !crate::ingestion::crawler::lt_chars(
            (#[trigger] head[j]).valid_from@,
            (#[trigger] head[i]).valid_from@,
        ) by {
            assert(head[i] == facts[i] && head[j] == facts[j]);
        }
        lemma_history_ordered_by_valid_from(head, node_id, pid);
        lemma_history_members(head, node_id, pid);
        let full = crate::temporal::history_spec(facts, node_id, pid);
        let rest = crate::temporal::history_spec(head, node_id, pid);
        assert forall|a: int, b: int|
            0 <= a < b < full.len() implies !crate::ingestion::crawler::lt_chars(
            (#[trigger] full[a]).valid_from@,
            (#[trigger] full[b]).valid_from@,
        ) by {
            if full.len() == rest.len() {
                assert(full[a] == rest[a] && full[b] == rest[b]);
            } else {
                if a == 0 {
                    assert(full[0] == facts.last());
                    assert(full[b] == rest[b - 1]);
                    let w = choose|w: int|
                        0 <= w < head.len() && head[w] == rest[b - 1];
                    assert(facts[w] == full[b]);
                    assert(!crate::ingestion::crawler::lt_chars(
                        facts[facts.len() - 1].valid_from@,
                        facts[w].valid_from@,
                    ));
                } else {
                    assert(full[a] == rest[a - 1] && full[b] == rest[b - 1]);
                }
            }
        }
    }
}

/// Every history entry is one of the store's facts.
proof fn lemma_history_members(
    facts: Seq<crate::temporal::TemporalFact>,
    node_id: Seq<char>,
    pid: Seq<char>,
)
    ensures
        forall|k: int|
            0 <= k < crate::temporal::history_spec(facts, node_id, pid).len() ==> exists|j: int|
                0 <= j < facts.len() && facts[j] == #[trigger] crate::temporal::history_spec(
                    facts,
                    node_id,
                    pid,
                )[k],
    decreases facts.len(),
{
    if facts.len() > 0 {
        let head = facts.drop_last();
        lemma_history_members(head, node_id, pid);
        let full = crate::temporal::history_spec(facts, node_id, pid);
        let rest = crate::temporal::history_spec(head, node_id, pid);
        assert forall|k: int| 0 <= k < full.len() implies exists|j: int|
            0 <= j < facts.len() && facts[j] == #[trigger] full[k] by {
            if full.len() == rest.len() {
                assert(full[k] == rest[k]);
                let j = choose|j: int| 0 <= j < head.len() && head[j] == rest[k];
                assert(facts[j] == full[k]);
            } else if k == 0 {
                assert(facts[facts.len() - 1] == full[0]);
            } else {
                assert(full[k] == rest[k - 1]);
                let j = choose|j: int| 0 <= j < head.len() && head[j] == rest[k - 1];
                assert(facts[j] == full[k]);
            }
        }
    }
}

} // verus!