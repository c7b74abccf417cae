//! The literal name tier: exact, prefix and contained matches against node
//! names, case-folded, scored in thousandths.

use crate::graph::{KnowledgeGraph, Node};
use crate::search::{SearchResult, SearchTier, sort_results, sort_results_spec};
use crate::text::{ends_with_spec, lower_seq, starts_with_spec};
use vstd::prelude::*;

verus! {

/// The literal score of a lower-cased query against a lower-cased name, in
/// thousandths: an exact match scores 1000; a prefix or suffix 900; anything
/// else 500 plus the length ratio scaled by 400, clamped into range.
pub open spec fn literal_score_spec(q: Seq<char>, name: Seq<char>) -> int {
    if name == q {
        1000
    } else if starts_with_spec(name, q) || ends_with_spec(name, q) {
        900
    } else {
        let denom: int = if name.len() == 0 {
            1
        } else {
            name.len() as int
        };
        let raw: int = 500 + (q.len() as int) * 400 / denom;
        if raw > 0xffff_ffff_ffff_ffff {
            0xffff_ffff_ffff_ffff as int
        } else {
            raw
        }
    }
}

/// Scores a lower-cased query against a lower-cased name.
pub fn compute_literal_score(query: &Vec<char>, name: &Vec<char>) -> (r: u64)
    ensures
        r == literal_score_spec(query@, name@),
{
    if crate::text::eq_chars(name, query) {
        return 1000;
    }
    if crate::text::starts_with(name, query) || crate::text::ends_with(name, query) {
        return 900;
    }
    let denom: u64 = if name.len() == 0 {
        1
    } else {
        let nl = name.len();
        nl as u64
    };
    let raw: u128 = 500 + (query.len() as u128) * 400 / (denom as u128);
    if raw > 0xffff_ffff_ffff_ffff_u128 {
        0xffff_ffff_ffff_ffff_u64
    } else {
        raw as u64
    }
}

/// The literal candidates of the name search's rows, in row order.
pub open spec fn literal_candidates(nodes: Seq<Node>, ql: Seq<char>) -> Seq<SearchResult>
    decreases nodes.len(),
{
    if nodes.len() == 0 {
        Seq::empty()
    } else {
        seq![
            SearchResult {
                node: nodes[0],
                score: literal_score_spec(ql, lower_seq(nodes[0].name@)) as u64,
                tier: SearchTier::L0Literal,
                matched_content: None,
            },
        ] + literal_candidates(nodes.subrange(1, nodes.len() as int), ql)
    }
}

/// The literal tier's result: the name-search rows scored against the
/// lower-cased query, sorted by score, twenty at most. A query without
/// meaningful words — empty, white space, or reserved connectives only —
/// yields nothing.
pub open spec fn literal_tier_spec(g: KnowledgeGraph, q: Seq<char>) -> Seq<SearchResult> {
    if crate::search::fts::meaningful_words(q).len() == 0 {
        Seq::empty()
    } else {
        let rows = if crate::graph_queries::literal_prefix_results(
            g.nodes@,
            g.spec_project_id(),
            q,
        ).len() > 0 {
            crate::graph_queries::literal_prefix_results(g.nodes@, g.spec_project_id(), q)
        } else {
            crate::graph_queries::literal_contains_results(g.nodes@, g.spec_project_id(), q)
        };
        crate::search::vector::truncated(
            sort_results_spec(literal_candidates(rows, lower_seq(q))),
            20,
        )
    }
}

/// The literal name tier. Empty queries (no words) return nothing; otherwise
/// the name-search rows are scored, sorted and capped at twenty.
pub fn literal_search(graph: &KnowledgeGraph, query: &str) -> (r: Vec<SearchResult>)
    ensures
        r@ == literal_tier_spec(*graph, query@),
{
    let qv = crate::text::chars_of(query);
    let qwords = crate::search::fts::query_words(query);
    if qwords.len() == 0 {
        let r: Vec<SearchResult> = Vec::new();
        proof {
            assert(qwords.deep_view().len() == qwords@.len());
        }
        return r;
    }
    proof {
        assert(qwords.deep_view().len() == qwords@.len());
    }
    let ql = crate::text::lower_all(&qv);
    let rows = graph.literal_search_by_name(query);
    let ghost rowseq = rows@;
    let mut candidates: Vec<SearchResult> = Vec::new();
    let mut i: usize = 0;
    proof {
        assert(rows@.subrange(0, rows@.len() as int) =~= rows@);
        assert(candidates@ + literal_candidates(rows@, ql@) =~= literal_candidates(rows@, ql@));
    }
    while i < rows.len()
        invariant
            ql@ == lower_seq(query@),
            rowseq == rows@,
            i <= rows@.len(),
            literal_candidates(rows@, ql@) == candidates@ + literal_candidates(
                rows@.subrange(i as int, rows@.len() as int),
                ql@,
            ),
        decreases rows@.len() - i,
    {
        let ghost tail = rows@.subrange(i as int, rows@.len() as int);
        proof {
            assert(tail[0] == rows@[i as int]);
            assert(tail.subrange(1, tail.len() as int) =~= rows@.subrange(
                i + 1,
                rows@.len() as int,
            ));
        }
        let namel = crate::text::lower_all(&crate::text::chars_of(rows[i].name.as_str()));
        let score = compute_literal_score(&ql, &namel);
        let ghost prev = candidates@;
        candidates.push(
            SearchResult {
                node: rows[i].clone(),
                score,
                tier: SearchTier::L0Literal,
                matched_content: None,
            },
        );
        proof {
            assert(candidates@ =~= prev + seq![candidates@.last()]);
            assert(literal_candidates(rows@, ql@) =~= candidates@ + literal_candidates(
                rows@.subrange(i + 1, rows@.len() as int),
                ql@,
            ));
        }
        i = i + 1;
    }
    proof {
        assert(rows@.subrange(rows@.len() as int, rows@.len() as int)
            =~= Seq::<SearchResult>::empty().map_values(|x: SearchResult| x.node));
        assert(rows@.subrange(rows@.len() as int, rows@.len() as int).len() == 0);
        assert(candidates@ =~= literal_candidates(rows@, ql@));
    }
    let mut sorted = sort_results(candidates);
    if sorted.len() > 20 {
        sorted.truncate(20);
        proof {
            assert(sorted@ =~= literal_tier_spec(*graph, query@));
        }
    } else {
        proof {
            assert(sorted@ =~= literal_tier_spec(*graph, query@));
        }
    }
    sorted
}

} // verus!
