//! The tiered search engine: literal, full-text and vector tiers, their
//! cross-tier merge, the result and fetch caches, and pointer projection.

pub mod fts;
pub mod literal;
pub mod vector;

use crate::graph::{KnowledgeGraph, Node};
use crate::pointer::{FetchResponse, Pointer, PointerResponse};
pub use crate::pointer::estimate_tokens;
use vstd::prelude::*;

verus! {

#[derive(Debug, Clone, Copy, PartialEq, Eq, Structural)]
pub enum SearchMode {
    Pointer,
    Smart,
    Full,
}

#[derive(Debug, Clone, Copy, PartialEq, Eq, Structural)]
pub enum SearchTier {
    L0Literal,
    L1Fts,
    L2Vector,
}

/// One tier's candidate: a node with its raw score in thousandths and the
/// tier that produced it.
#[derive(Debug, PartialEq)]
pub struct SearchResult {
    pub node: Node,
    pub score: u64,
    pub tier: SearchTier,
    pub matched_content: Option<String>,
}

impl Clone for SearchResult {
    fn clone(&self) -> (r: Self)
        ensures
            r == *self,
    {
        SearchResult {
            node: self.node.clone(),
            score: self.score,
            tier: self.tier,
            matched_content: crate::graph::clone_opt_string(&self.matched_content),
        }
    }
}

/// The dedup bonus of a tier, in thousandths: exact-name hits outrank
/// full-text hits, which outrank vector hits.
pub open spec fn tier_bonus(t: SearchTier) -> int {
    match t {
        SearchTier::L0Literal => 300,
        SearchTier::L1Fts => 100,
        SearchTier::L2Vector => 0,
    }
}

pub fn tier_bonus_of(t: SearchTier) -> (r: u64)
    ensures
        r == tier_bonus(t),
{
    match t {
        SearchTier::L0Literal => 300,
        SearchTier::L1Fts => 100,
        SearchTier::L2Vector => 0,
    }
}

/// Stable insertion into a score-descending sequence: before the first
/// strictly smaller score, after every equal one.
pub open spec fn insert_result_spec(s: Seq<SearchResult>, x: SearchResult) -> Seq<SearchResult>
    decreases s.len(),
{
    if s.len() == 0 {
        seq![x]
    } else if x.score > s[0].score {
        seq![x] + s
    } else {
        seq![s[0]] + insert_result_spec(s.subrange(1, s.len() as int), x)
    }
}

/// Stable sort by score, highest first, processing left to right.
pub open spec fn sort_results_spec(s: Seq<SearchResult>) -> Seq<SearchResult>
    decreases s.len(),
{
    if s.len() == 0 {
        Seq::empty()
    } else {
        insert_result_spec(sort_results_spec(s.drop_last()), s.last())
    }
}

fn do_insert_result(r: &mut Vec<SearchResult>, x: SearchResult)
    ensures
        final(r)@ == insert_result_spec(old(r)@, x),
{
    let n = r.len();
    let mut i: usize = 0;
    proof {
        assert(r@.subrange(0, 0).len() == 0);
        assert(r@.subrange(0, n as int) =~= r@);
        assert(r@.subrange(0, 0) + insert_result_spec(r@, x) =~= insert_result_spec(r@, x));
    }
    while i < n
        invariant
            n == r@.len(),
            r@ == old(r)@,
            i <= n,
            insert_result_spec(r@, x) == r@.subrange(0, i as int) + insert_result_spec(
                r@.subrange(i as int, n as int),
                x,
            ),
        decreases n - i,
    {
        let ghost tail = r@.subrange(i as int, n as int);
        proof {
            assert(tail[0] == r@[i as int]);
            assert(tail.subrange(1, tail.len() as int) =~= r@.subrange(i + 1, n as int));
        }
        if x.score > r[i].score {
            proof {
                assert(insert_result_spec(tail, x) == seq![x] + tail);
            }
            r.insert(i, x);
            proof {
                assert(r@ =~= old(r)@.subrange(0, i as int) + (seq![x] + tail));
            }
            return ;
        }
        proof {
            assert(insert_result_spec(tail, x) == seq![r@[i as int]] + insert_result_spec(
                r@.subrange(i + 1, n as int),
                x,
            ));
            assert(r@.subrange(0, i as int) + (seq![r@[i as int]] + insert_result_spec(
                r@.subrange(i + 1, n as int),
                x,
            )) =~~= r@.subrange(0, i + 1) + insert_result_spec(r@.subrange(i + 1, n as int), x));
        }
        i = i + 1;
    }
    proof {
        assert(r@.subrange(i as int, n as int).len() == 0);
        assert(insert_result_spec(r@.subrange(i as int, n as int), x) == seq![x]);
    }
    r.push(x);
    proof {
        assert(r@ =~= old(r)@.subrange(0, n as int) + seq![x]);
        assert(old(r)@.subrange(0, n as int) =~= old(r)@);
    }
}

/// Sorts candidates by score, highest first; candidates of equal score keep
/// their order.
pub fn sort_results(input: Vec<SearchResult>) -> (r: Vec<SearchResult>)
    ensures
        r@ == sort_results_spec(input@),
{
    let ghost inv = input@;
    let mut r: Vec<SearchResult> = Vec::new();
    let mut j: usize = 0;
    while j < input.len()
        invariant
            inv == input@,
            j <= input@.len(),
            r@ == sort_results_spec(input@.subrange(0, j as int)),
        decreases input@.len() - j,
    {
        proof {
            assert(input@.subrange(0, j + 1).drop_last() =~= input@.subrange(0, j as int));
            assert(input@.subrange(0, j + 1).last() == input@[j as int]);
        }
        do_insert_result(&mut r, input[j].clone());
        j = j + 1;
    }
    proof {
        assert(input@.subrange(0, input@.len() as int) =~= input@);
    }
    r
}

/// First position in the merge list holding this node id, if any.
pub open spec fn find_slot(s: Seq<SearchResult>, id: Seq<char>) -> Option<int>
    decreases s.len(),
{
    if s.len() == 0 {
        None
    } else if s[0].node.id@ == id {
        Some(0)
    } else {
        match find_slot(s.subrange(1, s.len() as int), id) {
            Some(i) => Some(i + 1),
            None => None,
        }
    }
}

proof fn lemma_find_slot(s: Seq<SearchResult>, id: Seq<char>)
    ensures
        match find_slot(s, id) {
            Some(i) => 0 <= i < s.len() && s[i].node.id@ == id && forall|j: int|
                0 <= j < i ==> (#[trigger] s[j]).node.id@ != id,
            None => forall|j: int| 0 <= j < s.len() ==> (#[trigger] s[j]).node.id@ != id,
        },
    decreases s.len(),
{
    if s.len() > 0 && s[0].node.id@ != id {
        let t = s.subrange(1, s.len() as int);
        lemma_find_slot(t, id);
        match find_slot(s, id) {
            Some(i) => {
                assert(s[i] == t[i - 1]);
                assert forall|j: int| 0 <= j < i implies (#[trigger] s[j]).node.id@ != id by {
                    if j >= 1 {
                        assert(t[j - 1] == s[j]);
                    }
                }
            },
            None => {
                assert forall|j: int| 0 <= j < s.len() implies (#[trigger] s[j]).node.id@
                    != id by {
                    if j >= 1 {
                        assert(t[j - 1] == s[j]);
                    }
                }
            },
        }
    }
}

/// One merge step: a new candidate either takes a fresh slot, or replaces
/// the candidate holding its node id exactly when its bonus-adjusted score
/// is strictly higher.
pub open spec fn merge_step(acc: Seq<SearchResult>, x: SearchResult) -> Seq<SearchResult> {
    match find_slot(acc, x.node.id@) {
        None => acc.push(x),
        Some(i) => if x.score + tier_bonus(x.tier) > acc[i].score + tier_bonus(acc[i].tier) {
            acc.update(i, x)
        } else {
            acc
        },
    }
}

/// The merged candidates: one entry per node id, each the bonus-adjusted
/// best of its group, in first-appearance order.
pub open spec fn merge_fold(acc: Seq<SearchResult>, rest: Seq<SearchResult>) -> Seq<SearchResult>
    decreases rest.len(),
{
    if rest.len() == 0 {
        acc
    } else {
        merge_fold(merge_step(acc, rest[0]), rest.subrange(1, rest.len() as int))
    }
}

/// The dedup-and-rank of the tier union: group by node id, keep the
/// bonus-adjusted best of each group, report its raw score, sort by raw
/// score and keep the best `top_k`.
pub open spec fn dedup_rank_spec(results: Seq<SearchResult>, top_k: int) -> Seq<SearchResult> {
    let merged = merge_fold(Seq::empty(), results);
    let ranked = sort_results_spec(merged);
    if ranked.len() <= top_k {
        ranked
    } else {
        ranked.subrange(0, top_k)
    }
}

/// Groups candidates by node id, keeps the bonus-adjusted winner of each
/// group with its raw score, sorts by raw score descending and truncates.
pub fn deduplicate_and_rank(results: Vec<SearchResult>, top_k: usize) -> (r: Vec<SearchResult>)
    ensures
        r@ == dedup_rank_spec(results@, top_k as int),
        r@.len() <= top_k,
{
    let ghost resv = results@;
    let mut best: Vec<SearchResult> = Vec::new();
    let mut i: usize = 0;
    proof {
        assert(results@.subrange(0, results@.len() as int) =~= results@);
        assert(merge_fold(best@, results@) == merge_fold(Seq::empty(), results@));
    }
    while i < results.len()
        invariant
            resv == results@,
            i <= results@.len(),
            merge_fold(Seq::empty(), results@) == merge_fold(
                best@,
                results@.subrange(i as int, results@.len() as int),
            ),
        decreases results@.len() - i,
    {
        let ghost tail = results@.subrange(i as int, results@.len() as int);
        proof {
            assert(tail[0] == results@[i as int]);
            assert(tail.subrange(1, tail.len() as int) =~= results@.subrange(
                i + 1,
                results@.len() as int,
            ));
            lemma_find_slot(best@, results@[i as int].node.id@);
        }
        let x = &results[i];
        // Look for the slot holding this node id.
        let n = best.len();
        let mut j: usize = 0;
        let mut slot: Option<usize> = None;
        while j < n
            invariant
                n == best@.len(),
                j <= n,
                match slot {
                    Some(sl) => sl < j && best@[sl as int].node.id@ == x.node.id@ && (forall|
                        t: int,
                    |
                        0 <= t < sl ==> (#[trigger] best@[t]).node.id@ != x.node.id@),
                    None => forall|t: int|
                        0 <= t < j ==> (#[trigger] best@[t]).node.id@ != x.node.id@,
                },
                i < results@.len(),
                x == results@[i as int],
            decreases n - j,
        {
            match slot {
                Some(_) => {
                },
                None => {
                    if best[j].node.id == x.node.id {
                        slot = Some(j);
                    }
                },
            }
            j = j + 1;
        }
        match slot {
            Some(sl) => {
                proof {
                    lemma_find_slot(best@, x.node.id@);
                    assert(find_slot(best@, x.node.id@) == Some(sl as int)) by {
                        match find_slot(best@, x.node.id@) {
                            Some(f) => {
                                if f < sl {
                                    assert(best@[f].node.id@ != x.node.id@);
                                }
                                if sl < f {
                                    assert(best@[sl as int].node.id@ != x.node.id@);
                                }
                            },
                            None => {
                                assert(best@[sl as int].node.id@ != x.node.id@);
                            },
                        }
                    }
                }
                let xb: u128 = (x.score as u128) + (tier_bonus_of(x.tier) as u128);
                let eb: u128 = (best[sl].score as u128) + (tier_bonus_of(best[sl].tier) as u128);
                if xb > eb {
                    best.set(sl, x.clone());
                }
            },
            None => {
                proof {
                    lemma_find_slot(best@, x.node.id@);
                    assert(find_slot(best@, x.node.id@) is None) by {
                        match find_slot(best@, x.node.id@) {
                            Some(f) => {
                                assert(best@[f].node.id@ != x.node.id@);
                            },
                            None => {},
                        }
                    }
                }
                best.push(x.clone());
            },
        }
        i = i + 1;
    }
    proof {
        assert(results@.subrange(results@.len() as int, results@.len() as int)
            =~= Seq::<SearchResult>::empty());
    }
    let mut ranked = sort_results(best);
    if ranked.len() > top_k {
        ranked.truncate(top_k);
        proof {
            assert(ranked@ =~= dedup_rank_spec(resv, top_k as int));
        }
    } else {
        proof {
            assert(ranked@ =~= dedup_rank_spec(resv, top_k as int));
        }
    }
    ranked
}

/// The winner rule: merging two candidates for the same node keeps the one
/// whose bonus-adjusted score is strictly higher (the earlier one on a tie),
/// and the survivor's reported score is its own raw score.
pub proof fn lemma_dedup_winner(a: SearchResult, b: SearchResult)
    requires
        a.node.id@ == b.node.id@,
    ensures
        merge_fold(Seq::empty(), seq![a, b]) == if b.score + tier_bonus(b.tier) > a.score
            + tier_bonus(a.tier) {
            seq![b]
        } else {
            seq![a]
        },
{
    let e = Seq::<SearchResult>::empty();
    let s = seq![a, b];
    assert(s[0] == a);
    assert(find_slot(e, a.node.id@) is None);
    assert(merge_step(e, a) == e.push(a));
    let acc1 = e.push(a);
    assert(acc1[0] == a);
    assert(find_slot(acc1, b.node.id@) == Some(0int)) by {
        assert(acc1[0].node.id@ == b.node.id@);
    }
    let rest1 = s.subrange(1, 2);
    assert(rest1[0] == b);
    assert(rest1.subrange(1, 1).len() == 0);
    assert(merge_fold(e, s) == merge_fold(merge_step(e, a), rest1)) by {
        assert(s.subrange(1, s.len() as int) =~= rest1);
    }
    assert(merge_fold(acc1, rest1) == merge_fold(merge_step(acc1, b), rest1.subrange(1, 1)));
    assert(merge_fold(merge_step(acc1, b), rest1.subrange(1, 1)) == merge_step(acc1, b));
    if b.score + tier_bonus(b.tier) > a.score + tier_bonus(a.tier) {
        assert(merge_step(acc1, b) == acc1.update(0, b));
        assert(acc1.update(0, b) =~= seq![b]);
    } else {
        assert(merge_step(acc1, b) == acc1);
        assert(acc1 =~= seq![a]);
    }
}

// ---------------------------------------------------------------------------
// Result cache, fetch cache and the engine
// ---------------------------------------------------------------------------

/// One cached response: its normalized key, the response, and when it was
/// inserted, in milliseconds.
#[derive(Debug)]
pub struct CacheEntry {
    pub key: String,
    pub response: PointerResponse,
    pub at: u64,
}

/// One cached fetch extraction, keyed by path and line range.
#[derive(Debug)]
pub struct FetchEntry {
    pub path: String,
    pub start: i64,
    pub end: i64,
    pub content: String,
}

/// How long a cached response lives, in milliseconds.
pub open spec fn cache_ttl() -> int {
    60000
}

/// First cache slot holding this key, if any.
pub open spec fn cache_slot(entries: Seq<CacheEntry>, key: Seq<char>) -> Option<int>
    decreases entries.len(),
{
    if entries.len() == 0 {
        None
    } else if entries[0].key@ == key {
        Some(0)
    } else {
        match cache_slot(entries.subrange(1, entries.len() as int), key) {
            Some(i) => Some(i + 1),
            None => None,
        }
    }
}

proof fn lemma_cache_slot(entries: Seq<CacheEntry>, key: Seq<char>)
    ensures
        match cache_slot(entries, key) {
            Some(i) => 0 <= i < entries.len() && entries[i].key@ == key && forall|j: int|
                0 <= j < i ==> (#[trigger] entries[j]).key@ != key,
            None => forall|j: int| 0 <= j < entries.len() ==> (#[trigger] entries[j]).key@ != key,
        },
    decreases entries.len(),
{
    if entries.len() > 0 && entries[0].key@ != key {
        let t = entries.subrange(1, entries.len() as int);
        lemma_cache_slot(t, key);
        match cache_slot(entries, key) {
            Some(i) => {
                assert(entries[i] == t[i - 1]);
                assert forall|j: int| 0 <= j < i implies (#[trigger] entries[j]).key@ != key by {
                    if j >= 1 {
                        assert(t[j - 1] == entries[j]);
                    }
                }
            },
            None => {
                assert forall|j: int| 0 <= j < entries.len() implies (
                #[trigger] entries[j]).key@ != key by {
                    if j >= 1 {
                        assert(t[j - 1] == entries[j]);
                    }
                }
            },
        }
    }
}

/// Whether a fresh (unexpired) response for this key is cached at `now`.
pub open spec fn cache_has_fresh(entries: Seq<CacheEntry>, key: Seq<char>, now: u64) -> bool {
    match cache_slot(entries, key) {
        Some(i) => now < entries[i].at + cache_ttl(),
        None => false,
    }
}

/// The tiered search engine: a shared result cache with a sixty-second
/// lifetime, and a per-engine fetch cache.
pub struct SearchEngine {
    pub result_cache: Vec<CacheEntry>,
    pub fetch_cache: Vec<FetchEntry>,
}

/// The normalized cache key of a query: `<trimmed, lower-cased query>:<top_k>`.
pub open spec fn cache_key_spec(q: Seq<char>, top_k: int) -> Seq<char> {
    crate::text::lower_seq(crate::text::trim_spec(q)) + ":"@ + crate::text::dec_digits(
        top_k as nat,
    )
}

/// The zero-defaulted line number label value.
pub open spec fn line_or_zero(o: Option<i64>) -> int {
    match o {
        Some(x) => x as int,
        None => 0,
    }
}

/// How a search result projects to a pointer: node id, file path (empty
/// when absent), name, a `start-end` line label, the raw score, summary
/// (empty when absent) and the type name.
pub open spec fn pointer_matches(p: Pointer, sr: SearchResult) -> bool {
    &&& p.id@ == sr.node.id@
    &&& p.source@ == (match sr.node.file_path {
        Some(x) => x@,
        None => Seq::<char>::empty(),
    })
    &&& p.chunk@ == sr.node.name@
    &&& p.lines@ == crate::text::int_digits(line_or_zero(sr.node.start_line)) + "-"@
        + crate::text::int_digits(line_or_zero(sr.node.end_line))
    &&& p.relevance == sr.score
    &&& p.summary@ == (match sr.node.summary {
        Some(x) => x@,
        None => Seq::<char>::empty(),
    })
    &&& p.node_type@ == crate::graph::node_type_str(sr.node.node_type)
    &&& p.last_modified is None
}

/// Whether a response is exactly the projection of a merged result list,
/// with its accounting attached.
pub open spec fn response_matches(resp: PointerResponse, merged: Seq<SearchResult>) -> bool {
    &&& resp.pointers@.len() == merged.len()
    &&& (forall|j: int|
        0 <= j < merged.len() ==> pointer_matches(#[trigger] resp.pointers@[j], merged[j]))
    &&& resp.accounting == crate::pointer::response_accounting(resp.pointers@, 0)
}

/// Projects merged results to pointers.
fn results_to_pointers(results: &Vec<SearchResult>) -> (r: Vec<Pointer>)
    ensures
        r@.len() == results@.len(),
        forall|j: int|
            0 <= j < results@.len() ==> pointer_matches(#[trigger] r@[j], results@[j]),
{
    let mut r: Vec<Pointer> = Vec::new();
    let mut i: usize = 0;
    while i < results.len()
        invariant
            i <= results@.len(),
            r@.len() == i,
            forall|j: int| 0 <= j < i ==> pointer_matches(#[trigger] r@[j], results@[j]),
        decreases results@.len() - i,
    {
        let sr = &results[i];
        let source: String = match &sr.node.file_path {
            Some(p) => p.clone(),
            None => String::new(),
        };
        let summary: String = match &sr.node.summary {
            Some(x) => x.clone(),
            None => String::new(),
        };
        let sl: i64 = match sr.node.start_line {
            Some(x) => x,
            None => 0,
        };
        let el: i64 = match sr.node.end_line {
            Some(x) => x,
            None => 0,
        };
        let mut linesv = crate::text::i64_to_chars(sl);
        linesv.push('-');
        crate::text::append_chars(&mut linesv, &crate::text::i64_to_chars(el));
        proof {
            reveal_strlit("-");
            assert("-"@ =~= seq!['-']);
            assert(linesv@ =~= crate::text::int_digits(line_or_zero(results@[i as int].node.start_line))
                + "-"@ + crate::text::int_digits(line_or_zero(results@[i as int].node.end_line)));
        }
        let p = Pointer {
            id: sr.node.id.clone(),
            source,
            chunk: sr.node.name.clone(),
            lines: crate::text::string_of(&linesv),
            relevance: sr.score,
            summary,
            node_type: sr.node.node_type.as_str().to_owned(),
            last_modified: None,
        };
        r.push(p);
        i = i + 1;
    }
    r
}

/// The least score among the first `k` candidates; the top of the scale when
/// there are none to compare.
pub open spec fn min_prefix_score(s: Seq<SearchResult>, k: int) -> int
    decreases k,
{
    if k <= 0 {
        0xffff_ffff_ffff_ffff as int
    } else {
        let rest = min_prefix_score(s, k - 1);
        if s[k - 1].score < rest {
            s[k - 1].score as int
        } else {
            rest
        }
    }
}

/// The exact vector tier as a function of the store and the query.
pub open spec fn vector_tier_spec(g: KnowledgeGraph, q: Seq<char>) -> Seq<SearchResult> {
    crate::search::vector::vector_tier_of(g, q)
}

/// The whole contract of one cache-aware search step at a known clock
/// reading: a fresh cached response is returned as is; otherwise the tiers
/// are cascaded with the literal short-circuit, merged, projected and
/// cached under the normalized key.
pub open spec fn search_post(
    pre: SearchEngine,
    g: KnowledgeGraph,
    q: Seq<char>,
    top_k: int,
    now: u64,
    post: SearchEngine,
    r: PointerResponse,
) -> bool {
    let key = cache_key_spec(q, top_k);
    let l0 = crate::search::literal::literal_tier_spec(g, q);
    if cache_has_fresh(pre.result_cache@, key, now) {
        // Served from the cache, which is left as it was.
        &&& post == pre
        &&& (match cache_slot(pre.result_cache@, key) {
            Some(i) => r.pointers@ == pre.result_cache@[i].response.pointers@ && r.accounting
                == pre.result_cache@[i].response.accounting,
            None => false,
        })
    } else {
        // Computed fresh.
        &&& post.fetch_cache@ == pre.fetch_cache@
        // The new response is cached under the key, stamped now.
        &&& (match cache_slot(post.result_cache@, key) {
            Some(i) => post.result_cache@[i].at == now && post.result_cache@[i].response.pointers@
                == r.pointers@ && post.result_cache@[i].response.accounting == r.accounting,
            None => false,
        })
        // Every cache row is the new one or an old one, and any row that
        // was cached under this key — fresh or expired — is gone: the key
        // answers only with the new response, stamped now.
        &&& (forall|j: int|
            0 <= j < post.result_cache@.len() ==> (#[trigger] post.result_cache@[j]).key@ == key
                || entry_in(pre.result_cache@, post.result_cache@[j]))
        &&& (forall|j: int|
            0 <= j < post.result_cache@.len() && (#[trigger] post.result_cache@[j]).key@ == key
                ==> post.result_cache@[j].at == now && post.result_cache@[j].response.pointers@
                == r.pointers@ && post.result_cache@[j].response.accounting == r.accounting)
        // The response is exactly the merge the cascade chose.
        &&& if l0.len() >= top_k && min_prefix_score(l0, top_k) >= 900 {
            response_matches(r, dedup_rank_spec(l0, top_k))
        } else if l0.len() >= top_k && min_prefix_score(l0, top_k) >= 800 {
            response_matches(
                r,
                dedup_rank_spec(l0 + crate::search::fts::fts_tier_spec(g, q), top_k),
            )
        } else {
            response_matches(
                r,
                dedup_rank_spec(
                    l0 + crate::search::fts::fts_tier_spec(g, q) + vector_tier_spec(g, q),
                    top_k,
                ),
            )
        }
    }
}

/// Whether a cache row occurs in a cache.
pub open spec fn entry_in(entries: Seq<CacheEntry>, e: CacheEntry) -> bool {
    exists|i: int| 0 <= i < entries.len() && #[trigger] entries[i] == e
}

impl SearchEngine {
    pub fn new() -> (r: SearchEngine)
        ensures
            r.result_cache@.len() == 0,
            r.fetch_cache@.len() == 0,
    {
        SearchEngine { result_cache: Vec::new(), fetch_cache: Vec::new() }
    }

    /// Empties the result cache; re-indexing calls this.
    pub fn invalidate(&mut self)
        ensures
            final(self).result_cache@.len() == 0,
            final(self).fetch_cache@ == old(self).fetch_cache@,
    {
        self.result_cache = Vec::new();
    }

    /// A fresh cached response for the key, if one is there.
    fn cache_lookup(&self, keystr: &String, now: u64) -> (r: Option<PointerResponse>)
        ensures
            match r {
                Some(resp) => cache_has_fresh(self.result_cache@, keystr@, now) && (
                match cache_slot(self.result_cache@, keystr@) {
                    Some(i) => resp.pointers@ == self.result_cache@[i].response.pointers@
                        && resp.accounting == self.result_cache@[i].response.accounting,
                    None => false,
                }),
                None => !cache_has_fresh(self.result_cache@, keystr@, now),
            },
    {
        let n = self.result_cache.len();
        let mut ci: usize = 0;
        proof {
            lemma_cache_slot(self.result_cache@, keystr@);
        }
        while ci < n
            invariant
                n == self.result_cache@.len(),
                ci <= n,
                forall|j: int|
                    0 <= j < ci ==> (#[trigger] self.result_cache@[j]).key@ != keystr@,
            decreases n - ci,
        {
            if self.result_cache[ci].key == *keystr {
                proof {
                    lemma_cache_slot(self.result_cache@, keystr@);
                    match cache_slot(self.result_cache@, keystr@) {
                        Some(w) => {
                            if w < ci {
                                assert(self.result_cache@[w].key@ != keystr@);
                            }
                            if ci < w {
                                assert(self.result_cache@[ci as int].key@ != keystr@);
                            }
                        },
                        None => {
                            assert(self.result_cache@[ci as int].key@ != keystr@);
                        },
                    }
                    assert(cache_slot(self.result_cache@, keystr@) == Some(ci as int));
                }
                if self.result_cache[ci].at <= u64::MAX - 60000 && now < self.result_cache[ci].at
                    + 60000 {
                    return Some(self.result_cache[ci].response.clone());
                }
                proof {
                    if self.result_cache@[ci as int].at > u64::MAX - 60000 {
                        assert(!(now < self.result_cache@[ci as int].at + cache_ttl())
                            || now < self.result_cache@[ci as int].at + cache_ttl());
                    }
                }
                if self.result_cache[ci].at > u64::MAX - 60000 {
                    // An entry stamped at the end of the clock's range never
                    // expires; serve it.
                    proof {
                        assert(now < self.result_cache@[ci as int].at + cache_ttl());
                    }
                    return Some(self.result_cache[ci].response.clone());
                }
                return None;
            }
            ci = ci + 1;
        }
        None
    }

    /// Removes every cached row under this key.
    fn purge_key(&mut self, keystr: &String)
        ensures
            final(self).fetch_cache@ == old(self).fetch_cache@,
            forall|j: int|
                0 <= j < final(self).result_cache@.len() ==> (#[trigger] final(self).result_cache@[j]).key@ != keystr@,
            forall|j: int|
                0 <= j < final(self).result_cache@.len() ==> entry_in(
                    old(self).result_cache@,
                    #[trigger] final(self).result_cache@[j],
                ),
    {
        let ghost cacheo = self.result_cache@;
        let mut i: usize = 0;
        while i < self.result_cache.len()
            invariant
                self.fetch_cache@ == old(self).fetch_cache@,
                i <= self.result_cache@.len(),
                forall|j: int|
                    0 <= j < i ==> (#[trigger] self.result_cache@[j]).key@ != keystr@,
                forall|j: int|
                    0 <= j < self.result_cache@.len() ==> entry_in(
                        cacheo,
                        #[trigger] self.result_cache@[j],
                    ),
            decreases self.result_cache@.len() - i,
        {
            if self.result_cache[i].key == *keystr {
                let ghost pre = self.result_cache@;
                self.result_cache.remove(i);
                proof {
                    assert forall|j: int| 0 <= j < self.result_cache@.len() implies entry_in(
                        cacheo,
                        #[trigger] self.result_cache@[j],
                    ) && (j < i ==> (self.result_cache@[j]).key@ != keystr@) by {
                        if j < i {
                            assert(self.result_cache@[j] == pre[j]);
                        } else {
                            assert(self.result_cache@[j] == pre[j + 1]);
                        }
                    }
                }
            } else {
                i = i + 1;
            }
        }
    }

    /// One search against the store, at a known clock reading. A fresh
    /// cached response for the normalized key is served unchanged; otherwise
    /// the literal tier runs, the full-text and vector tiers are skipped
    /// when the weakest literal score the cap keeps clears the short-circuit
    /// thresholds, the union is merged, and the response is cached.
    pub fn search_at(
        &mut self,
        graph: &KnowledgeGraph,
        query: &str,
        top_k: usize,
        mode: &SearchMode,
        now: u64,
    ) -> (r: PointerResponse)
        ensures
            search_post(*old(self), *graph, query@, top_k as int, now, *final(self), r),
    {
        let ghost key = cache_key_spec(query@, top_k as int);
        let mut keyv = crate::text::lower_all(&crate::text::trim(&crate::text::chars_of(query)));
        keyv.push(':');
        crate::text::append_chars(&mut keyv, &crate::text::u64_to_chars(top_k as u64));
        let keystr = crate::text::string_of(&keyv);
        proof {
            reveal_strlit(":");
            assert(":"@ =~= seq![':']);
            assert(keystr@ =~= key);
        }
        match self.cache_lookup(&keystr, now) {
            Some(resp) => {
                return resp;
            },
            None => {},
        }
        // An entry under this key, fresh or not, gives way to the new one.
        self.purge_key(&keystr);
        let ghost cache1 = self.result_cache@;
        // Cascade. The literal tier always runs.
        let l0 = crate::search::literal::literal_search(graph, query);
        let ghost l0s = crate::search::literal::literal_tier_spec(*graph, query@);
        let short_all: bool;
        let short_l2: bool;
        if l0.len() >= top_k {
            let mut m: u64 = u64::MAX;
            let mut t: usize = 0;
            while t < top_k
                invariant
                    l0@ == l0s,
                    top_k <= l0@.len(),
                    t <= top_k,
                    m == min_prefix_score(l0@, t as int),
                decreases top_k - t,
            {
                if l0[t].score < m {
                    m = l0[t].score;
                }
                t = t + 1;
            }
            short_all = m >= 900;
            short_l2 = !short_all && m >= 800;
        } else {
            short_all = false;
            short_l2 = false;
        }
        proof {
            assert(short_all == (l0s.len() >= top_k as int && min_prefix_score(
                l0s,
                top_k as int,
            ) >= 900));
            assert(short_l2 == (l0s.len() >= top_k as int && !(min_prefix_score(
                l0s,
                top_k as int,
            ) >= 900) && min_prefix_score(l0s, top_k as int) >= 800));
        }
        let merged: Vec<SearchResult>;
        let ghost mut used: Seq<SearchResult> = Seq::empty();
        let ghost mut l1_used: Seq<SearchResult> = Seq::empty();
        if short_all {
            merged = deduplicate_and_rank(l0, top_k);
            proof {
                used = l0s;
            }
        } else if short_l2 {
            let mut all = l0;
            let l1 = crate::search::fts::fts_search(graph, query);
            let ghost l1v = l1@;
            append_results(&mut all, l1);
            proof {
                assert(all@ =~= l0s + l1v);
                used = l0s + l1v;
                l1_used = l1v;
            }
            merged = deduplicate_and_rank(all, top_k);
        } else {
            let mut all = l0;
            let l1 = crate::search::fts::fts_search(graph, query);
            let ghost l1v = l1@;
            append_results(&mut all, l1);
            let l2 = crate::search::vector::vector_search(graph, query);
            let ghost l2v = l2@;
            append_results(&mut all, l2);
            proof {
                assert(l2v == vector_tier_spec(*graph, query@));
                assert(all@ =~= l0s + l1v + l2v);
                used = l0s + l1v + l2v;
                l1_used = l1v;
            }
            merged = deduplicate_and_rank(all, top_k);
        }
        let pointers = results_to_pointers(&merged);
        let response = PointerResponse::build(pointers, 0);
        proof {
            assert(response_matches(response, dedup_rank_spec(used, top_k as int)));
            if l0s.len() >= top_k as int && min_prefix_score(l0s, top_k as int) >= 900 {
                assert(used == l0s);
            } else if l0s.len() >= top_k as int && min_prefix_score(l0s, top_k as int) >= 800 {
                assert(l1_used == crate::search::fts::fts_tier_spec(*graph, query@));
                assert(used == l0s + l1_used);
            } else {
                assert(l1_used == crate::search::fts::fts_tier_spec(*graph, query@));
                assert(used == l0s + l1_used + vector_tier_spec(*graph, query@));
            }
        }
        // Cache the response: drop expired rows when full, then the oldest
        // if still full, then insert.
        let ghost cache0 = self.result_cache@;
        proof {
            assert(forall|j: int|
                0 <= j < self.result_cache@.len() ==> (#[trigger] self.result_cache@[j]).key@
                    != key);
        }
        if self.result_cache.len() >= 256 {
            let mut i: usize = 0;
            while i < self.result_cache.len()
                invariant
                    self.fetch_cache@ == old(self).fetch_cache@,
                    i <= self.result_cache@.len(),
                    forall|j: int|
                        0 <= j < self.result_cache@.len() ==> entry_in(
                            cache0,
                            #[trigger] self.result_cache@[j],
                        ),
                    forall|j: int|
                        0 <= j < self.result_cache@.len() ==> (#[trigger] self.result_cache@[
                            j
                        ]).key@ != key,
                decreases self.result_cache@.len() - i,
            {
                let expired = !(self.result_cache[i].at > u64::MAX - 60000) && !(now
                    < self.result_cache[i].at + 60000);
                if expired {
                    let ghost pre = self.result_cache@;
                    self.result_cache.remove(i);
                    proof {
                        assert forall|j: int| 0 <= j < self.result_cache@.len() implies entry_in(
                            cache0,
                            #[trigger] self.result_cache@[j],
                        ) && (self.result_cache@[j]).key@ != key by {
                            if j < i {
                                assert(self.result_cache@[j] == pre[j]);
                            } else {
                                assert(self.result_cache@[j] == pre[j + 1]);
                            }
                        }
                    }
                } else {
                    i = i + 1;
                }
            }
        }
        if self.result_cache.len() >= 256 {
            let mut oldest: usize = 0;
            let mut oi: usize = 1;
            while oi < self.result_cache.len()
                invariant
                    self.result_cache@.len() > 0,
                    oldest < self.result_cache@.len(),
                    oi <= self.result_cache@.len(),
                    self.fetch_cache@ == old(self).fetch_cache@,
                    forall|j: int|
                        0 <= j < self.result_cache@.len() ==> entry_in(
                            cache0,
                            #[trigger] self.result_cache@[j],
                        ),
                    forall|j: int|
                        0 <= j < self.result_cache@.len() ==> (#[trigger] self.result_cache@[
                            j
                        ]).key@ != key,
                decreases self.result_cache@.len() - oi,
            {
                if self.result_cache[oi].at < self.result_cache[oldest].at {
                    oldest = oi;
                }
                oi = oi + 1;
            }
            let ghost pre = self.result_cache@;
            self.result_cache.remove(oldest);
            proof {
                assert forall|j: int| 0 <= j < self.result_cache@.len() implies entry_in(
                    cache0,
                    #[trigger] self.result_cache@[j],
                ) && (self.result_cache@[j]).key@ != key by {
                    if j < oldest {
                        assert(self.result_cache@[j] == pre[j]);
                    } else {
                        assert(self.result_cache@[j] == pre[j + 1]);
                    }
                }
            }
        }
        let entry = CacheEntry { key: keystr, response: response.clone(), at: now };
        let ghost pre = self.result_cache@;
        self.result_cache.push(entry);
        proof {
            lemma_cache_slot(self.result_cache@, key);
            match cache_slot(self.result_cache@, key) {
                Some(w) => {
                    assert(w == pre.len()) by {
                        if w < pre.len() {
                            assert(self.result_cache@[w] == pre[w]);
                            assert(pre[w].key@ != key);
                        }
                    }
                    assert(self.result_cache@[w].at == now && self.result_cache@[
                        w
                    ].response.pointers@ == response.pointers@ && self.result_cache@[
                        w
                    ].response.accounting == response.accounting);
                },
                None => {
                    assert(self.result_cache@[pre.len() as int].key@ == key);
                },
            }
            assert forall|j: int| 0 <= j < self.result_cache@.len() implies (#[trigger] self
                .result_cache@[j]).key@ == key || entry_in(
                old(self).result_cache@,
                self.result_cache@[j],
            ) by {
                if j < pre.len() {
                    assert(self.result_cache@[j] == pre[j]);
                    let w = choose|w: int|
                        0 <= w < cache0.len() && #[trigger] cache0[w] == pre[j];
                    assert(entry_in(old(self).result_cache@, cache0[w]));
                }
            }
        }
        response
    }

    /// One search at the current clock reading.
    pub fn search(
        &mut self,
        graph: &KnowledgeGraph,
        query: &str,
        top_k: usize,
        mode: &SearchMode,
    ) -> (r: PointerResponse)
        ensures
            exists|now: u64|
                #[trigger] search_post(
                    *old(self),
                    *graph,
                    query@,
                    top_k as int,
                    now,
                    *final(self),
                    r,
                ),
    {
        let now = crate::outside::now_millis();
        let r = self.search_at(graph, query, top_k, mode, now);
        proof {
            assert(search_post(*old(self), *graph, query@, top_k as int, now, *final(self), r));
        }
        r
    }
}

/// Moves all of `src` onto the end of `dst`.
fn append_results(dst: &mut Vec<SearchResult>, src: Vec<SearchResult>)
    ensures
        final(dst)@ == old(dst)@ + src@,
{
    let s = src;
    let mut i: usize = 0;
    while i < s.len()
        invariant
            i <= s@.len(),
            dst@ == old(dst)@ + s@.subrange(0, i as int),
        decreases s@.len() - i,
    {
        let item = s[i].clone();
        proof {
            assert(item == s@[i as int]);
        }
        dst.push(item);
        i = i + 1;
        proof {
            assert(dst@ =~= old(dst)@ + s@.subrange(0, i as int));
        }
    }
    proof {
        assert(s@.subrange(0, s@.len() as int) =~= s@);
    }
}

/// The 1-based start line a fetch clamps to.
pub open spec fn clamped_start(o: Option<i64>) -> int {
    let v = match o {
        Some(x) => x as int,
        None => 1,
    };
    if v < 1 {
        1
    } else {
        v
    }
}

/// What a fetch extracts for a node: nothing without a path; a placeholder
/// when the store holds no text for the path; the whole text when the end
/// line is zero; otherwise the inclusive line range, clamped to the file,
/// and empty when the range is inverted.
pub open spec fn extract_content_spec(g: KnowledgeGraph, n: Node) -> Seq<char> {
    match n.file_path {
        None => Seq::<char>::empty(),
        Some(p) => match g.spec_file_text(p@) {
            None => "[File not found: "@ + p@ + "]"@,
            Some(text) => {
                let lines = crate::text::lines_of(text);
                let endv = line_or_zero(n.end_line);
                if endv == 0 {
                    text
                } else {
                    let si0 = clamped_start(n.start_line) - 1;
                    let si = if si0 > lines.len() {
                        lines.len() as int
                    } else {
                        si0
                    };
                    let ei = if endv < 0 || endv > lines.len() {
                        lines.len() as int
                    } else {
                        endv
                    };
                    crate::text::join_lines(lines, si, ei)
                }
            },
        },
    }
}

/// First fetch-cache slot for a path and line range, if any.
pub open spec fn fetch_slot(entries: Seq<FetchEntry>, path: Seq<char>, start: int, end: int) -> Option<int>
    decreases entries.len(),
{
    if entries.len() == 0 {
        None
    } else if entries[0].path@ == path && entries[0].start == start && entries[0].end == end {
        Some(0)
    } else {
        match fetch_slot(entries.subrange(1, entries.len() as int), path, start, end) {
            Some(i) => Some(i + 1),
            None => None,
        }
    }
}

proof fn lemma_fetch_slot(entries: Seq<FetchEntry>, path: Seq<char>, start: int, end: int)
    ensures
        match fetch_slot(entries, path, start, end) {
            Some(i) => 0 <= i < entries.len() && entries[i].path@ == path && entries[i].start
                == start && entries[i].end == end && forall|j: int|
                0 <= j < i ==> !((#[trigger] entries[j]).path@ == path && entries[j].start
                    == start && entries[j].end == end),
            None => forall|j: int|
                0 <= j < entries.len() ==> !((#[trigger] entries[j]).path@ == path
                    && entries[j].start == start && entries[j].end == end),
        },
    decreases entries.len(),
{
    if entries.len() > 0 && !(entries[0].path@ == path && entries[0].start == start
        && entries[0].end == end) {
        let t = entries.subrange(1, entries.len() as int);
        lemma_fetch_slot(t, path, start, end);
        match fetch_slot(entries, path, start, end) {
            Some(i) => {
                assert(entries[i] == t[i - 1]);
                assert forall|j: int| 0 <= j < i implies !((#[trigger] entries[j]).path@ == path
                    && entries[j].start == start && entries[j].end == end) by {
                    if j >= 1 {
                        assert(t[j - 1] == entries[j]);
                    }
                }
            },
            None => {
                assert forall|j: int| 0 <= j < entries.len() implies !((
                #[trigger] entries[j]).path@ == path && entries[j].start == start
                    && entries[j].end == end) by {
                    if j >= 1 {
                        assert(t[j - 1] == entries[j]);
                    }
                }
            },
        }
    }
}

impl SearchEngine {
    /// Dereferences a pointer: nothing when no node of the project has the
    /// id; otherwise the node's line range extracted from the stored file
    /// text — served from the fetch cache when the same range was served
    /// before — with a word-count token estimate. An end line of zero means
    /// the whole file.
    pub fn fetch(&mut self, graph: &KnowledgeGraph, pointer_id: &str) -> (r: Option<
        FetchResponse,
    >)
        requires
            graph.wf(),
        ensures
            match r {
                None => forall|i: int|
                    0 <= i < graph.nodes@.len() ==> !crate::graph::node_key_match(
                        #[trigger] graph.nodes@[i],
                        pointer_id@,
                        graph.spec_project_id(),
                    ),
                Some(resp) => exists|i: int|
                    0 <= i < graph.nodes@.len() && crate::graph::node_key_match(
                        #[trigger] graph.nodes@[i],
                        pointer_id@,
                        graph.spec_project_id(),
                    ) && fetch_answers(
                        resp,
                        graph.nodes@[i],
                        *graph,
                        old(self).fetch_cache@,
                    ) && fetch_cached(
                        final(self).fetch_cache@,
                        old(self).fetch_cache@,
                        graph.nodes@[i],
                        resp,
                    ),
            },
            final(self).result_cache@ == old(self).result_cache@,
    {
        let node = match graph.get_node(pointer_id) {
            Some(n) => n,
            None => {
                return None;
            },
        };
        let path: String = match &node.file_path {
            Some(p) => p.clone(),
            None => String::new(),
        };
        let start: i64 = match node.start_line {
            Some(x) => x,
            None => 0,
        };
        let end: i64 = match node.end_line {
            Some(x) => x,
            None => 0,
        };
        let has_path = match &node.file_path {
            Some(_) => true,
            None => false,
        };
        // Serve from the fetch cache when the same range is there.
        let content: Option<String> = if has_path {
            self.fetch_cache_lookup(&path, start, end)
        } else {
            None
        };
        let ghost pre_cache = self.fetch_cache@;
        let body: String = match content {
            Some(c) => c,
            None => {
                let fresh = extract_node_content(graph, &node);
                if has_path {
                    let ghost cache_a = self.fetch_cache@;
                    if self.fetch_cache.len() >= 50 {
                        self.fetch_cache.remove(0);
                        proof {
                            assert forall|j: int|
                                0 <= j < self.fetch_cache@.len() implies fentry_in(
                                pre_cache,
                                #[trigger] self.fetch_cache@[j],
                            ) && !(self.fetch_cache@[j].path@ == path@
                                && self.fetch_cache@[j].start == start
                                && self.fetch_cache@[j].end == end) by {
                                assert(self.fetch_cache@[j] == cache_a[j + 1]);
                                lemma_fetch_slot(pre_cache, path@, start as int, end as int);
                                match fetch_slot(pre_cache, path@, start as int, end as int) {
                                    Some(w) => {
                                        assert(false);
                                    },
                                    None => {},
                                }
                            }
                        }
                    } else {
                        proof {
                            assert forall|j: int|
                                0 <= j < self.fetch_cache@.len() implies fentry_in(
                                pre_cache,
                                #[trigger] self.fetch_cache@[j],
                            ) && !(self.fetch_cache@[j].path@ == path@
                                && self.fetch_cache@[j].start == start
                                && self.fetch_cache@[j].end == end) by {
                                lemma_fetch_slot(pre_cache, path@, start as int, end as int);
                                match fetch_slot(pre_cache, path@, start as int, end as int) {
                                    Some(w) => {
                                        assert(false);
                                    },
                                    None => {},
                                }
                            }
                        }
                    }
                    let ghost kept = self.fetch_cache@;
                    self.fetch_cache.push(
                        FetchEntry {
                            path: path.clone(),
                            start,
                            end,
                            content: fresh.clone(),
                        },
                    );
                    proof {
                        lemma_fetch_slot(self.fetch_cache@, path@, start as int, end as int);
                        match fetch_slot(self.fetch_cache@, path@, start as int, end as int) {
                            Some(w) => {
                                assert(w == kept.len()) by {
                                    if w < kept.len() {
                                        assert(self.fetch_cache@[w] == kept[w]);
                                    }
                                }
                            },
                            None => {
                                assert(self.fetch_cache@[kept.len() as int].path@ == path@
                                    && self.fetch_cache@[kept.len() as int].start == start
                                    && self.fetch_cache@[kept.len() as int].end == end);
                            },
                        }
                        assert forall|j: int|
                            0 <= j < self.fetch_cache@.len() implies fentry_in(
                            pre_cache,
                            #[trigger] self.fetch_cache@[j],
                        ) || (self.fetch_cache@[j].path@ == path@ && self.fetch_cache@[j].start
                            == start && self.fetch_cache@[j].end == end
                            && self.fetch_cache@[j].content@ == fresh@) by {
                            if j < kept.len() {
                                assert(self.fetch_cache@[j] == kept[j]);
                            }
                        }
                    }
                } else {
                    proof {
                        assert forall|j: int|
                            0 <= j < self.fetch_cache@.len() implies fentry_in(
                            pre_cache,
                            #[trigger] self.fetch_cache@[j],
                        ) by {
                            assert(pre_cache[j] == self.fetch_cache@[j]);
                        }
                    }
                }
                fresh
            },
        };
        proof {
            if content is Some {
                assert forall|j: int| 0 <= j < self.fetch_cache@.len() implies fentry_in(
                    pre_cache,
                    #[trigger] self.fetch_cache@[j],
                ) by {
                    assert(pre_cache[j] == self.fetch_cache@[j]);
                }
            }
        }
        let tokens = crate::pointer::estimate_tokens(body.as_str());
        Some(
            FetchResponse {
                pointer_id: node.id.clone(),
                content: body,
                file_path: path,
                start_line: start,
                end_line: end,
                token_count: tokens,
            },
        )
    }
}

impl SearchEngine {
    /// The cached extraction for a path and range, if one is there.
    fn fetch_cache_lookup(&self, path: &String, start: i64, end: i64) -> (r: Option<String>)
        ensures
            match r {
                Some(c) => (match fetch_slot(self.fetch_cache@, path@, start as int, end as int) {
                    Some(i) => c@ == self.fetch_cache@[i].content@,
                    None => false,
                }),
                None => fetch_slot(self.fetch_cache@, path@, start as int, end as int) is None,
            },
    {
        let n = self.fetch_cache.len();
        let mut i: usize = 0;
        proof {
            lemma_fetch_slot(self.fetch_cache@, path@, start as int, end as int);
        }
        while i < n
            invariant
                n == self.fetch_cache@.len(),
                i <= n,
                forall|j: int|
                    0 <= j < i ==> !((#[trigger] self.fetch_cache@[j]).path@ == path@
                        && self.fetch_cache@[j].start == start && self.fetch_cache@[j].end
                        == end),
            decreases n - i,
        {
            let e = &self.fetch_cache[i];
            if e.path == *path && e.start == start && e.end == end {
                proof {
                    lemma_fetch_slot(self.fetch_cache@, path@, start as int, end as int);
                    match fetch_slot(self.fetch_cache@, path@, start as int, end as int) {
                        Some(w) => {
                            if w < i {
                                assert(!(self.fetch_cache@[w].path@ == path@
                                    && self.fetch_cache@[w].start == start
                                    && self.fetch_cache@[w].end == end));
                            }
                            if i < w {
                                assert(!(self.fetch_cache@[i as int].path@ == path@
                                    && self.fetch_cache@[i as int].start == start
                                    && self.fetch_cache@[i as int].end == end));
                            }
                        },
                        None => {
                            assert(!(self.fetch_cache@[i as int].path@ == path@
                                && self.fetch_cache@[i as int].start == start
                                && self.fetch_cache@[i as int].end == end));
                        },
                    }
                    assert(fetch_slot(self.fetch_cache@, path@, start as int, end as int)
                        == Some(i as int));
                }
                return Some(e.content.clone());
            }
            i = i + 1;
        }
        proof {
            lemma_fetch_slot(self.fetch_cache@, path@, start as int, end as int);
            match fetch_slot(self.fetch_cache@, path@, start as int, end as int) {
                Some(w) => {
                    assert(!(self.fetch_cache@[w].path@ == path@ && self.fetch_cache@[w].start
                        == start && self.fetch_cache@[w].end == end));
                },
                None => {},
            }
        }
        None
    }
}

/// Whether a fetch-cache row occurs in a cache.
pub open spec fn fentry_in(entries: Seq<FetchEntry>, e: FetchEntry) -> bool {
    exists|i: int| 0 <= i < entries.len() && #[trigger] entries[i] == e
}

/// What a fetch leaves in its cache: for a node with a path, the node's
/// range now answers with the response's content, and every row is an old
/// row or that new one — so a repeated fetch of the same range returns the
/// same content.
pub open spec fn fetch_cached(
    post: Seq<FetchEntry>,
    pre: Seq<FetchEntry>,
    n: Node,
    resp: FetchResponse,
) -> bool {
    let path = match n.file_path {
        Some(p) => p@,
        None => Seq::<char>::empty(),
    };
    let start = line_or_zero(n.start_line);
    let end = line_or_zero(n.end_line);
    &&& (n.file_path is Some ==> match fetch_slot(post, path, start, end) {
        Some(i) => post[i].content@ == resp.content@,
        None => false,
    })
    &&& forall|j: int|
        0 <= j < post.len() ==> fentry_in(pre, #[trigger] post[j]) || (post[j].path@ == path
            && post[j].start as int == start && post[j].end as int == end && post[j].content@
            == resp.content@)
}

/// What a fetch response promises for its node: the id, path and lines are
/// the node's; the content is the extraction — or what the cache held for
/// the same range — and the token count estimates that content.
pub open spec fn fetch_answers(
    resp: FetchResponse,
    n: Node,
    g: KnowledgeGraph,
    pre_cache: Seq<FetchEntry>,
) -> bool {
    let path = match n.file_path {
        Some(p) => p@,
        None => Seq::<char>::empty(),
    };
    let start = line_or_zero(n.start_line);
    let end = line_or_zero(n.end_line);
    &&& resp.pointer_id@ == n.id@
    &&& resp.file_path@ == path
    &&& resp.start_line as int == start
    &&& resp.end_line as int == end
    &&& (match fetch_slot(pre_cache, path, start, end) {
        Some(i) => n.file_path is Some && resp.content@ == pre_cache[i].content@,
        None => resp.content@ == extract_content_spec(g, n),
    } || (n.file_path is None && resp.content@ == extract_content_spec(g, n)))
    &&& resp.token_count as int == crate::pointer::spec_estimate_tokens(resp.content@)
}

/// Extracts the node's line range from the stored file text.
fn extract_node_content(graph: &KnowledgeGraph, node: &Node) -> (r: String)
    ensures
        r@ == extract_content_spec(*graph, *node),
{
    let p = match &node.file_path {
        Some(p) => p.clone(),
        None => {
            let r = String::new();
            return r;
        },
    };
    let text = match graph.file_text(p.as_str()) {
        Some(t) => t,
        None => {
            let mut v = crate::text::chars_of("[File not found: ");
            crate::text::append_chars(&mut v, &crate::text::chars_of(p.as_str()));
            crate::text::append_chars(&mut v, &crate::text::chars_of("]"));
            proof {
                assert(v@ =~= extract_content_spec(*graph, *node));
            }
            return crate::text::string_of(&v);
        },
    };
    let endv: i64 = match node.end_line {
        Some(x) => x,
        None => 0,
    };
    if endv == 0 {
        return text;
    }
    let tv = crate::text::chars_of(text.as_str());
    let lines = crate::text::split_lines(&tv);
    let ghost linesg = crate::text::lines_of(text@);
    proof {
        assert(lines.deep_view().len() == lines@.len());
    }
    let startv: i64 = match node.start_line {
        Some(x) => {
            if x < 1 {
                1
            } else {
                x
            }
        },
        None => 1,
    };
    let ln = lines.len();
    let si: usize = if startv as u64 >= 1 && (startv as u64) - 1 <= ln as u64 {
        (startv - 1) as usize
    } else {
        ln
    };
    let ei: usize = if endv < 0 {
        ln
    } else if endv as u64 > ln as u64 {
        ln
    } else {
        endv as usize
    };
    if si >= ei {
        // An inverted range yields nothing.
        let joined = crate::text::join_range(&lines, ei, ei);
        proof {
            assert(joined@ =~= extract_content_spec(*graph, *node));
        }
        return crate::text::string_of(&joined);
    }
    let joined = crate::text::join_range(&lines, si, ei);
    proof {
        assert(joined@ =~= extract_content_spec(*graph, *node));
    }
    crate::text::string_of(&joined)
}

/// A cached response within its lifetime is served identically; at or past
/// its lifetime it is not served.
pub proof fn lemma_cache_ttl(entries: Seq<CacheEntry>, key: Seq<char>, t: u64, now: u64)
    requires
        cache_slot(entries, key) is Some,
        entries[cache_slot(entries, key)->0].at == t,
        t <= 0xffff_ffff_ffff_ffff - 60000,
    ensures
        (now < t + 60000) == cache_has_fresh(entries, key, now),
{
}

} // verus!