//! The full-text tier. The index holds one mirror row per node; a query is a
//! list of quoted terms — a phrase of words, optionally a prefix term —
//! joined by AND or OR. A row matches when its tokenized text carries the
//! terms; its rank counts their occurrences, and more occurrences normalize
//! to a better score. The tier builds three query strategies in turn: exact
//! phrase, conjunction of prefixes, disjunction of words.
//!
//! Two deliberate differences from a stemming, corpus-statistics index:
//! tokens are matched literally, with no stemming, so a query for one
//! inflection does not find another; and the rank is a plain occurrence
//! count rather than a corpus-weighted relevance, which would need
//! floating-point arithmetic.

use crate::graph::{FtsRow, KnowledgeGraph, Node};
use crate::search::{SearchResult, SearchTier};
use crate::text::{chars_of, contains_seq, eq_chars, lower_seq, slice_range, words_of};
use vstd::prelude::*;

verus! {

// ---------------------------------------------------------------------------
// Tokenization
// ---------------------------------------------------------------------------

/// Index tokens are maximal runs of alphanumerics, lower-cased; unlike the
/// vector tier the underscore separates.
pub open spec fn is_fts_char(c: char) -> bool {
    crate::outside::unicode_alnum(c)
}

pub open spec fn fts_run(s: Seq<char>) -> nat
    decreases s.len(),
{
    if s.len() == 0 || !is_fts_char(s[0]) {
        0
    } else {
        1 + fts_run(s.subrange(1, s.len() as int))
    }
}

pub proof fn lemma_fts_run(s: Seq<char>)
    ensures
        fts_run(s) <= s.len(),
        forall|j: int| 0 <= j < fts_run(s) ==> is_fts_char(#[trigger] s[j]),
        fts_run(s) < s.len() ==> !is_fts_char(s[fts_run(s) as int]),
    decreases s.len(),
{
    if s.len() > 0 && is_fts_char(s[0]) {
        let t = s.subrange(1, s.len() as int);
        lemma_fts_run(t);
        assert forall|j: int| 0 <= j < fts_run(s) implies is_fts_char(#[trigger] s[j]) by {
            if j >= 1 {
                assert(s[j] == t[j - 1]);
            }
        }
        if fts_run(s) < s.len() {
            assert(s[fts_run(s) as int] == t[fts_run(t) as int]);
        }
    }
}

/// The index tokens of a text.
pub open spec fn fts_tokens(s: Seq<char>) -> Seq<Seq<char>>
    decreases s.len(),
    via fts_tokens_decreases
{
    if s.len() == 0 {
        Seq::empty()
    } else if !is_fts_char(s[0]) {
        fts_tokens(s.subrange(1, s.len() as int))
    } else {
        let k = fts_run(s);
        seq![lower_seq(s.subrange(0, k as int))] + fts_tokens(s.subrange(k as int, s.len() as int))
    }
}

#[via_fn]
proof fn fts_tokens_decreases(s: Seq<char>) {
    lemma_fts_run(s);
}

fn fts_char(c: char) -> (r: bool)
    ensures
        r == is_fts_char(c),
{
    crate::outside::is_alphanumeric_char(c)
}

/// Splits a text into lower-cased index tokens.
pub fn tokenize_fts(v: &Vec<char>) -> (r: Vec<Vec<char>>)
    ensures
        r.deep_view() == fts_tokens(v@),
{
    let mut r: Vec<Vec<char>> = Vec::new();
    let mut i: usize = 0;
    proof {
        assert(v@.subrange(0, v@.len() as int) =~= v@);
        assert(r.deep_view() + fts_tokens(v@) =~~= fts_tokens(v@));
    }
    while i < v.len()
        invariant
            i <= v@.len(),
            fts_tokens(v@) == r.deep_view() + fts_tokens(v@.subrange(i as int, v@.len() as int)),
        decreases v@.len() - i,
    {
        let ghost tail = v@.subrange(i as int, v@.len() as int);
        if !fts_char(v[i]) {
            proof {
                assert(tail.subrange(1, tail.len() as int) =~= v@.subrange(
                    i + 1,
                    v@.len() as int,
                ));
            }
            i = i + 1;
        } else {
            let start = i;
            let ghost k = fts_run(tail);
            proof {
                lemma_fts_run(tail);
            }
            let mut w: Vec<char> = Vec::new();
            while i < v.len() && fts_char(v[i])
                invariant
                    start <= i <= v@.len(),
                    start + k <= v@.len(),
                    tail == v@.subrange(start as int, v@.len() as int),
                    i <= start + k,
                    forall|j: int| 0 <= j < k ==> is_fts_char(#[trigger] tail[j]),
                    start + k < v@.len() ==> !is_fts_char(v@[start + k]),
                    w@ == lower_seq(v@.subrange(start as int, i as int)),
                decreases v@.len() - i,
            {
                proof {
                    if i - start < k {
                        assert(tail[i - start] == v@[i as int]);
                    } else {
                        assert(!is_fts_char(v@[i as int]));
                    }
                }
                w.push(crate::text::lower(v[i]));
                i = i + 1;
                proof {
                    assert(w@ =~= lower_seq(v@.subrange(start as int, i as int)));
                }
            }
            proof {
                if i < v.len() {
                    assert(i - start == k) by {
                        if i - start < k {
                            assert(tail[i - start] == v@[i as int]);
                        }
                    }
                } else {
                    assert(i - start == k);
                }
                assert(v@.subrange(start as int, i as int) =~= tail.subrange(0, k as int));
            }
            let ghost prev = r.deep_view();
            r.push(w);
            proof {
                assert(r.deep_view() =~~= prev + seq![w@]);
                assert(tail.subrange(k as int, tail.len() as int) =~= v@.subrange(
                    i as int,
                    v@.len() as int,
                ));
                assert(fts_tokens(v@) =~~= r.deep_view() + fts_tokens(
                    v@.subrange(i as int, v@.len() as int),
                ));
            }
        }
    }
    proof {
        assert(v@.subrange(v@.len() as int, v@.len() as int) =~= Seq::<char>::empty());
        assert(fts_tokens(v@) =~~= r.deep_view());
    }
    r
}

// ---------------------------------------------------------------------------
// Query terms
// ---------------------------------------------------------------------------

/// One quoted term: its words, and whether it is a prefix term.
#[derive(Debug)]
pub struct QueryTerm {
    pub words: Vec<Vec<char>>,
    pub prefix: bool,
}

pub open spec fn term_view(t: QueryTerm) -> (Seq<Seq<char>>, bool) {
    (t.words.deep_view(), t.prefix)
}

/// The quoted terms of a query, in order: the text between each pair of
/// quotes, tokenized, marked as a prefix term when a star follows the
/// closing quote.
pub open spec fn terms_spec(q: Seq<char>) -> Seq<(Seq<Seq<char>>, bool)>
    decreases q.len(),
    via terms_spec_decreases
{
    let a = crate::text::first_char_index(q, '"');
    if a == -1 {
        Seq::empty()
    } else {
        let rest1 = q.subrange(a + 1, q.len() as int);
        let b = crate::text::first_char_index(rest1, '"');
        if b == -1 {
            Seq::empty()
        } else {
            let phrase = rest1.subrange(0, b);
            let after = rest1.subrange(b + 1, rest1.len() as int);
            let prefix = after.len() > 0 && after[0] == '*';
            seq![(fts_tokens(phrase), prefix)] + terms_spec(after)
        }
    }
}

#[via_fn]
proof fn terms_spec_decreases(q: Seq<char>) {
    crate::text::lemma_first_char_index(q, '"');
    let a = crate::text::first_char_index(q, '"');
    if a != -1 {
        let rest1 = q.subrange(a + 1, q.len() as int);
        crate::text::lemma_first_char_index(rest1, '"');
    }
}

/// Parses the quoted terms of a query.
pub fn parse_terms(q: &Vec<char>) -> (r: Vec<QueryTerm>)
    ensures
        r@.map_values(|t: QueryTerm| term_view(t)) == terms_spec(q@),
{
    let mut r: Vec<QueryTerm> = Vec::new();
    let mut i: usize = 0;
    proof {
        assert(q@.subrange(0, q@.len() as int) =~= q@);
        assert(r@.map_values(|t: QueryTerm| term_view(t)) + terms_spec(q@) =~~= terms_spec(q@));
    }
    while i <= q.len()
        invariant
            i <= q@.len() + 1,
            i <= q@.len() || i == q@.len(),
            terms_spec(q@) == r@.map_values(|t: QueryTerm| term_view(t)) + terms_spec(
                q@.subrange(i as int, q@.len() as int),
            ),
        decreases q@.len() + 1 - i,
    {
        let ghost tail = q@.subrange(i as int, q@.len() as int);
        proof {
            crate::text::lemma_first_char_index(tail, '"');
        }
        let a = match crate::text::find_char_from(q, i, '"') {
            Some(x) => x,
            None => {
                proof {
                    assert(crate::text::first_char_index(tail, '"') == -1) by {
                        let f = crate::text::first_char_index(tail, '"');
                        if f != -1 {
                            assert(q@[i + f] == tail[f]);
                        }
                    }
                    assert(terms_spec(tail).len() == 0);
                    assert(terms_spec(q@) =~~= r@.map_values(|t: QueryTerm| term_view(t)));
                }
                return r;
            },
        };
        proof {
            assert(crate::text::first_char_index(tail, '"') == a - i) by {
                let f = crate::text::first_char_index(tail, '"');
                if f == -1 {
                    assert(tail[a - i] == q@[a as int]);
                } else {
                    if f < a - i {
                        assert(q@[i + f] == tail[f]);
                    }
                    if a - i < f {
                        assert(tail[a - i] == q@[a as int]);
                    }
                }
            }
        }
        let ghost rest1 = tail.subrange(a - i + 1, tail.len() as int);
        proof {
            assert(rest1 =~= q@.subrange(a + 1, q@.len() as int));
            crate::text::lemma_first_char_index(rest1, '"');
        }
        let b = match crate::text::find_char_from(q, a + 1, '"') {
            Some(x) => x,
            None => {
                proof {
                    assert(crate::text::first_char_index(rest1, '"') == -1) by {
                        let f = crate::text::first_char_index(rest1, '"');
                        if f != -1 {
                            assert(q@[a + 1 + f] == rest1[f]);
                        }
                    }
                    assert(terms_spec(tail).len() == 0);
                    assert(terms_spec(q@) =~~= r@.map_values(|t: QueryTerm| term_view(t)));
                }
                return r;
            },
        };
        proof {
            assert(crate::text::first_char_index(rest1, '"') == b - (a + 1)) by {
                let f = crate::text::first_char_index(rest1, '"');
                if f == -1 {
                    assert(rest1[b - (a + 1)] == q@[b as int]);
                } else {
                    if f < b - (a + 1) {
                        assert(q@[a + 1 + f] == rest1[f]);
                    }
                    if b - (a + 1) < f {
                        assert(rest1[b - (a + 1)] == q@[b as int]);
                    }
                }
            }
        }
        let phrase = slice_range(q, a + 1, b);
        let words = tokenize_fts(&phrase);
        let qn = q.len();
        let prefix = b + 1 < qn && q[b + 1] == '*';
        let ghost prev = r@.map_values(|t: QueryTerm| term_view(t));
        let term = QueryTerm { words, prefix };
        proof {
            assert(phrase@ =~= rest1.subrange(0, b - (a + 1)));
            assert(rest1.subrange(b - (a + 1) + 1, rest1.len() as int) =~= q@.subrange(
                b + 1,
                q@.len() as int,
            ));
            assert(term_view(term) == (fts_tokens(rest1.subrange(0, b - (a + 1))), ({
                let after = rest1.subrange(b - (a + 1) + 1, rest1.len() as int);
                after.len() > 0 && after[0] == '*'
            })));
        }
        r.push(term);
        proof {
            assert(r@.map_values(|t: QueryTerm| term_view(t)) =~~= prev + seq![
                term_view(r@.last()),
            ]);
            assert(terms_spec(q@) =~~= r@.map_values(|t: QueryTerm| term_view(t)) + terms_spec(
                q@.subrange(b + 1, q@.len() as int),
            ));
        }
        i = b + 1;
    }
    proof {
        let tail = q@.subrange(q@.len() as int, q@.len() as int);
        crate::text::lemma_first_char_index(tail, '"');
        if crate::text::first_char_index(tail, '"') != -1 {
            assert(tail[crate::text::first_char_index(tail, '"')] == '"');
        }
        assert(terms_spec(q@) =~~= r@.map_values(|t: QueryTerm| term_view(t)));
    }
    r
}

// ---------------------------------------------------------------------------
// Matching
// ---------------------------------------------------------------------------

/// Whether a term's words sit consecutively in the tokens at `pos`: all but
/// the last word must be equal, and the last equal — or a prefix of the
/// token, for a prefix term.
pub open spec fn term_matches_at(
    tokens: Seq<Seq<char>>,
    words: Seq<Seq<char>>,
    prefix: bool,
    pos: int,
) -> bool {
    &&& words.len() > 0
    &&& 0 <= pos
    &&& pos + words.len() <= tokens.len()
    &&& forall|k: int| 0 <= k < words.len() - 1 ==> #[trigger] tokens[pos + k] == words[k]
    &&& if prefix {
        crate::text::starts_with_spec(tokens[pos + words.len() - 1], words[words.len() - 1])
    } else {
        tokens[pos + words.len() - 1] == words[words.len() - 1]
    }
}

/// How many positions in `[0, p)` the term matches at.
pub open spec fn occurrences_upto(
    tokens: Seq<Seq<char>>,
    words: Seq<Seq<char>>,
    prefix: bool,
    p: int,
) -> int
    decreases p,
{
    if p <= 0 {
        0
    } else {
        occurrences_upto(tokens, words, prefix, p - 1) + if term_matches_at(
            tokens,
            words,
            prefix,
            p - 1,
        ) {
            1int
        } else {
            0int
        }
    }
}

/// A term's occurrence count over all positions.
pub open spec fn term_occurrences(
    tokens: Seq<Seq<char>>,
    words: Seq<Seq<char>>,
    prefix: bool,
) -> int {
    occurrences_upto(tokens, words, prefix, tokens.len() as int)
}

proof fn lemma_occurrences_nonneg(
    tokens: Seq<Seq<char>>,
    words: Seq<Seq<char>>,
    prefix: bool,
    p: int,
)
    ensures
        0 <= occurrences_upto(tokens, words, prefix, p) <= if p >= 0 {
            p
        } else {
            0
        },
    decreases p,
{
    if p > 0 {
        lemma_occurrences_nonneg(tokens, words, prefix, p - 1);
    }
}

/// Counts a term's occurrences in a token list.
fn count_occurrences(tokens: &Vec<Vec<char>>, term: &QueryTerm) -> (r: u64)
    ensures
        r == term_occurrences(tokens.deep_view(), term.words.deep_view(), term.prefix),
{
    let ghost toks = tokens.deep_view();
    let ghost ws = term.words.deep_view();
    if term.words.len() == 0 {
        proof {
            lemma_occurrences_nonneg(toks, ws, term.prefix, toks.len() as int);
            lemma_occ_zero_words(toks, ws, term.prefix, toks.len() as int);
        }
        return 0;
    }
    let n = tokens.len();
    let wn = term.words.len();
    let mut count: u64 = 0;
    let mut p: usize = 0;
    proof {
        lemma_occurrences_nonneg(toks, ws, term.prefix, toks.len() as int);
    }
    while p < n
        invariant
            toks == tokens.deep_view(),
            ws == term.words.deep_view(),
            n == toks.len(),
            wn == ws.len(),
            wn > 0,
            p <= n,
            count == occurrences_upto(toks, ws, term.prefix, p as int),
            count <= p,
        decreases n - p,
    {
        let matched = check_term_at(tokens, term, p);
        if matched {
            count = count + 1;
        }
        p = p + 1;
    }
    count
}

proof fn lemma_occ_zero_words(tokens: Seq<Seq<char>>, words: Seq<Seq<char>>, prefix: bool, p: int)
    requires
        words.len() == 0,
    ensures
        occurrences_upto(tokens, words, prefix, p) == 0,
    decreases p,
{
    if p > 0 {
        lemma_occ_zero_words(tokens, words, prefix, p - 1);
    }
}

/// Whether a term matches at one position.
fn check_term_at(tokens: &Vec<Vec<char>>, term: &QueryTerm, pos: usize) -> (r: bool)
    requires
        term.words@.len() > 0,
    ensures
        r == term_matches_at(
            tokens.deep_view(),
            term.words.deep_view(),
            term.prefix,
            pos as int,
        ),
{
    let ghost toks = tokens.deep_view();
    let ghost ws = term.words.deep_view();
    let wn = term.words.len();
    let n = tokens.len();
    if pos > n || n - pos < wn {
        proof {
            assert(!term_matches_at(toks, ws, term.prefix, pos as int));
        }
        return false;
    }
    let mut k: usize = 0;
    while k + 1 < wn
        invariant
            toks == tokens.deep_view(),
            ws == term.words.deep_view(),
            wn == ws.len(),
            n == toks.len(),
            pos + wn <= n,
            k < wn,
            forall|t: int| 0 <= t < k ==> #[trigger] toks[pos + t] == ws[t],
        decreases wn - k,
    {
        proof {
            assert(toks[pos + k] == tokens@[pos + k]@);
            assert(ws[k as int] == term.words@[k as int]@);
        }
        if !eq_chars(&tokens[pos + k], &term.words[k]) {
            proof {
                assert(toks[pos + k] != ws[k as int]);
            }
            return false;
        }
        k = k + 1;
    }
    proof {
        assert(toks[pos + wn - 1] == tokens@[pos + wn - 1]@);
        assert(ws[wn - 1] == term.words@[wn - 1]@);
    }
    let last_ok = if term.prefix {
        crate::text::starts_with(&tokens[pos + wn - 1], &term.words[wn - 1])
    } else {
        eq_chars(&tokens[pos + wn - 1], &term.words[wn - 1])
    };
    last_ok
}

// ---------------------------------------------------------------------------
// Row matching and the index search
// ---------------------------------------------------------------------------

/// The searchable text of a mirror row: name, content and file path.
pub open spec fn row_text_spec(row: FtsRow) -> Seq<char> {
    row.name@ + " "@ + row.content@ + (match row.file_path {
        Some(p) => " "@ + p@,
        None => Seq::<char>::empty(),
    })
}

/// A row's rank for a term list: the sum of the terms' occurrence counts in
/// its tokens.
pub open spec fn row_rank(
    tokens: Seq<Seq<char>>,
    terms: Seq<(Seq<Seq<char>>, bool)>,
    i: int,
) -> int
    decreases i,
{
    if i <= 0 {
        0
    } else {
        row_rank(tokens, terms, i - 1) + term_occurrences(tokens, terms[i - 1].0, terms[i - 1].1)
    }
}

/// Whether a row answers the query: under OR some term occurs, otherwise
/// every term occurs (and there is at least one).
pub open spec fn row_matches(
    tokens: Seq<Seq<char>>,
    terms: Seq<(Seq<Seq<char>>, bool)>,
    is_or: bool,
) -> bool {
    if is_or {
        exists|t: int|
            0 <= t < terms.len() && term_occurrences(
                tokens,
                (#[trigger] terms[t]).0,
                terms[t].1,
            ) > 0
    } else {
        terms.len() > 0 && forall|t: int|
            0 <= t < terms.len() ==> term_occurrences(
                tokens,
                (#[trigger] terms[t]).0,
                terms[t].1,
            ) > 0
    }
}

/// The matching rows joined with their nodes, in row order, each with its
/// rank.
pub open spec fn fts_hits(
    rows: Seq<FtsRow>,
    nodes: Seq<Node>,
    terms: Seq<(Seq<Seq<char>>, bool)>,
    is_or: bool,
    pid: Seq<char>,
) -> Seq<(Node, u64)>
    decreases rows.len(),
{
    if rows.len() == 0 {
        Seq::empty()
    } else {
        let rest = fts_hits(rows.subrange(1, rows.len() as int), nodes, terms, is_or, pid);
        let tokens = fts_tokens(row_text_spec(rows[0]));
        if rows[0].project_id@ == pid && row_matches(tokens, terms, is_or) {
            match crate::graph_queries::find_node_by_id(nodes, rows[0].node_id@) {
                Some(n) => {
                    let rank = row_rank(tokens, terms, terms.len() as int);
                    let rank64: u64 = if rank > 0xffff_ffff_ffff_ffff {
                        0xffff_ffff_ffff_ffff as u64
                    } else {
                        rank as u64
                    };
                    seq![(n, rank64)] + rest
                },
                None => rest,
            }
        } else {
            rest
        }
    }
}

/// Whether the query joins its terms with OR.
pub open spec fn is_or_query(q: Seq<char>) -> bool {
    contains_seq(q, " OR "@)
}

/// Stable insertion into a rank-descending pair list.
pub open spec fn insert_pair_spec(s: Seq<(Node, u64)>, x: (Node, u64)) -> Seq<(Node, u64)>
    decreases s.len(),
{
    if s.len() == 0 {
        seq![x]
    } else if x.1 > s[0].1 {
        seq![x] + s
    } else {
        seq![s[0]] + insert_pair_spec(s.subrange(1, s.len() as int), x)
    }
}

/// Stable sort of (node, rank) pairs, best rank first.
pub open spec fn sort_pairs_spec(s: Seq<(Node, u64)>) -> Seq<(Node, u64)>
    decreases s.len(),
{
    if s.len() == 0 {
        Seq::empty()
    } else {
        insert_pair_spec(sort_pairs_spec(s.drop_last()), s.last())
    }
}

fn do_insert_pair(r: &mut Vec<(Node, u64)>, x: (Node, u64))
    ensures
        final(r)@ == insert_pair_spec(old(r)@, x),
{
    let n = r.len();
    let mut i: usize = 0;
    proof {
        assert(r@.subrange(0, 0).len() == 0);
        assert(r@.subrange(0, n as int) =~= r@);
        assert(r@.subrange(0, 0) + insert_pair_spec(r@, x) =~= insert_pair_spec(r@, x));
    }
    while i < n
        invariant
            n == r@.len(),
            r@ == old(r)@,
            i <= n,
            insert_pair_spec(r@, x) == r@.subrange(0, i as int) + insert_pair_spec(
                r@.subrange(i as int, n as int),
                x,
            ),
        decreases n - i,
    {
        let ghost tail = r@.subrange(i as int, n as int);
        proof {
            assert(tail[0] == r@[i as int]);
            assert(tail.subrange(1, tail.len() as int) =~= r@.subrange(i + 1, n as int));
        }
        if x.1 > r[i].1 {
            proof {
                assert(insert_pair_spec(tail, x) == seq![x] + tail);
            }
            r.insert(i, x);
            proof {
                assert(r@ =~= old(r)@.subrange(0, i as int) + (seq![x] + tail));
            }
            return ;
        }
        proof {
            assert(insert_pair_spec(tail, x) == seq![r@[i as int]] + insert_pair_spec(
                r@.subrange(i + 1, n as int),
                x,
            ));
            assert(r@.subrange(0, i as int) + (seq![r@[i as int]] + insert_pair_spec(
                r@.subrange(i + 1, n as int),
                x,
            )) =~~= r@.subrange(0, i + 1) + insert_pair_spec(r@.subrange(i + 1, n as int), x));
        }
        i = i + 1;
    }
    proof {
        assert(r@.subrange(i as int, n as int).len() == 0);
        assert(insert_pair_spec(r@.subrange(i as int, n as int), x) == seq![x]);
    }
    r.push(x);
    proof {
        assert(r@ =~= old(r)@.subrange(0, n as int) + seq![x]);
        assert(old(r)@.subrange(0, n as int) =~= old(r)@);
    }
}

/// What the index search returns: the matching rows' nodes and ranks, best
/// rank first, at most `limit` of them.
pub open spec fn fts_search_spec(g: KnowledgeGraph, q: Seq<char>, limit: int) -> Seq<(Node, u64)> {
    let hits = fts_hits(g.fts@, g.nodes@, terms_spec(q), is_or_query(q), g.spec_project_id());
    let ranked = sort_pairs_spec(hits);
    if ranked.len() <= limit {
        ranked
    } else {
        ranked.subrange(0, limit)
    }
}

impl KnowledgeGraph {
    /// Runs a quoted-term query against the full-text rows of this project:
    /// each matching row's node, with the number of term occurrences as its
    /// rank, best first, `limit` at most.
    pub fn fts_search(&self, query: &str, limit: usize) -> (r: Vec<(Node, u64)>)
        ensures
            r@ == fts_search_spec(*self, query@, limit as int),
    {
        let qv = chars_of(query);
        let terms = parse_terms(&qv);
        let ghost termsv = terms_spec(query@);
        proof {
            reveal_strlit(" OR ");
        }
        let is_or = crate::text::contains_sub(&qv, &chars_of(" OR "));
        let ghost pid = self.spec_project_id();
        let mut hits: Vec<(Node, u64)> = Vec::new();
        let mut i: usize = 0;
        proof {
            assert(self.fts@.subrange(0, self.fts@.len() as int) =~= self.fts@);
            assert(hits@ + fts_hits(self.fts@, self.nodes@, termsv, is_or_query(query@), pid)
                =~= fts_hits(self.fts@, self.nodes@, termsv, is_or_query(query@), pid));
        }
        while i < self.fts.len()
            invariant
                termsv == terms_spec(query@),
                terms@.map_values(|t: QueryTerm| term_view(t)) == termsv,
                is_or == is_or_query(query@),
                pid == self.spec_project_id(),
                i <= self.fts@.len(),
                fts_hits(self.fts@, self.nodes@, termsv, is_or_query(query@), pid) == hits@
                    + fts_hits(
                    self.fts@.subrange(i as int, self.fts@.len() as int),
                    self.nodes@,
                    termsv,
                    is_or_query(query@),
                    pid,
                ),
            decreases self.fts@.len() - i,
        {
            let ghost tail = self.fts@.subrange(i as int, self.fts@.len() as int);
            proof {
                assert(tail[0] == self.fts@[i as int]);
                assert(tail.subrange(1, tail.len() as int) =~= self.fts@.subrange(
                    i + 1,
                    self.fts@.len() as int,
                ));
            }
            let row = &self.fts[i];
            if row.project_id == self.project_id {
                let mut textv = chars_of(row.name.as_str());
                crate::text::append_chars(&mut textv, &chars_of(" "));
                crate::text::append_chars(&mut textv, &chars_of(row.content.as_str()));
                match &row.file_path {
                    Some(p) => {
                        crate::text::append_chars(&mut textv, &chars_of(" "));
                        crate::text::append_chars(&mut textv, &chars_of(p.as_str()));
                    },
                    None => {},
                }
                proof {
                    assert(textv@ =~= row_text_spec(self.fts@[i as int]));
                }
                let tokens = tokenize_fts(&textv);
                let ghost toks = fts_tokens(row_text_spec(self.fts@[i as int]));
                let tn = tokens.len();
                proof {
                    assert(tokens.deep_view().len() == tokens@.len());
                }
                // Count each term's occurrences and decide the match.
                let mut rank: u64 = 0;
                let mut all_matched = true;
                let mut any_matched = false;
                let mut t: usize = 0;
                while t < terms.len()
                    invariant
                        toks == tokens.deep_view(),
                        termsv == terms@.map_values(|tv: QueryTerm| term_view(tv)),
                        t <= terms@.len(),
                        rank as int == ({
                            let rr = row_rank(toks, termsv, t as int);
                            if rr > 0xffff_ffff_ffff_ffff {
                                0xffff_ffff_ffff_ffff as int
                            } else {
                                rr
                            }
                        }),
                        all_matched == (forall|u: int|
                            0 <= u < t ==> term_occurrences(
                                toks,
                                (#[trigger] termsv[u]).0,
                                termsv[u].1,
                            ) > 0),
                        any_matched == (exists|u: int|
                            0 <= u < t && term_occurrences(
                                toks,
                                (#[trigger] termsv[u]).0,
                                termsv[u].1,
                            ) > 0),
                    decreases terms@.len() - t,
                {
                    proof {
                        assert(termsv[t as int] == term_view(terms@[t as int]));
                        lemma_occurrences_nonneg(
                            toks,
                            terms@[t as int].words.deep_view(),
                            terms@[t as int].prefix,
                            toks.len() as int,
                        );
                        lemma_rank_nonneg(toks, termsv, t as int);
                    }
                    let occ = count_occurrences(&tokens, &terms[t]);
                    if occ == 0 {
                        all_matched = false;
                    } else {
                        any_matched = true;
                    }
                    rank = if rank <= u64::MAX - occ {
                        rank + occ
                    } else {
                        u64::MAX
                    };
                    t = t + 1;
                }
                let matched = if is_or {
                    any_matched
                } else {
                    terms.len() > 0 && all_matched
                };
                proof {
                    assert(matched == row_matches(toks, termsv, is_or_query(query@)));
                }
                if matched {
                    match self.lookup_node(&row.node_id) {
                        Some(node) => {
                            let ghost prev = hits@;
                            hits.push((node, rank));
                            proof {
                                assert(hits@ =~= prev + seq![hits@.last()]);
                                assert(fts_hits(
                                    self.fts@,
                                    self.nodes@,
                                    termsv,
                                    is_or_query(query@),
                                    pid,
                                ) =~= hits@ + fts_hits(
                                    self.fts@.subrange(i + 1, self.fts@.len() as int),
                                    self.nodes@,
                                    termsv,
                                    is_or_query(query@),
                                    pid,
                                ));
                            }
                        },
                        None => {},
                    }
                }
            }
            i = i + 1;
        }
        proof {
            assert(self.fts@.subrange(self.fts@.len() as int, self.fts@.len() as int).len() == 0);
            assert(hits@ =~= fts_hits(self.fts@, self.nodes@, termsv, is_or_query(query@), pid));
        }
        // Sort by rank, best first, and cap.
        let ghost hitsv = hits@;
        let mut ranked: Vec<(Node, u64)> = Vec::new();
        let mut j: usize = 0;
        while j < hits.len()
            invariant
                hitsv == hits@,
                j <= hits@.len(),
                ranked@ == sort_pairs_spec(hits@.subrange(0, j as int)),
            decreases hits@.len() - j,
        {
            proof {
                assert(hits@.subrange(0, j + 1).drop_last() =~= hits@.subrange(0, j as int));
                assert(hits@.subrange(0, j + 1).last() == hits@[j as int]);
            }
            let pair = (hits[j].0.clone(), hits[j].1);
            proof {
                assert(pair == hits@[j as int]);
            }
            do_insert_pair(&mut ranked, pair);
            j = j + 1;
        }
        proof {
            assert(hits@.subrange(0, hits@.len() as int) =~= hits@);
        }
        if ranked.len() > limit {
            ranked.truncate(limit);
            proof {
                assert(ranked@ =~= fts_search_spec(*self, query@, limit as int));
            }
        } else {
            proof {
                assert(ranked@ =~= fts_search_spec(*self, query@, limit as int));
            }
        }
        ranked
    }
}

proof fn lemma_rank_nonneg(tokens: Seq<Seq<char>>, terms: Seq<(Seq<Seq<char>>, bool)>, i: int)
    ensures
        row_rank(tokens, terms, i) >= 0,
    decreases i,
{
    if i > 0 {
        lemma_rank_nonneg(tokens, terms, i - 1);
        lemma_occurrences_nonneg(tokens, terms[i - 1].0, terms[i - 1].1, tokens.len() as int);
    }
}

// ---------------------------------------------------------------------------
// The tier: three query strategies
// ---------------------------------------------------------------------------

/// The connective words FTS reserves, dropped from user queries.
pub open spec fn is_operator_word(w: Seq<char>) -> bool {
    lower_seq(w) == "and"@ || lower_seq(w) == "or"@ || lower_seq(w) == "not"@ || lower_seq(w)
        == "near"@
}

/// Whether a word is one of the reserved connectives, whatever its case.
pub fn is_fts_operator(word: &Vec<char>) -> (r: bool)
    ensures
        r == is_operator_word(word@),
{
    let l = crate::text::lower_all(word);
    eq_chars(&l, &chars_of("and")) || eq_chars(&l, &chars_of("or")) || eq_chars(
        &l,
        &chars_of("not"),
    ) || eq_chars(&l, &chars_of("near"))
}

/// The words the tier searches for: white-space words with the connectives
/// dropped, the first ten kept.
pub open spec fn meaningful_words(q: Seq<char>) -> Seq<Seq<char>> {
    let kept = words_of(q).filter(|w: Seq<char>| !is_operator_word(w));
    if kept.len() <= 10 {
        kept
    } else {
        kept.subrange(0, 10)
    }
}

/// Splits the query into its meaningful words.
pub fn query_words(query: &str) -> (r: Vec<Vec<char>>)
    ensures
        r.deep_view() == meaningful_words(query@),
{
    let ghost pred = |w: Seq<char>| !is_operator_word(w);
    let qv = chars_of(query);
    let words = crate::text::split_words(&qv);
    let mut kept: Vec<Vec<char>> = Vec::new();
    let mut i: usize = 0;
    proof {
        crate::graph_queries::lemma_filter_empty(pred);
        assert(words.deep_view().subrange(0, 0) =~= Seq::<Seq<char>>::empty());
        assert(words.deep_view().len() == words@.len());
    }
    while i < words.len()
        invariant
            pred == (|w: Seq<char>| !is_operator_word(w)),
            words.deep_view() == words_of(query@),
            words.deep_view().len() == words@.len(),
            i <= words@.len(),
            kept.deep_view() == words.deep_view().subrange(0, i as int).filter(pred),
            kept@.len() <= i,
        decreases words@.len() - i,
    {
        proof {
            crate::graph_queries::lemma_filter_step(words.deep_view(), i as int, pred);
            assert(words.deep_view()[i as int] == words@[i as int]@);
        }
        if !is_fts_operator(&words[i]) {
            let ghost prev = kept.deep_view();
            let w = slice_range(&words[i], 0, words[i].len());
            proof {
                assert(w@ =~= words@[i as int]@);
            }
            kept.push(w);
            proof {
                assert(kept.deep_view() =~~= prev + seq![w@]);
            }
        } else {
            proof {
                assert(kept.deep_view() =~~= words.deep_view().subrange(0, i + 1).filter(pred));
            }
        }
        i = i + 1;
    }
    proof {
        assert(words.deep_view().subrange(0, words.deep_view().len() as int)
            =~= words.deep_view());
    }
    if kept.len() > 10 {
        kept.truncate(10);
        proof {
            assert(kept.deep_view() =~~= meaningful_words(query@));
        }
    } else {
        proof {
            assert(kept.deep_view() =~~= meaningful_words(query@));
        }
    }
    kept
}

/// An occurrence rank normalized into a thousandths score: a rank of zero
/// is neutral at 500, and more occurrences approach 1000 from below without
/// reaching it, keeping scores inside the unit scale.
pub open spec fn normalize_rank_spec(rank: int) -> int {
    if rank <= 0 {
        500
    } else {
        1000 * rank / (1 + rank)
    }
}

/// Normalizes an occurrence rank into a thousandths score.
pub fn normalize_bm25_score(rank: u64) -> (r: u64)
    ensures
        r == normalize_rank_spec(rank as int),
        500 <= r < 1000,
{
    if rank == 0 {
        500
    } else {
        let d: u128 = 1000 * (rank as u128) / ((rank as u128) + 1);
        proof {
            assert(500 <= 1000 * (rank as int) / (1 + rank as int) < 1000) by (nonlinear_arith)
                requires
                    rank >= 1,
            ;
        }
        d as u64
    }
}

/// The query text that joins each word as its own quoted term, with the
/// separator between terms and an optional star suffix on each.
pub open spec fn quoted_join_from(
    words: Seq<Seq<char>>,
    sep: Seq<char>,
    star: bool,
    i: int,
) -> Seq<char>
    decreases words.len() - i when 0 <= i <= words.len()
{
    if i >= words.len() {
        Seq::empty()
    } else {
        (if i > 0 {
            sep
        } else {
            Seq::<char>::empty()
        }) + seq!['"'] + words[i] + seq!['"'] + (if star {
            seq!['*']
        } else {
            Seq::<char>::empty()
        }) + quoted_join_from(words, sep, star, i + 1)
    }
}

pub open spec fn quoted_join(words: Seq<Seq<char>>, sep: Seq<char>, star: bool) -> Seq<char> {
    quoted_join_from(words, sep, star, 0)
}

/// The query text of one quoted phrase holding all the words,
/// space-separated.
pub open spec fn phrase_from(words: Seq<Seq<char>>, i: int) -> Seq<char>
    decreases words.len() - i when 0 <= i <= words.len()
{
    if i >= words.len() {
        Seq::empty()
    } else {
        (if i > 0 {
            seq![' ']
        } else {
            Seq::<char>::empty()
        }) + words[i] + phrase_from(words, i + 1)
    }
}

pub open spec fn phrase_query(words: Seq<Seq<char>>) -> Seq<char> {
    seq!['"'] + phrase_from(words, 0) + seq!['"']
}

/// A quoted query built from words: the words joined by the separator, each
/// wrapped in quotes with the given suffix.
fn build_quoted(words: &Vec<Vec<char>>, sep: &str, star: bool) -> (q: Vec<char>)
    ensures
        q@ == quoted_join(words.deep_view(), sep@, star),
{
    let ghost ws = words.deep_view();
    let mut q: Vec<char> = Vec::new();
    let mut i: usize = 0;
    proof {
        assert(q@ + quoted_join_from(ws, sep@, star, 0) =~= quoted_join_from(ws, sep@, star, 0));
    }
    while i < words.len()
        invariant
            ws == words.deep_view(),
            i <= ws.len(),
            quoted_join(ws, sep@, star) == q@ + quoted_join_from(ws, sep@, star, i as int),
        decreases words@.len() - i,
    {
        if i > 0 {
            crate::text::append_chars(&mut q, &chars_of(sep));
        }
        q.push('"');
        crate::text::append_chars(&mut q, &words[i]);
        q.push('"');
        if star {
            q.push('*');
        }
        proof {
            assert(ws[i as int] == words@[i as int]@);
            assert(quoted_join(ws, sep@, star) =~= q@ + quoted_join_from(
                ws,
                sep@,
                star,
                i + 1,
            ));
        }
        i = i + 1;
    }
    proof {
        assert(quoted_join(ws, sep@, star) =~= q@);
    }
    q
}

/// A single quoted phrase of all the words.
fn build_phrase(words: &Vec<Vec<char>>) -> (q: Vec<char>)
    ensures
        q@ == phrase_query(words.deep_view()),
{
    let ghost ws = words.deep_view();
    let mut q: Vec<char> = Vec::new();
    q.push('"');
    let mut i: usize = 0;
    proof {
        assert(q@ =~= seq!['"'] + phrase_from(ws, 0).subrange(0, 0));
        assert(q@ + phrase_from(ws, 0) =~= seq!['"'] + phrase_from(ws, 0));
    }
    while i < words.len()
        invariant
            ws == words.deep_view(),
            i <= ws.len(),
            seq!['"'] + phrase_from(ws, 0) == q@ + phrase_from(ws, i as int),
        decreases words@.len() - i,
    {
        if i > 0 {
            q.push(' ');
        }
        crate::text::append_chars(&mut q, &words[i]);
        proof {
            assert(ws[i as int] == words@[i as int]@);
            assert(seq!['"'] + phrase_from(ws, 0) =~= q@ + phrase_from(ws, i + 1));
        }
        i = i + 1;
    }
    q.push('"');
    proof {
        assert(q@ =~= phrase_query(ws));
    }
    q
}

/// Turns index hits into tier candidates with normalized scores.
fn to_search_results(raw: Vec<(Node, u64)>) -> (r: Vec<SearchResult>)
    ensures
        r@.len() == raw@.len(),
        forall|j: int|
            0 <= j < raw@.len() ==> (#[trigger] r@[j]).node == raw@[j].0 && r@[j].score
                == normalize_rank_spec(raw@[j].1 as int) && r@[j].tier == SearchTier::L1Fts && 500
                <= r@[j].score < 1000 && r@[j].matched_content is None,
{
    let mut r: Vec<SearchResult> = Vec::new();
    let mut i: usize = 0;
    while i < raw.len()
        invariant
            i <= raw@.len(),
            r@.len() == i,
            forall|j: int|
                0 <= j < i ==> (#[trigger] r@[j]).node == raw@[j].0 && r@[j].score
                    == normalize_rank_spec(raw@[j].1 as int) && r@[j].tier == SearchTier::L1Fts
                    && 500 <= r@[j].score < 1000 && r@[j].matched_content is None,
        decreases raw@.len() - i,
    {
        let score = normalize_bm25_score(raw[i].1);
        r.push(
            SearchResult {
                node: raw[i].0.clone(),
                score,
                tier: SearchTier::L1Fts,
                matched_content: None,
            },
        );
        i = i + 1;
    }
    r
}

/// What the hit pairs of one strategy normalize to.
pub open spec fn normalized_results(raw: Seq<(Node, u64)>) -> Seq<SearchResult> {
    raw.map_values(
        |p: (Node, u64)|
            SearchResult {
                node: p.0,
                score: normalize_rank_spec(p.1 as int) as u64,
                tier: SearchTier::L1Fts,
                matched_content: None,
            },
    )
}

/// The whole full-text tier as a function of the store and the query:
/// nothing without meaningful words; one word runs as a single quoted term;
/// several words settle on the first of exact phrase, prefix conjunction
/// and disjunction to reach three hits.
pub open spec fn fts_tier_spec(g: KnowledgeGraph, q: Seq<char>) -> Seq<SearchResult> {
    let w = meaningful_words(q);
    if w.len() == 0 {
        Seq::empty()
    } else if w.len() == 1 {
        normalized_results(fts_search_spec(g, quoted_join(w, " AND "@, false), 20))
    } else {
        let s1 = fts_search_spec(g, phrase_query(w), 20);
        if s1.len() >= 3 {
            normalized_results(s1)
        } else {
            let s2 = fts_search_spec(g, quoted_join(w, " AND "@, true), 20);
            if s2.len() >= 3 {
                normalized_results(s2)
            } else {
                normalized_results(fts_search_spec(g, quoted_join(w, " OR "@, false), 20))
            }
        }
    }
}

/// The full-text tier: nothing for a query with no meaningful words; a
/// single word runs as one quoted term; several words try an exact phrase,
/// then a conjunction of prefix terms, then a disjunction, settling on the
/// first strategy with at least three hits. Scores are normalized ranks.
pub fn fts_search(graph: &KnowledgeGraph, query: &str) -> (r: Vec<SearchResult>)
    ensures
        r@ == fts_tier_spec(*graph, query@),
        meaningful_words(query@).len() == 0 ==> r@.len() == 0,
        forall|j: int| 0 <= j < r@.len() ==> (#[trigger] r@[j]).tier == SearchTier::L1Fts,
        forall|j: int| 0 <= j < r@.len() ==> 500 <= (#[trigger] r@[j]).score < 1000,
{
    let words = query_words(query);
    proof {
        assert(words.deep_view().len() == words@.len());
    }
    if words.len() == 0 {
        let r: Vec<SearchResult> = Vec::new();
        return r;
    }
    if words.len() == 1 {
        let q = build_quoted(&words, " AND ", false);
        let hits = graph.fts_search(crate::text::string_of(&q).as_str(), 20);
        let r = to_search_results(hits);
        proof {
            assert(r@ =~~= fts_tier_spec(*graph, query@));
        }
        return r;
    }
    let phrase = build_phrase(&words);
    let s1 = graph.fts_search(crate::text::string_of(&phrase).as_str(), 20);
    if s1.len() >= 3 {
        let r = to_search_results(s1);
        proof {
            assert(r@ =~~= fts_tier_spec(*graph, query@));
        }
        return r;
    }
    let andq = build_quoted(&words, " AND ", true);
    let s2 = graph.fts_search(crate::text::string_of(&andq).as_str(), 20);
    if s2.len() >= 3 {
        let r = to_search_results(s2);
        proof {
            assert(r@ =~~= fts_tier_spec(*graph, query@));
        }
        return r;
    }
    let orq = build_quoted(&words, " OR ", false);
    let s3 = graph.fts_search(crate::text::string_of(&orq).as_str(), 20);
    let r = to_search_results(s3);
    proof {
        assert(r@ =~~= fts_tier_spec(*graph, query@));
    }
    r
}

} // verus!
