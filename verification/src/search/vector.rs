//! The local vector tier: a hashed bag-of-words in 256 buckets. Token
//! counts are folded into buckets by a 64-bit FNV-1a hash; similarity is the
//! cosine of the two count vectors, held in thousandths and floored at 200.

use crate::graph::{KnowledgeGraph, Node};
use crate::search::{SearchResult, SearchTier, sort_results, sort_results_spec};
use vstd::prelude::*;

verus! {

/// Characters that form vector tokens: alphanumerics and the underscore.
pub open spec fn is_token_char(c: char) -> bool {
    crate::outside::unicode_alnum(c) || c == '_'
}

/// Length of the leading run of token characters.
pub open spec fn token_run(s: Seq<char>) -> nat
    decreases s.len(),
{
    if s.len() == 0 || !is_token_char(s[0]) {
        0
    } else {
        1 + token_run(s.subrange(1, s.len() as int))
    }
}

pub proof fn lemma_token_run(s: Seq<char>)
    ensures
        token_run(s) <= s.len(),
        forall|j: int| 0 <= j < token_run(s) ==> is_token_char(#[trigger] s[j]),
        token_run(s) < s.len() ==> !is_token_char(s[token_run(s) as int]),
    decreases s.len(),
{
    if s.len() > 0 && is_token_char(s[0]) {
        let t = s.subrange(1, s.len() as int);
        lemma_token_run(t);
        assert forall|j: int| 0 <= j < token_run(s) implies is_token_char(#[trigger] s[j]) by {
            if j >= 1 {
                assert(s[j] == t[j - 1]);
            }
        }
        if token_run(s) < s.len() {
            assert(s[token_run(s) as int] == t[token_run(t) as int]);
        }
    }
}

/// The tokens of a text: maximal runs of token characters, lower-cased, of
/// length at least two.
pub open spec fn vec_tokens(s: Seq<char>) -> Seq<Seq<char>>
    decreases s.len(),
    via vec_tokens_decreases
{
    if s.len() == 0 {
        Seq::empty()
    } else if !is_token_char(s[0]) {
        vec_tokens(s.subrange(1, s.len() as int))
    } else {
        let k = token_run(s);
        let head: Seq<Seq<char>> = if k > 1 {
            seq![crate::text::lower_seq(s.subrange(0, k as int))]
        } else {
            Seq::empty()
        };
        head + vec_tokens(s.subrange(k as int, s.len() as int))
    }
}

#[via_fn]
proof fn vec_tokens_decreases(s: Seq<char>) {
    lemma_token_run(s);
}

/// Executable token-character test.
pub fn token_char(c: char) -> (r: bool)
    ensures
        r == is_token_char(c),
{
    crate::outside::is_alphanumeric_char(c) || c == '_'
}

/// Splits into lower-cased tokens of length at least two.
pub fn tokenize(v: &Vec<char>) -> (r: Vec<Vec<char>>)
    ensures
        r.deep_view() == vec_tokens(v@),
{
    let mut r: Vec<Vec<char>> = Vec::new();
    let mut i: usize = 0;
    proof {
        assert(v@.subrange(0, v@.len() as int) =~= v@);
        assert(r.deep_view() + vec_tokens(v@) =~~= vec_tokens(v@));
    }
    while i < v.len()
        invariant
            i <= v@.len(),
            vec_tokens(v@) == r.deep_view() + vec_tokens(v@.subrange(i as int, v@.len() as int)),
        decreases v@.len() - i,
    {
        let ghost tail = v@.subrange(i as int, v@.len() as int);
        if !token_char(v[i]) {
            proof {
                assert(tail.subrange(1, tail.len() as int) =~= v@.subrange(
                    i + 1,
                    v@.len() as int,
                ));
            }
            i = i + 1;
        } else {
            let start = i;
            let ghost k = token_run(tail);
            proof {
                lemma_token_run(tail);
            }
            let mut w: Vec<char> = Vec::new();
            while i < v.len() && token_char(v[i])
                invariant
                    start <= i <= v@.len(),
                    start + k <= v@.len(),
                    tail == v@.subrange(start as int, v@.len() as int),
                    i <= start + k,
                    forall|j: int| 0 <= j < k ==> is_token_char(#[trigger] tail[j]),
                    start + k < v@.len() ==> !is_token_char(v@[start + k]),
                    w@ == crate::text::lower_seq(v@.subrange(start as int, i as int)),
                decreases v@.len() - i,
            {
                proof {
                    if i - start < k {
                        assert(tail[i - start] == v@[i as int]);
                    } else {
                        assert(!is_token_char(v@[i as int]));
                    }
                }
                w.push(crate::text::lower(v[i]));
                i = i + 1;
                proof {
                    assert(w@ =~= crate::text::lower_seq(v@.subrange(start as int, i as int)));
                }
            }
            proof {
                if i < v.len() {
                    assert(i - start == k) by {
                        if i - start < k {
                            assert(tail[i - start] == v@[i as int]);
                        }
                    }
                } else {
                    assert(i - start == k);
                }
                assert(v@.subrange(start as int, i as int) =~= tail.subrange(0, k as int));
            }
            if w.len() > 1 {
                let ghost prev = r.deep_view();
                r.push(w);
                proof {
                    assert(r.deep_view() =~~= prev + seq![w@]);
                }
            }
            proof {
                assert(tail.subrange(k as int, tail.len() as int) =~= v@.subrange(
                    i as int,
                    v@.len() as int,
                ));
                assert(vec_tokens(v@) =~~= r.deep_view() + vec_tokens(
                    v@.subrange(i as int, v@.len() as int),
                ));
            }
        }
    }
    proof {
        assert(v@.subrange(v@.len() as int, v@.len() as int) =~= Seq::<char>::empty());
        assert(vec_tokens(v@) =~~= r.deep_view());
    }
    r
}

/// The 64-bit FNV-1a hash of a token, used as a stable bucket address.
pub open spec fn fnv1a(s: Seq<char>, i: int) -> u64
    decreases i,
{
    if i <= 0 {
        0xcbf29ce484222325u64
    } else {
        ((((fnv1a(s, i - 1) ^ (s[i - 1] as u32 as u64)) as int) * 0x100000001b3)
            % 0x1_0000_0000_0000_0000) as u64
    }
}

/// Stable string hash: FNV-1a over the token's code points.
pub fn stable_hash(v: &Vec<char>) -> (r: u64)
    ensures
        r == fnv1a(v@, v@.len() as int),
{
    let mut h: u64 = 0xcbf29ce484222325;
    let mut i: usize = 0;
    while i < v.len()
        invariant
            i <= v@.len(),
            h == fnv1a(v@, i as int),
        decreases v@.len() - i,
    {
        let c32: u32 = v[i] as u32;
        let x: u64 = h ^ (c32 as u64);
        h = (((x as u128) * 0x100000001b3_u128) % 0x1_0000_0000_0000_0000_u128) as u64;
        i = i + 1;
        proof {
            assert(x == (fnv1a(v@, i - 1) ^ (v@[i - 1] as u32 as u64)));
        }
    }
    h
}



/// Cap on a bucket count, so that products of sums stay in range.
pub open spec fn bucket_cap() -> int {
    0xffffff
}

/// The 256-bucket count vector of a token list, counts saturating at the cap.
pub open spec fn vector_of(tokens: Seq<Seq<char>>, i: int) -> Seq<int>
    decreases i,
{
    if i <= 0 {
        Seq::new(256, |j: int| 0)
    } else {
        let prev = vector_of(tokens, i - 1);
        let idx = (fnv1a(tokens[i - 1], tokens[i - 1].len() as int) as int) % 256;
        prev.update(idx, if prev[idx] + 1 > bucket_cap() {
            bucket_cap()
        } else {
            prev[idx] + 1
        })
    }
}

proof fn lemma_vector_bounds(tokens: Seq<Seq<char>>, i: int)
    ensures
        vector_of(tokens, i).len() == 256,
        forall|j: int| 0 <= j < 256 ==> 0 <= #[trigger] vector_of(tokens, i)[j] <= bucket_cap(),
    decreases i,
{
    if i > 0 {
        lemma_vector_bounds(tokens, i - 1);
    }
}

/// Builds the bucket counts of a token list.
pub fn build_vector(tokens: &Vec<Vec<char>>) -> (r: Vec<u64>)
    ensures
        r@.len() == 256,
        forall|j: int| 0 <= j < 256 ==> #[trigger] r@[j] == vector_of(tokens.deep_view(), tokens.deep_view().len() as int)[j],
{
    let ghost toks = tokens.deep_view();
    let mut r: Vec<u64> = Vec::new();
    let mut z: usize = 0;
    while z < 256
        invariant
            z <= 256,
            r@.len() == z,
            forall|j: int| 0 <= j < z ==> #[trigger] r@[j] == 0,
        decreases 256 - z,
    {
        r.push(0);
        z = z + 1;
    }
    proof {
        lemma_vector_bounds(toks, 0);
        assert forall|j: int| 0 <= j < 256 implies #[trigger] r@[j] == vector_of(toks, 0)[j] by {}
    }
    let mut i: usize = 0;
    while i < tokens.len()
        invariant
            toks == tokens.deep_view(),
            i <= toks.len(),
            r@.len() == 256,
            forall|j: int| 0 <= j < 256 ==> #[trigger] r@[j] == vector_of(toks, i as int)[j],
        decreases toks.len() - i,
    {
        proof {
            lemma_vector_bounds(toks, i as int);
            assert(tokens@[i as int].deep_view() =~= tokens@[i as int]@);
        }
        let h = stable_hash(&tokens[i]);
        let idx = (h % 256) as usize;
        let cur = r[idx];
        if cur < 0xffffff {
            r.set(idx, cur + 1);
        } else {
            r.set(idx, 0xffffff);
        }
        i = i + 1;
        proof {
            assert(toks[i - 1] == tokens@[i - 1]@);
            assert forall|j: int| 0 <= j < 256 implies #[trigger] r@[j] == vector_of(
                toks,
                i as int,
            )[j] by {}
        }
    }
    r
}

/// Dot product of two bucket vectors.
pub open spec fn dot_spec(a: Seq<int>, b: Seq<int>, i: int) -> int
    decreases i,
{
    if i <= 0 {
        0
    } else {
        dot_spec(a, b, i - 1) + a[i - 1] * b[i - 1]
    }
}

proof fn lemma_dot_bounds(a: Seq<int>, b: Seq<int>, i: int)
    requires
        0 <= i <= 256,
        forall|j: int| 0 <= j < 256 ==> 0 <= #[trigger] a[j] <= bucket_cap(),
        forall|j: int| 0 <= j < 256 ==> 0 <= #[trigger] b[j] <= bucket_cap(),
    ensures
        0 <= dot_spec(a, b, i) <= i * 0xffffff * 0xffffff,
    decreases i,
{
    if i > 0 {
        lemma_dot_bounds(a, b, i - 1);
        assert(a[i - 1] * b[i - 1] <= 0xffffff * 0xffffff) by (nonlinear_arith)
            requires
                0 <= a[i - 1] <= 0xffffff,
                0 <= b[i - 1] <= 0xffffff,
        ;
        assert(0 <= a[i - 1] * b[i - 1]) by (nonlinear_arith)
            requires
                0 <= a[i - 1],
                0 <= b[i - 1],
        ;
    }
}

/// Computes the dot product of two 256-bucket vectors.
fn dot(a: &Vec<u64>, b: &Vec<u64>) -> (r: u128)
    requires
        a@.len() == 256,
        b@.len() == 256,
        forall|j: int| 0 <= j < 256 ==> 0 <= #[trigger] a@[j] <= bucket_cap(),
        forall|j: int| 0 <= j < 256 ==> 0 <= #[trigger] b@[j] <= bucket_cap(),
    ensures
        r == dot_spec(a@.map_values(|x: u64| x as int), b@.map_values(|x: u64| x as int), 256),
{
    let ghost av = a@.map_values(|x: u64| x as int);
    let ghost bv = b@.map_values(|x: u64| x as int);
    proof {
        assert forall|j: int| 0 <= j < 256 implies 0 <= #[trigger] av[j] <= bucket_cap() && 0
            <= #[trigger] bv[j] <= bucket_cap() by {
            assert(av[j] == a@[j] as int);
            assert(bv[j] == b@[j] as int);
        }
    }
    let mut acc: u128 = 0;
    let mut i: usize = 0;
    while i < 256
        invariant
            a@.len() == 256,
            b@.len() == 256,
            av == a@.map_values(|x: u64| x as int),
            bv == b@.map_values(|x: u64| x as int),
            forall|j: int| 0 <= j < 256 ==> 0 <= #[trigger] av[j] <= bucket_cap(),
            forall|j: int| 0 <= j < 256 ==> 0 <= #[trigger] bv[j] <= bucket_cap(),
            i <= 256,
            acc == dot_spec(av, bv, i as int),
        decreases 256 - i,
    {
        proof {
            lemma_dot_bounds(av, bv, i as int);
            assert(av[i as int] == a@[i as int] as int);
            assert(bv[i as int] == b@[i as int] as int);
            assert(a@[i as int] * b@[i as int] <= 0xffffff * 0xffffff) by (nonlinear_arith)
                requires
                    0 <= a@[i as int] <= 0xffffff,
                    0 <= b@[i as int] <= 0xffffff,
            ;
        }
        acc = acc + (a[i] as u128) * (b[i] as u128);
        i = i + 1;
    }
    acc
}

/// Floor of the square root.
pub open spec fn is_floor_sqrt(x: int, r: int) -> bool {
    r >= 0 && r * r <= x && x < (r + 1) * (r + 1)
}

/// Floor square root by bisection.
pub fn isqrt(x: u128) -> (r: u128)
    requires
        x < 0x1_0000_0000_0000_0000_0000_0000_0000,
    ensures
        is_floor_sqrt(x as int, r as int),
{
    if x == 0 {
        return 0;
    }
    let mut lo: u128 = 0;
    let mut hi: u128 = 0x1_0000_0000_0000_00;
    proof {
        assert((0x1_0000_0000_0000_00 as int) * (0x1_0000_0000_0000_00 as int)
            > x as int) by (nonlinear_arith)
            requires
                x < 0x1_0000_0000_0000_0000_0000_0000_0000,
        ;
    }
    while lo + 1 < hi
        invariant
            lo < hi,
            (lo as int) * (lo as int) <= x as int,
            (hi as int) * (hi as int) > x as int,
            hi <= 0x1_0000_0000_0000_00,
        decreases hi - lo,
    {
        let mid = lo + (hi - lo) / 2;
        proof {
            assert((mid as int) * (mid as int) <= (0x1_0000_0000_0000_00 as int) * (
            0x1_0000_0000_0000_00 as int)) by (nonlinear_arith)
                requires
                    0 <= mid <= 0x1_0000_0000_0000_00,
            ;
        }
        let sq: u128 = mid * mid;
        if sq <= x {
            lo = mid;
        } else {
            hi = mid;
        }
    }
    proof {
        assert(lo + 1 == hi);
    }
    lo
}

/// Cosine similarity in thousandths: a thousand times the dot product over
/// the product of the floor square roots of the squared norms, clamped to a
/// thousand; zero when either vector is empty.
pub open spec fn cosine_milli_spec(a: Seq<int>, b: Seq<int>) -> int {
    let d = dot_spec(a, b, 256);
    let na = dot_spec(a, a, 256);
    let nb = dot_spec(b, b, 256);
    let sa = choose|r: int| is_floor_sqrt(na, r);
    let sb = choose|r: int| is_floor_sqrt(nb, r);
    if sa * sb == 0 {
        0
    } else if 1000 * d / (sa * sb) > 1000 {
        1000
    } else {
        1000 * d / (sa * sb)
    }
}

proof fn lemma_floor_sqrt_unique(x: int, a: int, b: int)
    requires
        is_floor_sqrt(x, a),
        is_floor_sqrt(x, b),
    ensures
        a == b,
{
    if a < b {
        assert((a + 1) * (a + 1) <= b * b) by (nonlinear_arith)
            requires
                0 <= a,
                a + 1 <= b,
        ;
    }
    if b < a {
        assert((b + 1) * (b + 1) <= a * a) by (nonlinear_arith)
            requires
                0 <= b,
                b + 1 <= a,
        ;
    }
}

/// Cosine similarity of two bucket-count vectors, in thousandths.
pub fn cosine_milli(a: &Vec<u64>, b: &Vec<u64>) -> (r: u64)
    requires
        a@.len() == 256,
        b@.len() == 256,
        forall|j: int| 0 <= j < 256 ==> 0 <= #[trigger] a@[j] <= bucket_cap(),
        forall|j: int| 0 <= j < 256 ==> 0 <= #[trigger] b@[j] <= bucket_cap(),
    ensures
        r == cosine_milli_spec(
            a@.map_values(|x: u64| x as int),
            b@.map_values(|x: u64| x as int),
        ),
        r <= 1000,
{
    let ghost av = a@.map_values(|x: u64| x as int);
    let ghost bv = b@.map_values(|x: u64| x as int);
    let d = dot(a, b);
    let na = dot(a, a);
    let nb = dot(b, b);
    proof {
        lemma_dot_bounds(av, bv, 256);
        lemma_dot_bounds(av, av, 256);
        lemma_dot_bounds(bv, bv, 256);
        assert(256 * 0xffffff * 0xffffff < 0x1_0000_0000_0000_0000_0000_0000_0000);
    }
    let sa = isqrt(na);
    let sb = isqrt(nb);
    proof {
        lemma_floor_sqrt_unique(na as int, sa as int, choose|r: int| is_floor_sqrt(na as int, r));
        lemma_floor_sqrt_unique(nb as int, sb as int, choose|r: int| is_floor_sqrt(nb as int, r));
        assert((sa as int) * (sa as int) <= na as int);
        assert((sa as int) < 0x1_0000_0000_0000_00) by (nonlinear_arith)
            requires
                (sa as int) * (sa as int) <= na as int,
                na < 0x1_0000_0000_0000_0000_0000_0000_0000,
                sa >= 0,
        ;
        assert((sb as int) < 0x1_0000_0000_0000_00) by (nonlinear_arith)
            requires
                (sb as int) * (sb as int) <= nb as int,
                nb < 0x1_0000_0000_0000_0000_0000_0000_0000,
                sb >= 0,
        ;
        assert((sa as int) * (sb as int) < 0x1_0000_0000_0000_0000_0000_0000_0000)
            by (nonlinear_arith)
            requires
                0 <= sa,
                0 <= sb,
                (sa as int) < 0x1_0000_0000_0000_00,
                (sb as int) < 0x1_0000_0000_0000_00,
        ;
        assert(1000 * (d as int) < 0x3E8_0000_0000_0000_0000_0000_0000_0000) by (nonlinear_arith)
            requires
                0 <= d,
                (d as int) <= 256 * 0xffffff * 0xffffff,
        ;
    }
    let prod: u128 = sa * sb;
    if prod == 0 {
        return 0;
    }
    let val: u128 = 1000 * d / prod;
    if val > 1000 {
        1000
    } else {
        val as u64
    }
}

/// The text a node is embedded from: name, summary and file path.
pub open spec fn node_text_spec(n: Node) -> Seq<char> {
    n.name@ + (match n.summary {
        Some(s) => " "@ + s@,
        None => Seq::<char>::empty(),
    }) + (match n.file_path {
        Some(p) => " "@ + p@,
        None => Seq::<char>::empty(),
    })
}

/// Builds the text a node is embedded from.
pub fn combined_node_text(n: &Node) -> (r: Vec<char>)
    ensures
        r@ == node_text_spec(*n),
{
    let mut t = crate::text::chars_of(n.name.as_str());
    match &n.summary {
        Some(s) => {
            crate::text::append_chars(&mut t, &crate::text::chars_of(" "));
            crate::text::append_chars(&mut t, &crate::text::chars_of(s.as_str()));
        },
        None => {},
    }
    match &n.file_path {
        Some(p) => {
            crate::text::append_chars(&mut t, &crate::text::chars_of(" "));
            crate::text::append_chars(&mut t, &crate::text::chars_of(p.as_str()));
        },
        None => {},
    }
    proof {
        assert(t@ =~= node_text_spec(*n));
    }
    t
}

/// The vector score of one node against a query vector, if the node scores
/// at all: none when the node's text has no tokens or the score is under the
/// 200-thousandth floor.
pub open spec fn node_vector_score(n: Node, qv: Seq<int>) -> Option<int> {
    let toks = vec_tokens(node_text_spec(n));
    if toks.len() == 0 {
        None
    } else {
        let score = cosine_milli_spec(qv, vector_of(toks, toks.len() as int));
        if score < 200 {
            None
        } else {
            Some(score)
        }
    }
}

/// The unsorted vector candidates of a node table, in table order.
pub open spec fn vector_candidates(nodes: Seq<Node>, qv: Seq<int>) -> Seq<SearchResult>
    decreases nodes.len(),
{
    if nodes.len() == 0 {
        Seq::empty()
    } else {
        let rest = vector_candidates(nodes.subrange(1, nodes.len() as int), qv);
        match node_vector_score(nodes[0], qv) {
            Some(score) => seq![
                SearchResult {
                    node: nodes[0],
                    score: score as u64,
                    tier: SearchTier::L2Vector,
                    matched_content: None,
                },
            ] + rest,
            None => rest,
        }
    }
}

/// The local vector tier: cosine similarity of hashed bags of words over
/// name, summary and path, floored at 200 thousandths, sorted by score,
/// twenty at most. An empty token set in the query yields nothing.
pub fn vector_search(graph: &KnowledgeGraph, query: &str) -> (r: Vec<SearchResult>)
    ensures
        r@ == vector_tier_of(*graph, query@),
        vec_tokens(query@).len() == 0 || crate::search::fts::meaningful_words(query@).len() == 0
            ==> r@.len() == 0,
        !(vec_tokens(query@).len() == 0 || crate::search::fts::meaningful_words(
            query@,
        ).len() == 0) ==> r@ == truncated(
            sort_results_spec(
                vector_candidates(
                    graph.nodes@.filter(|n: Node| n.project_id@ == graph.spec_project_id()),
                    vector_of(vec_tokens(query@), vec_tokens(query@).len() as int),
                ),
            ),
            20,
        ) && r@.len() <= 20,
{
    let qv = crate::text::chars_of(query);
    let meaningful = crate::search::fts::query_words(query);
    proof {
        assert(meaningful.deep_view().len() == meaningful@.len());
    }
    if meaningful.len() == 0 {
        let r: Vec<SearchResult> = Vec::new();
        return r;
    }
    let qtokens = tokenize(&qv);
    if qtokens.len() == 0 {
        let r: Vec<SearchResult> = Vec::new();
        proof {
            assert(qtokens.deep_view().len() == qtokens@.len());
        }
        return r;
    }
    proof {
        assert(qtokens.deep_view().len() == qtokens@.len());
    }
    let qvec = build_vector(&qtokens);
    let ghost qvs = vector_of(vec_tokens(query@), vec_tokens(query@).len() as int);
    proof {
        lemma_vector_bounds(vec_tokens(query@), vec_tokens(query@).len() as int);
        assert(qvec@.map_values(|x: u64| x as int) =~= qvs);
    }
    let nodes = graph.get_all_nodes();
    let ghost nodeseq = graph.nodes@.filter(
        |n: Node| n.project_id@ == graph.spec_project_id(),
    );
    let mut candidates: Vec<SearchResult> = Vec::new();
    let mut i: usize = 0;
    proof {
        assert(nodes@.subrange(0, nodes@.len() as int) =~= nodes@);
        assert(candidates@ + vector_candidates(nodes@, qvs) =~= vector_candidates(nodes@, qvs));
    }
    while i < nodes.len()
        invariant
            qvec@.len() == 256,
            forall|j: int| 0 <= j < 256 ==> 0 <= #[trigger] qvec@[j] <= bucket_cap(),
            qvec@.map_values(|x: u64| x as int) == qvs,
            nodeseq == nodes@,
            i <= nodes@.len(),
            vector_candidates(nodes@, qvs) == candidates@ + vector_candidates(
                nodes@.subrange(i as int, nodes@.len() as int),
                qvs,
            ),
        decreases nodes@.len() - i,
    {
        let ghost tail = nodes@.subrange(i as int, nodes@.len() as int);
        proof {
            assert(tail[0] == nodes@[i as int]);
            assert(tail.subrange(1, tail.len() as int) =~= nodes@.subrange(
                i + 1,
                nodes@.len() as int,
            ));
        }
        let text = combined_node_text(&nodes[i]);
        let toks = tokenize(&text);
        proof {
            assert(toks.deep_view().len() == toks@.len());
        }
        if toks.len() > 0 {
            let nvec = build_vector(&toks);
            proof {
                lemma_vector_bounds(toks.deep_view(), toks.deep_view().len() as int);
                assert(nvec@.map_values(|x: u64| x as int) =~= vector_of(
                    vec_tokens(node_text_spec(nodes@[i as int])),
                    vec_tokens(node_text_spec(nodes@[i as int])).len() as int,
                ));
            }
            let score = cosine_milli(&qvec, &nvec);
            if score >= 200 {
                let ghost prev = candidates@;
                candidates.push(
                    SearchResult {
                        node: nodes[i].clone(),
                        score,
                        tier: SearchTier::L2Vector,
                        matched_content: None,
                    },
                );
                proof {
                    assert(candidates@ =~= prev + seq![candidates@.last()]);
                    assert(vector_candidates(nodes@, qvs) =~= candidates@ + vector_candidates(
                        nodes@.subrange(i + 1, nodes@.len() as int),
                        qvs,
                    ));
                }
            }
        }
        i = i + 1;
    }
    proof {
        assert(nodes@.subrange(nodes@.len() as int, nodes@.len() as int)
            =~= Seq::<Node>::empty());
        assert(candidates@ =~= vector_candidates(nodes@, qvs));
    }
    let mut sorted = sort_results(candidates);
    if sorted.len() > 20 {
        sorted.truncate(20);
        proof {
            assert(sorted@ =~= truncated(sort_results_spec(vector_candidates(nodeseq, qvs)), 20));
        }
    } else {
        proof {
            assert(sorted@ =~= truncated(sort_results_spec(vector_candidates(nodeseq, qvs)), 20));
        }
    }
    sorted
}

/// The first `k` of a sequence, or all of it when shorter.
pub open spec fn truncated(s: Seq<SearchResult>, k: int) -> Seq<SearchResult> {
    if s.len() <= k {
        s
    } else {
        s.subrange(0, k)
    }
}

/// The whole vector tier as a function of the store and the query: nothing
/// for a query without meaningful words or without tokens; otherwise the
/// sorted, capped candidates.
pub open spec fn vector_tier_of(g: KnowledgeGraph, q: Seq<char>) -> Seq<SearchResult> {
    if vec_tokens(q).len() == 0 || crate::search::fts::meaningful_words(q).len() == 0 {
        Seq::empty()
    } else {
        truncated(
            sort_results_spec(
                vector_candidates(
                    g.nodes@.filter(|n: Node| n.project_id@ == g.spec_project_id()),
                    vector_of(vec_tokens(q), vec_tokens(q).len() as int),
                ),
            ),
            20,
        )
    }
}

} // verus!
