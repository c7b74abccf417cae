//! Pointers: the small descriptors search returns in place of file content,
//! and the token accounting attached to each response. Relevance scores and
//! percentages are integers: scores in thousandths of the unit scale,
//! percentages in whole points.

use crate::text::{chars_of, count_words, words_of};
use vstd::prelude::*;

verus! {

/// A search hit: where the content lives and how relevant it is, in
/// thousandths.
#[derive(Debug, PartialEq)]
pub struct Pointer {
    pub id: String,
    pub source: String,
    pub chunk: String,
    pub lines: String,
    pub relevance: u64,
    pub summary: String,
    pub node_type: String,
    pub last_modified: Option<String>,
}

impl Clone for Pointer {
    fn clone(&self) -> (r: Self)
        ensures
            r == *self,
    {
        Pointer {
            id: self.id.clone(),
            source: self.source.clone(),
            chunk: self.chunk.clone(),
            lines: self.lines.clone(),
            relevance: self.relevance,
            summary: self.summary.clone(),
            node_type: self.node_type.clone(),
            last_modified: crate::graph::clone_opt_string(&self.last_modified),
        }
    }
}

/// Token accounting for one response.
#[derive(Debug, PartialEq, Eq, Structural, Clone, Copy)]
pub struct AccountingReport {
    pub pointer_tokens: u64,
    pub fetched_tokens: u64,
    pub total_tokens: u64,
    pub traditional_rag_estimate: u64,
    pub savings_pct: u64,
}

/// A search response: the pointers and their accounting.
#[derive(Debug, PartialEq)]
pub struct PointerResponse {
    pub pointers: Vec<Pointer>,
    pub accounting: AccountingReport,
}

impl Clone for PointerResponse {
    fn clone(&self) -> (r: Self)
        ensures
            r.pointers@ == self.pointers@,
            r.accounting == self.accounting,
    {
        let mut ps: Vec<Pointer> = Vec::new();
        let mut i: usize = 0;
        while i < self.pointers.len()
            invariant
                i <= self.pointers@.len(),
                ps@ == self.pointers@.subrange(0, i as int),
            decreases self.pointers@.len() - i,
        {
            ps.push(self.pointers[i].clone());
            i = i + 1;
            proof {
                assert(ps@ =~= self.pointers@.subrange(0, i as int));
            }
        }
        proof {
            assert(ps@ =~= self.pointers@);
        }
        PointerResponse { pointers: ps, accounting: self.accounting }
    }
}

/// What a fetch returns: the dereferenced text and its token count.
#[derive(Debug, PartialEq)]
pub struct FetchResponse {
    pub pointer_id: String,
    pub content: String,
    pub file_path: String,
    pub start_line: i64,
    pub end_line: i64,
    pub token_count: u64,
}

/// `ceil(words * 4 / 3)`: the token estimate for plain content.
pub open spec fn tokens_of_words(words: int) -> int {
    (words * 4 + 2) / 3
}

/// The text a pointer is estimated over: source, chunk, lines and summary,
/// space-separated.
pub open spec fn pointer_text(p: Pointer) -> Seq<char> {
    p.source@ + " "@ + p.chunk@ + " "@ + p.lines@ + " "@ + p.summary@
}

/// The word-count token estimate for fetched content.
pub fn estimate_tokens(content: &str) -> (r: u64)
    ensures
        r == spec_estimate_tokens(content@),
{
    let v = chars_of(content);
    let w = count_words(&v);
    proof {
        crate::text::lemma_nonspace_run(content@);
        lemma_words_le(content@);
    }
    let w64: u64 = if w as u64 > 0x3FFF_FFFF_FFFF_FFFF_u64 {
        0x3FFF_FFFF_FFFF_FFFF_u64
    } else {
        w as u64
    };
    (w64 * 4 + 2) / 3
}

/// The token estimate of a text: `ceil(words * 4 / 3)`, with the word count
/// clamped at the largest value whose estimate fits.
pub open spec fn spec_estimate_tokens(s: Seq<char>) -> int {
    let w = if words_of(s).len() > 0x3FFF_FFFF_FFFF_FFFF {
        0x3FFF_FFFF_FFFF_FFFF as int
    } else {
        words_of(s).len() as int
    };
    tokens_of_words(w)
}

/// A text has at most as many words as characters.
pub proof fn lemma_words_le(s: Seq<char>)
    ensures
        words_of(s).len() <= s.len(),
    decreases s.len(),
{
    if s.len() > 0 {
        if crate::text::is_space_char(s[0]) {
            lemma_words_le(s.subrange(1, s.len() as int));
        } else {
            let k = crate::text::nonspace_run(s);
            crate::text::lemma_nonspace_run(s);
            lemma_words_le(s.subrange(k as int, s.len() as int));
        }
    }
}

impl Pointer {
    /// Token estimate: word count of the pointer's text, scaled four thirds
    /// up, plus two. Clamped only at the extreme end of the range.
    pub fn estimate_token_count(&self) -> (r: u64)
        ensures
            r as int == pointer_estimate_clamped(*self),
    {
        let mut text = chars_of(self.source.as_str());
        crate::text::append_chars(&mut text, &chars_of(" "));
        crate::text::append_chars(&mut text, &chars_of(self.chunk.as_str()));
        crate::text::append_chars(&mut text, &chars_of(" "));
        crate::text::append_chars(&mut text, &chars_of(self.lines.as_str()));
        crate::text::append_chars(&mut text, &chars_of(" "));
        crate::text::append_chars(&mut text, &chars_of(self.summary.as_str()));
        proof {
            assert(text@ == pointer_text(*self));
            lemma_words_le(text@);
        }
        let w = count_words(&text);
        let w64: u64 = if w as u64 > 0x3FFF_FFFF_FFFF_FFFF_u64 {
            0x3FFF_FFFF_FFFF_FFFF_u64
        } else {
            w as u64
        };
        (w64 * 4 + 2) / 3 + 2
    }
}

/// A pointer's estimate with the same clamp the executable applies.
pub open spec fn pointer_estimate_clamped(p: Pointer) -> int {
    let w = if words_of(pointer_text(p)).len() > 0x3FFF_FFFF_FFFF_FFFF {
        0x3FFF_FFFF_FFFF_FFFF as int
    } else {
        words_of(pointer_text(p)).len() as int
    };
    tokens_of_words(w) + 2
}

/// Sum of the clamped estimates of the first `i` pointers, itself saturating.
pub open spec fn sum_estimates(ps: Seq<Pointer>, i: int) -> int
    decreases i,
{
    if i <= 0 {
        0
    } else {
        let prev = sum_estimates(ps, i - 1);
        let next = prev + pointer_estimate_clamped(ps[i - 1]);
        if next > 0xffff_ffff_ffff_ffff {
            0xffff_ffff_ffff_ffff as int
        } else {
            next
        }
    }
}

proof fn lemma_sum_estimates_nonneg(ps: Seq<Pointer>, i: int)
    ensures
        sum_estimates(ps, i) >= 0,
    decreases i,
{
    if i > 0 {
        lemma_sum_estimates_nonneg(ps, i - 1);
    }
}

/// The accounting attached to a response: pointer tokens summed, the
/// fifteen-fold traditional baseline, and the floored savings percentage,
/// zero when the baseline is zero.
pub open spec fn response_accounting(ps: Seq<Pointer>, fetched: int) -> AccountingReport {
    let pt = sum_estimates(ps, ps.len() as int);
    let trad = if pt * 15 > 0xffff_ffff_ffff_ffff {
        0xffff_ffff_ffff_ffff as int
    } else {
        pt * 15
    };
    let total = if pt + fetched > 0xffff_ffff_ffff_ffff {
        0xffff_ffff_ffff_ffff as int
    } else {
        pt + fetched
    };
    let saved = if trad >= total {
        trad - total
    } else {
        0
    };
    let pct = if trad > 0 {
        saved * 100 / trad
    } else {
        0
    };
    AccountingReport {
        pointer_tokens: pt as u64,
        fetched_tokens: fetched as u64,
        total_tokens: total as u64,
        traditional_rag_estimate: trad as u64,
        savings_pct: pct as u64,
    }
}

impl PointerResponse {
    /// Assembles a response: sums the pointer estimates, scales the
    /// traditional baseline fifteen-fold, and floors the savings percentage,
    /// which is zero when the baseline is zero.
    pub fn build(pointers: Vec<Pointer>, fetched_tokens: u64) -> (r: PointerResponse)
        ensures
            r.pointers@ == pointers@,
            r.accounting == response_accounting(pointers@, fetched_tokens as int),
    {
        let n = pointers.len();
        let mut pt: u64 = 0;
        let mut i: usize = 0;
        proof {
            lemma_sum_estimates_nonneg(pointers@, n as int);
        }
        while i < n
            invariant
                n == pointers@.len(),
                i <= n,
                pt == sum_estimates(pointers@, i as int),
            decreases n - i,
        {
            let e = pointers[i].estimate_token_count();
            if pt <= u64::MAX - e {
                pt = pt + e;
            } else {
                pt = u64::MAX;
            }
            i = i + 1;
            proof {
                lemma_sum_estimates_nonneg(pointers@, i - 1);
            }
        }
        let trad: u64 = if pt <= u64::MAX / 15 {
            pt * 15
        } else {
            u64::MAX
        };
        proof {
            assert(trad as int == {
                let t = (pt as int) * 15;
                if t > 0xffff_ffff_ffff_ffff {
                    0xffff_ffff_ffff_ffff as int
                } else {
                    t
                }
            }) by (nonlinear_arith)
                requires
                    trad == if pt <= u64::MAX / 15 {
                        (pt * 15) as u64
                    } else {
                        u64::MAX
                    },
                    pt <= u64::MAX / 15 ==> trad == pt * 15,
                    pt > u64::MAX / 15 ==> trad == u64::MAX,
            ;
        }
        let total: u64 = if pt <= u64::MAX - fetched_tokens {
            pt + fetched_tokens
        } else {
            u64::MAX
        };
        let saved: u64 = if trad >= total {
            trad - total
        } else {
            0
        };
        let pct: u64 = if trad > 0 {
            proof {
                assert(saved <= trad);
                assert((saved as int) * 100 <= (trad as int) * 100) by (nonlinear_arith)
                    requires
                        saved <= trad,
                ;
                assert((saved as int) * 100 / (trad as int) <= 100) by (nonlinear_arith)
                    requires
                        (saved as int) * 100 <= (trad as int) * 100,
                        trad > 0,
                ;
            }
            ((saved as u128) * 100 / (trad as u128)) as u64
        } else {
            0
        };
        PointerResponse {
            pointers,
            accounting: AccountingReport {
                pointer_tokens: pt,
                fetched_tokens,
                total_tokens: total,
                traditional_rag_estimate: trad,
                savings_pct: pct,
            },
        }
    }
}

/// The savings percentage never exceeds one hundred, and the baseline of an
/// empty pointer list is zero, so its savings are zero.
pub proof fn lemma_savings_bounds(ps: Seq<Pointer>, fetched: int)
    requires
        0 <= fetched <= 0xffff_ffff_ffff_ffff,
    ensures
        response_accounting(ps, fetched).savings_pct <= 100,
        ps.len() == 0 ==> response_accounting(ps, fetched).savings_pct == 0
            && response_accounting(ps, fetched).pointer_tokens == 0,
{
    lemma_sum_estimates_nonneg(ps, ps.len() as int);
    let pt = sum_estimates(ps, ps.len() as int);
    let trad = if pt * 15 > 0xffff_ffff_ffff_ffff {
        0xffff_ffff_ffff_ffff as int
    } else {
        pt * 15
    };
    let total = if pt + fetched > 0xffff_ffff_ffff_ffff {
        0xffff_ffff_ffff_ffff as int
    } else {
        pt + fetched
    };
    let saved = if trad >= total {
        trad - total
    } else {
        0
    };
    if trad > 0 {
        assert(saved <= trad);
        assert(saved * 100 / trad <= 100) by (nonlinear_arith)
            requires
                0 <= saved <= trad,
                trad > 0,
        ;
    }
}

} // verus!
