//! Per-query token accounting: append-only rows and their aggregation over
//! the whole project, over the current session, and over a sliding window.

use vstd::prelude::*;

verus! {

/// One recorded query: its token counts and when it was recorded, in
/// milliseconds since the epoch.
#[derive(Debug)]
pub struct AccountingRow {
    pub project_id: String,
    pub session_id: String,
    pub query_text: String,
    pub pointer_tokens: u64,
    pub fetched_tokens: u64,
    pub traditional_est: u64,
    pub created_at: u64,
}

impl Clone for AccountingRow {
    fn clone(&self) -> (r: Self)
        ensures
            r == *self,
    {
        AccountingRow {
            project_id: self.project_id.clone(),
            session_id: self.session_id.clone(),
            query_text: self.query_text.clone(),
            pointer_tokens: self.pointer_tokens,
            fetched_tokens: self.fetched_tokens,
            traditional_est: self.traditional_est,
            created_at: self.created_at,
        }
    }
}

/// Aggregated accounting. The savings percentage is in whole points.
#[derive(Debug, PartialEq, Eq, Structural, Clone, Copy)]
pub struct CumulativeStats {
    pub total_queries: u64,
    pub total_pointer_tokens: u64,
    pub total_fetched_tokens: u64,
    pub total_traditional_estimate: u64,
    pub cumulative_savings_tokens: u64,
    pub cumulative_savings_pct: u64,
}

/// Whether a row falls under an aggregation: right project, right session if
/// one is asked for, and recorded at or after the cutoff.
pub open spec fn row_selected(
    row: AccountingRow,
    pid: Seq<char>,
    session: Option<Seq<char>>,
    cutoff: u64,
) -> bool {
    row.project_id@ == pid && (match session {
        Some(s) => row.session_id@ == s,
        None => true,
    }) && row.created_at >= cutoff
}

/// Saturating add, as the aggregation sums with.
pub open spec fn sat_add(a: int, b: int) -> int {
    if a + b > 0xffff_ffff_ffff_ffff {
        0xffff_ffff_ffff_ffff as int
    } else {
        a + b
    }
}

/// The four running sums over the first `i` rows: count, pointer, fetched,
/// traditional.
pub open spec fn sums_over(
    rows: Seq<AccountingRow>,
    pid: Seq<char>,
    session: Option<Seq<char>>,
    cutoff: u64,
    i: int,
) -> (int, int, int, int)
    decreases i,
{
    if i <= 0 {
        (0, 0, 0, 0)
    } else {
        let prev = sums_over(rows, pid, session, cutoff, i - 1);
        if row_selected(rows[i - 1], pid, session, cutoff) {
            (
                sat_add(prev.0, 1),
                sat_add(prev.1, rows[i - 1].pointer_tokens as int),
                sat_add(prev.2, rows[i - 1].fetched_tokens as int),
                sat_add(prev.3, rows[i - 1].traditional_est as int),
            )
        } else {
            prev
        }
    }
}

/// The aggregate: the sums, the saved difference floored at zero, and the
/// floored percentage, zero when the baseline is zero.
pub open spec fn stats_spec(
    rows: Seq<AccountingRow>,
    pid: Seq<char>,
    session: Option<Seq<char>>,
    cutoff: u64,
) -> CumulativeStats {
    let s = sums_over(rows, pid, session, cutoff, rows.len() as int);
    let actual = sat_add(s.1, s.2);
    let saved = if s.3 >= actual {
        s.3 - actual
    } else {
        0
    };
    let pct = if s.3 > 0 {
        saved * 100 / s.3
    } else {
        0
    };
    CumulativeStats {
        total_queries: s.0 as u64,
        total_pointer_tokens: s.1 as u64,
        total_fetched_tokens: s.2 as u64,
        total_traditional_estimate: s.3 as u64,
        cumulative_savings_tokens: saved as u64,
        cumulative_savings_pct: pct as u64,
    }
}

/// The token accountant for one project and session.
pub struct Accountant {
    pub project_id: String,
    pub session_id: String,
    pub rows: Vec<AccountingRow>,
}

impl Accountant {
    pub open spec fn spec_project_id(&self) -> Seq<char> {
        self.project_id@
    }

    pub open spec fn spec_session_id(&self) -> Seq<char> {
        self.session_id@
    }

    pub fn new(project_id: &str, session_id: &str) -> (r: Accountant)
        ensures
            r.spec_project_id() == project_id@,
            r.spec_session_id() == session_id@,
            r.rows@.len() == 0,
    {
        Accountant {
            project_id: project_id.to_owned(),
            session_id: session_id.to_owned(),
            rows: Vec::new(),
        }
    }

    /// Appends one row, stamped with the project, the session and the clock.
    pub fn record_query(
        &mut self,
        query_text: &str,
        pointer_tokens: u64,
        fetched_tokens: u64,
        traditional_estimate: u64,
    )
        ensures
            final(self).spec_project_id() == old(self).spec_project_id(),
            final(self).spec_session_id() == old(self).spec_session_id(),
            final(self).rows@.len() == old(self).rows@.len() + 1,
            final(self).rows@.drop_last() == old(self).rows@,
            ({
                let row = final(self).rows@.last();
                &&& row.project_id@ == old(self).spec_project_id()
                &&& row.session_id@ == old(self).spec_session_id()
                &&& row.query_text@ == query_text@
                &&& row.pointer_tokens == pointer_tokens
                &&& row.fetched_tokens == fetched_tokens
                &&& row.traditional_est == traditional_estimate
            }),
    {
        let row = AccountingRow {
            project_id: self.project_id.clone(),
            session_id: self.session_id.clone(),
            query_text: query_text.to_owned(),
            pointer_tokens,
            fetched_tokens,
            traditional_est: traditional_estimate,
            created_at: crate::outside::now_millis(),
        };
        self.rows.push(row);
        proof {
            assert(self.rows@.drop_last() =~= old(self).rows@);
        }
    }

    /// Aggregates the whole project: all sessions, all time.
    pub fn get_cumulative_stats(&self) -> (r: CumulativeStats)
        ensures
            r == stats_spec(self.rows@, self.spec_project_id(), None, 0),
    {
        self.stats_at(None, 0)
    }

    /// Aggregates the project's rows recorded at or after a cutoff, given in
    /// milliseconds since the epoch.
    pub fn stats_at(&self, session: Option<&str>, cutoff_millis: u64) -> (r: CumulativeStats)
        ensures
            r == stats_spec(
                self.rows@,
                self.spec_project_id(),
                match session {
                    Some(s) => Some(s@),
                    None => None,
                },
                cutoff_millis,
            ),
    {
        let ghost sess: Option<Seq<char>> = match session {
            Some(s) => Some(s@),
            None => None,
        };
        let sessv: Option<String> = match session {
            Some(s) => Some(s.to_owned()),
            None => None,
        };
        let n = self.rows.len();
        let mut count: u64 = 0;
        let mut pt: u64 = 0;
        let mut ft: u64 = 0;
        let mut te: u64 = 0;
        let mut i: usize = 0;
        while i < n
            invariant
                sess == (match sessv {
                    Some(s) => Some(s@),
                    None => None,
                }),
                n == self.rows@.len(),
                i <= n,
                (count as int, pt as int, ft as int, te as int) == sums_over(
                    self.rows@,
                    self.spec_project_id(),
                    sess,
                    cutoff_millis,
                    i as int,
                ),
            decreases n - i,
        {
            let row = &self.rows[i];
            let selected = row.project_id == self.project_id && (match &sessv {
                Some(s) => row.session_id == *s,
                None => true,
            }) && row.created_at >= cutoff_millis;
            if selected {
                count = if count < u64::MAX {
                    count + 1
                } else {
                    u64::MAX
                };
                pt = if pt <= u64::MAX - row.pointer_tokens {
                    pt + row.pointer_tokens
                } else {
                    u64::MAX
                };
                ft = if ft <= u64::MAX - row.fetched_tokens {
                    ft + row.fetched_tokens
                } else {
                    u64::MAX
                };
                te = if te <= u64::MAX - row.traditional_est {
                    te + row.traditional_est
                } else {
                    u64::MAX
                };
            }
            i = i + 1;
        }
        let actual: u64 = if pt <= u64::MAX - ft {
            pt + ft
        } else {
            u64::MAX
        };
        let saved: u64 = if te >= actual {
            te - actual
        } else {
            0
        };
        let pct: u64 = if te > 0 {
            proof {
                assert((saved as int) * 100 / (te as int) <= 100) by (nonlinear_arith)
                    requires
                        0 <= saved <= te,
                        te > 0,
                ;
            }
            ((saved as u128) * 100 / (te as u128)) as u64
        } else {
            0
        };
        CumulativeStats {
            total_queries: count,
            total_pointer_tokens: pt,
            total_fetched_tokens: ft,
            total_traditional_estimate: te,
            cumulative_savings_tokens: saved,
            cumulative_savings_pct: pct,
        }
    }

    /// Aggregates the project's rows inside a sliding window of the given
    /// length in seconds, ending now; with no window, everything.
    pub fn get_stats_since(&self, since_secs: Option<u64>) -> (r: CumulativeStats)
        ensures
            match since_secs {
                None => r == stats_spec(self.rows@, self.spec_project_id(), None, 0),
                Some(_) => exists|cut: u64|
                    r == #[trigger] stats_spec(self.rows@, self.spec_project_id(), None, cut),
            },
    {
        match since_secs {
            None => self.stats_at(None, 0),
            Some(secs) => {
                let now = crate::outside::now_millis();
                let window: u64 = if secs <= u64::MAX / 1000 {
                    secs * 1000
                } else {
                    u64::MAX
                };
                let cutoff: u64 = if now >= window {
                    now - window
                } else {
                    0
                };
                let r = self.stats_at(None, cutoff);
                proof {
                    assert(r == stats_spec(self.rows@, self.spec_project_id(), None, cutoff));
                }
                r
            },
        }
    }

    /// Aggregates this session's rows only.
    pub fn get_session_stats(&self) -> (r: CumulativeStats)
        ensures
            r == stats_spec(
                self.rows@,
                self.spec_project_id(),
                Some(self.spec_session_id()),
                0,
            ),
    {
        let sid = self.session_id.clone();
        self.stats_at(Some(sid.as_str()), 0)
    }
}

/// The saved count is the traditional baseline less what was used, floored
/// at zero; the percentage is zero whenever the baseline is zero and never
/// exceeds one hundred.
pub proof fn lemma_savings_rule(
    rows: Seq<AccountingRow>,
    pid: Seq<char>,
    session: Option<Seq<char>>,
    cutoff: u64,
)
    ensures
        ({
            let s = sums_over(rows, pid, session, cutoff, rows.len() as int);
            let st = stats_spec(rows, pid, session, cutoff);
            &&& st.cumulative_savings_tokens == if s.3 >= sat_add(s.1, s.2) {
                s.3 - sat_add(s.1, s.2)
            } else {
                0
            }
            &&& (s.3 == 0 ==> st.cumulative_savings_pct == 0)
            &&& st.cumulative_savings_pct <= 100
        }),
{
    lemma_sums_bounds(rows, pid, session, cutoff, rows.len() as int);
    let s = sums_over(rows, pid, session, cutoff, rows.len() as int);
    let actual = sat_add(s.1, s.2);
    let saved = if s.3 >= actual {
        s.3 - actual
    } else {
        0
    };
    if s.3 > 0 {
        assert(saved * 100 / s.3 <= 100) by (nonlinear_arith)
            requires
                0 <= saved <= s.3,
                s.3 > 0,
        ;
    }
}

/// The running sums stay within the saturating range.
pub proof fn lemma_sums_bounds(
    rows: Seq<AccountingRow>,
    pid: Seq<char>,
    session: Option<Seq<char>>,
    cutoff: u64,
    i: int,
)
    ensures
        ({
            let s = sums_over(rows, pid, session, cutoff, i);
            &&& 0 <= s.0 <= 0xffff_ffff_ffff_ffff
            &&& 0 <= s.1 <= 0xffff_ffff_ffff_ffff
            &&& 0 <= s.2 <= 0xffff_ffff_ffff_ffff
            &&& 0 <= s.3 <= 0xffff_ffff_ffff_ffff
        }),
    decreases i,
{
    if i > 0 {
        lemma_sums_bounds(rows, pid, session, cutoff, i - 1);
    }
}

/// Parses a stats window: `<n>h` hours, `<n>d` days, in seconds; `all` means
/// no window; anything else is rejected.
pub fn parse_since_duration(s: &str) -> (r: Option<u64>)
    ensures
        r == parse_since_spec(s@),
{
    let v = crate::text::lower_all(&crate::text::trim(&crate::text::chars_of(s)));
    proof {
        reveal_strlit("all");
        reveal_strlit("h");
        reveal_strlit("d");
    }
    if crate::text::eq_chars(&v, &crate::text::chars_of("all")) {
        return None;
    }
    let n = v.len();
    if n == 0 {
        return None;
    }
    let lastc = v[n - 1];
    if lastc == 'h' {
        let digits = crate::text::slice_range(&v, 0, n - 1);
        match crate::text::parse_u64(&digits) {
            Some(x) => {
                if x <= 0xffff_ffff_ffff_ffff_u64 / 3600 {
                    Some(x * 3600)
                } else {
                    None
                }
            },
            None => None,
        }
    } else if lastc == 'd' {
        let digits = crate::text::slice_range(&v, 0, n - 1);
        match crate::text::parse_u64(&digits) {
            Some(x) => {
                if x <= 0xffff_ffff_ffff_ffff_u64 / 86400 {
                    Some(x * 86400)
                } else {
                    None
                }
            },
            None => None,
        }
    } else {
        None
    }
}

/// What `parse_since_duration` accepts: the window in seconds, or nothing
/// for `all`, an empty or malformed string, or a window too large to hold.
pub open spec fn parse_since_spec(s: Seq<char>) -> Option<u64> {
    let v = crate::text::lower_seq(crate::text::trim_spec(s));
    if v == "all"@ || v.len() == 0 {
        None
    } else {
        let digits = v.subrange(0, v.len() - 1);
        let ok = digits.len() > 0 && (forall|j: int|
            0 <= j < digits.len() ==> crate::text::is_dec_digit(#[trigger] digits[j]))
            && crate::text::dec_val(digits) <= 0xffff_ffff_ffff_ffff_u64;
        if v[v.len() - 1] == 'h' && ok && crate::text::dec_val(digits)
            <= (0xffff_ffff_ffff_ffff_u64 / 3600) as nat {
            Some((crate::text::dec_val(digits) * 3600) as u64)
        } else if v[v.len() - 1] == 'd' && ok && crate::text::dec_val(digits)
            <= (0xffff_ffff_ffff_ffff_u64 / 86400) as nat {
            Some((crate::text::dec_val(digits) * 86400) as u64)
        } else {
            None
        }
    }
}

} // verus!
