//! Append-only temporal facts with supersedes pointers. A fact is active
//! while `valid_to` is unset; invalidating stamps it and optionally points at
//! the replacement. Queries return newest-first, the reverse of insertion
//! order; since `valid_from` stamps come from the clock at insertion, this
//! coincides with descending `valid_from` whenever the clock is monotone,
//! which the ordering lemmas of the laws module make precise.

use vstd::prelude::*;

verus! {

#[derive(Debug, Clone, Copy, PartialEq, Eq, Structural)]
pub enum FactType {
    Architecture,
    ApiContract,
    Decision,
    ErrorPattern,
    Constraint,
    Learning,
}

pub open spec fn fact_type_str(t: FactType) -> Seq<char> {
    match t {
        FactType::Architecture => "architecture"@,
        FactType::ApiContract => "api_contract"@,
        FactType::Decision => "decision"@,
        FactType::ErrorPattern => "error_pattern"@,
        FactType::Constraint => "constraint"@,
        FactType::Learning => "learning"@,
    }
}

pub open spec fn fact_type_parse(s: Seq<char>) -> FactType {
    if s == "architecture"@ {
        FactType::Architecture
    } else if s == "api_contract"@ {
        FactType::ApiContract
    } else if s == "error_pattern"@ {
        FactType::ErrorPattern
    } else if s == "constraint"@ {
        FactType::Constraint
    } else if s == "learning"@ {
        FactType::Learning
    } else {
        FactType::Decision
    }
}

impl FactType {
    pub fn as_str(&self) -> (r: &'static str)
        ensures
            r@ == fact_type_str(*self),
    {
        match self {
            FactType::Architecture => "architecture",
            FactType::ApiContract => "api_contract",
            FactType::Decision => "decision",
            FactType::ErrorPattern => "error_pattern",
            FactType::Constraint => "constraint",
            FactType::Learning => "learning",
        }
    }

    /// Unknown names fall back to `Decision`.
    pub fn parse_str(s: &str) -> (r: FactType)
        ensures
            r == fact_type_parse(s@),
    {
        let v = crate::text::chars_of(s);
        if crate::text::eq_chars(&v, &crate::text::chars_of("architecture")) {
            FactType::Architecture
        } else if crate::text::eq_chars(&v, &crate::text::chars_of("api_contract")) {
            FactType::ApiContract
        } else if crate::text::eq_chars(&v, &crate::text::chars_of("error_pattern")) {
            FactType::ErrorPattern
        } else if crate::text::eq_chars(&v, &crate::text::chars_of("constraint")) {
            FactType::Constraint
        } else if crate::text::eq_chars(&v, &crate::text::chars_of("learning")) {
            FactType::Learning
        } else {
            FactType::Decision
        }
    }
}

/// A dated, typed statement about the project.
#[derive(Debug, PartialEq)]
pub struct TemporalFact {
    pub id: String,
    pub project_id: String,
    pub node_id: Option<String>,
    pub fact_type: FactType,
    pub content: String,
    pub valid_from: String,
    pub valid_to: Option<String>,
    pub superseded_by: Option<String>,
    pub source_reference: Option<String>,
}

impl Clone for TemporalFact {
    fn clone(&self) -> (r: Self)
        ensures
            r == *self,
    {
        TemporalFact {
            id: self.id.clone(),
            project_id: self.project_id.clone(),
            node_id: crate::graph::clone_opt_string(&self.node_id),
            fact_type: self.fact_type,
            content: self.content.clone(),
            valid_from: self.valid_from.clone(),
            valid_to: crate::graph::clone_opt_string(&self.valid_to),
            superseded_by: crate::graph::clone_opt_string(&self.superseded_by),
            source_reference: crate::graph::clone_opt_string(&self.source_reference),
        }
    }
}

/// An invalidated fact: stamped as ended, its supersession pointer set to
/// the given value, everything else kept.
pub open spec fn stamped(pre: TemporalFact, post: TemporalFact, sup: Option<Seq<char>>) -> bool {
    &&& post.valid_to is Some
    &&& post.id@ == pre.id@
    &&& post.project_id@ == pre.project_id@
    &&& post.node_id == pre.node_id
    &&& post.fact_type == pre.fact_type
    &&& post.content@ == pre.content@
    &&& (match (post.superseded_by, sup) {
        (Some(a), Some(b)) => a@ == b,
        (None, None) => true,
        _ => false,
    })
}

/// Whether a fact answers an active-set query.
pub open spec fn fact_active_match(f: TemporalFact, ft: Option<FactType>, pid: Seq<char>) -> bool {
    f.project_id@ == pid && f.valid_to is None && match ft {
        Some(t) => f.fact_type == t,
        None => true,
    }
}

/// The active facts, newest first (reverse insertion order).
pub open spec fn active_facts_spec(
    facts: Seq<TemporalFact>,
    ft: Option<FactType>,
    pid: Seq<char>,
) -> Seq<TemporalFact>
    decreases facts.len(),
{
    if facts.len() == 0 {
        Seq::empty()
    } else {
        let head: Seq<TemporalFact> = if fact_active_match(facts.last(), ft, pid) {
            seq![facts.last()]
        } else {
            Seq::empty()
        };
        head + active_facts_spec(facts.drop_last(), ft, pid)
    }
}

/// Whether a fact belongs to a node's history.
pub open spec fn fact_history_match(f: TemporalFact, node_id: Seq<char>, pid: Seq<char>) -> bool {
    f.project_id@ == pid && match f.node_id {
        Some(n) => n@ == node_id,
        None => false,
    }
}

/// All of a node's facts, newest first.
pub open spec fn history_spec(
    facts: Seq<TemporalFact>,
    node_id: Seq<char>,
    pid: Seq<char>,
) -> Seq<TemporalFact>
    decreases facts.len(),
{
    if facts.len() == 0 {
        Seq::empty()
    } else {
        let head: Seq<TemporalFact> = if fact_history_match(facts.last(), node_id, pid) {
            seq![facts.last()]
        } else {
            Seq::empty()
        };
        head + history_spec(facts.drop_last(), node_id, pid)
    }
}

/// The append-only fact store, scoped to one project.
pub struct TemporalStore {
    pub project_id: String,
    pub facts: Vec<TemporalFact>,
}

impl TemporalStore {
    pub open spec fn spec_project_id(&self) -> Seq<char> {
        self.project_id@
    }

    pub fn new(project_id: &str) -> (r: TemporalStore)
        ensures
            r.spec_project_id() == project_id@,
            r.facts@.len() == 0,
    {
        TemporalStore { project_id: project_id.to_owned(), facts: Vec::new() }
    }

    /// Appends a fact, valid from now, with no end and no supersession.
    /// Returns its fresh id. The new fact is immediately active.
    pub fn add_fact(
        &mut self,
        node_id: Option<&str>,
        fact_type: FactType,
        content: &str,
        source_reference: Option<&str>,
    ) -> (r: String)
        ensures
            final(self).spec_project_id() == old(self).spec_project_id(),
            final(self).facts@.len() == old(self).facts@.len() + 1,
            final(self).facts@.drop_last() == old(self).facts@,
            ({
                let f = final(self).facts@.last();
                &&& f.id@ == r@
                &&& f.project_id@ == old(self).spec_project_id()
                &&& (match (f.node_id, node_id) {
                    (Some(a), Some(b)) => a@ == b@,
                    (None, None) => true,
                    _ => false,
                })
                &&& f.fact_type == fact_type
                &&& f.content@ == content@
                &&& f.valid_to is None
                &&& f.superseded_by is None
                &&& (match (f.source_reference, source_reference) {
                    (Some(a), Some(b)) => a@ == b@,
                    (None, None) => true,
                    _ => false,
                })
            }),
    {
        let id = crate::outside::fresh_id();
        let now = crate::outside::now_rfc3339();
        let fact = TemporalFact {
            id: id.clone(),
            project_id: self.project_id.clone(),
            node_id: match node_id {
                Some(n) => Some(n.to_owned()),
                None => None,
            },
            fact_type,
            content: content.to_owned(),
            valid_from: now,
            valid_to: None,
            superseded_by: None,
            source_reference: match source_reference {
                Some(s) => Some(s.to_owned()),
                None => None,
            },
        };
        self.facts.push(fact);
        proof {
            assert(self.facts@.drop_last() =~= old(self).facts@);
        }
        id
    }

    /// Stamps every fact with the given id as ended now and records (or
    /// clears) its supersession pointer. Facts are never removed: the length
    /// and every other row stay as they were.
    pub fn invalidate_fact(&mut self, fact_id: &str, superseded_by: Option<&str>)
        ensures
            final(self).spec_project_id() == old(self).spec_project_id(),
            final(self).facts@.len() == old(self).facts@.len(),
            forall|j: int|
                0 <= j < old(self).facts@.len() ==> if (#[trigger] old(self).facts@[j]).id@
                    == fact_id@ && old(self).facts@[j].project_id@ == old(
                    self,
                ).spec_project_id() {
                    stamped(
                        old(self).facts@[j],
                        final(self).facts@[j],
                        match superseded_by {
                            Some(s) => Some(s@),
                            None => None,
                        },
                    )
                } else {
                    final(self).facts@[j] == old(self).facts@[j]
                },
    {
        let idv: String = fact_id.to_owned();
        let now = crate::outside::now_rfc3339();
        let ghost supv: Option<Seq<char>> = match superseded_by {
            Some(s) => Some(s@),
            None => None,
        };
        let n = self.facts.len();
        let mut i: usize = 0;
        while i < n
            invariant
                idv@ == fact_id@,
                n == self.facts@.len(),
                self.facts@.len() == old(self).facts@.len(),
                self.project_id == old(self).project_id,
                supv == (match superseded_by {
                    Some(s) => Some(s@),
                    None => None,
                }),
                i <= n,
                forall|j: int|
                    i <= j < n ==> #[trigger] self.facts@[j] == old(self).facts@[j],
                forall|j: int|
                    0 <= j < i ==> if (#[trigger] old(self).facts@[j]).id@ == fact_id@ && old(
                        self,
                    ).facts@[j].project_id@ == old(self).spec_project_id() {
                        stamped(old(self).facts@[j], self.facts@[j], supv)
                    } else {
                        self.facts@[j] == old(self).facts@[j]
                    },
            decreases n - i,
        {
            if self.facts[i].id == idv && self.facts[i].project_id == self.project_id {
                let updated = TemporalFact {
                    valid_to: Some(now.clone()),
                    superseded_by: match superseded_by {
                        Some(s) => Some(s.to_owned()),
                        None => None,
                    },
                    ..self.facts[i].clone()
                };
                self.facts.set(i, updated);
            }
            i = i + 1;
        }
    }

    /// The active facts, optionally narrowed to one type, newest first.
    pub fn get_active_facts(&self, fact_type: Option<&FactType>) -> (r: Vec<TemporalFact>)
        ensures
            r@ == active_facts_spec(
                self.facts@,
                match fact_type {
                    Some(t) => Some(*t),
                    None => None,
                },
                self.spec_project_id(),
            ),
    {
        let ghost ftopt = match fact_type {
            Some(t) => Some(*t),
            None => None,
        };
        let mut r: Vec<TemporalFact> = Vec::new();
        let mut i: usize = self.facts.len();
        proof {
            assert(self.facts@.subrange(0, i as int) =~= self.facts@);
            assert(r@ + active_facts_spec(self.facts@, ftopt, self.spec_project_id())
                =~= active_facts_spec(self.facts@, ftopt, self.spec_project_id()));
        }
        while i > 0
            invariant
                ftopt == (match fact_type {
                    Some(t) => Some(*t),
                    None => None,
                }),
                i <= self.facts@.len(),
                active_facts_spec(self.facts@, ftopt, self.spec_project_id()) == r@
                    + active_facts_spec(
                    self.facts@.subrange(0, i as int),
                    ftopt,
                    self.spec_project_id(),
                ),
            decreases i,
        {
            i = i - 1;
            let ghost pre = self.facts@.subrange(0, i + 1);
            proof {
                assert(pre.last() == self.facts@[i as int]);
                assert(pre.drop_last() =~= self.facts@.subrange(0, i as int));
            }
            let f = &self.facts[i];
            let keep = f.project_id == self.project_id && match &f.valid_to {
                Some(_) => false,
                None => true,
            } && match fact_type {
                Some(t) => f.fact_type == *t,
                None => true,
            };
            if keep {
                r.push(f.clone());
                proof {
                    assert(active_facts_spec(pre, ftopt, self.spec_project_id()) == seq![
                        self.facts@[i as int],
                    ] + active_facts_spec(
                        self.facts@.subrange(0, i as int),
                        ftopt,
                        self.spec_project_id(),
                    ));
                    assert(active_facts_spec(self.facts@, ftopt, self.spec_project_id()) =~= r@
                        + active_facts_spec(
                        self.facts@.subrange(0, i as int),
                        ftopt,
                        self.spec_project_id(),
                    ));
                }
            } else {
                proof {
                    assert(!fact_active_match(self.facts@[i as int], ftopt, self.spec_project_id()));
                    assert(active_facts_spec(pre, ftopt, self.spec_project_id())
                        == active_facts_spec(
                        self.facts@.subrange(0, i as int),
                        ftopt,
                        self.spec_project_id(),
                    ));
                }
            }
        }
        proof {
            assert(self.facts@.subrange(0, 0) =~= Seq::<TemporalFact>::empty());
            assert(active_facts_spec(self.facts@, ftopt, self.spec_project_id()) =~= r@);
        }
        r
    }

    /// Every fact of a node, active or not, newest first.
    pub fn get_fact_history(&self, node_id: &str) -> (r: Vec<TemporalFact>)
        ensures
            r@ == history_spec(self.facts@, node_id@, self.spec_project_id()),
    {
        let idv: String = node_id.to_owned();
        let mut r: Vec<TemporalFact> = Vec::new();
        let mut i: usize = self.facts.len();
        proof {
            assert(self.facts@.subrange(0, i as int) =~= self.facts@);
            assert(r@ + history_spec(self.facts@, node_id@, self.spec_project_id())
                =~= history_spec(self.facts@, node_id@, self.spec_project_id()));
        }
        while i > 0
            invariant
                idv@ == node_id@,
                i <= self.facts@.len(),
                history_spec(self.facts@, node_id@, self.spec_project_id()) == r@ + history_spec(
                    self.facts@.subrange(0, i as int),
                    node_id@,
                    self.spec_project_id(),
                ),
            decreases i,
        {
            i = i - 1;
            let ghost pre = self.facts@.subrange(0, i + 1);
            proof {
                assert(pre.last() == self.facts@[i as int]);
                assert(pre.drop_last() =~= self.facts@.subrange(0, i as int));
            }
            let f = &self.facts[i];
            let keep = f.project_id == self.project_id && match &f.node_id {
                Some(n) => *n == idv,
                None => false,
            };
            if keep {
                r.push(f.clone());
                proof {
                    assert(history_spec(self.facts@, node_id@, self.spec_project_id()) =~= r@
                        + history_spec(
                        self.facts@.subrange(0, i as int),
                        node_id@,
                        self.spec_project_id(),
                    ));
                }
            }
        }
        proof {
            assert(self.facts@.subrange(0, 0) =~= Seq::<TemporalFact>::empty());
            assert(history_spec(self.facts@, node_id@, self.spec_project_id()) =~= r@);
        }
        r
    }
}

/// A fact just added is the head of the active set it matches.
pub proof fn lemma_added_fact_active(
    facts: Seq<TemporalFact>,
    f: TemporalFact,
    ft: Option<FactType>,
    pid: Seq<char>,
)
    requires
        fact_active_match(f, ft, pid),
    ensures
        active_facts_spec(facts.push(f), ft, pid) == seq![f] + active_facts_spec(facts, ft, pid),
{
    assert(facts.push(f).last() == f);
    assert(facts.push(f).drop_last() =~= facts);
}

/// Every entry of the active set is one of the store's facts and is active.
pub proof fn lemma_active_members(facts: Seq<TemporalFact>, ft: Option<FactType>, pid: Seq<char>)
    ensures
        forall|k: int|
            0 <= k < active_facts_spec(facts, ft, pid).len() ==> fact_active_match(
                #[trigger] active_facts_spec(facts, ft, pid)[k],
                ft,
                pid,
            ) && exists|j: int|
                0 <= j < facts.len() && facts[j] == active_facts_spec(facts, ft, pid)[k],
    decreases facts.len(),
{
    if facts.len() > 0 {
        lemma_active_members(facts.drop_last(), ft, pid);
        let a = active_facts_spec(facts, ft, pid);
        let rest = active_facts_spec(facts.drop_last(), ft, pid);
        assert forall|k: int| 0 <= k < a.len() implies fact_active_match(
            #[trigger] a[k],
            ft,
            pid,
        ) && exists|j: int| 0 <= j < facts.len() && facts[j] == a[k] by {
            if fact_active_match(facts.last(), ft, pid) && k == 0 {
                assert(facts[facts.len() - 1] == a[k]);
            } else {
                let off: int = if fact_active_match(facts.last(), ft, pid) {
                    1
                } else {
                    0
                };
                assert(a[k] == rest[k - off]);
                let j = choose|j: int|
                    0 <= j < facts.drop_last().len() && facts.drop_last()[j] == rest[k - off];
                assert(facts[j] == a[k]);
            }
        }
    }
}

/// Invalidation only stamps facts: a node's history keeps its length, and
/// adding a fact never shortens any history.
pub proof fn lemma_history_stable(
    pre: Seq<TemporalFact>,
    post: Seq<TemporalFact>,
    node_id: Seq<char>,
    pid: Seq<char>,
)
    requires
        pre.len() == post.len(),
        forall|j: int|
            0 <= j < pre.len() ==> (#[trigger] post[j]).node_id == pre[j].node_id
                && post[j].project_id@ == pre[j].project_id@,
    ensures
        history_spec(post, node_id, pid).len() == history_spec(pre, node_id, pid).len(),
    decreases pre.len(),
{
    if pre.len() > 0 {
        assert(fact_history_match(post.last(), node_id, pid) == fact_history_match(
            pre.last(),
            node_id,
            pid,
        ));
        assert forall|j: int|
            0 <= j < pre.drop_last().len() implies (#[trigger] post.drop_last()[j]).node_id
            == pre.drop_last()[j].node_id && post.drop_last()[j].project_id@
            == pre.drop_last()[j].project_id@ by {
            assert(post.drop_last()[j] == post[j]);
            assert(pre.drop_last()[j] == pre[j]);
        }
        lemma_history_stable(pre.drop_last(), post.drop_last(), node_id, pid);
    }
}

/// Appending a fact can only lengthen a history.
pub proof fn lemma_history_grows(
    facts: Seq<TemporalFact>,
    f: TemporalFact,
    node_id: Seq<char>,
    pid: Seq<char>,
)
    ensures
        history_spec(facts.push(f), node_id, pid).len() >= history_spec(facts, node_id, pid).len(),
{
    assert(facts.push(f).last() == f);
    assert(facts.push(f).drop_last() =~= facts);
}

} // verus!
