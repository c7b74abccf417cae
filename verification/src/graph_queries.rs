//! Query and maintenance operations over the knowledge graph: full-table
//! reads, the literal name search, the full-text mirror, and the cascade that
//! removes a deleted file's rows.

use crate::graph::{
    Edge, FtsRow, KnowledgeGraph, Node, NodeType, edge_triple_match, node_key_match,
};
use vstd::prelude::*;
use vstd::seq_lib::*;

verus! {

/// One step of a forward filter scan: filtering a prefix one longer either
/// appends the new element or not, by the predicate.
pub proof fn lemma_filter_step<A>(s: Seq<A>, i: int, pred: spec_fn(A) -> bool)
    requires
        0 <= i < s.len(),
    ensures
        s.subrange(0, i + 1).filter(pred) == if pred(s[i]) {
            s.subrange(0, i).filter(pred).push(s[i])
        } else {
            s.subrange(0, i).filter(pred)
        },
{
    let p = s.subrange(0, i + 1);
    assert(p.drop_last() =~= s.subrange(0, i));
    reveal(Seq::filter);
    assert(p.last() == s[i]);
}

pub proof fn lemma_filter_empty<A>(pred: spec_fn(A) -> bool)
    ensures
        Seq::<A>::empty().filter(pred) =~= Seq::<A>::empty(),
{
    reveal(Seq::filter);
}

/// A node that belongs to the given file of the given project.
pub open spec fn node_owned_by(n: Node, path: Seq<char>, pid: Seq<char>) -> bool {
    n.project_id@ == pid && match n.file_path {
        Some(p) => p@ == path,
        None => false,
    }
}

/// Whether some node of the file owns this id.
pub open spec fn id_owned(nodes: Seq<Node>, id: Seq<char>, path: Seq<char>, pid: Seq<char>) -> bool {
    exists|i: int|
        0 <= i < nodes.len() && (#[trigger] nodes[i]).id@ == id && node_owned_by(nodes[i], path, pid)
}

/// An edge that touches some node of the file.
pub open spec fn edge_touches_file(e: Edge, nodes: Seq<Node>, path: Seq<char>, pid: Seq<char>) -> bool {
    id_owned(nodes, e.source_id@, path, pid) || id_owned(nodes, e.target_id@, path, pid)
}

/// Whether some file-typed node of the project carries this file path.
pub open spec fn is_file_path_entry(nodes: Seq<Node>, pid: Seq<char>, p: Seq<char>) -> bool {
    exists|j: int|
        0 <= j < nodes.len() && (#[trigger] nodes[j]).node_type == NodeType::File
            && nodes[j].project_id@ == pid && nodes[j].file_path is Some
            && nodes[j].file_path->0@ == p
}

/// Whether the string sequence holds an entry with this view.
pub open spec fn seq_has_string(rs: Seq<String>, p: Seq<char>) -> bool {
    exists|i: int| 0 <= i < rs.len() && (#[trigger] rs[i])@ == p
}

/// First node with the given id, scanning the table from the front.
pub open spec fn find_node_by_id(nodes: Seq<Node>, id: Seq<char>) -> Option<Node>
    decreases nodes.len(),
{
    if nodes.len() == 0 {
        None
    } else if nodes[0].id@ == id {
        Some(nodes[0])
    } else {
        find_node_by_id(nodes.subrange(1, nodes.len() as int), id)
    }
}

/// An edge of the project that starts or ends at the given node.
pub open spec fn edge_incident(e: Edge, id: Seq<char>, pid: Seq<char>) -> bool {
    e.project_id@ == pid && (e.source_id@ == id || e.target_id@ == id)
}

/// The id at the far end of an incident edge.
pub open spec fn far_id(e: Edge, id: Seq<char>) -> Seq<char> {
    if e.source_id@ == id {
        e.target_id@
    } else {
        e.source_id@
    }
}

/// The neighbor pairs of a node: each incident edge of the project joined
/// with the node at its far end, in edge-table order; an edge whose far end
/// resolves to no node is dropped.
pub open spec fn neighbors_spec(
    edges: Seq<Edge>,
    nodes: Seq<Node>,
    id: Seq<char>,
    pid: Seq<char>,
) -> Seq<(Edge, Node)>
    decreases edges.len(),
{
    if edges.len() == 0 {
        Seq::empty()
    } else {
        let rest = neighbors_spec(edges.subrange(1, edges.len() as int), nodes, id, pid);
        if edge_incident(edges[0], id, pid) {
            match find_node_by_id(nodes, far_id(edges[0], id)) {
                Some(n) => seq![(edges[0], n)] + rest,
                None => rest,
            }
        } else {
            rest
        }
    }
}

/// Whether a node of the project answers the prefix pass of the literal
/// name search.
pub open spec fn literal_prefix_pred(pid: Seq<char>, q: Seq<char>) -> spec_fn(Node) -> bool {
    |n: Node|
        n.project_id@ == pid && crate::text::starts_with_spec(
            crate::text::lower_seq(n.name@),
            crate::text::lower_seq(q),
        )
}

/// Whether a node of the project answers the contains pass.
pub open spec fn literal_contains_pred(pid: Seq<char>, q: Seq<char>) -> spec_fn(Node) -> bool {
    |n: Node|
        n.project_id@ == pid && crate::text::contains_seq(
            crate::text::lower_seq(n.name@),
            crate::text::lower_seq(q),
        )
}

/// The literal name search of a project: nodes whose lower-cased name starts
/// with the lower-cased query.
pub open spec fn literal_prefix_results(nodes: Seq<Node>, pid: Seq<char>, q: Seq<char>) -> Seq<
    Node,
> {
    nodes.filter(literal_prefix_pred(pid, q))
}

/// The fallback: nodes whose lower-cased name contains the lower-cased query.
pub open spec fn literal_contains_results(nodes: Seq<Node>, pid: Seq<char>, q: Seq<char>) -> Seq<
    Node,
> {
    nodes.filter(literal_contains_pred(pid, q))
}

impl KnowledgeGraph {
    /// All nodes of this project, in table order.
    pub fn get_all_nodes(&self) -> (r: Vec<Node>)
        ensures
            r@ == self.nodes@.filter(
                |n: Node| n.project_id@ == self.spec_project_id(),
            ),
    {
        let ghost pred = |n: Node| n.project_id@ == self.spec_project_id();
        let mut r: Vec<Node> = Vec::new();
        let mut i: usize = 0;
        proof {
            lemma_filter_empty(pred);
            assert(self.nodes@.subrange(0, 0) =~= Seq::<Node>::empty());
        }
        while i < self.nodes.len()
            invariant
                pred == (|n: Node| n.project_id@ == self.spec_project_id()),
                i <= self.nodes@.len(),
                r@ == self.nodes@.subrange(0, i as int).filter(pred),
            decreases self.nodes@.len() - i,
        {
            proof {
                lemma_filter_step(self.nodes@, i as int, pred);
            }
            if self.nodes[i].project_id == self.project_id {
                r.push(self.nodes[i].clone());
            }
            i = i + 1;
        }
        proof {
            assert(self.nodes@.subrange(0, self.nodes@.len() as int) =~= self.nodes@);
        }
        r
    }

    /// Whether `r` already holds a string equal to `x`.
    fn vec_contains_string(r: &Vec<String>, x: &String) -> (found: bool)
        ensures
            found == seq_has_string(r@, x@),
    {
        let mut i: usize = 0;
        while i < r.len()
            invariant
                i <= r@.len(),
                forall|j: int| 0 <= j < i ==> (#[trigger] r@[j])@ != x@,
            decreases r@.len() - i,
        {
            if r[i] == *x {
                proof {
                    assert((r@[i as int])@ == x@);
                }
                return true;
            }
            i = i + 1;
        }
        false
    }

    /// The distinct file paths of file-typed nodes of this project.
    pub fn get_all_file_paths(&self) -> (r: Vec<String>)
        ensures
            // Every returned path is the path of some file-typed node.
            forall|i: int|
                0 <= i < r@.len() ==> is_file_path_entry(
                    self.nodes@,
                    self.spec_project_id(),
                    (#[trigger] r@[i])@,
                ),
            // Every file-typed node's path is returned.
            forall|j: int|
                0 <= j < self.nodes@.len() && (#[trigger] self.nodes@[j]).node_type
                    == NodeType::File && self.nodes@[j].project_id@ == self.spec_project_id()
                    && self.nodes@[j].file_path is Some ==> seq_has_string(
                    r@,
                    self.nodes@[j].file_path->0@,
                ),
            // No duplicates.
            forall|i: int, j: int|
                0 <= i < j < r@.len() ==> (#[trigger] r@[i])@ != (#[trigger] r@[j])@,
    {
        let mut r: Vec<String> = Vec::new();
        let mut i: usize = 0;
        while i < self.nodes.len()
            invariant
                i <= self.nodes@.len(),
                forall|a: int|
                    0 <= a < r@.len() ==> is_file_path_entry(
                        self.nodes@,
                        self.spec_project_id(),
                        (#[trigger] r@[a])@,
                    ),
                forall|j: int|
                    0 <= j < i && (#[trigger] self.nodes@[j]).node_type == NodeType::File
                        && self.nodes@[j].project_id@ == self.spec_project_id()
                        && self.nodes@[j].file_path is Some ==> seq_has_string(
                        r@,
                        self.nodes@[j].file_path->0@,
                    ),
                forall|a: int, b: int|
                    0 <= a < b < r@.len() ==> (#[trigger] r@[a])@ != (#[trigger] r@[b])@,
            decreases self.nodes@.len() - i,
        {
            let is_file = match self.nodes[i].node_type {
                NodeType::File => true,
                _ => false,
            };
            if is_file && self.nodes[i].project_id == self.project_id {
                match &self.nodes[i].file_path {
                    Some(p) => {
                        proof {
                            assert(self.nodes@[i as int].file_path == Some(*p));
                        }
                        if !Self::vec_contains_string(&r, p) {
                            let ghost prev = r@;
                            r.push(p.clone());
                            proof {
                                assert((r@[prev.len() as int])@ == self.nodes@[
                                    i as int
                                ].file_path->0@);
                                assert forall|a: int|
                                    0 <= a < r@.len() implies is_file_path_entry(
                                    self.nodes@,
                                    self.spec_project_id(),
                                    (#[trigger] r@[a])@,
                                ) by {
                                    if a < prev.len() {
                                        assert(r@[a] == prev[a]);
                                    } else {
                                        assert((self.nodes@[i as int]).node_type == NodeType::File
                                            && self.nodes@[i as int].project_id@
                                            == self.spec_project_id()
                                            && self.nodes@[i as int].file_path is Some
                                            && self.nodes@[i as int].file_path->0@ == (r@[a])@);
                                    }
                                }
                                assert forall|j: int|
                                    0 <= j < i + 1 && (#[trigger] self.nodes@[j]).node_type
                                        == NodeType::File && self.nodes@[j].project_id@
                                        == self.spec_project_id()
                                        && self.nodes@[j].file_path is Some implies seq_has_string(
                                    r@,
                                    self.nodes@[j].file_path->0@,
                                ) by {
                                    if j == i {
                                        assert((r@[prev.len() as int])@
                                            == self.nodes@[j].file_path->0@);
                                    } else {
                                        let a = choose|a: int|
                                            0 <= a < prev.len() && (#[trigger] prev[a])@
                                                == self.nodes@[j].file_path->0@;
                                        assert(r@[a] == prev[a]);
                                        assert((r@[a])@ == self.nodes@[j].file_path->0@);
                                    }
                                }
                                assert forall|a: int, b: int|
                                    0 <= a < b < r@.len() implies (#[trigger] r@[a])@ != (
                                #[trigger] r@[b])@ by {
                                    if b == prev.len() {
                                        assert(r@[a] == prev[a]);
                                        assert(!seq_has_string(prev, (r@[b])@));
                                    }
                                }
                            }
                        } else {
                            proof {
                                assert forall|j: int|
                                    0 <= j < i + 1 && (#[trigger] self.nodes@[j]).node_type
                                        == NodeType::File && self.nodes@[j].project_id@
                                        == self.spec_project_id()
                                        && self.nodes@[j].file_path is Some implies seq_has_string(
                                    r@,
                                    self.nodes@[j].file_path->0@,
                                ) by {
                                    if j == i {
                                        assert(seq_has_string(r@, p@));
                                    }
                                }
                            }
                        }
                    },
                    None => {},
                }
            }
            i = i + 1;
        }
        r
    }

    /// Rewrites the full-text mirror row for `node`: any previous row with
    /// this node id goes away, and one row with the given content is added.
    pub fn index_fts(&mut self, node: &Node, content: &str)
        requires
            old(self).wf(),
        ensures
            final(self).wf(),
            final(self).spec_project_id() == old(self).spec_project_id(),
            final(self).nodes@ == old(self).nodes@,
            final(self).edges@ == old(self).edges@,
            final(self).file_texts@ == old(self).file_texts@,
            final(self).fts@.len() >= 1,
            final(self).fts@.last().node_id@ == node.id@,
            final(self).fts@.last().project_id@ == node.project_id@,
            final(self).fts@.last().name@ == node.name@,
            final(self).fts@.last().content@ == content@,
            final(self).fts@.last().file_path == node.file_path,
            final(self).fts@.drop_last() == old(self).fts@.filter(
                |row: FtsRow| row.node_id@ != node.id@,
            ),
    {
        let ghost pred = |row: FtsRow| row.node_id@ != node.id@;
        let mut kept: Vec<FtsRow> = Vec::new();
        let mut i: usize = 0;
        proof {
            lemma_filter_empty(pred);
            assert(self.fts@.subrange(0, 0) =~= Seq::<FtsRow>::empty());
        }
        while i < self.fts.len()
            invariant
                pred == (|row: FtsRow| row.node_id@ != node.id@),
                *self == *old(self),
                self.wf(),
                i <= self.fts@.len(),
                kept@ == self.fts@.subrange(0, i as int).filter(pred),
            decreases self.fts@.len() - i,
        {
            proof {
                lemma_filter_step(self.fts@, i as int, pred);
            }
            if !(self.fts[i].node_id == node.id) {
                kept.push(self.fts[i].clone());
            }
            i = i + 1;
        }
        proof {
            assert(self.fts@.subrange(0, self.fts@.len() as int) =~= self.fts@);
        }
        let row = FtsRow {
            node_id: node.id.clone(),
            project_id: node.project_id.clone(),
            name: node.name.clone(),
            content: content.to_owned(),
            file_path: crate::graph::clone_opt_string(&node.file_path),
        };
        kept.push(row);
        let ghost keptv = kept@;
        self.fts = kept;
        proof {
            assert(self.fts@.drop_last() =~= old(self).fts@.filter(pred));
            lemma_filter_keeps_unique_fts(old(self).fts@, pred);
            assert forall|a: int, b: int|
                0 <= a < b < self.fts@.len() implies (#[trigger] self.fts@[a]).node_id@ != (
            #[trigger] self.fts@[b]).node_id@ by {
                if b == self.fts@.len() - 1 {
                    assert(self.fts@[a] == old(self).fts@.filter(pred)[a]);
                    old(self).fts@.lemma_filter_pred(pred, a);
                } else {
                    assert(self.fts@[a] == old(self).fts@.filter(pred)[a]);
                    assert(self.fts@[b] == old(self).fts@.filter(pred)[b]);
                }
            }
        }
    }

    /// Removes the full-text rows, edges and nodes that belong to one file:
    /// first the mirror rows of the file's nodes, then every edge that
    /// touches one of them, then the nodes themselves.
    pub fn delete_nodes_for_file(&mut self, file_path: &str)
        requires
            old(self).wf(),
        ensures
            final(self).wf(),
            final(self).spec_project_id() == old(self).spec_project_id(),
            final(self).file_texts@ == old(self).file_texts@,
            final(self).nodes@ == old(self).nodes@.filter(
                |n: Node| !node_owned_by(n, file_path@, old(self).spec_project_id()),
            ),
            final(self).edges@ == old(self).edges@.filter(
                |e: Edge| !edge_touches_file(e, old(self).nodes@, file_path@, old(self).spec_project_id()),
            ),
            final(self).fts@ == old(self).fts@.filter(
                |row: FtsRow| !id_owned(old(self).nodes@, row.node_id@, file_path@, old(self).spec_project_id()),
            ),
    {
        let pathv = crate::text::chars_of(file_path);
        let ghost pid = self.spec_project_id();
        let ghost nodes0 = self.nodes@;

        // Full-text rows of the file's nodes.
        let ghost fpred = |row: FtsRow| !id_owned(nodes0, row.node_id@, file_path@, pid);
        let mut kept_fts: Vec<FtsRow> = Vec::new();
        let mut i: usize = 0;
        proof {
            lemma_filter_empty(fpred);
            assert(self.fts@.subrange(0, 0) =~= Seq::<FtsRow>::empty());
        }
        while i < self.fts.len()
            invariant
                *self == *old(self),
                self.wf(),
                nodes0 == self.nodes@,
                pid == self.spec_project_id(),
                pathv@ == file_path@,
                i <= self.fts@.len(),
                fpred == (|row: FtsRow| !id_owned(nodes0, row.node_id@, file_path@, pid)),
                kept_fts@ == self.fts@.subrange(0, i as int).filter(fpred),
            decreases self.fts@.len() - i,
        {
            proof {
                lemma_filter_step(self.fts@, i as int, fpred);
            }
            if !self.some_node_owns_id(&self.fts[i].node_id, &pathv) {
                kept_fts.push(self.fts[i].clone());
            }
            i = i + 1;
        }
        proof {
            assert(self.fts@.subrange(0, self.fts@.len() as int) =~= self.fts@);
        }

        // Edges touching the file's nodes.
        let ghost epred = |e: Edge| !edge_touches_file(e, nodes0, file_path@, pid);
        let mut kept_edges: Vec<Edge> = Vec::new();
        let mut j: usize = 0;
        proof {
            lemma_filter_empty(epred);
            assert(self.edges@.subrange(0, 0) =~= Seq::<Edge>::empty());
        }
        while j < self.edges.len()
            invariant
                *self == *old(self),
                self.wf(),
                nodes0 == self.nodes@,
                pid == self.spec_project_id(),
                pathv@ == file_path@,
                j <= self.edges@.len(),
                epred == (|e: Edge| !edge_touches_file(e, nodes0, file_path@, pid)),
                kept_edges@ == self.edges@.subrange(0, j as int).filter(epred),
            decreases self.edges@.len() - j,
        {
            proof {
                lemma_filter_step(self.edges@, j as int, epred);
            }
            let src_owned = self.some_node_owns_id(&self.edges[j].source_id, &pathv);
            let tgt_owned = self.some_node_owns_id(&self.edges[j].target_id, &pathv);
            if !src_owned && !tgt_owned {
                kept_edges.push(self.edges[j].clone());
            }
            j = j + 1;
        }
        proof {
            assert(self.edges@.subrange(0, self.edges@.len() as int) =~= self.edges@);
        }

        // The nodes themselves.
        let ghost npred = |n: Node| !node_owned_by(n, file_path@, pid);
        let mut kept_nodes: Vec<Node> = Vec::new();
        let mut k: usize = 0;
        proof {
            lemma_filter_empty(npred);
            assert(self.nodes@.subrange(0, 0) =~= Seq::<Node>::empty());
        }
        while k < self.nodes.len()
            invariant
                *self == *old(self),
                self.wf(),
                nodes0 == self.nodes@,
                pid == self.spec_project_id(),
                pathv@ == file_path@,
                k <= self.nodes@.len(),
                npred == (|n: Node| !node_owned_by(n, file_path@, pid)),
                kept_nodes@ == self.nodes@.subrange(0, k as int).filter(npred),
            decreases self.nodes@.len() - k,
        {
            proof {
                lemma_filter_step(self.nodes@, k as int, npred);
            }
            let owned = match &self.nodes[k].file_path {
                Some(p) => self.nodes[k].project_id == self.project_id && crate::text::eq_chars(
                    &crate::text::chars_of(p.as_str()),
                    &pathv,
                ),
                None => false,
            };
            if !owned {
                kept_nodes.push(self.nodes[k].clone());
            }
            k = k + 1;
        }
        proof {
            assert(self.nodes@.subrange(0, self.nodes@.len() as int) =~= self.nodes@);
        }

        let ghost old_self = *self;
        self.fts = kept_fts;
        self.edges = kept_edges;
        self.nodes = kept_nodes;
        proof {
            lemma_unique_after_filter(old_self, *self, file_path@, pid);
        }
    }

    /// Whether some node of this file (in this project) has the given id.
    fn some_node_owns_id(&self, id: &String, pathv: &Vec<char>) -> (r: bool)
        ensures
            r == id_owned(self.nodes@, id@, pathv@, self.spec_project_id()),
    {
        let mut i: usize = 0;
        while i < self.nodes.len()
            invariant
                i <= self.nodes@.len(),
                forall|j: int|
                    0 <= j < i ==> !((#[trigger] self.nodes@[j]).id@ == id@ && node_owned_by(
                        self.nodes@[j],
                        pathv@,
                        self.spec_project_id(),
                    )),
            decreases self.nodes@.len() - i,
        {
            let n = &self.nodes[i];
            if n.id == *id && n.project_id == self.project_id {
                let matched = match &n.file_path {
                    Some(p) => crate::text::eq_chars(&crate::text::chars_of(p.as_str()), pathv),
                    None => false,
                };
                if matched {
                    proof {
                        assert(self.nodes@[i as int].id@ == id@ && node_owned_by(
                            self.nodes@[i as int],
                            pathv@,
                            self.spec_project_id(),
                        ));
                    }
                    return true;
                }
            }
            i = i + 1;
        }
        false
    }
}

impl KnowledgeGraph {
    /// First node with the given id, regardless of project.
    pub(crate) fn lookup_node(&self, id: &String) -> (r: Option<Node>)
        ensures
            r == find_node_by_id(self.nodes@, id@),
    {
        let n = self.nodes.len();
        let mut i: usize = 0;
        proof {
            assert(self.nodes@.subrange(0, n as int) =~= self.nodes@);
        }
        while i < n
            invariant
                n == self.nodes@.len(),
                i <= n,
                find_node_by_id(self.nodes@, id@) == find_node_by_id(
                    self.nodes@.subrange(i as int, n as int),
                    id@,
                ),
            decreases n - i,
        {
            let ghost tail = self.nodes@.subrange(i as int, n as int);
            if self.nodes[i].id == *id {
                proof {
                    assert(tail[0] == self.nodes@[i as int]);
                }
                return Some(self.nodes[i].clone());
            }
            proof {
                assert(tail[0] == self.nodes@[i as int]);
                assert(tail.subrange(1, tail.len() as int) =~= self.nodes@.subrange(
                    i + 1,
                    n as int,
                ));
            }
            i = i + 1;
        }
        None
    }

    /// Every incident edge joined with its far node, in edge-table order.
    /// Each incident edge yields at most one pair.
    pub fn get_neighbors(&self, node_id: &str) -> (r: Vec<(Edge, Node)>)
        ensures
            r@ == neighbors_spec(self.edges@, self.nodes@, node_id@, self.spec_project_id()),
    {
        let idv: String = node_id.to_owned();
        let n = self.edges.len();
        let mut r: Vec<(Edge, Node)> = Vec::new();
        let mut i: usize = 0;
        proof {
            assert(self.edges@.subrange(0, n as int) =~= self.edges@);
        }
        while i < n
            invariant
                idv@ == node_id@,
                n == self.edges@.len(),
                i <= n,
                neighbors_spec(self.edges@, self.nodes@, node_id@, self.spec_project_id()) == r@
                    + neighbors_spec(
                    self.edges@.subrange(i as int, n as int),
                    self.nodes@,
                    node_id@,
                    self.spec_project_id(),
                ),
            decreases n - i,
        {
            let ghost tail = self.edges@.subrange(i as int, n as int);
            proof {
                assert(tail[0] == self.edges@[i as int]);
                assert(tail.subrange(1, tail.len() as int) =~= self.edges@.subrange(
                    i + 1,
                    n as int,
                ));
            }
            let e = &self.edges[i];
            if e.project_id == self.project_id && (e.source_id == idv || e.target_id == idv) {
                let far: &String = if e.source_id == idv {
                    &e.target_id
                } else {
                    &e.source_id
                };
                proof {
                    assert(far@ == far_id(self.edges@[i as int], node_id@));
                }
                match self.lookup_node(far) {
                    Some(node) => {
                        let ghost prev = r@;
                        r.push((e.clone(), node));
                        proof {
                            assert(r@ =~= prev + seq![
                                (self.edges@[i as int], find_node_by_id(
                                    self.nodes@,
                                    far_id(self.edges@[i as int], node_id@),
                                )->0),
                            ]);
                        }
                    },
                    None => {},
                }
            }
            i = i + 1;
            proof {
                assert(neighbors_spec(
                    self.edges@,
                    self.nodes@,
                    node_id@,
                    self.spec_project_id(),
                ) =~= r@ + neighbors_spec(
                    self.edges@.subrange(i as int, n as int),
                    self.nodes@,
                    node_id@,
                    self.spec_project_id(),
                ));
            }
        }
        proof {
            assert(self.edges@.subrange(n as int, n as int) =~= Seq::<Edge>::empty());
            assert(r@ =~= neighbors_spec(
                self.edges@,
                self.nodes@,
                node_id@,
                self.spec_project_id(),
            ));
        }
        r
    }

    /// Two passes over the node table: nodes whose lower-cased name starts
    /// with the lower-cased query; if none, nodes whose name contains it.
    pub fn literal_search_by_name(&self, query: &str) -> (r: Vec<Node>)
        ensures
            literal_prefix_results(self.nodes@, self.spec_project_id(), query@).len() > 0 ==> r@
                == literal_prefix_results(self.nodes@, self.spec_project_id(), query@),
            literal_prefix_results(self.nodes@, self.spec_project_id(), query@).len() == 0 ==> r@
                == literal_contains_results(self.nodes@, self.spec_project_id(), query@),
    {
        let ql = crate::text::lower_all(&crate::text::chars_of(query));
        let ghost pid = self.spec_project_id();
        let ghost ppred = literal_prefix_pred(pid, query@);
        let mut prefix_hits: Vec<Node> = Vec::new();
        let mut i: usize = 0;
        proof {
            lemma_filter_empty(ppred);
            assert(self.nodes@.subrange(0, 0) =~= Seq::<Node>::empty());
        }
        while i < self.nodes.len()
            invariant
                ppred == literal_prefix_pred(pid, query@),
                pid == self.spec_project_id(),
                ql@ == crate::text::lower_seq(query@),
                i <= self.nodes@.len(),
                prefix_hits@ == self.nodes@.subrange(0, i as int).filter(ppred),
            decreases self.nodes@.len() - i,
        {
            proof {
                lemma_filter_step(self.nodes@, i as int, ppred);
            }
            if self.nodes[i].project_id == self.project_id {
                let namel = crate::text::lower_all(&crate::text::chars_of(self.nodes[i].name.as_str()));
                if crate::text::starts_with(&namel, &ql) {
                    prefix_hits.push(self.nodes[i].clone());
                }
            }
            i = i + 1;
        }
        proof {
            assert(self.nodes@.subrange(0, self.nodes@.len() as int) =~= self.nodes@);
        }
        if prefix_hits.len() > 0 {
            return prefix_hits;
        }
        let ghost cpred = literal_contains_pred(pid, query@);
        let mut hits: Vec<Node> = Vec::new();
        let mut j: usize = 0;
        proof {
            lemma_filter_empty(cpred);
            assert(self.nodes@.subrange(0, 0) =~= Seq::<Node>::empty());
        }
        while j < self.nodes.len()
            invariant
                cpred == literal_contains_pred(pid, query@),
                pid == self.spec_project_id(),
                ql@ == crate::text::lower_seq(query@),
                j <= self.nodes@.len(),
                hits@ == self.nodes@.subrange(0, j as int).filter(cpred),
            decreases self.nodes@.len() - j,
        {
            proof {
                lemma_filter_step(self.nodes@, j as int, cpred);
            }
            if self.nodes[j].project_id == self.project_id {
                let namel = crate::text::lower_all(&crate::text::chars_of(self.nodes[j].name.as_str()));
                if crate::text::contains_sub(&namel, &ql) {
                    hits.push(self.nodes[j].clone());
                }
            }
            j = j + 1;
        }
        proof {
            assert(self.nodes@.subrange(0, self.nodes@.len() as int) =~= self.nodes@);
        }
        hits
    }
}

/// Filtering the tables of a well-formed graph keeps them well-formed: every
/// kept row was a row before, at a distinct position.
pub proof fn lemma_unique_after_filter(
    pre: KnowledgeGraph,
    post: KnowledgeGraph,
    path: Seq<char>,
    pid: Seq<char>,
)
    requires
        pre.wf(),
        post.nodes@ == pre.nodes@.filter(|n: Node| !node_owned_by(n, path, pid)),
        post.edges@ == pre.edges@.filter(
            |e: Edge| !edge_touches_file(e, pre.nodes@, path, pid),
        ),
        post.fts@ == pre.fts@.filter(
            |row: FtsRow| !id_owned(pre.nodes@, row.node_id@, path, pid),
        ),
        post.file_texts@ == pre.file_texts@,
    ensures
        post.wf(),
{
    lemma_filter_keeps_unique_nodes(pre.nodes@, |n: Node| !node_owned_by(n, path, pid));
    lemma_filter_keeps_unique_edges(
        pre.edges@,
        |e: Edge| !edge_touches_file(e, pre.nodes@, path, pid),
        pre.nodes@,
    );
    lemma_filter_keeps_unique_fts(
        pre.fts@,
        |row: FtsRow| !id_owned(pre.nodes@, row.node_id@, path, pid),
    );
}

proof fn lemma_filter_keeps_unique_nodes(s: Seq<Node>, pred: spec_fn(Node) -> bool)
    requires
        forall|i: int, j: int|
            0 <= i < j < s.len() ==> (#[trigger] s[i]).id@ != (#[trigger] s[j]).id@,
    ensures
        forall|i: int, j: int|
            0 <= i < j < s.filter(pred).len() ==> (#[trigger] s.filter(pred)[i]).id@ != (
            #[trigger] s.filter(pred)[j]).id@,
    decreases s.len(),
{
    reveal(Seq::filter);
    if s.len() > 0 {
        let head = s.drop_last();
        lemma_filter_keeps_unique_nodes(head, pred);
        let f = s.filter(pred);
        let fh = head.filter(pred);
        lemma_filter_membership_nodes(head, pred);
        assert forall|i: int, j: int|
            0 <= i < j < f.len() implies (#[trigger] f[i]).id@ != (#[trigger] f[j]).id@ by {
            if pred(s.last()) && j == f.len() - 1 {
                assert(f[i] == fh[i]);
                let t = choose|t: int| 0 <= t < head.len() && #[trigger] head[t] == fh[i];
                assert(s[t].id@ != s[s.len() - 1].id@);
            } else {
                assert(f[i] == fh[i] && f[j] == fh[j]);
            }
        }
    }
}

proof fn lemma_filter_membership_nodes(s: Seq<Node>, pred: spec_fn(Node) -> bool)
    ensures
        forall|a: int|
            0 <= a < s.filter(pred).len() ==> exists|t: int|
                0 <= t < s.len() && s[t] == #[trigger] s.filter(pred)[a],
    decreases s.len(),
{
    reveal(Seq::filter);
    if s.len() > 0 {
        let head = s.drop_last();
        lemma_filter_membership_nodes(head, pred);
        assert forall|a: int|
            0 <= a < s.filter(pred).len() implies exists|t: int|
            0 <= t < s.len() && s[t] == #[trigger] s.filter(pred)[a] by {
            let fh = head.filter(pred);
            if a < fh.len() {
                let t = choose|t: int| 0 <= t < head.len() && #[trigger] head[t] == fh[a];
                assert(s[t] == s.filter(pred)[a]);
            } else {
                assert(s[s.len() - 1] == s.filter(pred)[a]);
            }
        }
    }
}

proof fn lemma_filter_keeps_unique_edges(
    s: Seq<Edge>,
    pred: spec_fn(Edge) -> bool,
    nodes: Seq<Node>,
)
    requires
        forall|i: int, j: int|
            0 <= i < j < s.len() ==> (#[trigger] s[i]).id@ != (#[trigger] s[j]).id@,
        forall|i: int, j: int|
            0 <= i < j < s.len() ==> !edge_triple_match(#[trigger] s[i], #[trigger] s[j]),
    ensures
        forall|i: int, j: int|
            0 <= i < j < s.filter(pred).len() ==> (#[trigger] s.filter(pred)[i]).id@ != (
            #[trigger] s.filter(pred)[j]).id@,
        forall|i: int, j: int|
            0 <= i < j < s.filter(pred).len() ==> !edge_triple_match(
                #[trigger] s.filter(pred)[i],
                #[trigger] s.filter(pred)[j],
            ),
    decreases s.len(),
{
    reveal(Seq::filter);
    if s.len() > 0 {
        let head = s.drop_last();
        lemma_filter_keeps_unique_edges(head, pred, nodes);
        let f = s.filter(pred);
        let fh = head.filter(pred);
        lemma_filter_membership_edges(head, pred);
        assert forall|i: int, j: int|
            0 <= i < j < f.len() implies (#[trigger] f[i]).id@ != (#[trigger] f[j]).id@
            && !edge_triple_match(f[i], f[j]) by {
            if pred(s.last()) && j == f.len() - 1 {
                assert(f[i] == fh[i]);
                let t = choose|t: int| 0 <= t < head.len() && #[trigger] head[t] == fh[i];
                assert(s[t].id@ != s[s.len() - 1].id@);
                assert(!edge_triple_match(s[t], s[s.len() - 1]));
            } else {
                assert(f[i] == fh[i] && f[j] == fh[j]);
            }
        }
    }
}

proof fn lemma_filter_membership_edges(s: Seq<Edge>, pred: spec_fn(Edge) -> bool)
    ensures
        forall|a: int|
            0 <= a < s.filter(pred).len() ==> exists|t: int|
                0 <= t < s.len() && s[t] == #[trigger] s.filter(pred)[a],
    decreases s.len(),
{
    reveal(Seq::filter);
    if s.len() > 0 {
        let head = s.drop_last();
        lemma_filter_membership_edges(head, pred);
        assert forall|a: int|
            0 <= a < s.filter(pred).len() implies exists|t: int|
            0 <= t < s.len() && s[t] == #[trigger] s.filter(pred)[a] by {
            let fh = head.filter(pred);
            if a < fh.len() {
                let t = choose|t: int| 0 <= t < head.len() && #[trigger] head[t] == fh[a];
                assert(s[t] == s.filter(pred)[a]);
            } else {
                assert(s[s.len() - 1] == s.filter(pred)[a]);
            }
        }
    }
}

proof fn lemma_filter_keeps_unique_fts(s: Seq<FtsRow>, pred: spec_fn(FtsRow) -> bool)
    requires
        forall|i: int, j: int|
            0 <= i < j < s.len() ==> (#[trigger] s[i]).node_id@ != (#[trigger] s[j]).node_id@,
    ensures
        forall|i: int, j: int|
            0 <= i < j < s.filter(pred).len() ==> (#[trigger] s.filter(pred)[i]).node_id@ != (
            #[trigger] s.filter(pred)[j]).node_id@,
    decreases s.len(),
{
    reveal(Seq::filter);
    if s.len() > 0 {
        let head = s.drop_last();
        lemma_filter_keeps_unique_fts(head, pred);
        let f = s.filter(pred);
        let fh = head.filter(pred);
        lemma_filter_membership_fts(head, pred);
        assert forall|i: int, j: int|
            0 <= i < j < f.len() implies (#[trigger] f[i]).node_id@ != (
        #[trigger] f[j]).node_id@ by {
            if pred(s.last()) && j == f.len() - 1 {
                assert(f[i] == fh[i]);
                let t = choose|t: int| 0 <= t < head.len() && #[trigger] head[t] == fh[i];
                assert(s[t].node_id@ != s[s.len() - 1].node_id@);
            } else {
                assert(f[i] == fh[i] && f[j] == fh[j]);
            }
        }
    }
}

proof fn lemma_filter_membership_fts(s: Seq<FtsRow>, pred: spec_fn(FtsRow) -> bool)
    ensures
        forall|a: int|
            0 <= a < s.filter(pred).len() ==> exists|t: int|
                0 <= t < s.len() && s[t] == #[trigger] s.filter(pred)[a],
    decreases s.len(),
{
    reveal(Seq::filter);
    if s.len() > 0 {
        let head = s.drop_last();
        lemma_filter_membership_fts(head, pred);
        assert forall|a: int|
            0 <= a < s.filter(pred).len() implies exists|t: int|
            0 <= t < s.len() && s[t] == #[trigger] s.filter(pred)[a] by {
            let fh = head.filter(pred);
            if a < fh.len() {
                let t = choose|t: int| 0 <= t < head.len() && #[trigger] head[t] == fh[a];
                assert(s[t] == s.filter(pred)[a]);
            } else {
                assert(s[s.len() - 1] == s.filter(pred)[a]);
            }
        }
    }
}

} // verus!
