//! Typed nodes and edges of the knowledge graph, and the project-scoped
//! store that holds them together with the mirrored full-text rows.
//!
//! The store keeps its tables in memory as vectors with uniqueness
//! invariants: node ids are unique, and an edge's (source, target, type)
//! triple is unique. A single owner serializes all writes, which is the
//! write-path discipline the engine asks for.

use vstd::prelude::*;

verus! {

#[derive(Debug, Clone, Copy, PartialEq, Eq, Structural)]
pub enum NodeType {
    File,
    Module,
    Function,
    Struct,
    Impl,
    Trait,
    Enum,
    Concept,
    Document,
}

pub open spec fn node_type_str(t: NodeType) -> Seq<char> {
    match t {
        NodeType::File => "file"@,
        NodeType::Module => "module"@,
        NodeType::Function => "function"@,
        NodeType::Struct => "struct"@,
        NodeType::Impl => "impl"@,
        NodeType::Trait => "trait"@,
        NodeType::Enum => "enum"@,
        NodeType::Concept => "concept"@,
        NodeType::Document => "document"@,
    }
}

pub open spec fn node_type_parse(s: Seq<char>) -> NodeType {
    if s == "file"@ {
        NodeType::File
    } else if s == "module"@ {
        NodeType::Module
    } else if s == "function"@ {
        NodeType::Function
    } else if s == "struct"@ {
        NodeType::Struct
    } else if s == "impl"@ {
        NodeType::Impl
    } else if s == "trait"@ {
        NodeType::Trait
    } else if s == "enum"@ {
        NodeType::Enum
    } else if s == "document"@ {
        NodeType::Document
    } else {
        NodeType::Concept
    }
}

impl NodeType {
    pub fn as_str(&self) -> (r: &'static str)
        ensures
            r@ == node_type_str(*self),
    {
        match self {
            NodeType::File => "file",
            NodeType::Module => "module",
            NodeType::Function => "function",
            NodeType::Struct => "struct",
            NodeType::Impl => "impl",
            NodeType::Trait => "trait",
            NodeType::Enum => "enum",
            NodeType::Concept => "concept",
            NodeType::Document => "document",
        }
    }

    /// Unknown names fall back to `Concept`.
    pub fn parse_str(s: &str) -> (r: NodeType)
        ensures
            r == node_type_parse(s@),
    {
        let v = crate::text::chars_of(s);
        if crate::text::eq_chars(&v, &crate::text::chars_of("file")) {
            NodeType::File
        } else if crate::text::eq_chars(&v, &crate::text::chars_of("module")) {
            NodeType::Module
        } else if crate::text::eq_chars(&v, &crate::text::chars_of("function")) {
            NodeType::Function
        } else if crate::text::eq_chars(&v, &crate::text::chars_of("struct")) {
            NodeType::Struct
        } else if crate::text::eq_chars(&v, &crate::text::chars_of("impl")) {
            NodeType::Impl
        } else if crate::text::eq_chars(&v, &crate::text::chars_of("trait")) {
            NodeType::Trait
        } else if crate::text::eq_chars(&v, &crate::text::chars_of("enum")) {
            NodeType::Enum
        } else if crate::text::eq_chars(&v, &crate::text::chars_of("document")) {
            NodeType::Document
        } else {
            NodeType::Concept
        }
    }
}

#[derive(Debug, Clone, Copy, PartialEq, Eq, Structural)]
pub enum EdgeType {
    Calls,
    Imports,
    Implements,
    DependsOn,
    Contains,
    Documents,
}

pub open spec fn edge_type_str(t: EdgeType) -> Seq<char> {
    match t {
        EdgeType::Calls => "calls"@,
        EdgeType::Imports => "imports"@,
        EdgeType::Implements => "implements"@,
        EdgeType::DependsOn => "depends_on"@,
        EdgeType::Contains => "contains"@,
        EdgeType::Documents => "documents"@,
    }
}

pub open spec fn edge_type_parse(s: Seq<char>) -> EdgeType {
    if s == "calls"@ {
        EdgeType::Calls
    } else if s == "imports"@ {
        EdgeType::Imports
    } else if s == "implements"@ {
        EdgeType::Implements
    } else if s == "contains"@ {
        EdgeType::Contains
    } else if s == "documents"@ {
        EdgeType::Documents
    } else {
        EdgeType::DependsOn
    }
}

impl EdgeType {
    pub fn as_str(&self) -> (r: &'static str)
        ensures
            r@ == edge_type_str(*self),
    {
        match self {
            EdgeType::Calls => "calls",
            EdgeType::Imports => "imports",
            EdgeType::Implements => "implements",
            EdgeType::DependsOn => "depends_on",
            EdgeType::Contains => "contains",
            EdgeType::Documents => "documents",
        }
    }

    /// Unknown names fall back to `DependsOn`.
    pub fn parse_str(s: &str) -> (r: EdgeType)
        ensures
            r == edge_type_parse(s@),
    {
        let v = crate::text::chars_of(s);
        if crate::text::eq_chars(&v, &crate::text::chars_of("calls")) {
            EdgeType::Calls
        } else if crate::text::eq_chars(&v, &crate::text::chars_of("imports")) {
            EdgeType::Imports
        } else if crate::text::eq_chars(&v, &crate::text::chars_of("implements")) {
            EdgeType::Implements
        } else if crate::text::eq_chars(&v, &crate::text::chars_of("contains")) {
            EdgeType::Contains
        } else if crate::text::eq_chars(&v, &crate::text::chars_of("documents")) {
            EdgeType::Documents
        } else {
            EdgeType::DependsOn
        }
    }
}

/// A unit of indexed content. Line numbers are 1-based and inclusive.
#[derive(Debug, PartialEq)]
pub struct Node {
    pub id: String,
    pub project_id: String,
    pub name: String,
    pub node_type: NodeType,
    pub file_path: Option<String>,
    pub start_line: Option<i64>,
    pub end_line: Option<i64>,
    pub summary: Option<String>,
    pub content_hash: Option<String>,
}

impl Clone for Node {
    fn clone(&self) -> (r: Self)
        ensures
            r == *self,
    {
        Node {
            id: self.id.clone(),
            project_id: self.project_id.clone(),
            name: self.name.clone(),
            node_type: self.node_type,
            file_path: clone_opt_string(&self.file_path),
            start_line: self.start_line,
            end_line: self.end_line,
            summary: clone_opt_string(&self.summary),
            content_hash: clone_opt_string(&self.content_hash),
        }
    }
}

pub fn clone_opt_string(s: &Option<String>) -> (r: Option<String>)
    ensures
        r == *s,
{
    match s {
        Some(x) => Some(x.clone()),
        None => None,
    }
}

/// A directed, typed relation between two nodes. The weight is stored in
/// thousandths; the default weight of one is 1000.
#[derive(Debug, PartialEq)]
pub struct Edge {
    pub id: String,
    pub project_id: String,
    pub source_id: String,
    pub target_id: String,
    pub edge_type: EdgeType,
    pub weight: u64,
}

impl Clone for Edge {
    fn clone(&self) -> (r: Self)
        ensures
            r == *self,
    {
        Edge {
            id: self.id.clone(),
            project_id: self.project_id.clone(),
            source_id: self.source_id.clone(),
            target_id: self.target_id.clone(),
            edge_type: self.edge_type,
            weight: self.weight,
        }
    }
}

/// A full-text row mirroring one node's searchable text.
#[derive(Debug)]
pub struct FtsRow {
    pub node_id: String,
    pub project_id: String,
    pub name: String,
    pub content: String,
    pub file_path: Option<String>,
}

impl Clone for FtsRow {
    fn clone(&self) -> (r: Self)
        ensures
            r == *self,
    {
        FtsRow {
            node_id: self.node_id.clone(),
            project_id: self.project_id.clone(),
            name: self.name.clone(),
            content: self.content.clone(),
            file_path: clone_opt_string(&self.file_path),
        }
    }
}

/// The engine's snapshot of one source file's text, kept so that fetches can
/// serve line ranges.
#[derive(Debug)]
pub struct FileText {
    pub path: String,
    pub content: String,
}

pub open spec fn node_key_match(n: Node, id: Seq<char>, pid: Seq<char>) -> bool {
    n.id@ == id && n.project_id@ == pid
}

pub open spec fn edge_triple_match(a: Edge, b: Edge) -> bool {
    a.source_id@ == b.source_id@ && a.target_id@ == b.target_id@ && a.edge_type == b.edge_type
}

/// The store of nodes, edges and full-text rows for one database, scoped to
/// one project id for all queries.
pub struct KnowledgeGraph {
    pub project_id: String,
    pub nodes: Vec<Node>,
    pub edges: Vec<Edge>,
    pub fts: Vec<FtsRow>,
    pub file_texts: Vec<FileText>,
}

impl KnowledgeGraph {
    /// Node ids are unique; edge ids and edge triples are unique; at most one
    /// full-text row per node; at most one stored text per path.
    pub open spec fn wf(&self) -> bool {
        &&& forall|i: int, j: int|
            0 <= i < j < self.nodes@.len() ==> (#[trigger] self.nodes@[i]).id@ != (
            #[trigger] self.nodes@[j]).id@
        &&& forall|i: int, j: int|
            0 <= i < j < self.edges@.len() ==> (#[trigger] self.edges@[i]).id@ != (
            #[trigger] self.edges@[j]).id@
        &&& forall|i: int, j: int|
            0 <= i < j < self.edges@.len() ==> !edge_triple_match(
                #[trigger] self.edges@[i],
                #[trigger] self.edges@[j],
            )
        &&& forall|i: int, j: int|
            0 <= i < j < self.fts@.len() ==> (#[trigger] self.fts@[i]).node_id@ != (
            #[trigger] self.fts@[j]).node_id@
        &&& forall|i: int, j: int|
            0 <= i < j < self.file_texts@.len() ==> (#[trigger] self.file_texts@[i]).path@ != (
            #[trigger] self.file_texts@[j]).path@
    }

    pub open spec fn spec_project_id(&self) -> Seq<char> {
        self.project_id@
    }

    pub fn new(project_id: &str) -> (r: KnowledgeGraph)
        ensures
            r.wf(),
            r.spec_project_id() == project_id@,
            r.nodes@.len() == 0,
            r.edges@.len() == 0,
            r.fts@.len() == 0,
            r.file_texts@.len() == 0,
    {
        KnowledgeGraph {
            project_id: project_id.to_owned(),
            nodes: Vec::new(),
            edges: Vec::new(),
            fts: Vec::new(),
            file_texts: Vec::new(),
        }
    }

    pub fn project_id(&self) -> (r: &str)
        ensures
            r@ == self.spec_project_id(),
    {
        self.project_id.as_str()
    }

    /// Upsert by id: an existing node with the same id is replaced wholesale,
    /// otherwise the node is appended.
    pub fn add_node(&mut self, node: &Node)
        requires
            old(self).wf(),
        ensures
            final(self).wf(),
            final(self).spec_project_id() == old(self).spec_project_id(),
            final(self).edges@ == old(self).edges@,
            final(self).fts@ == old(self).fts@,
            final(self).file_texts@ == old(self).file_texts@,
            // Exactly one row for this id afterwards, holding this node.
            exists|i: int|
                0 <= i < final(self).nodes@.len() && final(self).nodes@[i] == *node,
            // Rows with other ids are untouched, in order.
            if exists|i: int|
                0 <= i < old(self).nodes@.len() && (#[trigger] old(self).nodes@[i]).id@
                    == node.id@ {
                final(self).nodes@ == old(self).nodes@.update(
                    choose|i: int|
                        0 <= i < old(self).nodes@.len() && (#[trigger] old(
                            self,
                        ).nodes@[i]).id@ == node.id@,
                    *node,
                )
            } else {
                final(self).nodes@ == old(self).nodes@.push(*node)
            },
    {
        let n = self.nodes.len();
        let mut i: usize = 0;
        while i < n
            invariant
                *self == *old(self),
                self.wf(),
                n == self.nodes@.len(),
                i <= n,
                forall|j: int| 0 <= j < i ==> (#[trigger] self.nodes@[j]).id@ != node.id@,
            decreases n - i,
        {
            if self.nodes[i].id == node.id {
                let ghost pre = self.nodes@;
                self.nodes.set(i, node.clone());
                proof {
                    assert(pre[i as int].id@ == node.id@);
                    assert(self.nodes@ =~= pre.update(i as int, *node));
                    assert forall|k: int|
                        0 <= k < pre.len() && (#[trigger] pre[k]).id@ == node.id@ implies k
                        == i by {
                        if k < i {
                        } else if k > i {
                            assert(pre[i as int].id@ != pre[k].id@);
                        }
                    }
                    let w = choose|k: int|
                        0 <= k < pre.len() && (#[trigger] pre[k]).id@ == node.id@;
                    assert(w == i);
                    assert forall|a: int, b: int|
                        0 <= a < b < self.nodes@.len() implies (
                        #[trigger] self.nodes@[a]).id@ != (#[trigger] self.nodes@[b]).id@ by {
                        assert(pre[a].id@ != pre[b].id@);
                    }
                    assert(self.nodes@[i as int] == *node);
                }
                return ;
            }
            i = i + 1;
        }
        let ghost pre = self.nodes@;
        self.nodes.push(node.clone());
        proof {
            assert forall|a: int, b: int|
                0 <= a < b < self.nodes@.len() implies (#[trigger] self.nodes@[a]).id@ != (
            #[trigger] self.nodes@[b]).id@ by {
                if b < pre.len() {
                    assert(pre[a].id@ != pre[b].id@);
                } else {
                    assert(self.nodes@[b] == *node);
                    assert(pre[a].id@ != node.id@);
                }
            }
            assert(self.nodes@[pre.len() as int] == *node);
        }
    }

    /// First node with the given id in this project, if any. With `wf` it is
    /// the only one.
    pub fn get_node(&self, node_id: &str) -> (r: Option<Node>)
        requires
            self.wf(),
        ensures
            match r {
                Some(n) => exists|i: int|
                    0 <= i < self.nodes@.len() && #[trigger] self.nodes@[i] == n
                        && node_key_match(n, node_id@, self.spec_project_id()),
                None => forall|i: int|
                    0 <= i < self.nodes@.len() ==> !node_key_match(
                        #[trigger] self.nodes@[i],
                        node_id@,
                        self.spec_project_id(),
                    ),
            },
            forall|i: int|
                0 <= i < self.nodes@.len() && node_key_match(
                    #[trigger] self.nodes@[i],
                    node_id@,
                    self.spec_project_id(),
                ) ==> r == Some(self.nodes@[i]),
    {
        let target: String = node_id.to_owned();
        let n = self.nodes.len();
        let mut i: usize = 0;
        while i < n
            invariant
                self.wf(),
                target@ == node_id@,
                n == self.nodes@.len(),
                i <= n,
                forall|j: int|
                    0 <= j < i ==> !node_key_match(
                        #[trigger] self.nodes@[j],
                        node_id@,
                        self.spec_project_id(),
                    ),
            decreases n - i,
        {
            if self.nodes[i].id == target && self.nodes[i].project_id == self.project_id {
                let found = self.nodes[i].clone();
                proof {
                    assert(node_key_match(self.nodes@[i as int], node_id@, self.spec_project_id()));
                    assert forall|k: int|
                        0 <= k < self.nodes@.len() && node_key_match(
                            #[trigger] self.nodes@[k],
                            node_id@,
                            self.spec_project_id(),
                        ) implies Some(found) == Some(self.nodes@[k]) by {
                        if k != i {
                            assert(self.nodes@[k].id@ == self.nodes@[i as int].id@);
                        }
                    }
                }
                return Some(found);
            }
            i = i + 1;
        }
        None
    }

    /// No-op when an edge with the same id or the same (source, target, type)
    /// triple already exists; otherwise appends.
    pub fn add_edge(&mut self, edge: &Edge)
        requires
            old(self).wf(),
        ensures
            final(self).wf(),
            final(self).spec_project_id() == old(self).spec_project_id(),
            final(self).nodes@ == old(self).nodes@,
            final(self).fts@ == old(self).fts@,
            final(self).file_texts@ == old(self).file_texts@,
            if exists|i: int|
                0 <= i < old(self).edges@.len() && ((#[trigger] old(self).edges@[i]).id@
                    == edge.id@ || edge_triple_match(old(self).edges@[i], *edge)) {
                final(self).edges@ == old(self).edges@
            } else {
                final(self).edges@ == old(self).edges@.push(*edge)
            },
    {
        let n = self.edges.len();
        let mut i: usize = 0;
        while i < n
            invariant
                *self == *old(self),
                self.wf(),
                n == self.edges@.len(),
                i <= n,
                forall|j: int|
                    0 <= j < i ==> !((#[trigger] self.edges@[j]).id@ == edge.id@
                        || edge_triple_match(self.edges@[j], *edge)),
            decreases n - i,
        {
            let e = &self.edges[i];
            if e.id == edge.id || (e.source_id == edge.source_id && e.target_id == edge.target_id
                && e.edge_type == edge.edge_type) {
                proof {
                    assert((self.edges@[i as int]).id@ == edge.id@ || edge_triple_match(
                        self.edges@[i as int],
                        *edge,
                    ));
                }
                return ;
            }
            i = i + 1;
        }
        let ghost pre = self.edges@;
        self.edges.push(edge.clone());
        proof {
            assert forall|a: int, b: int| 0 <= a < b < self.edges@.len() implies (
            #[trigger] self.edges@[a]).id@ != (#[trigger] self.edges@[b]).id@ && !edge_triple_match(
                self.edges@[a],
                self.edges@[b],
            ) by {
                if b < pre.len() {
                    assert(pre[a].id@ != pre[b].id@);
                    assert(!edge_triple_match(pre[a], pre[b]));
                } else {
                    assert(self.edges@[b] == *edge);
                    assert(!(pre[a].id@ == edge.id@ || edge_triple_match(pre[a], *edge)));
                }
            }
        }
    }

    /// Whether no row of any table uses this id: no node id, edge id, edge
    /// endpoint or full-text row carries it.
    pub open spec fn spec_id_free(&self, id: Seq<char>) -> bool {
        &&& forall|j: int| 0 <= j < self.nodes@.len() ==> (#[trigger] self.nodes@[j]).id@ != id
        &&& forall|j: int|
            0 <= j < self.edges@.len() ==> (#[trigger] self.edges@[j]).id@ != id
                && self.edges@[j].source_id@ != id && self.edges@[j].target_id@ != id
        &&& forall|j: int| 0 <= j < self.fts@.len() ==> (#[trigger] self.fts@[j]).node_id@ != id
    }

    /// Whether some row uses this id.
    fn id_in_use(&self, id: &String) -> (r: bool)
        ensures
            r == !self.spec_id_free(id@),
    {
        let mut j: usize = 0;
        while j < self.nodes.len()
            invariant
                j <= self.nodes@.len(),
                forall|t: int| 0 <= t < j ==> (#[trigger] self.nodes@[t]).id@ != id@,
            decreases self.nodes@.len() - j,
        {
            if self.nodes[j].id == *id {
                return true;
            }
            j = j + 1;
        }
        let mut j2: usize = 0;
        while j2 < self.edges.len()
            invariant
                forall|t: int| 0 <= t < self.nodes@.len() ==> (#[trigger] self.nodes@[t]).id@ != id@,
                j2 <= self.edges@.len(),
                forall|t: int|
                    0 <= t < j2 ==> (#[trigger] self.edges@[t]).id@ != id@ && self.edges@[
                        t
                    ].source_id@ != id@ && self.edges@[t].target_id@ != id@,
            decreases self.edges@.len() - j2,
        {
            let e = &self.edges[j2];
            if e.id == *id || e.source_id == *id || e.target_id == *id {
                return true;
            }
            j2 = j2 + 1;
        }
        let mut j3: usize = 0;
        while j3 < self.fts.len()
            invariant
                forall|t: int| 0 <= t < self.nodes@.len() ==> (#[trigger] self.nodes@[t]).id@ != id@,
                forall|t: int|
                    0 <= t < self.edges@.len() ==> (#[trigger] self.edges@[t]).id@ != id@
                        && self.edges@[t].source_id@ != id@ && self.edges@[t].target_id@ != id@,
                j3 <= self.fts@.len(),
                forall|t: int| 0 <= t < j3 ==> (#[trigger] self.fts@[t]).node_id@ != id@,
            decreases self.fts@.len() - j3,
        {
            if self.fts[j3].node_id == *id {
                return true;
            }
            j3 = j3 + 1;
        }
        false
    }

    /// The longest id-like string any table holds.
    fn max_used_id_len(&self) -> (r: usize)
        ensures
            forall|j: int| 0 <= j < self.nodes@.len() ==> (#[trigger] self.nodes@[j]).id@.len() <= r,
            forall|j: int|
                0 <= j < self.edges@.len() ==> (#[trigger] self.edges@[j]).id@.len() <= r
                    && self.edges@[j].source_id@.len() <= r && self.edges@[j].target_id@.len()
                    <= r,
            forall|j: int| 0 <= j < self.fts@.len() ==> (#[trigger] self.fts@[j]).node_id@.len() <= r,
    {
        let mut m: usize = 0;
        let mut j: usize = 0;
        while j < self.nodes.len()
            invariant
                j <= self.nodes@.len(),
                forall|t: int| 0 <= t < j ==> (#[trigger] self.nodes@[t]).id@.len() <= m,
            decreases self.nodes@.len() - j,
        {
            if self.nodes[j].id.as_str().unicode_len() > m {
                m = self.nodes[j].id.as_str().unicode_len();
            }
            j = j + 1;
        }
        let mut j2: usize = 0;
        while j2 < self.edges.len()
            invariant
                forall|t: int| 0 <= t < self.nodes@.len() ==> (#[trigger] self.nodes@[t]).id@.len() <= m,
                j2 <= self.edges@.len(),
                forall|t: int|
                    0 <= t < j2 ==> (#[trigger] self.edges@[t]).id@.len() <= m && self.edges@[
                        t
                    ].source_id@.len() <= m && self.edges@[t].target_id@.len() <= m,
            decreases self.edges@.len() - j2,
        {
            let e = &self.edges[j2];
            if e.id.as_str().unicode_len() > m {
                m = e.id.as_str().unicode_len();
            }
            if e.source_id.as_str().unicode_len() > m {
                m = e.source_id.as_str().unicode_len();
            }
            if e.target_id.as_str().unicode_len() > m {
                m = e.target_id.as_str().unicode_len();
            }
            j2 = j2 + 1;
        }
        let mut j3: usize = 0;
        while j3 < self.fts.len()
            invariant
                forall|t: int| 0 <= t < self.nodes@.len() ==> (#[trigger] self.nodes@[t]).id@.len() <= m,
                forall|t: int|
                    0 <= t < self.edges@.len() ==> (#[trigger] self.edges@[t]).id@.len() <= m
                        && self.edges@[t].source_id@.len() <= m && self.edges@[
                        t
                    ].target_id@.len() <= m,
                j3 <= self.fts@.len(),
                forall|t: int| 0 <= t < j3 ==> (#[trigger] self.fts@[t]).node_id@.len() <= m,
            decreases self.fts@.len() - j3,
        {
            if self.fts[j3].node_id.as_str().unicode_len() > m {
                m = self.fts[j3].node_id.as_str().unicode_len();
            }
            j3 = j3 + 1;
        }
        m
    }

    /// A fresh row id: a random one, lengthened past every stored id in the
    /// unheard-of case that it is already in use.
    pub fn fresh_row_id(&self) -> (r: String)
        ensures
            self.spec_id_free(r@),
    {
        let id = crate::outside::fresh_id();
        if !self.id_in_use(&id) {
            return id;
        }
        let m = self.max_used_id_len();
        let mut v = crate::text::chars_of(id.as_str());
        while v.len() <= m
            invariant
                forall|j: int|
                    0 <= j < self.nodes@.len() ==> (#[trigger] self.nodes@[j]).id@.len() <= m,
                forall|j: int|
                    0 <= j < self.edges@.len() ==> (#[trigger] self.edges@[j]).id@.len() <= m
                        && self.edges@[j].source_id@.len() <= m && self.edges@[
                        j
                    ].target_id@.len() <= m,
                forall|j: int|
                    0 <= j < self.fts@.len() ==> (#[trigger] self.fts@[j]).node_id@.len() <= m,
            decreases m + 1 - v@.len(),
        {
            v.push('x');
        }
        let r = crate::text::string_of(&v);
        proof {
            assert(r@.len() > m);
        }
        r
    }

    /// A node builder stamped with this store's project id.
    pub fn create_node_builder(&self) -> (r: crate::graph_builders::NodeBuilder)
        ensures
            r.node.project_id@ == self.spec_project_id(),
            r.node.id@.len() == 36,
            r.node.node_type == NodeType::Concept,
            r.node.file_path is None,
            r.node.start_line is None,
            r.node.end_line is None,
            r.node.summary is None,
            r.node.content_hash is None,
            r.node.name@.len() == 0,
    {
        crate::graph_builders::NodeBuilder::new(self.project_id())
    }

    /// An edge builder stamped with this store's project id.
    pub fn create_edge_builder(&self) -> (r: crate::graph_builders::EdgeBuilder)
        ensures
            r.edge.project_id@ == self.spec_project_id(),
            r.edge.id@.len() == 36,
            r.edge.edge_type == EdgeType::DependsOn,
            r.edge.weight == 1000,
    {
        crate::graph_builders::EdgeBuilder::new(self.project_id())
    }

    /// The stored text under a path, if any.
    pub open spec fn spec_file_text(&self, path: Seq<char>) -> Option<Seq<char>> {
        find_file_text(self.file_texts@, path)
    }

    /// Stores (or replaces) the engine's snapshot of one file's text.
    pub fn store_file_text(&mut self, path: &str, content: &str)
        requires
            old(self).wf(),
        ensures
            final(self).wf(),
            final(self).spec_project_id() == old(self).spec_project_id(),
            final(self).nodes@ == old(self).nodes@,
            final(self).edges@ == old(self).edges@,
            final(self).fts@ == old(self).fts@,
            final(self).spec_file_text(path@) == Some(content@),
            forall|k: Seq<char>|
                k != path@ ==> #[trigger] final(self).spec_file_text(k) == old(
                    self,
                ).spec_file_text(k),
    {
        let pathv: String = path.to_owned();
        let n = self.file_texts.len();
        let mut i: usize = 0;
        while i < n
            invariant
                *self == *old(self),
                self.wf(),
                pathv@ == path@,
                n == self.file_texts@.len(),
                i <= n,
                forall|j: int| 0 <= j < i ==> (#[trigger] self.file_texts@[j]).path@ != path@,
            decreases n - i,
        {
            if self.file_texts[i].path == pathv {
                let ghost pre = self.file_texts@;
                self.file_texts.set(i, FileText { path: pathv, content: content.to_owned() });
                proof {
                    let post = self.file_texts@;
                    assert forall|a: int, b: int|
                        0 <= a < b < post.len() implies (#[trigger] post[a]).path@ != (
                    #[trigger] post[b]).path@ by {
                        assert(pre[a].path@ != pre[b].path@);
                    }
                    lemma_find_file_text_frame(pre, post, i as int, path@);
                }
                return ;
            }
            i = i + 1;
        }
        let ghost pre = self.file_texts@;
        self.file_texts.push(FileText { path: pathv, content: content.to_owned() });
        proof {
            let post = self.file_texts@;
            assert forall|a: int, b: int|
                0 <= a < b < post.len() implies (#[trigger] post[a]).path@ != (
            #[trigger] post[b]).path@ by {
                if b == pre.len() {
                    assert(post[a] == pre[a]);
                    assert(pre[a].path@ != path@);
                } else {
                    assert(post[a] == pre[a] && post[b] == pre[b]);
                }
            }
            lemma_find_file_text_push(pre, post, path@);
        }
    }

    /// The stored text of a file, if the engine holds one.
    pub fn file_text(&self, path: &str) -> (r: Option<String>)
        ensures
            match r {
                Some(c) => self.spec_file_text(path@) == Some(c@),
                None => self.spec_file_text(path@) is None,
            },
    {
        let pathv: String = path.to_owned();
        let n = self.file_texts.len();
        let mut i: usize = 0;
        proof {
            assert(self.file_texts@.subrange(0, n as int) =~= self.file_texts@);
        }
        while i < n
            invariant
                pathv@ == path@,
                n == self.file_texts@.len(),
                i <= n,
                find_file_text(self.file_texts@, path@) == find_file_text(
                    self.file_texts@.subrange(i as int, n as int),
                    path@,
                ),
            decreases n - i,
        {
            let ghost tail = self.file_texts@.subrange(i as int, n as int);
            proof {
                assert(tail[0] == self.file_texts@[i as int]);
                assert(tail.subrange(1, tail.len() as int) =~= self.file_texts@.subrange(
                    i + 1,
                    n as int,
                ));
            }
            if self.file_texts[i].path == pathv {
                return Some(self.file_texts[i].content.clone());
            }
            i = i + 1;
        }
        None
    }
}

/// The text stored under a path, scanning from the front.
pub open spec fn find_file_text(rows: Seq<FileText>, path: Seq<char>) -> Option<Seq<char>>
    decreases rows.len(),
{
    if rows.len() == 0 {
        None
    } else if rows[0].path@ == path {
        Some(rows[0].content@)
    } else {
        find_file_text(rows.subrange(1, rows.len() as int), path)
    }
}

proof fn lemma_find_file_text_char(rows: Seq<FileText>, path: Seq<char>)
    ensures
        match find_file_text(rows, path) {
            Some(c) => exists|i: int|
                0 <= i < rows.len() && (#[trigger] rows[i]).path@ == path && rows[i].content@
                    == c,
            None => forall|i: int| 0 <= i < rows.len() ==> (#[trigger] rows[i]).path@ != path,
        },
    decreases rows.len(),
{
    if rows.len() > 0 && rows[0].path@ != path {
        let t = rows.subrange(1, rows.len() as int);
        lemma_find_file_text_char(t, path);
        match find_file_text(rows, path) {
            Some(c) => {
                let j = choose|j: int|
                    0 <= j < t.len() && (#[trigger] t[j]).path@ == path && t[j].content@ == c;
                assert(rows[j + 1] == t[j]);
            },
            None => {
                assert forall|i: int| 0 <= i < rows.len() implies (#[trigger] rows[i]).path@
                    != path by {
                    if i >= 1 {
                        assert(t[i - 1] == rows[i]);
                    }
                }
            },
        }
    }
}

proof fn lemma_find_file_text_frame(
    pre: Seq<FileText>,
    post: Seq<FileText>,
    i: int,
    path: Seq<char>,
)
    requires
        0 <= i < pre.len(),
        post.len() == pre.len(),
        forall|j: int| 0 <= j < pre.len() && j != i ==> #[trigger] post[j] == pre[j],
        pre[i].path@ == path,
        post[i].path@ == path,
        forall|a: int, b: int|
            0 <= a < b < pre.len() ==> (#[trigger] pre[a]).path@ != (#[trigger] pre[b]).path@,
        forall|a: int, b: int|
            0 <= a < b < post.len() ==> (#[trigger] post[a]).path@ != (#[trigger] post[b]).path@,
    ensures
        find_file_text(post, path) == Some(post[i].content@),
        forall|k: Seq<char>|
            k != path ==> #[trigger] find_file_text(post, k) == find_file_text(pre, k),
{
    lemma_find_file_text_char(post, path);
    match find_file_text(post, path) {
        Some(c) => {
            let w = choose|w: int|
                0 <= w < post.len() && (#[trigger] post[w]).path@ == path && post[w].content@
                    == c;
            if w != i {
                if w < i {
                    assert(post[w].path@ != post[i].path@);
                } else {
                    assert(post[i].path@ != post[w].path@);
                }
            }
        },
        None => {
            assert(post[i].path@ == path);
        },
    }
    assert forall|k: Seq<char>| k != path implies #[trigger] find_file_text(post, k)
        == find_file_text(pre, k) by {
        lemma_find_file_text_char(post, k);
        lemma_find_file_text_char(pre, k);
        match find_file_text(post, k) {
            Some(c) => {
                let w = choose|w: int|
                    0 <= w < post.len() && (#[trigger] post[w]).path@ == k && post[w].content@
                        == c;
                assert(w != i);
                assert(pre[w] == post[w]);
                match find_file_text(pre, k) {
                    Some(c2) => {
                        let w2 = choose|w2: int|
                            0 <= w2 < pre.len() && (#[trigger] pre[w2]).path@ == k
                                && pre[w2].content@ == c2;
                        assert(post[w2] == pre[w2]);
                        if w2 != w {
                            if w2 < w {
                                assert(pre[w2].path@ != pre[w].path@);
                            } else {
                                assert(pre[w].path@ != pre[w2].path@);
                            }
                        }
                    },
                    None => {
                        assert(pre[w].path@ != k);
                    },
                }
            },
            None => {
                match find_file_text(pre, k) {
                    Some(c2) => {
                        let w2 = choose|w2: int|
                            0 <= w2 < pre.len() && (#[trigger] pre[w2]).path@ == k
                                && pre[w2].content@ == c2;
                        assert(w2 != i);
                        assert(post[w2] == pre[w2]);
                        assert(post[w2].path@ != k);
                    },
                    None => {},
                }
            },
        }
    }
}

proof fn lemma_find_file_text_push(pre: Seq<FileText>, post: Seq<FileText>, path: Seq<char>)
    requires
        post.len() == pre.len() + 1,
        forall|j: int| 0 <= j < pre.len() ==> #[trigger] post[j] == pre[j],
        post[pre.len() as int].path@ == path,
        forall|j: int| 0 <= j < pre.len() ==> (#[trigger] pre[j]).path@ != path,
        forall|a: int, b: int|
            0 <= a < b < post.len() ==> (#[trigger] post[a]).path@ != (#[trigger] post[b]).path@,
    ensures
        find_file_text(post, path) == Some(post[pre.len() as int].content@),
        forall|k: Seq<char>|
            k != path ==> #[trigger] find_file_text(post, k) == find_file_text(pre, k),
{
    lemma_find_file_text_char(post, path);
    match find_file_text(post, path) {
        Some(c) => {
            let w = choose|w: int|
                0 <= w < post.len() && (#[trigger] post[w]).path@ == path && post[w].content@
                    == c;
            if w != pre.len() {
                assert(pre[w].path@ != path);
            }
        },
        None => {
            assert(post[pre.len() as int].path@ == path);
        },
    }
    assert forall|k: Seq<char>| k != path implies #[trigger] find_file_text(post, k)
        == find_file_text(pre, k) by {
        lemma_find_file_text_char(post, k);
        lemma_find_file_text_char(pre, k);
        match find_file_text(post, k) {
            Some(c) => {
                let w = choose|w: int|
                    0 <= w < post.len() && (#[trigger] post[w]).path@ == k && post[w].content@
                        == c;
                assert(w != pre.len());
                assert(post[w] == pre[w]);
                match find_file_text(pre, k) {
                    Some(c2) => {
                        let w2 = choose|w2: int|
                            0 <= w2 < pre.len() && (#[trigger] pre[w2]).path@ == k
                                && pre[w2].content@ == c2;
                        assert(post[w2] == pre[w2]);
                        if w2 != w {
                            if w2 < w {
                                assert(post[w2].path@ != post[w].path@);
                            } else {
                                assert(post[w].path@ != post[w2].path@);
                            }
                        }
                    },
                    None => {
                        assert(pre[w].path@ != k);
                    },
                }
            },
            None => {
                match find_file_text(pre, k) {
                    Some(c2) => {
                        let w2 = choose|w2: int|
                            0 <= w2 < pre.len() && (#[trigger] pre[w2]).path@ == k
                                && pre[w2].content@ == c2;
                        assert(post[w2] == pre[w2]);
                        assert(post[w2].path@ != k);
                    },
                    None => {},
                }
            },
        }
    }
}


} // verus!
