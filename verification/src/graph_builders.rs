//! Builders for nodes and edges. A fresh random id is drawn when a builder
//! is created; every other field starts at its default and is set by the
//! chaining methods.

use crate::graph::{Edge, EdgeType, Node, NodeType};
use vstd::prelude::*;

verus! {

pub struct NodeBuilder {
    pub node: Node,
}

impl NodeBuilder {
    /// A builder whose node has a fresh id, the given project, an empty
    /// name, type `Concept`, and nothing else set.
    pub fn new(project_id: &str) -> (r: NodeBuilder)
        ensures
            r.node.id@.len() == 36,
            r.node.project_id@ == project_id@,
            r.node.name@.len() == 0,
            r.node.node_type == NodeType::Concept,
            r.node.file_path is None,
            r.node.start_line is None,
            r.node.end_line is None,
            r.node.summary is None,
            r.node.content_hash is None,
    {
        NodeBuilder {
            node: Node {
                id: crate::outside::fresh_id(),
                project_id: project_id.to_owned(),
                name: String::new(),
                node_type: NodeType::Concept,
                file_path: None,
                start_line: None,
                end_line: None,
                summary: None,
                content_hash: None,
            },
        }
    }

    pub fn name(self, name: &str) -> (r: Self)
        ensures
            r.node == (Node { name: r.node.name, ..self.node }),
            r.node.name@ == name@,
    {
        NodeBuilder { node: Node { name: name.to_owned(), ..self.node } }
    }

    pub fn node_type(self, node_type: NodeType) -> (r: Self)
        ensures
            r.node == (Node { node_type: node_type, ..self.node }),
    {
        NodeBuilder { node: Node { node_type, ..self.node } }
    }

    pub fn file_path(self, path: &str) -> (r: Self)
        ensures
            r.node == (Node { file_path: r.node.file_path, ..self.node }),
            r.node.file_path is Some && r.node.file_path->0@ == path@,
    {
        NodeBuilder { node: Node { file_path: Some(path.to_owned()), ..self.node } }
    }

    pub fn lines(self, start: i64, end: i64) -> (r: Self)
        ensures
            r.node == (Node { start_line: Some(start), end_line: Some(end), ..self.node }),
    {
        NodeBuilder { node: Node { start_line: Some(start), end_line: Some(end), ..self.node } }
    }

    pub fn summary(self, summary: &str) -> (r: Self)
        ensures
            r.node == (Node { summary: r.node.summary, ..self.node }),
            r.node.summary is Some && r.node.summary->0@ == summary@,
    {
        NodeBuilder { node: Node { summary: Some(summary.to_owned()), ..self.node } }
    }

    pub fn content_hash(self, hash: &str) -> (r: Self)
        ensures
            r.node == (Node { content_hash: r.node.content_hash, ..self.node }),
            r.node.content_hash is Some && r.node.content_hash->0@ == hash@,
    {
        NodeBuilder { node: Node { content_hash: Some(hash.to_owned()), ..self.node } }
    }

    pub fn build(self) -> (r: Node)
        ensures
            r == self.node,
    {
        self.node
    }
}

pub struct EdgeBuilder {
    pub edge: Edge,
}

impl EdgeBuilder {
    /// A builder whose edge has a fresh id, the given project, empty
    /// endpoints, type `DependsOn` and the default weight of one (stored in
    /// thousandths).
    pub fn new(project_id: &str) -> (r: EdgeBuilder)
        ensures
            r.edge.id@.len() == 36,
            r.edge.project_id@ == project_id@,
            r.edge.source_id@.len() == 0,
            r.edge.target_id@.len() == 0,
            r.edge.edge_type == EdgeType::DependsOn,
            r.edge.weight == 1000,
    {
        EdgeBuilder {
            edge: Edge {
                id: crate::outside::fresh_id(),
                project_id: project_id.to_owned(),
                source_id: String::new(),
                target_id: String::new(),
                edge_type: EdgeType::DependsOn,
                weight: 1000,
            },
        }
    }

    pub fn source(self, source_id: &str) -> (r: Self)
        ensures
            r.edge == (Edge { source_id: r.edge.source_id, ..self.edge }),
            r.edge.source_id@ == source_id@,
    {
        EdgeBuilder { edge: Edge { source_id: source_id.to_owned(), ..self.edge } }
    }

    pub fn target(self, target_id: &str) -> (r: Self)
        ensures
            r.edge == (Edge { target_id: r.edge.target_id, ..self.edge }),
            r.edge.target_id@ == target_id@,
    {
        EdgeBuilder { edge: Edge { target_id: target_id.to_owned(), ..self.edge } }
    }

    pub fn edge_type(self, edge_type: EdgeType) -> (r: Self)
        ensures
            r.edge == (Edge { edge_type: edge_type, ..self.edge }),
    {
        EdgeBuilder { edge: Edge { edge_type, ..self.edge } }
    }

    pub fn weight(self, weight: u64) -> (r: Self)
        ensures
            r.edge == (Edge { weight: weight, ..self.edge }),
    {
        EdgeBuilder { edge: Edge { weight, ..self.edge } }
    }

    pub fn build(self) -> (r: Edge)
        ensures
            r == self.edge,
    {
        self.edge
    }
}

} // verus!
