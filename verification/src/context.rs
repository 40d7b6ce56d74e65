//! The compilation context: the resolver's definition tables, handed to
//! the contract emitter.
use vstd::prelude::*;
use crate::resolver::rir::{Field, Graph, Node};
use crate::symbol::{DefId, Ident, TagId};
use crate::symbol::{snake_of, to_snake_str, to_upper_camel_str, upper_camel_of};
use crate::tags::Tags;

verus! {

/// The immutable definition tables, each keyed by a dense id.
#[derive(Debug)]
pub struct Context {
    pub graphs: Vec<Option<Graph>>,
    pub nodes: Vec<Option<Node>>,
    pub fields: Vec<Option<Field>>,
    pub tags: Vec<Tags>,
}

impl Default for Context {
    /// An empty context.
    fn default() -> (r: Context)
        ensures
            r.graphs@.len() == 0,
            r.nodes@.len() == 0,
            r.fields@.len() == 0,
            r.tags@.len() == 0,
    {
        Context::new()
    }
}

impl Context {
    /// An empty context.
    pub fn new() -> (r: Context)
        ensures
            r.graphs@.len() == 0,
            r.nodes@.len() == 0,
            r.fields@.len() == 0,
            r.tags@.len() == 0,
    {
        Context { graphs: Vec::new(), nodes: Vec::new(), fields: Vec::new(), tags: Vec::new() }
    }

    /// Install the graph table.
    pub fn set_graphs(&mut self, graphs: Vec<Option<Graph>>)
        ensures
            final(self).graphs == graphs,
            final(self).nodes == old(self).nodes,
            final(self).fields == old(self).fields,
            final(self).tags == old(self).tags,
    {
        self.graphs = graphs;
    }

    /// Install the node table.
    pub fn set_nodes(&mut self, nodes: Vec<Option<Node>>)
        ensures
            final(self).nodes == nodes,
            final(self).graphs == old(self).graphs,
            final(self).fields == old(self).fields,
            final(self).tags == old(self).tags,
    {
        self.nodes = nodes;
    }

    /// Install the field table.
    pub fn set_fields(&mut self, fields: Vec<Option<Field>>)
        ensures
            final(self).fields == fields,
            final(self).graphs == old(self).graphs,
            final(self).nodes == old(self).nodes,
            final(self).tags == old(self).tags,
    {
        self.fields = fields;
    }

    /// Install the annotation-set table.
    pub fn set_tags(&mut self, tags: Vec<Tags>)
        ensures
            final(self).tags == tags,
            final(self).graphs == old(self).graphs,
            final(self).nodes == old(self).nodes,
            final(self).fields == old(self).fields,
    {
        self.tags = tags;
    }

    /// The graph behind an id, if any.
    pub fn graph(&self, graph_id: DefId) -> (r: Option<&Graph>)
        ensures
            match r {
                Some(g) => graph_id.0 < self.graphs@.len() && self.graphs@[graph_id.0 as int]
                    == Some(*g),
                None => graph_id.0 >= self.graphs@.len() || self.graphs@[graph_id.0 as int]
                    is None,
            },
    {
        if graph_id.0 < self.graphs.len() {
            match &self.graphs[graph_id.0] {
                Some(g) => Some(g),
                None => None,
            }
        } else {
            None
        }
    }

    /// The node behind an id, if any.
    pub fn node(&self, node_id: DefId) -> (r: Option<&Node>)
        ensures
            match r {
                Some(n) => node_id.0 < self.nodes@.len() && self.nodes@[node_id.0 as int] == Some(
                    *n,
                ),
                None => node_id.0 >= self.nodes@.len() || self.nodes@[node_id.0 as int] is None,
            },
    {
        if node_id.0 < self.nodes.len() {
            match &self.nodes[node_id.0] {
                Some(n) => Some(n),
                None => None,
            }
        } else {
            None
        }
    }

    /// The field behind an id, if any.
    pub fn field(&self, field_id: DefId) -> (r: Option<&Field>)
        ensures
            match r {
                Some(f) => field_id.0 < self.fields@.len() && self.fields@[field_id.0 as int]
                    == Some(*f),
                None => field_id.0 >= self.fields@.len() || self.fields@[field_id.0 as int]
                    is None,
            },
    {
        if field_id.0 < self.fields.len() {
            match &self.fields[field_id.0] {
                Some(f) => Some(f),
                None => None,
            }
        } else {
            None
        }
    }

    /// The annotation set behind a tag id, if any.
    pub fn tag(&self, tag_id: TagId) -> (r: Option<&Tags>)
        ensures
            match r {
                Some(t) => tag_id.0 < self.tags@.len() && self.tags@[tag_id.0 as int] == *t,
                None => tag_id.0 >= self.tags@.len(),
            },
    {
        if tag_id.0 < self.tags.len() {
            Some(&self.tags[tag_id.0])
        } else {
            None
        }
    }

    /// The snake_case rendering of an identifier.
    pub fn snake_name(&self, ident: &Ident) -> (r: String)
        ensures
            r@ == snake_of(ident@),
    {
        to_snake_str(ident.sym.0.as_str())
    }

    /// The UpperCamelCase rendering of an identifier.
    pub fn upper_camel_name(&self, ident: &Ident) -> (r: String)
        ensures
            r@ == upper_camel_of(ident@),
    {
        to_upper_camel_str(ident.sym.0.as_str())
    }
}

} // verus!
