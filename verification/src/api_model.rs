//! What the operations on a view take and keep: a node as it is asked for
//! or answered, a search, and the state of a view.

use crate::collections::{StringMap, StringSet};
use crate::model::{Graph, GraphView};
use vstd::prelude::*;

verus! {

/// A node by its identifier, with a name where one is given.
#[derive(Debug, PartialEq, Eq)]
pub struct Node {
    pub id: String,
    pub name: Option<String>,
}

/// The value of a [`Node`].
pub struct NodeView {
    pub id: Seq<char>,
    pub name: Option<Seq<char>>,
}

impl View for Node {
    type V = NodeView;

    open spec fn view(&self) -> NodeView {
        NodeView {
            id: self.id@,
            name: match self.name {
                Some(name) => Some(name@),
                None => None,
            },
        }
    }
}

impl Clone for Node {
    fn clone(&self) -> (n: Self)
        ensures
            n@ == self@,
    {
        Node {
            id: self.id.clone(),
            name: match &self.name {
                Some(name) => Some(name.clone()),
                None => None,
            },
        }
    }
}

impl Default for Node {
    fn default() -> (n: Self)
        ensures
            n@.id.len() == 0,
            n@.name is None,
    {
        Node { id: String::new(), name: None }
    }
}

/// The values of a list of nodes.
pub open spec fn nodes_view(nodes: Seq<Node>) -> Seq<NodeView> {
    Seq::new(nodes.len(), |i: int| nodes[i]@)
}

/// A search: for nodes whose name holds `hint_node_id`, among the nodes
/// that `related_node_id` has an edge to. Either may be left out.
#[derive(Debug, PartialEq, Eq)]
pub struct SearchNodeQuery {
    pub related_node_id: Option<String>,
    pub hint_node_id: Option<String>,
}

impl Clone for SearchNodeQuery {
    fn clone(&self) -> (q: Self)
        ensures
            q.related_node_id is Some == self.related_node_id is Some,
            q.hint_node_id is Some == self.hint_node_id is Some,
            q.related_node_id matches Some(id) ==> id@ == self.related_node_id.unwrap()@,
            q.hint_node_id matches Some(hint) ==> hint@ == self.hint_node_id.unwrap()@,
    {
        SearchNodeQuery {
            related_node_id: match &self.related_node_id {
                Some(id) => Some(id.clone()),
                None => None,
            },
            hint_node_id: match &self.hint_node_id {
                Some(hint) => Some(hint.clone()),
                None => None,
            },
        }
    }
}

impl Default for SearchNodeQuery {
    fn default() -> (q: Self)
        ensures
            q.related_node_id is None,
            q.hint_node_id is None,
    {
        SearchNodeQuery { related_node_id: None, hint_node_id: None }
    }
}

/// The state of a view: the loaded graph, the names of its nodes, its
/// edges by their start and by their end, the names given by hand, and the
/// nodes that are shown.
#[derive(Debug)]
pub struct AppState {
    pub graph: Graph,
    pub node_id_to_name: StringMap<String>,
    pub edge_from_to: StringMap<StringSet>,
    pub edge_to_from: StringMap<StringSet>,
    pub node_id_to_new_name: StringMap<String>,
    pub node_set: StringSet,
}

impl Clone for AppState {
    fn clone(&self) -> (s: Self)
        ensures
            s.graph@ == self.graph@,
            s.node_id_to_name@ == self.node_id_to_name@,
            s.edge_from_to@ == self.edge_from_to@,
            s.edge_to_from@ == self.edge_to_from@,
            s.node_id_to_new_name@ == self.node_id_to_new_name@,
            s.node_set@ == self.node_set@,
    {
        AppState {
            graph: self.graph.clone(),
            node_id_to_name: self.node_id_to_name.copy(),
            edge_from_to: self.edge_from_to.copy(),
            edge_to_from: self.edge_to_from.copy(),
            node_id_to_new_name: self.node_id_to_new_name.copy(),
            node_set: self.node_set.copy(),
        }
    }
}

impl Default for AppState {
    fn default() -> (s: Self)
        ensures
            s.graph@ == (GraphView {
                id: Seq::empty(),
                nodes: Seq::empty(),
                edges: Seq::empty(),
                edges_not_node: Seq::empty(),
            }),
            s.node_id_to_name@.len() == 0,
            s.edge_from_to@.len() == 0,
            s.edge_to_from@.len() == 0,
            s.node_id_to_new_name@.len() == 0,
            s.node_set@.len() == 0,
    {
        AppState {
            graph: Graph::default(),
            node_id_to_name: StringMap::new(),
            edge_from_to: StringMap::new(),
            edge_to_from: StringMap::new(),
            node_id_to_new_name: StringMap::new(),
            node_set: StringSet::new(),
        }
    }
}

impl AppState {
    /// Two states have the same graph, names and edges.
    pub open spec fn same_base(self, other: AppState) -> bool {
        &&& self.graph == other.graph
        &&& self.node_id_to_name == other.node_id_to_name
        &&& self.edge_from_to == other.edge_from_to
        &&& self.edge_to_from == other.edge_to_from
    }
}

} // verus!
