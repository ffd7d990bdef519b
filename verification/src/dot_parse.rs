//! Loading a graph from its description. A description is parsed into
//! statements; node statements give label trees, edge statements give
//! edges between ports, and the endpoints that name no label node are
//! set aside.

use crate::collections::{lemma_concat_contains, StringSet};
use crate::error::{EdgeFault, Error, NodeFault};
use crate::markup::{check_html, label_of};
use crate::markup_tree::{is_walk_of_tree, parsed_markup, tree_of};
use crate::model::{
    edges_view, labels_view, lemma_label_children, Edge, EdgeView, Graph, GraphView, HtmlNode,
    LabelView,
};
use crate::text::{push_char, remove_all, to_chars, to_string, without};
use vstd::prelude::*;
use vstd::string::StringExecFns;

verus! {

/// An identifier of the graph language, by the way it was written.
#[derive(Debug, PartialEq, Eq, Hash)]
pub enum DotId {
    /// Markup between angle brackets.
    Html(String),
    /// A quoted string, quotes included.
    Escaped(String),
    /// A bare word or a number.
    Plain(String),
    /// The name of something that was given none.
    Anonymous(String),
}

/// The port of an endpoint: its name, if it has one.
#[derive(Debug, PartialEq, Eq, Hash)]
pub struct DotPort {
    pub id: Option<DotId>,
}

/// The name of a node, with the port if one is given.
#[derive(Debug, PartialEq, Eq, Hash)]
pub struct DotNodeId {
    pub id: DotId,
    pub port: Option<DotPort>,
}

/// An attribute: a key and a value.
#[derive(Debug, PartialEq, Eq, Hash)]
pub struct DotAttribute {
    pub key: DotId,
    pub value: DotId,
}

/// A node statement.
#[derive(Debug, PartialEq, Eq, Hash)]
pub struct DotNode {
    pub id: DotNodeId,
    pub attributes: Vec<DotAttribute>,
}

/// An endpoint of an edge.
#[derive(Debug, PartialEq, Eq, Hash)]
pub enum DotVertex {
    /// A node, perhaps with a port.
    Node(DotNodeId),
    /// A subgraph.
    Subgraph,
}

/// An edge statement: between two endpoints, or along more.
#[derive(Debug, PartialEq, Eq, Hash)]
pub enum DotEdge {
    /// From the first endpoint to the second.
    Pair(DotVertex, DotVertex),
    /// Along three endpoints or more.
    Chain,
}

/// A statement of a graph description.
#[derive(Debug, PartialEq, Eq, Hash)]
pub enum DotStmt {
    Node(DotNode),
    Subgraph,
    Attribute,
    GAttribute,
    Edge(DotEdge),
}

/// A parsed graph description.
#[derive(Debug, PartialEq, Eq, Hash)]
pub enum DotGraph {
    /// An undirected graph.
    Graph { id: DotId, stmts: Vec<DotStmt> },
    /// A directed graph.
    DiGraph { id: DotId, stmts: Vec<DotStmt> },
}

/// `dot_structures::Id` of the parser's crate, carried through unopened.
#[verifier::external_type_specification]
#[verifier::external_body]
pub struct ExId(graphviz_rust::dot_structures::Id);

/// `dot_structures::NodeId` of the parser's crate, carried through unopened.
#[verifier::external_type_specification]
#[verifier::external_body]
pub struct ExNodeId(graphviz_rust::dot_structures::NodeId);

/// `dot_structures::EdgeTy` of the parser's crate, carried through unopened.
#[verifier::external_type_specification]
#[verifier::external_body]
pub struct ExEdgeTy(graphviz_rust::dot_structures::EdgeTy);

/// `dot_structures::Stmt` of the parser's crate, carried through unopened.
#[verifier::external_type_specification]
#[verifier::external_body]
pub struct ExStmt(graphviz_rust::dot_structures::Stmt);

/// Tells the four variants of `dot_structures::Id` apart and moves the
/// text of each over. Nothing is claimed of the result.
#[verifier::external_body]
fn dot_id(id: graphviz_rust::dot_structures::Id) -> DotId {
    match id {
        graphviz_rust::dot_structures::Id::Html(text) => DotId::Html(text),
        graphviz_rust::dot_structures::Id::Escaped(text) => DotId::Escaped(text),
        graphviz_rust::dot_structures::Id::Plain(text) => DotId::Plain(text),
        graphviz_rust::dot_structures::Id::Anonymous(text) => DotId::Anonymous(text),
    }
}

/// Moves the two fields of a `dot_structures::NodeId` over, and of its
/// `Port` the name. Nothing is claimed of the result.
#[verifier::external_body]
fn dot_node_id(id: graphviz_rust::dot_structures::NodeId) -> DotNodeId {
    DotNodeId { id: dot_id(id.0), port: id.1.map(|port| DotPort { id: port.0.map(dot_id) }) }
}

/// Tells the two variants of `dot_structures::EdgeTy` apart, and the two
/// variants of each `Vertex` of a pair. Nothing is claimed of the result.
#[verifier::external_body]
fn dot_edge(ty: graphviz_rust::dot_structures::EdgeTy) -> DotEdge {
    let vertex = |vertex| match vertex {
        graphviz_rust::dot_structures::Vertex::N(id) => DotVertex::Node(dot_node_id(id)),
        graphviz_rust::dot_structures::Vertex::S(_) => DotVertex::Subgraph,
    };
    match ty {
        graphviz_rust::dot_structures::EdgeTy::Pair(a, b) => DotEdge::Pair(vertex(a), vertex(b)),
        graphviz_rust::dot_structures::EdgeTy::Chain(_) => DotEdge::Chain,
    }
}

/// Tells the five variants of `dot_structures::Stmt` apart. Of a node it
/// moves the name and the two fields of each `Attribute` over, of an edge
/// the `EdgeTy`. Nothing is claimed of the result.
#[verifier::external_body]
fn dot_stmt(stmt: graphviz_rust::dot_structures::Stmt) -> DotStmt {
    match stmt {
        graphviz_rust::dot_structures::Stmt::Node(node) => DotStmt::Node(DotNode {
            id: dot_node_id(node.id),
            attributes: node.attributes.into_iter()
                .map(|a| DotAttribute { key: dot_id(a.0), value: dot_id(a.1) }).collect(),
        }),
        graphviz_rust::dot_structures::Stmt::Subgraph(_) => DotStmt::Subgraph,
        graphviz_rust::dot_structures::Stmt::Attribute(_) => DotStmt::Attribute,
        graphviz_rust::dot_structures::Stmt::GAttribute(_) => DotStmt::GAttribute,
        graphviz_rust::dot_structures::Stmt::Edge(edge) => DotStmt::Edge(dot_edge(edge.ty)),
    }
}

/// What the parser of the graph language makes of `source`: the graph, or
/// its message when `source` is no graph description.
pub uninterp spec fn parsed_dot(source: Seq<char>) -> Result<DotGraph, String>;

/// Parses `source` with `graphviz_rust::parse` and tells the two variants
/// of the `dot_structures::Graph` it gives apart. The contract claims only
/// that the result is a function of `source`.
#[verifier::external_body]
fn parse_dot(source: &str) -> (r: Result<DotGraph, String>)
    ensures
        r == parsed_dot(source@),
{
    graphviz_rust::parse(source).map(
        |graph| match graph {
            graphviz_rust::dot_structures::Graph::Graph { id, stmts, .. } => DotGraph::Graph {
                id: dot_id(id),
                stmts: stmts.into_iter().map(dot_stmt).collect(),
            },
            graphviz_rust::dot_structures::Graph::DiGraph { id, stmts, .. } => DotGraph::DiGraph {
                id: dot_id(id),
                stmts: stmts.into_iter().map(dot_stmt).collect(),
            },
        },
    )
}

/// The markup of a node declaration: the node is named by a quoted string
/// and its second attribute has a plain key and markup as its value.
pub open spec fn markup_of(node: DotNode) -> Result<Seq<char>, Error> {
    if !(node.id.id is Escaped) {
        Err(Error::InvalidNodeDeclaration(NodeFault::Id))
    } else if node.attributes@.len() < 2 {
        Err(Error::InvalidNodeDeclaration(NodeFault::AttributeCount))
    } else if !(node.attributes@[1].key is Plain) {
        Err(Error::InvalidNodeDeclaration(NodeFault::AttributeKey))
    } else {
        match node.attributes@[1].value {
            DotId::Html(html) => Ok(html@),
            _ => Err(Error::InvalidNodeDeclaration(NodeFault::AttributeValue)),
        }
    }
}

/// The label tree that a piece of markup gives: that of the tree that the
/// parser walks over, if it walks over one.
pub open spec fn label_of_markup(html: Seq<char>) -> Result<LabelView, Error> {
    if is_walk_of_tree(parsed_markup(html)) {
        Ok(label_of(tree_of(parsed_markup(html))))
    } else {
        Err(Error::MalformedMarkup)
    }
}

/// The label tree of a node declaration.
pub open spec fn label_of_node(node: DotNode) -> Result<LabelView, Error> {
    match markup_of(node) {
        Ok(html) => label_of_markup(html),
        Err(e) => Err(e),
    }
}

/// The endpoint that a vertex names, written `node:port`: the node is a
/// plain word and the port a quoted string, which loses its quotes.
pub open spec fn endpoint_of(vertex: DotVertex) -> Result<Seq<char>, Error> {
    match vertex {
        DotVertex::Subgraph => Err(Error::InvalidEdgeDeclaration(EdgeFault::VertexType)),
        DotVertex::Node(node) => match node.id {
            DotId::Plain(name) => match node.port {
                None => Err(Error::InvalidEdgeDeclaration(EdgeFault::MissingPort)),
                Some(port) => match port.id {
                    None => Err(Error::InvalidEdgeDeclaration(EdgeFault::MissingPortId)),
                    Some(DotId::Escaped(quoted)) => Ok(
                        name@ + seq![':'] + without(quoted@, "\""@),
                    ),
                    Some(_) => Err(Error::InvalidEdgeDeclaration(EdgeFault::PortId)),
                },
            },
            _ => Err(Error::InvalidEdgeDeclaration(EdgeFault::VertexId)),
        },
    }
}

/// The edge of an edge declaration: a pair of endpoints. A fault of the
/// first endpoint comes before one of the second.
pub open spec fn edge_of(edge: DotEdge) -> Result<EdgeView, Error> {
    match edge {
        DotEdge::Chain => Err(Error::InvalidEdgeDeclaration(EdgeFault::EdgeType)),
        DotEdge::Pair(from, to) => match endpoint_of(from) {
            Err(e) => Err(e),
            Ok(from) => match endpoint_of(to) {
                Err(e) => Err(e),
                Ok(to) => Ok(EdgeView { from, to }),
            },
        },
    }
}

/// An identifier as it is shown: a plain word as it is, the others behind
/// a word that says how they were written.
pub open spec fn shown_id(id: DotId) -> Seq<char> {
    match id {
        DotId::Html(text) => "html "@ + text@,
        DotId::Escaped(text) => "esc "@ + text@,
        DotId::Plain(text) => text@,
        DotId::Anonymous(text) => "anon "@ + text@,
    }
}

/// The label trees and the edges that a list of statements declares, in
/// order, or the first fault. Subgraphs and graph attributes declare
/// nothing; a bare attribute is not accepted.
pub open spec fn declared(stmts: Seq<DotStmt>) -> Result<(Seq<LabelView>, Seq<EdgeView>), Error>
    decreases stmts.len(),
{
    if stmts.len() == 0 {
        Ok((Seq::empty(), Seq::empty()))
    } else {
        match declared(stmts.drop_last()) {
            Err(e) => Err(e),
            Ok((nodes, edges)) => match stmts.last() {
                DotStmt::Node(node) => match label_of_node(node) {
                    Ok(label) => Ok((nodes.push(label), edges)),
                    Err(e) => Err(e),
                },
                DotStmt::Edge(edge) => match edge_of(edge) {
                    Ok(edge) => Ok((nodes, edges.push(edge))),
                    Err(e) => Err(e),
                },
                DotStmt::Subgraph => Ok((nodes, edges)),
                DotStmt::GAttribute => Ok((nodes, edges)),
                DotStmt::Attribute => Err(Error::UnsupportedStatement),
            },
        }
    }
}

/// The identifiers of a label node and of everything below it.
pub open spec fn node_ids(node: LabelView) -> Seq<Seq<char>>
    decreases node, 0nat,
{
    seq![node.id] + forest_ids(node.children)
}

/// The identifiers of all the nodes of a forest.
pub open spec fn forest_ids(nodes: Seq<LabelView>) -> Seq<Seq<char>>
    decreases nodes, nodes.len(),
{
    if nodes.len() == 0 {
        Seq::empty()
    } else {
        forest_ids(nodes.drop_last()) + node_ids(nodes.last())
    }
}

/// The endpoints of a list of edges: of each edge its start, then its end.
pub open spec fn endpoints(edges: Seq<EdgeView>) -> Seq<Seq<char>>
    decreases edges.len(),
{
    if edges.len() == 0 {
        Seq::empty()
    } else {
        endpoints(edges.drop_last()).push(edges.last().from).push(edges.last().to)
    }
}

/// The members of `names` that are not in `known`, each once, in the order
/// in which they first come.
pub open spec fn unknown(names: Seq<Seq<char>>, known: Seq<Seq<char>>) -> Seq<Seq<char>>
    decreases names.len(),
{
    if names.len() == 0 {
        Seq::empty()
    } else {
        let before = unknown(names.drop_last(), known);
        if known.contains(names.last()) || before.contains(names.last()) {
            before
        } else {
            before.push(names.last())
        }
    }
}

/// The graph with the given name, forest and edges, and with the endpoints
/// that name no node of the forest.
pub open spec fn checked_graph(id: Seq<char>, nodes: Seq<LabelView>, edges: Seq<EdgeView>) -> GraphView {
    GraphView { id, nodes, edges, edges_not_node: unknown(endpoints(edges), forest_ids(nodes)) }
}

/// Every endpoint of every edge of a graph names a node of its forest or is
/// set aside; what is set aside names no node and is set aside once.
pub open spec fn endpoints_accounted(g: GraphView) -> bool {
    &&& forall|i: int|
        0 <= i < g.edges.len() ==> {
            &&& forest_ids(g.nodes).contains((#[trigger] g.edges[i]).from)
                || g.edges_not_node.contains(g.edges[i].from)
            &&& forest_ids(g.nodes).contains(g.edges[i].to) || g.edges_not_node.contains(
                g.edges[i].to,
            )
        }
    &&& forall|k: int|
        0 <= k < g.edges_not_node.len() ==> !forest_ids(g.nodes).contains(
            #[trigger] g.edges_not_node[k],
        )
    &&& g.edges_not_node.no_duplicates()
}

/// What is set aside of a list of names are the names that are not known,
/// each once.
pub proof fn lemma_unknown(names: Seq<Seq<char>>, known: Seq<Seq<char>>, x: Seq<char>)
    ensures
        unknown(names, known).contains(x) <==> names.contains(x) && !known.contains(x),
        unknown(names, known).no_duplicates(),
    decreases names.len(),
{
    if names.len() > 0 {
        let before = unknown(names.drop_last(), known);
        let last = names.last();
        lemma_unknown(names.drop_last(), known, x);
        lemma_unknown(names.drop_last(), known, last);
        assert(names =~= names.drop_last().push(last));
        lemma_concat_contains(names.drop_last(), seq![last], x);
        assert(names.drop_last() + seq![last] =~= names);
        assert(seq![last].contains(x) <==> x == last) by {
            if x == last {
                assert(seq![last][0] == x);
            }
        }
        if !(known.contains(last) || before.contains(last)) {
            lemma_concat_contains(before, seq![last], x);
            assert(before + seq![last] =~= before.push(last));
            assert forall|i: int, j: int|
                0 <= i < before.len() + 1 && 0 <= j < before.len() + 1 && i != j implies before.push(
                last,
            )[i] != before.push(last)[j] by {
                if i < before.len() && j < before.len() {
                } else if i < before.len() {
                    assert(before.contains(before[i]));
                } else {
                    assert(before.contains(before[j]));
                }
            }
        }
    }
}

/// Both ends of every edge are among the endpoints.
pub proof fn lemma_endpoints(edges: Seq<EdgeView>, i: int)
    requires
        0 <= i < edges.len(),
    ensures
        endpoints(edges).contains(edges[i].from),
        endpoints(edges).contains(edges[i].to),
    decreases edges.len(),
{
    let before = endpoints(edges.drop_last());
    let all = endpoints(edges);
    if i == edges.len() - 1 {
        assert(all[before.len() as int] == edges[i].from);
        assert(all[before.len() as int + 1] == edges[i].to);
    } else {
        lemma_endpoints(edges.drop_last(), i);
        let p = choose|p: int| 0 <= p < before.len() && before[p] == edges[i].from;
        assert(all[p] == edges[i].from);
        let q = choose|q: int| 0 <= q < before.len() && before[q] == edges[i].to;
        assert(all[q] == edges[i].to);
    }
}

/// In a checked graph every endpoint is accounted for.
pub proof fn lemma_checked_graph(id: Seq<char>, nodes: Seq<LabelView>, edges: Seq<EdgeView>)
    ensures
        endpoints_accounted(checked_graph(id, nodes, edges)),
{
    let g = checked_graph(id, nodes, edges);
    let known = forest_ids(nodes);
    let ends = endpoints(edges);
    assert forall|i: int| 0 <= i < g.edges.len() implies {
        &&& forest_ids(g.nodes).contains((#[trigger] g.edges[i]).from)
            || g.edges_not_node.contains(g.edges[i].from)
        &&& forest_ids(g.nodes).contains(g.edges[i].to) || g.edges_not_node.contains(
            g.edges[i].to,
        )
    } by {
        lemma_endpoints(edges, i);
        lemma_unknown(ends, known, edges[i].from);
        lemma_unknown(ends, known, edges[i].to);
    }
    assert forall|k: int| 0 <= k < g.edges_not_node.len() implies !forest_ids(g.nodes).contains(
        #[trigger] g.edges_not_node[k],
    ) by {
        lemma_unknown(ends, known, g.edges_not_node[k]);
        assert(g.edges_not_node.contains(g.edges_not_node[k]));
    }
    lemma_unknown(ends, known, Seq::empty());
}

/// The graph with the given name that a list of statements gives.
pub open spec fn directed_graph(name: Seq<char>, stmts: Seq<DotStmt>) -> Result<GraphView, Error> {
    match declared(stmts) {
        Err(e) => Err(e),
        Ok((nodes, edges)) => Ok(checked_graph(name, nodes, edges)),
    }
}

/// The graph that a parsed description gives. Its name is the identifier
/// of the description as it is shown, without quotes. An undirected graph
/// gives the empty graph.
pub open spec fn graph_of(dot: DotGraph) -> Result<GraphView, Error> {
    match dot {
        DotGraph::Graph { .. } => Ok(checked_graph(Seq::empty(), Seq::empty(), Seq::empty())),
        DotGraph::DiGraph { id, stmts } => directed_graph(without(shown_id(id), "\""@), stmts@),
    }
}

/// The graph that a description gives.
pub open spec fn graph_of_source(source: Seq<char>) -> Result<GraphView, Error> {
    match parsed_dot(source) {
        Err(detail) => Err(Error::SourceSyntaxError(detail)),
        Ok(dot) => graph_of(dot),
    }
}

/// The label tree of a node declaration.
pub fn check_node(node: DotNode) -> (r: Result<HtmlNode, Error>)
    ensures
        match r {
            Ok(label) => label_of_node(node) == Ok::<LabelView, Error>(label@),
            Err(e) => label_of_node(node) == Err::<LabelView, Error>(e),
        },
{
    match &node.id.id {
        DotId::Escaped(_) => {},
        _ => {
            return Err(Error::InvalidNodeDeclaration(NodeFault::Id));
        },
    }
    if node.attributes.len() < 2 {
        return Err(Error::InvalidNodeDeclaration(NodeFault::AttributeCount));
    }
    match &node.attributes[1].key {
        DotId::Plain(_) => {},
        _ => {
            return Err(Error::InvalidNodeDeclaration(NodeFault::AttributeKey));
        },
    }
    match &node.attributes[1].value {
        DotId::Html(html) => check_html(html.clone()),
        _ => Err(Error::InvalidNodeDeclaration(NodeFault::AttributeValue)),
    }
}

/// The endpoint that a vertex names.
pub fn check_vertex(vertex: DotVertex) -> (r: Result<String, Error>)
    ensures
        match r {
            Ok(endpoint) => endpoint_of(vertex) == Ok::<Seq<char>, Error>(endpoint@),
            Err(e) => endpoint_of(vertex) == Err::<Seq<char>, Error>(e),
        },
{
    let node = match vertex {
        DotVertex::Node(node) => node,
        DotVertex::Subgraph => {
            return Err(Error::InvalidEdgeDeclaration(EdgeFault::VertexType));
        },
    };
    let name = match node.id {
        DotId::Plain(name) => name,
        _ => {
            return Err(Error::InvalidEdgeDeclaration(EdgeFault::VertexId));
        },
    };
    let port = match node.port {
        Some(port) => port,
        None => {
            return Err(Error::InvalidEdgeDeclaration(EdgeFault::MissingPort));
        },
    };
    let port_id = match port.id {
        Some(id) => id,
        None => {
            return Err(Error::InvalidEdgeDeclaration(EdgeFault::MissingPortId));
        },
    };
    let quoted = match port_id {
        DotId::Escaped(quoted) => quoted,
        _ => {
            return Err(Error::InvalidEdgeDeclaration(EdgeFault::PortId));
        },
    };
    let bare = to_string(&remove_all(&to_chars(quoted.as_str()), &to_chars("\"")));
    let ghost start = name@;
    let mut endpoint = name;
    push_char(&mut endpoint, ':');
    endpoint.append(bare.as_str());
    assert(endpoint@ =~= start + seq![':'] + bare@);
    Ok(endpoint)
}

/// The edge of an edge declaration.
pub fn check_edge(edge: DotEdge) -> (r: Result<Edge, Error>)
    ensures
        match r {
            Ok(e) => edge_of(edge) == Ok::<EdgeView, Error>(e@),
            Err(e) => edge_of(edge) == Err::<EdgeView, Error>(e),
        },
{
    match edge {
        DotEdge::Pair(from, to) => {
            let from_id = check_vertex(from)?;
            let to_id = check_vertex(to)?;
            Ok(Edge { from: from_id, to: to_id })
        },
        DotEdge::Chain => Err(Error::InvalidEdgeDeclaration(EdgeFault::EdgeType)),
    }
}

/// Adds to `node_set` the identifier of `node` and of every node below it.
pub fn check_graph_node(node: &HtmlNode, node_set: &mut StringSet)
    ensures
        forall|x: Seq<char>| #[trigger]
            final(node_set)@.contains(x) <==> old(node_set)@.contains(x) || node_ids(
                node@,
            ).contains(x),
    decreases node,
{
    let ghost before = node_set@;
    let ghost below = node@.children;
    node_set.insert(node.id.clone());
    proof {
        lemma_label_children(*node);
        assert(below.take(0) =~= Seq::<LabelView>::empty());
        assert forall|x: Seq<char>| #[trigger]
            node_set@.contains(x) <==> before.contains(x) || x == node.id@ by {
            if before.contains(x) {
                let i = choose|i: int| 0 <= i < before.len() && before[i] == x;
                assert(node_set@[i] == x);
            }
            if x == node.id@ && !before.contains(x) {
                assert(node_set@[before.len() as int] == x);
            }
        }
    }
    let mut i: usize = 0;
    while i < node.children.len()
        invariant
            i <= node.children.len(),
            below == labels_view(node.children@),
            forall|x: Seq<char>| #[trigger]
                node_set@.contains(x) <==> before.contains(x) || x == node.id@ || forest_ids(
                    below.take(i as int),
                ).contains(x),
        decreases node.children.len() - i,
    {
        let ghost so_far = node_set@;
        check_graph_node(&node.children[i], node_set);
        proof {
            assert(below.take(i + 1).drop_last() =~= below.take(i as int));
            assert(below.take(i + 1).last() == node.children@[i as int]@);
            assert forall|x: Seq<char>| #[trigger]
                node_set@.contains(x) <==> before.contains(x) || x == node.id@ || forest_ids(
                    below.take(i + 1),
                ).contains(x) by {
                lemma_concat_contains(
                    forest_ids(below.take(i as int)),
                    node_ids(node.children@[i as int]@),
                    x,
                );
                assert(so_far.contains(x) <==> before.contains(x) || x == node.id@ || forest_ids(
                    below.take(i as int),
                ).contains(x));
            }
        }
        i += 1;
    }
    proof {
        assert(below.take(i as int) =~= below);
        assert forall|x: Seq<char>| #[trigger]
            node_set@.contains(x) <==> before.contains(x) || node_ids(node@).contains(x) by {
            lemma_concat_contains(seq![node.id@], forest_ids(below), x);
            if x == node.id@ {
                assert(seq![node.id@][0] == x);
            }
        }
    }
}

/// Sets aside, in `edges_not_node`, the edge endpoints of `graph` that name
/// no node of its forest.
pub fn check_graph(graph: &mut Graph)
    ensures
        final(graph)@ == checked_graph(old(graph)@.id, old(graph)@.nodes, old(graph)@.edges),
        endpoints_accounted(final(graph)@),
{
    proof {
        lemma_checked_graph(graph@.id, graph@.nodes, graph@.edges);
    }
    let ghost forest = labels_view(graph.nodes@);
    let ghost links = edges_view(graph.edges@);
    let ghost known = forest_ids(forest);
    let mut node_set = StringSet::new();
    let mut i: usize = 0;
    assert(forest.take(0) =~= Seq::<LabelView>::empty());
    while i < graph.nodes.len()
        invariant
            i <= graph.nodes.len(),
            forest == labels_view(graph.nodes@),
            forall|x: Seq<char>| #[trigger]
                node_set@.contains(x) <==> forest_ids(forest.take(i as int)).contains(x),
        decreases graph.nodes.len() - i,
    {
        let ghost so_far = node_set@;
        check_graph_node(&graph.nodes[i], &mut node_set);
        proof {
            assert(forest.take(i + 1).drop_last() =~= forest.take(i as int));
            assert(forest.take(i + 1).last() == graph.nodes@[i as int]@);
            assert forall|x: Seq<char>| #[trigger]
                node_set@.contains(x) <==> forest_ids(forest.take(i + 1)).contains(x) by {
                lemma_concat_contains(
                    forest_ids(forest.take(i as int)),
                    node_ids(graph.nodes@[i as int]@),
                    x,
                );
                assert(so_far.contains(x) <==> forest_ids(forest.take(i as int)).contains(x));
            }
        }
        i += 1;
    }
    assert(forest.take(i as int) =~= forest);
    let mut missing = StringSet::new();
    let mut j: usize = 0;
    assert(links.take(0) =~= Seq::<EdgeView>::empty());
    while j < graph.edges.len()
        invariant
            j <= graph.edges.len(),
            links == edges_view(graph.edges@),
            known == forest_ids(forest),
            forall|x: Seq<char>| #[trigger] node_set@.contains(x) <==> known.contains(x),
            missing@ == unknown(endpoints(links.take(j as int)), known),
        decreases graph.edges.len() - j,
    {
        let edge = &graph.edges[j];
        let ghost ends = endpoints(links.take(j as int));
        let ghost with_from = ends.push(edge@.from);
        let ghost with_both = with_from.push(edge@.to);
        proof {
            assert(links.take(j + 1).drop_last() =~= links.take(j as int));
            assert(links.take(j + 1).last() == edge@);
            assert(endpoints(links.take(j + 1)) == with_both);
            assert(with_from.drop_last() =~= ends);
            assert(with_both.drop_last() =~= with_from);
            assert(with_from.last() == edge@.from);
            assert(with_both.last() == edge@.to);
        }
        if !node_set.contains(&edge.from) {
            missing.insert(edge.from.clone());
        }
        assert(missing@ == unknown(with_from, known));
        if !node_set.contains(&edge.to) {
            missing.insert(edge.to.clone());
        }
        assert(missing@ == unknown(with_both, known));
        j += 1;
    }
    assert(links.take(j as int) =~= links);
    graph.edges_not_node = missing.to_vec();
}

fn show_id(id: &DotId) -> (text: String)
    ensures
        text@ == shown_id(*id),
{
    match id {
        DotId::Html(inner) => {
            let mut text = "html ".to_owned();
            text.append(inner.as_str());
            text
        },
        DotId::Escaped(inner) => {
            let mut text = "esc ".to_owned();
            text.append(inner.as_str());
            text
        },
        DotId::Plain(inner) => inner.clone(),
        DotId::Anonymous(inner) => {
            let mut text = "anon ".to_owned();
            text.append(inner.as_str());
            text
        },
    }
}

/// The graph that a parsed description gives.
pub fn graph_from_dot(dot: DotGraph) -> (r: Result<Graph, Error>)
    ensures
        match r {
            Ok(graph) => graph_of(dot) == Ok::<GraphView, Error>(graph@),
            Err(e) => graph_of(dot) == Err::<GraphView, Error>(e),
        },
        r matches Ok(graph) ==> endpoints_accounted(graph@),
{
    let mut graph = Graph::default();
    let ghost whole = dot;
    match dot {
        DotGraph::DiGraph { id, stmts } => {
            graph.id = to_string(&remove_all(&to_chars(show_id(&id).as_str()), &to_chars("\"")));
            let ghost all = stmts@;
            let ghost name = graph.id@;
            assert(all.take(0) =~= Seq::<DotStmt>::empty());
            for stmt in it: stmts
                invariant
                    it.seq() == all,
                    graph.id@ == name,
                    whole == dot,
                    graph_of(whole) == directed_graph(name, all),
                    declared(all.take(it.index() as int)) == Ok::<
                        (Seq<LabelView>, Seq<EdgeView>),
                        Error,
                    >((labels_view(graph.nodes@), edges_view(graph.edges@))),
            {
                proof {
                    let k = it.index() as int;
                    assert(all.take(k + 1).drop_last() =~= all.take(k));
                    assert(all.take(k + 1).last() == stmt);
                }
                let ghost nodes_before = labels_view(graph.nodes@);
                let ghost edges_before = edges_view(graph.edges@);
                let ghost k = it.index() as int;
                match stmt {
                    DotStmt::Node(node) => {
                        match check_node(node) {
                            Ok(label) => {
                                graph.nodes.push(label);
                                assert(labels_view(graph.nodes@) =~= nodes_before.push(label@));
                            },
                            Err(e) => {
                                proof {
                                    lemma_declared_fails(all, k + 1);
                                }
                                return Err(e);
                            },
                        }
                    },
                    DotStmt::Edge(edge) => {
                        match check_edge(edge) {
                            Ok(edge) => {
                                graph.edges.push(edge);
                                assert(edges_view(graph.edges@) =~= edges_before.push(edge@));
                            },
                            Err(e) => {
                                proof {
                                    lemma_declared_fails(all, k + 1);
                                }
                                return Err(e);
                            },
                        }
                    },
                    DotStmt::Subgraph => {},
                    DotStmt::GAttribute => {},
                    DotStmt::Attribute => {
                        proof {
                            lemma_declared_fails(all, k + 1);
                        }
                        return Err(Error::UnsupportedStatement);
                    },
                }
            }
            assert(all.take(all.len() as int) =~= all);
        },
        DotGraph::Graph { .. } => {},
    }
    check_graph(&mut graph);
    Ok(graph)
}

/// A fault in the first statements of a list is the fault of the list.
pub proof fn lemma_declared_fails(stmts: Seq<DotStmt>, k: int)
    requires
        0 <= k <= stmts.len(),
        declared(stmts.take(k)) is Err,
    ensures
        declared(stmts) == declared(stmts.take(k)),
    decreases stmts.len() - k,
{
    if k < stmts.len() {
        assert(stmts.take(k + 1).drop_last() =~= stmts.take(k));
        lemma_declared_fails(stmts, k + 1);
    } else {
        assert(stmts.take(k) =~= stmts);
    }
}

/// The graph that a description gives.
pub fn parse_from_dot(source: &str) -> (r: Result<Graph, Error>)
    ensures
        match r {
            Ok(graph) => graph_of_source(source@) == Ok::<GraphView, Error>(graph@),
            Err(e) => graph_of_source(source@) == Err::<GraphView, Error>(e),
        },
        r matches Ok(graph) ==> endpoints_accounted(graph@),
{
    match parse_dot(source) {
        Ok(dot) => graph_from_dot(dot),
        Err(detail) => Err(Error::SourceSyntaxError(detail)),
    }
}

} // verus!
