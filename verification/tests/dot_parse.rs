use graph_explorer::collections::StringSet;
use graph_explorer::dot_parse::{
    check_edge, check_graph, check_graph_node, check_node, check_vertex, graph_from_dot,
    parse_from_dot, DotAttribute, DotEdge, DotGraph, DotId, DotNode, DotNodeId, DotPort, DotStmt,
    DotVertex,
};
use graph_explorer::error::{EdgeFault, Error, NodeFault};
use graph_explorer::model::{Edge, Graph, HtmlNode};

fn plain(s: &str) -> DotId {
    DotId::Plain(s.to_string())
}

fn escaped(s: &str) -> DotId {
    DotId::Escaped(format!("\"{}\"", s))
}

fn html(s: &str) -> DotId {
    DotId::Html(s.to_string())
}

fn vertex(name: DotId, port: Option<DotPort>) -> DotVertex {
    DotVertex::Node(DotNodeId { id: name, port })
}

fn endpoint(name: &str, port: &str) -> DotVertex {
    vertex(plain(name), Some(DotPort { id: Some(escaped(port)) }))
}

fn attribute(key: DotId, value: DotId) -> DotAttribute {
    DotAttribute { key, value }
}

fn declaration(id: DotId, attributes: Vec<DotAttribute>) -> DotNode {
    DotNode { id: DotNodeId { id, port: None }, attributes }
}

fn label(id: &str, text: &str, children: Vec<HtmlNode>) -> HtmlNode {
    HtmlNode { text: text.to_string(), id: id.to_string(), children }
}

fn edge(from: &str, to: &str) -> Edge {
    Edge { from: from.to_string(), to: to.to_string() }
}

const CELL: &str = "<<table><tr><td port=\"p1\" id=\"A\">Root</td></tr></table>>";

fn cell_label() -> HtmlNode {
    let cell = label("A", "Root:", vec![]);
    label("A", "", vec![cell.copy(), cell])
}

#[test]
fn vertex_gives_node_and_port() {
    assert_eq!(check_vertex(endpoint("A", "p1")), Ok("A:p1".to_string()));
    let quoted_inside = vertex(plain("n"), Some(DotPort { id: Some(DotId::Escaped("\"a\"b\"".to_string())) }));
    assert_eq!(check_vertex(quoted_inside), Ok("n:ab".to_string()));
}

#[test]
fn vertex_faults_come_in_order() {
    assert_eq!(
        check_vertex(DotVertex::Subgraph),
        Err(Error::InvalidEdgeDeclaration(EdgeFault::VertexType))
    );
    assert_eq!(
        check_vertex(vertex(escaped("A"), None)),
        Err(Error::InvalidEdgeDeclaration(EdgeFault::VertexId))
    );
    assert_eq!(
        check_vertex(vertex(html("<a>"), Some(DotPort { id: Some(escaped("p")) }))),
        Err(Error::InvalidEdgeDeclaration(EdgeFault::VertexId))
    );
    assert_eq!(
        check_vertex(vertex(plain("A"), None)),
        Err(Error::InvalidEdgeDeclaration(EdgeFault::MissingPort))
    );
    assert_eq!(
        check_vertex(vertex(plain("A"), Some(DotPort { id: None }))),
        Err(Error::InvalidEdgeDeclaration(EdgeFault::MissingPortId))
    );
    assert_eq!(
        check_vertex(vertex(plain("A"), Some(DotPort { id: Some(plain("p")) }))),
        Err(Error::InvalidEdgeDeclaration(EdgeFault::PortId))
    );
}

#[test]
fn edge_is_a_pair_of_endpoints() {
    assert_eq!(
        check_edge(DotEdge::Pair(endpoint("A", "p1"), endpoint("B", "p2"))),
        Ok(edge("A:p1", "B:p2"))
    );
    assert_eq!(check_edge(DotEdge::Chain), Err(Error::InvalidEdgeDeclaration(EdgeFault::EdgeType)));
    assert_eq!(
        check_edge(DotEdge::Pair(vertex(plain("A"), None), DotVertex::Subgraph)),
        Err(Error::InvalidEdgeDeclaration(EdgeFault::MissingPort))
    );
    assert_eq!(
        check_edge(DotEdge::Pair(endpoint("A", "p1"), DotVertex::Subgraph)),
        Err(Error::InvalidEdgeDeclaration(EdgeFault::VertexType))
    );
}

#[test]
fn node_declaration_gives_its_label() {
    let node = declaration(
        escaped("A"),
        vec![attribute(plain("shape"), plain("none")), attribute(plain("label"), html(CELL))],
    );
    assert_eq!(check_node(node), Ok(cell_label()));
}

#[test]
fn node_faults_come_in_order() {
    let good = || attribute(plain("label"), html(CELL));
    assert_eq!(
        check_node(declaration(plain("A"), vec![])),
        Err(Error::InvalidNodeDeclaration(NodeFault::Id))
    );
    assert_eq!(
        check_node(declaration(escaped("A"), vec![good()])),
        Err(Error::InvalidNodeDeclaration(NodeFault::AttributeCount))
    );
    assert_eq!(
        check_node(declaration(escaped("A"), vec![good(), attribute(escaped("label"), html(CELL))])),
        Err(Error::InvalidNodeDeclaration(NodeFault::AttributeKey))
    );
    assert_eq!(
        check_node(declaration(escaped("A"), vec![good(), attribute(plain("label"), plain("x"))])),
        Err(Error::InvalidNodeDeclaration(NodeFault::AttributeValue))
    );
}

#[test]
fn graph_node_ids_are_collected_at_every_depth() {
    let tree = label("a", "", vec![label("b", "", vec![label("c", "", vec![])]), label("a", "", vec![])]);
    let mut ids = StringSet::new();
    ids.insert("z".to_string());
    check_graph_node(&tree, &mut ids);
    assert_eq!(ids.to_vec(), vec!["z", "a", "b", "c"]);
}

#[test]
fn unknown_endpoints_are_set_aside_once() {
    let mut graph = Graph {
        id: "g".to_string(),
        nodes: vec![label("a", "", vec![label("b", "", vec![])])],
        edges: vec![edge("a", "x"), edge("x", "b"), edge("y", "x"), edge("a", "b")],
        edges_not_node: vec!["stale".to_string()],
    };
    check_graph(&mut graph);
    assert_eq!(graph.edges_not_node, vec!["x", "y"]);
    assert_eq!(graph.id, "g");
    assert_eq!(graph.edges.len(), 4);
    assert_eq!(graph.nodes.len(), 1);
}

#[test]
fn graph_from_statements() {
    let dot = DotGraph::DiGraph {
        id: escaped("G"),
        stmts: vec![
            DotStmt::GAttribute,
            DotStmt::Node(declaration(
                escaped("A"),
                vec![attribute(plain("shape"), plain("none")), attribute(plain("label"), html(CELL))],
            )),
            DotStmt::Subgraph,
            DotStmt::Edge(DotEdge::Pair(endpoint("A", "p1"), endpoint("B", "p2"))),
        ],
    };
    let graph = graph_from_dot(dot).unwrap();
    assert_eq!(graph.id, "esc G");
    assert_eq!(graph.nodes, vec![cell_label()]);
    assert_eq!(graph.edges, vec![edge("A:p1", "B:p2")]);
    assert_eq!(graph.edges_not_node, vec!["A:p1", "B:p2"]);
}

#[test]
fn graph_names_are_shown_by_kind() {
    let name = |id: DotId| graph_from_dot(DotGraph::DiGraph { id, stmts: vec![] }).unwrap().id;
    assert_eq!(name(plain("G")), "G");
    assert_eq!(name(escaped("G")), "esc G");
    assert_eq!(name(html("<b>")), "html <b>");
    assert_eq!(name(DotId::Anonymous("".to_string())), "anon ");
}

#[test]
fn first_fault_stops_the_load() {
    let dot = DotGraph::DiGraph {
        id: plain("G"),
        stmts: vec![
            DotStmt::Edge(DotEdge::Chain),
            DotStmt::Attribute,
            DotStmt::Node(declaration(plain("A"), vec![])),
        ],
    };
    assert_eq!(graph_from_dot(dot), Err(Error::InvalidEdgeDeclaration(EdgeFault::EdgeType)));
    let dot = DotGraph::DiGraph { id: plain("G"), stmts: vec![DotStmt::Subgraph, DotStmt::Attribute] };
    assert_eq!(graph_from_dot(dot), Err(Error::UnsupportedStatement));
}

#[test]
fn undirected_graph_gives_the_empty_graph() {
    let dot = DotGraph::Graph { id: plain("G"), stmts: vec![DotStmt::Attribute] };
    assert_eq!(graph_from_dot(dot), Ok(Graph::default()));
    assert_eq!(parse_from_dot("graph G { a -- b }"), Ok(Graph::default()));
}

#[test]
fn source_is_parsed_and_loaded() {
    let src = "digraph G {\n \"A\" [shape=none, label=<<table><tr><td port=\"p1\" id=\"A\">Root</td></tr></table>>];\n A:\"p1\" -> B:\"p2\";\n subgraph cluster { x }\n node [shape=box];\n}";
    let graph = parse_from_dot(src).unwrap();
    assert_eq!(graph.id, "G");
    assert_eq!(graph.nodes, vec![cell_label()]);
    assert_eq!(graph.edges, vec![edge("A:p1", "B:p2")]);
    assert_eq!(graph.edges_not_node, vec!["A:p1", "B:p2"]);
}

#[test]
fn source_faults_are_reported() {
    match parse_from_dot("digraph { ") {
        Err(Error::SourceSyntaxError(detail)) => assert!(detail.contains("expected")),
        other => panic!("{other:?}"),
    }
    assert_eq!(parse_from_dot("digraph \"G\" { a = b }"), Err(Error::UnsupportedStatement));
    assert_eq!(
        parse_from_dot("digraph { a -> b -> c }"),
        Err(Error::InvalidEdgeDeclaration(EdgeFault::EdgeType))
    );
    assert_eq!(
        parse_from_dot("digraph { a -> b }"),
        Err(Error::InvalidEdgeDeclaration(EdgeFault::MissingPort))
    );
    assert_eq!(
        parse_from_dot("digraph { a:p -> b }"),
        Err(Error::InvalidEdgeDeclaration(EdgeFault::PortId))
    );
    assert_eq!(
        parse_from_dot("digraph { a:n -> b:\"q\" }"),
        Err(Error::InvalidEdgeDeclaration(EdgeFault::MissingPortId))
    );
    assert_eq!(
        parse_from_dot("digraph { \"a\":\"p\" -> b:\"q\" }"),
        Err(Error::InvalidEdgeDeclaration(EdgeFault::VertexId))
    );
    assert_eq!(parse_from_dot("digraph { a }"), Err(Error::InvalidNodeDeclaration(NodeFault::Id)));
    assert_eq!(
        parse_from_dot("digraph { \"a\" }"),
        Err(Error::InvalidNodeDeclaration(NodeFault::AttributeCount))
    );
    assert_eq!(
        parse_from_dot("digraph { \"a\" [x=1, \"label\"=2] }"),
        Err(Error::InvalidNodeDeclaration(NodeFault::AttributeKey))
    );
    assert_eq!(
        parse_from_dot("digraph { \"a\" [x=1, label=2] }"),
        Err(Error::InvalidNodeDeclaration(NodeFault::AttributeValue))
    );
}

#[test]
fn error_messages() {
    assert_eq!(Error::StateNotInitialized.message(), "state not found");
    assert_eq!(Error::MissingName.message(), "node name is required");
    assert_eq!(Error::MissingNodeName.message(), "node name not found");
    assert_eq!(Error::SourceUnreadable.message(), "Failed to read dot file");
    assert_eq!(
        Error::SourceSyntaxError("oops".to_string()).message(),
        "Failed to parse dot file: oops"
    );
    assert_eq!(Error::InvalidNodeDeclaration(NodeFault::Id).message(), "check node id");
    assert_eq!(
        Error::InvalidNodeDeclaration(NodeFault::AttributeCount).message(),
        "check node attributes"
    );
    assert_eq!(
        Error::InvalidNodeDeclaration(NodeFault::AttributeKey).message(),
        "check external attribute id"
    );
    assert_eq!(
        Error::InvalidNodeDeclaration(NodeFault::AttributeValue).message(),
        "check internal attribute id"
    );
    assert_eq!(Error::InvalidEdgeDeclaration(EdgeFault::VertexType).message(), "check vertex type");
    assert_eq!(Error::InvalidEdgeDeclaration(EdgeFault::VertexId).message(), "check vertex id");
    assert_eq!(Error::InvalidEdgeDeclaration(EdgeFault::MissingPort).message(), "check vertex port1");
    assert_eq!(
        Error::InvalidEdgeDeclaration(EdgeFault::MissingPortId).message(),
        "check vertex port2"
    );
    assert_eq!(Error::InvalidEdgeDeclaration(EdgeFault::PortId).message(), "check vertex port id");
    assert_eq!(Error::InvalidEdgeDeclaration(EdgeFault::EdgeType).message(), "check edge type");
    assert_eq!(Error::UnsupportedStatement.message(), "check");
    assert_eq!(Error::MalformedMarkup.message(), "check html");
}
