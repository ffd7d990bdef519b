use graph_explorer::api::{
    clean_signal, clean_signal_inner, delete_node, delete_node_inner, filter_node_father_tree,
    filter_node_father_tree_inner, gen_graph, gen_graph_inner, init_graph, init_graph_inner,
    load_state, post_node, post_node_inner, process_resp, put_node, put_node_inner, put_node_tree,
    put_node_tree_inner, search_node, search_node_inner, Payload, ResponseStatus, RS_CODE_FAILURE,
    RS_CODE_SUCCESS, SEARCH_LIMIT,
};
use graph_explorer::api_model::{AppState, Node, SearchNodeQuery};
use graph_explorer::collections::{StringMap, StringSet};
use graph_explorer::error::Error;
use graph_explorer::index::link;
use graph_explorer::model::{Edge, Graph, HtmlNode};
use graph_explorer::prune::prune;
use graph_explorer::traverse::reach;

fn s(text: &str) -> String {
    text.to_string()
}

fn label(id: &str, text: &str, children: Vec<HtmlNode>) -> HtmlNode {
    HtmlNode { text: s(text), id: s(id), children }
}

fn edge(from: &str, to: &str) -> Edge {
    Edge { from: s(from), to: s(to) }
}

fn id(name: &str) -> Node {
    Node { id: s(name), name: None }
}

fn graph(nodes: Vec<HtmlNode>, edges: &[(&str, &str)]) -> Graph {
    Graph {
        id: s("g"),
        nodes,
        edges: edges.iter().map(|(a, b)| edge(a, b)).collect(),
        edges_not_node: Vec::new(),
    }
}

fn flat(ids: &[&str]) -> Vec<HtmlNode> {
    ids.iter().map(|i| label(i, &i.to_lowercase(), vec![])).collect()
}

fn state(nodes: Vec<HtmlNode>, edges: &[(&str, &str)]) -> Option<AppState> {
    Some(load_state(graph(nodes, edges)))
}

fn shown(state: &Option<AppState>) -> Vec<String> {
    let mut ids = state.as_ref().unwrap().node_set.to_vec();
    ids.sort();
    ids
}

fn show(state: &mut Option<AppState>, ids: &[&str]) {
    for i in ids {
        assert_eq!(put_node_inner(state, id(i)), Ok(()));
    }
}

fn links(map: &StringMap<StringSet>) -> Vec<(String, Vec<String>)> {
    (0..map.len()).map(|i| { let (k, v) = map.entry(i); (k.clone(), v.to_vec()) }).collect()
}

fn pairs(map: &StringMap<String>) -> Vec<(String, String)> {
    (0..map.len()).map(|i| { let (k, v) = map.entry(i); (k.clone(), v.clone()) }).collect()
}

const SOURCE: &str = "digraph G {\n \"A\" [shape=none, label=<<table><tr><td port=\"p1\" id=\"A\">Root</td></tr></table>>];\n A:\"p1\" -> B:\"p2\";\n}";

#[test]
fn load_state_builds_names_and_both_indices() {
    let nodes = vec![label("A", "Root", vec![label("B", "Child", vec![])]), label("C", "Side", vec![])];
    let st = load_state(graph(nodes, &[("A", "B"), ("A", "C"), ("C", "B"), ("A", "B")]));
    assert_eq!(pairs(&st.node_id_to_name), vec![(s("A"), s("Root")), (s("B"), s("Root:Child")), (s("C"), s("Side"))]);
    assert_eq!(links(&st.edge_from_to), vec![(s("A"), vec![s("B"), s("C")]), (s("C"), vec![s("B")])]);
    assert_eq!(links(&st.edge_to_from), vec![(s("B"), vec![s("A"), s("C")]), (s("C"), vec![s("A")])]);
    assert_eq!(st.node_id_to_new_name.len(), 0);
    assert_eq!(st.node_set.len(), 0);
    assert_eq!(st.graph.edges.len(), 4);
}

#[test]
fn link_adds_a_neighbour_once() {
    let mut adj: StringMap<StringSet> = StringMap::new();
    link(&mut adj, &s("a"), &s("b"));
    link(&mut adj, &s("c"), &s("a"));
    link(&mut adj, &s("a"), &s("c"));
    link(&mut adj, &s("a"), &s("b"));
    assert_eq!(links(&adj), vec![(s("a"), vec![s("b"), s("c")]), (s("c"), vec![s("a")])]);
}

#[test]
fn initialize_loads_once() {
    let mut st: Option<AppState> = None;
    assert_eq!(init_graph_inner(&mut st, Some(s(SOURCE))), Ok(()));
    let first = st.as_ref().unwrap();
    assert_eq!(first.graph.id, "G");
    assert_eq!(pairs(&first.node_id_to_name), vec![(s("A"), s(":Root:"))]);
    assert_eq!(links(&first.edge_from_to), vec![(s("A:p1"), vec![s("B:p2")])]);
    assert_eq!(links(&first.edge_to_from), vec![(s("B:p2"), vec![s("A:p1")])]);
    assert_eq!(first.node_set.len(), 0);
    show(&mut st, &["A"]);
    // A second call changes nothing, whatever it is given.
    assert_eq!(init_graph_inner(&mut st, Some(s("not a graph"))), Ok(()));
    assert_eq!(init_graph_inner(&mut st, None), Ok(()));
    assert_eq!(init_graph_inner(&mut st, Some(s("digraph H { }"))), Ok(()));
    let second = st.as_ref().unwrap();
    assert_eq!(second.graph.id, "G");
    assert_eq!(shown(&st), vec!["A"]);
    assert_eq!(pairs(&second.node_id_to_name), vec![(s("A"), s(":Root:"))]);
}

#[test]
fn initialize_reports_what_went_wrong() {
    let mut st: Option<AppState> = None;
    assert_eq!(init_graph_inner(&mut st, None), Err(Error::SourceUnreadable));
    assert!(st.is_none());
    match init_graph_inner(&mut st, Some(s("digraph {"))) {
        Err(Error::SourceSyntaxError(_)) => {}
        other => panic!("{other:?}"),
    }
    assert!(st.is_none());
    assert_eq!(init_graph_inner(&mut st, Some(s("digraph { a = b }"))), Err(Error::UnsupportedStatement));
    assert!(st.is_none());
    assert_eq!(init_graph_inner(&mut st, Some(s(SOURCE))), Ok(()));
    assert!(st.is_some());
}

#[test]
fn every_operation_needs_a_loaded_graph() {
    let mut st: Option<AppState> = None;
    let e = Err(Error::StateNotInitialized);
    assert_eq!(put_node_inner(&mut st, id("a")), e);
    assert_eq!(post_node_inner(&mut st, Node { id: s("a"), name: Some(s("n")) }), e);
    assert_eq!(post_node_inner(&mut st, id("a")), e);
    assert_eq!(delete_node_inner(&mut st, s("a")), e);
    assert_eq!(clean_signal_inner(&mut st), e);
    assert_eq!(put_node_tree_inner(&mut st, id("a")), e);
    assert_eq!(filter_node_father_tree_inner(&mut st, id("a")), e);
    assert_eq!(search_node_inner(&st, SearchNodeQuery::default()), Err(Error::StateNotInitialized));
    assert_eq!(gen_graph_inner(&st), Err(Error::StateNotInitialized));
    assert!(st.is_none());
}

#[test]
fn insert_shows_any_node_once() {
    let mut st = state(flat(&["A"]), &[]);
    show(&mut st, &["A", "ghost", "A"]);
    assert_eq!(st.as_ref().unwrap().node_set.to_vec(), vec!["A", "ghost"]);
}

#[test]
fn rename_needs_a_name() {
    let mut st = state(flat(&["A"]), &[]);
    assert_eq!(post_node_inner(&mut st, id("A")), Err(Error::MissingName));
    assert_eq!(st.as_ref().unwrap().node_id_to_new_name.len(), 0);
    assert_eq!(post_node_inner(&mut st, Node { id: s("A"), name: Some(s("first")) }), Ok(()));
    assert_eq!(post_node_inner(&mut st, Node { id: s("B"), name: Some(s("other")) }), Ok(()));
    assert_eq!(post_node_inner(&mut st, Node { id: s("A"), name: Some(s("second")) }), Ok(()));
    assert_eq!(pairs(&st.as_ref().unwrap().node_id_to_new_name), vec![(s("A"), s("second")), (s("B"), s("other"))]);
}

#[test]
fn search_filters_by_hint_and_by_related_node() {
    let nodes = vec![label("A", "alpha", vec![label("B", "beta", vec![])]), label("C", "gamma", vec![])];
    let st = state(nodes, &[("A", "B"), ("A", "C"), ("C", "A")]);
    let ids = |q: SearchNodeQuery| -> Vec<String> {
        search_node_inner(&st, q).unwrap().into_iter().map(|n| n.id).collect()
    };
    let query = |related: Option<&str>, hint: Option<&str>| SearchNodeQuery {
        related_node_id: related.map(s),
        hint_node_id: hint.map(s),
    };
    assert_eq!(ids(query(None, None)), vec!["A", "B", "C"]);
    assert_eq!(ids(query(None, Some("a:b"))), vec!["B"]);
    assert_eq!(ids(query(None, Some("alpha"))), vec!["A", "B"]);
    assert_eq!(ids(query(None, Some(""))), vec!["A", "B", "C"]);
    assert_eq!(ids(query(Some("A"), None)), vec!["B", "C"]);
    assert_eq!(ids(query(Some("A"), Some("gam"))), vec!["C"]);
    assert_eq!(ids(query(Some("C"), Some("gam"))), Vec::<String>::new());
    assert_eq!(ids(query(Some("B"), None)), Vec::<String>::new());
    assert_eq!(ids(query(Some("nobody"), None)), Vec::<String>::new());
    let found = search_node_inner(&st, query(None, Some("beta"))).unwrap();
    assert_eq!(found, vec![Node { id: s("B"), name: Some(s("alpha:beta")) }]);
}

#[test]
fn search_answers_at_most_a_hundred() {
    let names: Vec<String> = (0..150).map(|i| format!("n{i}")).collect();
    let refs: Vec<&str> = names.iter().map(|n| n.as_str()).collect();
    let st = state(flat(&refs), &[]);
    let found = search_node_inner(&st, SearchNodeQuery::default()).unwrap();
    assert_eq!(found.len(), 100);
    assert_eq!(SEARCH_LIMIT, 100);
    assert_eq!(found[0].id, "n0");
    assert_eq!(found[99].id, "n99");
    let few = search_node_inner(&st, SearchNodeQuery { related_node_id: None, hint_node_id: Some(s("n14")) }).unwrap();
    let ids: Vec<String> = few.into_iter().map(|n| n.id).collect();
    assert_eq!(ids, vec!["n14", "n140", "n141", "n142", "n143", "n144", "n145", "n146", "n147", "n148", "n149"]);
}

#[test]
fn first_expansion_shows_everything_reachable() {
    let edges = [("A", "B"), ("B", "C"), ("C", "A"), ("C", "D"), ("X", "A"), ("D", "D")];
    let mut st = state(flat(&["A", "B", "C", "D", "X"]), &edges);
    assert_eq!(put_node_tree_inner(&mut st, id("A")), Ok(()));
    assert_eq!(shown(&st), vec!["A", "B", "C", "D"]);
    assert_eq!(st.as_ref().unwrap().node_set.to_vec(), vec!["A", "B", "C", "D"]);
    // With one node shown every edge is still followed.
    let mut st = state(flat(&["A", "B", "C", "D", "X"]), &edges);
    show(&mut st, &["X"]);
    assert_eq!(put_node_tree_inner(&mut st, id("C")), Ok(()));
    assert_eq!(shown(&st), vec!["A", "B", "C", "D"]);
    // A seed without edges is shown alone.
    let mut st = state(flat(&["A"]), &edges);
    assert_eq!(put_node_tree_inner(&mut st, id("lonely")), Ok(()));
    assert_eq!(shown(&st), vec!["lonely"]);
}

#[test]
fn later_expansion_stays_within_what_is_shown() {
    let edges = [("A", "B"), ("B", "C"), ("A", "D"), ("D", "E"), ("C", "A")];
    let mut st = state(flat(&["A", "B", "C", "D", "E"]), &edges);
    show(&mut st, &["A", "B", "C", "E"]);
    assert_eq!(put_node_tree_inner(&mut st, id("A")), Ok(()));
    assert_eq!(shown(&st), vec!["A", "B", "C"]);
    // The seed need not be shown before.
    let mut st = state(flat(&["A", "B", "C", "D", "E"]), &edges);
    show(&mut st, &["B", "E", "D"]);
    assert_eq!(put_node_tree_inner(&mut st, id("A")), Ok(()));
    assert_eq!(shown(&st), vec!["A", "B", "D", "E"]);
}

#[test]
fn ancestors_are_found_against_the_edges() {
    let edges = [("A", "B"), ("B", "C"), ("X", "B"), ("C", "D"), ("C", "A")];
    let mut st = state(flat(&["A", "B", "C", "D", "X"]), &edges);
    assert_eq!(filter_node_father_tree_inner(&mut st, id("B")), Ok(()));
    assert_eq!(shown(&st), vec!["A", "B", "C", "X"]);
    let mut st = state(flat(&["A", "B", "C", "D", "X"]), &edges);
    show(&mut st, &["A", "D", "X"]);
    assert_eq!(filter_node_father_tree_inner(&mut st, id("C")), Ok(()));
    assert_eq!(shown(&st), vec!["C"]);
    let mut st = state(flat(&["A", "B", "C", "D", "X"]), &edges);
    show(&mut st, &["B", "X", "D"]);
    assert_eq!(filter_node_father_tree_inner(&mut st, id("C")), Ok(()));
    assert_eq!(shown(&st), vec!["B", "C", "X"]);
}

#[test]
fn growth_lists_nodes_breadth_first() {
    let edges = [("A", "C"), ("A", "B"), ("C", "D"), ("B", "E"), ("D", "F"), ("E", "A")];
    let mut st = state(flat(&["A", "B", "C", "D", "E", "F"]), &edges);
    assert_eq!(put_node_tree_inner(&mut st, id("A")), Ok(()));
    assert_eq!(st.as_ref().unwrap().node_set.to_vec(), vec!["A", "C", "B", "D", "E", "F"]);
    let mut st = state(flat(&["A", "B", "C", "D", "E", "F"]), &edges);
    assert_eq!(filter_node_father_tree_inner(&mut st, id("F")), Ok(()));
    assert_eq!(st.as_ref().unwrap().node_set.to_vec(), vec!["F", "D", "C", "A", "E", "B"]);
}

#[test]
fn states_copy_and_default() {
    let mut st = state(flat(&["A", "B"]), &[("A", "B")]);
    show(&mut st, &["A"]);
    let first = st.as_ref().unwrap();
    let copy = first.clone();
    assert_eq!(copy.graph, first.graph);
    assert_eq!(pairs(&copy.node_id_to_name), pairs(&first.node_id_to_name));
    assert_eq!(links(&copy.edge_from_to), links(&first.edge_from_to));
    assert_eq!(links(&copy.edge_to_from), links(&first.edge_to_from));
    assert_eq!(copy.node_set.to_vec(), vec!["A"]);
    let empty = AppState::default();
    assert_eq!(empty.graph, Graph::default());
    assert_eq!(empty.node_set.len() + empty.node_id_to_name.len() + empty.edge_from_to.len(), 0);
    let query = SearchNodeQuery { related_node_id: Some(s("r")), hint_node_id: None };
    assert_eq!(query.clone(), query);
    let node = Node { id: s("n"), name: Some(s("m")) };
    assert_eq!(node.clone(), node);
    assert_eq!(Node::default(), Node { id: s(""), name: None });
    assert_eq!(first.graph.clone(), first.graph);
}

#[test]
fn reach_follows_the_policy() {
    let mut adj: StringMap<StringSet> = StringMap::new();
    for (a, b) in [("a", "b"), ("b", "c"), ("a", "d"), ("d", "a")] {
        link(&mut adj, &s(a), &s(b));
    }
    let mut allowed = StringSet::new();
    allowed.insert(s("b"));
    allowed.insert(s("c"));
    assert_eq!(reach(&adj, &allowed, false, s("a")).to_vec(), vec!["a", "b", "c"]);
    assert_eq!(reach(&adj, &allowed, true, s("a")).to_vec(), vec!["a", "b", "d", "c"]);
    assert_eq!(reach(&adj, &StringSet::new(), false, s("a")).to_vec(), vec!["a"]);
    assert_eq!(reach(&adj, &allowed, true, s("c")).to_vec(), vec!["c"]);
}

#[test]
fn delete_prunes_nodes_without_a_shown_neighbour() {
    let edges = [("A", "B"), ("B", "C"), ("D", "E"), ("F", "F")];
    let mut st = state(flat(&["A", "B", "C", "D", "E", "F", "G"]), &edges);
    show(&mut st, &["A", "B", "C", "D", "E", "F", "G"]);
    assert_eq!(delete_node_inner(&mut st, s("E")), Ok(()));
    assert_eq!(shown(&st), vec!["A", "B", "C", "F"]);
    assert_eq!(delete_node_inner(&mut st, s("B")), Ok(()));
    assert_eq!(shown(&st), vec!["F"]);
    assert_eq!(delete_node_inner(&mut st, s("nobody")), Ok(()));
    assert_eq!(shown(&st), vec!["F"]);
    assert_eq!(delete_node_inner(&mut st, s("F")), Ok(()));
    assert_eq!(shown(&st), Vec::<String>::new());
}

#[test]
fn prune_keeps_the_ends_of_shown_edges() {
    let mut adj: StringMap<StringSet> = StringMap::new();
    for (a, b) in [("a", "b"), ("b", "c"), ("x", "y")] {
        link(&mut adj, &s(a), &s(b));
    }
    let mut seen = StringSet::new();
    for n in ["c", "b", "x", "lonely"] {
        seen.insert(s(n));
    }
    assert_eq!(prune(&adj, &seen).to_vec(), vec!["b", "c"]);
    let mut st = state(flat(&["a", "b", "c"]), &[("a", "b"), ("b", "c")]);
    show(&mut st, &["a", "c"]);
    assert_eq!(clean_signal_inner(&mut st), Ok(()));
    assert_eq!(shown(&st), Vec::<String>::new());
}

#[test]
fn render_draws_nodes_then_edges() {
    let nodes = vec![label("A", "Root", vec![label("B", "Child", vec![])]), label("C", "Side", vec![])];
    let mut st = state(nodes, &[("A", "B"), ("A", "C"), ("C", "B"), ("B", "Z")]);
    assert_eq!(gen_graph_inner(&st), Ok(s("flowchart TD\n")));
    show(&mut st, &["B", "A"]);
    assert_eq!(gen_graph_inner(&st), Ok(s("flowchart TD\nB[Root:Child]\nA[Root]\nA --> B\n")));
    show(&mut st, &["C"]);
    assert_eq!(post_node_inner(&mut st, Node { id: s("C"), name: Some(s("renamed")) }), Ok(()));
    assert_eq!(
        gen_graph_inner(&st),
        Ok(s("flowchart TD\nB[Root:Child]\nA[Root]\nC[renamed]\nA --> B\nA --> C\nC --> B\n"))
    );
}

#[test]
fn render_needs_a_name_for_every_shown_node() {
    let mut st = state(flat(&["A"]), &[("A", "ghost")]);
    show(&mut st, &["A", "ghost"]);
    assert_eq!(gen_graph_inner(&st), Err(Error::MissingNodeName));
    assert_eq!(post_node_inner(&mut st, Node { id: s("ghost"), name: Some(s("Casper")) }), Ok(()));
    assert_eq!(gen_graph_inner(&st), Ok(s("flowchart TD\nA[a]\nghost[Casper]\nA --> ghost\n")));
}

#[test]
fn a_node_without_override_is_drawn_under_its_resolved_name() {
    let nodes = vec![label("A", "Root", vec![label("B", "Child", vec![label("C", "Leaf", vec![])])])];
    let mut st = state(nodes, &[]);
    show(&mut st, &["C"]);
    let resolved = st.as_ref().unwrap().node_id_to_name.get(&s("C")).unwrap().clone();
    assert_eq!(resolved, "Root:Child:Leaf");
    assert_eq!(gen_graph_inner(&st), Ok(format!("flowchart TD\nC[{resolved}]\n")));
}

#[test]
fn example_scenario() {
    let nodes = vec![label("A", "Root", vec![label("B", "Child", vec![])])];
    let mut st = state(nodes, &[("A", "B")]);
    assert_eq!(put_node_tree_inner(&mut st, id("A")), Ok(()));
    assert_eq!(shown(&st), vec!["A", "B"]);
    let drawing = gen_graph_inner(&st).unwrap();
    let lines: Vec<&str> = drawing.lines().collect();
    assert!(lines.contains(&"A[Root]"));
    assert!(lines.contains(&"B[Root:Child]"));
    assert!(lines.contains(&"A --> B"));
    assert_eq!(drawing, "flowchart TD\nA[Root]\nB[Root:Child]\nA --> B\n");
}

#[test]
fn answers_wrap_outcomes() {
    assert_eq!((RS_CODE_SUCCESS, RS_CODE_FAILURE), (0, -1));
    assert_eq!(ResponseStatus::success(), ResponseStatus { code: 0, msg: s("成功"), data: Payload::Null });
    assert_eq!(ResponseStatus::failure(), ResponseStatus { code: -1, msg: s("失败"), data: Payload::Null });
    assert_eq!(
        ResponseStatus::ok(Payload::Text(s("x"))),
        ResponseStatus { code: 0, msg: s("成功"), data: Payload::Text(s("x")) }
    );
    assert_eq!(process_resp(Ok(Payload::Text(s("x")))), ResponseStatus::ok(Payload::Text(s("x"))));
    assert_eq!(
        process_resp(Err(Error::MissingName)),
        ResponseStatus { code: -1, msg: s("node name is required"), data: Payload::Null }
    );
}

#[test]
fn handlers_answer_in_envelopes() {
    let mut st: Option<AppState> = None;
    let not_found = ResponseStatus { code: -1, msg: s("state not found"), data: Payload::Null };
    assert_eq!(gen_graph(&st), not_found);
    assert_eq!(put_node(&mut st, id("A")), not_found);
    assert_eq!(post_node(&mut st, id("A")), not_found);
    assert_eq!(delete_node(&mut st, id("A")), not_found);
    assert_eq!(put_node_tree(&mut st, id("A")), not_found);
    assert_eq!(filter_node_father_tree(&mut st, id("A")), not_found);
    assert_eq!(clean_signal(&mut st), not_found);
    assert_eq!(search_node(&st, SearchNodeQuery::default()), not_found);
    assert_eq!(
        init_graph(&mut st, None),
        ResponseStatus { code: -1, msg: s("Failed to read dot file"), data: Payload::Null }
    );
    assert_eq!(init_graph(&mut st, Some(s("digraph { a = b }"))).msg, "check");
    assert_eq!(init_graph(&mut st, Some(s(SOURCE))), ResponseStatus::success());
    assert_eq!(init_graph(&mut st, None), ResponseStatus::success());
    assert_eq!(put_node(&mut st, id("A")), ResponseStatus::success());
    assert_eq!(
        post_node(&mut st, id("A")),
        ResponseStatus { code: -1, msg: s("node name is required"), data: Payload::Null }
    );
    assert_eq!(post_node(&mut st, Node { id: s("A"), name: Some(s("N")) }), ResponseStatus::success());
    assert_eq!(gen_graph(&st), ResponseStatus::ok(Payload::Text(s("flowchart TD\nA[N]\n"))));
    assert_eq!(
        search_node(&st, SearchNodeQuery::default()),
        ResponseStatus::ok(Payload::Nodes(vec![Node { id: s("A"), name: Some(s(":Root:")) }]))
    );
    assert_eq!(put_node_tree(&mut st, id("A:p1")), ResponseStatus::success());
    assert_eq!(shown(&st), vec!["A:p1", "B:p2"]);
    assert_eq!(filter_node_father_tree(&mut st, id("B:p2")), ResponseStatus::success());
    assert_eq!(shown(&st), vec!["A:p1", "B:p2"]);
    assert_eq!(gen_graph(&st).msg, "node name not found");
    assert_eq!(delete_node(&mut st, id("A:p1")), ResponseStatus::success());
    assert_eq!(shown(&st), Vec::<String>::new());
    assert_eq!(clean_signal(&mut st), ResponseStatus::success());
}
