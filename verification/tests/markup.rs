use graph_explorer::error::Error;
use graph_explorer::markup::{
    check_html, check_html_node, check_port_only, check_text, check_useless_id, get_filter_str,
    get_filter_text_str, get_id_from_raw, normalize_markup, raw_html_node_to_html_node,
};
use graph_explorer::markup_tree::{build_tree, MarkupEvent, MarkupNode};
use graph_explorer::model::{HtmlNode, HtmlNodeRaw};

fn leaf(raw: &str) -> MarkupNode {
    MarkupNode { raw: raw.to_string(), children: Vec::new() }
}

fn node(raw: &str, children: Vec<MarkupNode>) -> MarkupNode {
    MarkupNode { raw: raw.to_string(), children }
}

fn label(id: &str, text: &str, children: Vec<HtmlNode>) -> HtmlNode {
    HtmlNode { text: text.to_string(), id: id.to_string(), children }
}

fn open(raw: &str) -> MarkupEvent {
    MarkupEvent::Open(raw.to_string())
}

#[test]
fn filter_text_strips_noise_tokens() {
    assert_eq!(get_filter_text_str("Text(\"hello, (world);\")"), "hello world");
    assert_eq!(get_filter_text_str("a\\nb\\tc"), "abc");
    assert_eq!(get_filter_text_str("Element(<td>)"), "<td>");
    assert_eq!(get_filter_text_str(""), "");
    assert_eq!(get_filter_text_str("TeTextxt"), "Text");
}

#[test]
fn filter_markup_strips_noise_tokens_in_order() {
    assert_eq!(get_filter_str("Element(<td port=\"p1\">)"), "port=p1");
    assert_eq!(get_filter_str("Element(<table width=\"10\">)"), "=10");
    assert_eq!(get_filter_str("Element(<html>)"), "");
    assert_eq!(get_filter_str("Element(<head>)"), "");
    assert_eq!(get_filter_str("Element(<body>)"), "");
    assert_eq!(get_filter_str("Element(<tbody>)"), "");
    assert_eq!(get_filter_str("Element(<tr>)"), "");
    assert_eq!(get_filter_str("Text(\" \\n \")"), "");
    assert_eq!(get_filter_str("Document"), "Document");
    assert_eq!(get_filter_str("Element(<td id=\"a b\">)"), "id=ab");
    assert_eq!(get_filter_str("ttdr"), "tr");
    assert_eq!(get_filter_str("ttrd"), "");
}

#[test]
fn useless_nodes_are_told_apart() {
    assert!(check_useless_id("Element(<table>)"));
    assert!(check_useless_id("Element(<td width=\"10\">)"));
    assert!(check_useless_id("Document"));
    assert!(check_useless_id("Text(\"\\n  \")"));
    assert!(!check_useless_id("Text(\"hello\")"));
    assert!(!check_useless_id("Element(<td port=\"p1\">)"));
    assert!(!check_useless_id("Element(<td id=\"x\">)"));
}

#[test]
fn text_runs_and_ports_are_told_apart() {
    assert!(check_text("Text(\"hello\")"));
    assert!(!check_text("Element(<td>)"));
    assert!(check_port_only("Element(<td port=\"p1\">)"));
    assert!(!check_port_only("Element(<td port=\"p1\" id=\"x\">)"));
    assert!(!check_port_only("Element(<td>)"));
    assert!(check_port_only("Element(<td port=\"p1\" width=\"3\">)"));
}

#[test]
fn id_is_the_quoted_value_of_the_last_assignment() {
    assert_eq!(get_id_from_raw("Element(<td id=\"x\" port=\"p\">)"), Some("x".to_string()));
    assert_eq!(get_id_from_raw("Element(<b id=\"x\">)"), Some("x".to_string()));
    assert_eq!(get_id_from_raw("Element(<td port=\"p\">)"), None);
    assert_eq!(get_id_from_raw(""), None);
    assert_eq!(get_id_from_raw("id=\"a\" id=\"b\""), Some("b".to_string()));
    assert_eq!(get_id_from_raw("id=plain"), Some("plain".to_string()));
    assert_eq!(get_id_from_raw("id=\"n1:p(1)\""), Some("n1:p1".to_string()));
    assert_eq!(get_id_from_raw("id=\"a b\""), Some("a".to_string()));
    assert_eq!(get_id_from_raw("kid=\"z\""), Some("z".to_string()));
    assert_eq!(get_id_from_raw("id="), Some("".to_string()));
}

#[test]
fn build_tree_rebuilds_the_walked_tree() {
    let events = vec![
        open("a"),
        open("b"),
        MarkupEvent::Close,
        open("c"),
        open("d"),
        MarkupEvent::Close,
        MarkupEvent::Close,
        MarkupEvent::Close,
    ];
    let tree = build_tree(&events).unwrap();
    assert_eq!(tree, node("a", vec![leaf("b"), node("c", vec![leaf("d")])]));
    assert_eq!(build_tree(&vec![open("x"), MarkupEvent::Close]), Ok(leaf("x")));
}

#[test]
fn build_tree_refuses_what_is_not_one_tree() {
    let bad: Vec<Vec<MarkupEvent>> = vec![
        vec![],
        vec![MarkupEvent::Close],
        vec![open("a")],
        vec![open("a"), open("b"), MarkupEvent::Close],
        vec![open("a"), MarkupEvent::Close, MarkupEvent::Close],
        vec![open("a"), MarkupEvent::Close, open("b"), MarkupEvent::Close],
        vec![MarkupEvent::Close, open("a")],
    ];
    for events in bad {
        assert_eq!(build_tree(&events), Err(Error::MalformedMarkup), "{events:?}");
    }
}

#[test]
fn flattening_gives_id_and_text_to_the_top_node() {
    // <a><b id="x"/><c>hello</c></a>
    let tree = node(
        "Element(<a>)",
        vec![leaf("Element(<b id=\"x\">)"), node("Element(<c>)", vec![leaf("Text(\"hello\")")])],
    );
    let top = normalize_markup(&tree);
    assert_eq!(top.id, "x");
    assert!(top.text.contains("hello"));
    assert_eq!(top.text, "hello:");
    let b = label("x", "", vec![]);
    let hello = label("", "", vec![]);
    assert_eq!(top.children, vec![b.copy(), b, hello]);
}

#[test]
fn promoted_nodes_come_after_retained_children() {
    // The first child carries nothing and hands its child up; the second stays.
    let tree = node(
        "Element(<td id=\"top\">)",
        vec![
            node("Element(<tr>)", vec![leaf("Element(<td id=\"late\">)")]),
            leaf("Element(<td id=\"early\">)"),
        ],
    );
    let mut html_node = HtmlNodeRaw::default();
    let mut fa_children = Vec::new();
    check_html_node(&tree, &mut html_node, &mut fa_children);
    let ids: Vec<&str> = html_node.children.iter().map(|c| c.id.as_str()).collect();
    assert_eq!(ids, vec!["early", "late"]);
    assert_eq!(html_node.id, "top");
    assert_eq!(html_node.raw, "Element(<td id=\"top\">)");
    assert!(fa_children.is_empty());
}

#[test]
fn text_and_ports_merge_into_the_parent() {
    let tree = node(
        "Element(<td id=\"n\">)",
        vec![
            leaf("Text(\"one\")"),
            node("Element(<td port=\"p\">)", vec![leaf("Text(\"two\")")]),
            leaf("Element(<td id=\"kid:1\">)"),
        ],
    );
    let mut html_node = HtmlNodeRaw::default();
    let mut fa_children = Vec::new();
    check_html_node(&tree, &mut html_node, &mut fa_children);
    assert_eq!(html_node.text, "one:two:");
    assert_eq!(html_node.children.len(), 1);
    assert_eq!(html_node.children[0].id, "kid:1");
    assert!(fa_children.is_empty());
}

#[test]
fn a_node_without_id_adopts_the_prefix_of_its_first_child() {
    let tree = node(
        "Element(<td port=\"p\">)",
        vec![leaf("Element(<td id=\"kid:1\">)"), leaf("Element(<td id=\"other\">)")],
    );
    let mut html_node = HtmlNodeRaw::default();
    let mut fa_children = Vec::new();
    check_html_node(&tree, &mut html_node, &mut fa_children);
    assert_eq!(html_node.id, "kid");
    let lonely = leaf("Element(<td port=\"p\">)");
    let mut html_node = HtmlNodeRaw::default();
    check_html_node(&lonely, &mut html_node, &mut fa_children);
    assert_eq!(html_node.id, "");
}

#[test]
fn a_useless_node_hands_its_working_list_up() {
    let tree = node(
        "Element(<tr>)",
        vec![leaf("Text(\"t\")"), leaf("Element(<td id=\"k\">)")],
    );
    let mut html_node = HtmlNodeRaw::default();
    let mut fa_children = vec![HtmlNodeRaw::default()];
    check_html_node(&tree, &mut html_node, &mut fa_children);
    assert_eq!(fa_children.len(), 3);
    assert_eq!(fa_children[1].raw, "Text(\"t\")");
    assert_eq!(fa_children[2].id, "k");
    assert_eq!(html_node.text, "t:");
    assert_eq!(html_node.id, "k");
}

#[test]
fn raw_nodes_lose_their_printed_form() {
    let raw = HtmlNodeRaw {
        text: "t".to_string(),
        id: "i".to_string(),
        raw: "r".to_string(),
        children: vec![HtmlNodeRaw {
            text: "ct".to_string(),
            id: "ci".to_string(),
            raw: "cr".to_string(),
            children: vec![],
        }],
    };
    assert_eq!(raw_html_node_to_html_node(raw), label("i", "t", vec![label("ci", "ct", vec![])]));
}

#[test]
fn check_html_reads_a_table_label() {
    let html = "<<table><tr><td port=\"p1\" id=\"x\">Root</td></tr></table>>";
    let top = check_html(html.to_string()).unwrap();
    let cell = label("x", "Root:", vec![]);
    assert_eq!(top, label("x", "", vec![cell.copy(), cell]));
}

#[test]
fn check_html_reads_nested_cells() {
    let html = "<table><tr><td id=\"A\">Root<table><tr><td id=\"B\">Child</td></tr></table></td></tr></table>";
    let top = check_html(html.to_string()).unwrap();
    assert_eq!(top.id, "A");
    assert_eq!(top.children.len(), 2);
    let a = &top.children[0];
    assert_eq!(a.id, "A");
    assert_eq!(a.text, "Root:");
    assert_eq!(a.children, vec![label("B", "Child:", vec![])]);
}
