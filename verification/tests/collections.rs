use graph_explorer::collections::{StringMap, StringSet};
use graph_explorer::model::{Edge, Graph, HtmlNode, HtmlNodeRaw};
use graph_explorer::naming::{gen_node_id_to_name, name_of};

fn s(text: &str) -> String {
    text.to_string()
}

fn label(id: &str, text: &str, children: Vec<HtmlNode>) -> HtmlNode {
    HtmlNode { text: text.to_string(), id: id.to_string(), children }
}

fn entries(map: &StringMap<String>) -> Vec<(String, String)> {
    (0..map.len()).map(|i| { let (k, v) = map.entry(i); (k.clone(), v.clone()) }).collect()
}

#[test]
fn string_set_keeps_order_and_holds_nothing_twice() {
    let mut set = StringSet::new();
    assert_eq!(set.len(), 0);
    assert!(set.insert(s("b")));
    assert!(set.insert(s("a")));
    assert!(!set.insert(s("b")));
    assert!(set.insert(s("c")));
    assert_eq!(set.to_vec(), vec!["b", "a", "c"]);
    assert_eq!(set.len(), 3);
    assert_eq!(set.get(1), "a");
    assert!(set.contains(&s("a")));
    assert!(!set.contains(&s("z")));
    assert!(set.remove(&s("a")));
    assert!(!set.remove(&s("a")));
    assert_eq!(set.to_vec(), vec!["b", "c"]);
    let copy = set.copy();
    set.insert(s("d"));
    assert_eq!(copy.to_vec(), vec!["b", "c"]);
}

#[test]
fn string_map_binds_in_place() {
    let mut map: StringMap<String> = StringMap::new();
    assert_eq!(map.len(), 0);
    assert_eq!(map.get(&s("a")), None);
    map.insert(s("a"), s("1"));
    map.insert(s("b"), s("2"));
    map.insert(s("a"), s("3"));
    assert_eq!(map.len(), 2);
    assert_eq!(entries(&map), vec![(s("a"), s("3")), (s("b"), s("2"))]);
    assert_eq!(map.get(&s("a")), Some(&s("3")));
    assert_eq!(map.get(&s("c")), None);
}

#[test]
fn name_is_ancestors_then_own_text() {
    assert_eq!(name_of(&vec![], &s("Root")), "Root");
    assert_eq!(name_of(&vec![s("Root")], &s("Child")), "Root:Child");
    assert_eq!(name_of(&vec![s("a"), s("b")], &s("c")), "a:b:c");
    assert_eq!(name_of(&vec![s("a:")], &s("")), "a::");
}

#[test]
fn forest_is_named_in_document_order() {
    let forest = vec![
        label("A", "Root", vec![label("B", "Child", vec![label("C", "Leaf", vec![])]), label("D", "Other", vec![])]),
        label("E", "Second", vec![]),
        label("B", "Again", vec![]),
    ];
    let mut names: StringMap<String> = StringMap::new();
    let mut fathers = vec![s("top")];
    gen_node_id_to_name(&forest, &mut names, &mut fathers);
    assert_eq!(fathers, vec!["top"]);
    assert_eq!(
        entries(&names),
        vec![
            (s("A"), s("top:Root")),
            (s("B"), s("top:Again")),
            (s("C"), s("top:Root:Child:Leaf")),
            (s("D"), s("top:Root:Other")),
            (s("E"), s("top:Second")),
        ]
    );
}

#[test]
fn model_values_copy_and_default() {
    let node = label("a", "t", vec![label("b", "u", vec![])]);
    assert_eq!(node.copy(), node);
    assert_eq!(node.clone(), node);
    assert_eq!(HtmlNode::default(), label("", "", vec![]));
    let raw = HtmlNodeRaw { text: s("t"), id: s("i"), raw: s("r"), children: vec![HtmlNodeRaw::default()] };
    assert_eq!(raw.copy(), raw);
    assert_eq!(raw.clone(), raw);
    assert_eq!(HtmlNodeRaw::default().raw, "");
    let edge = Edge { from: s("a"), to: s("b") };
    assert_eq!(edge.clone(), edge);
    assert_eq!(Edge::default(), Edge { from: s(""), to: s("") });
    let graph = Graph::default();
    assert!(graph.id.is_empty() && graph.nodes.is_empty() && graph.edges.is_empty());
    assert!(graph.edges_not_node.is_empty());
}
