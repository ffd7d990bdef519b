//! The graph model: label trees, edges and the loaded graph, each with the
//! mathematical value that contracts speak of.

use vstd::prelude::*;

verus! {

/// A directed edge between two endpoints, each written `node:port`.
#[derive(Debug, PartialEq, Eq, Hash)]
pub struct Edge {
    pub from: String,
    pub to: String,
}

/// The value of an [`Edge`].
pub struct EdgeView {
    pub from: Seq<char>,
    pub to: Seq<char>,
}

impl View for Edge {
    type V = EdgeView;

    open spec fn view(&self) -> EdgeView {
        EdgeView { from: self.from@, to: self.to@ }
    }
}

impl Clone for Edge {
    fn clone(&self) -> (e: Self)
        ensures
            e@ == self@,
    {
        Edge { from: self.from.clone(), to: self.to.clone() }
    }
}

impl Default for Edge {
    fn default() -> (e: Self)
        ensures
            e@.from.len() == 0,
            e@.to.len() == 0,
    {
        Edge { from: String::new(), to: String::new() }
    }
}

/// The values of a list of edges.
pub open spec fn edges_view(edges: Seq<Edge>) -> Seq<EdgeView> {
    Seq::new(edges.len(), |i: int| edges[i]@)
}

/// A resolved label node: its own text, its identifier and its children.
#[derive(Debug, PartialEq, Eq, Hash)]
pub struct HtmlNode {
    pub text: String,
    pub id: String,
    pub children: Vec<HtmlNode>,
}

/// The value of an [`HtmlNode`].
pub struct LabelView {
    pub text: Seq<char>,
    pub id: Seq<char>,
    pub children: Seq<LabelView>,
}

/// The value of a label node.
pub open spec fn label_view(n: HtmlNode) -> LabelView
    decreases n,
{
    LabelView {
        text: n.text@,
        id: n.id@,
        children: Seq::new(
            n.children@.len(),
            |i: int|
                if 0 <= i < n.children@.len() {
                    label_view(n.children@[i])
                } else {
                    arbitrary()
                },
        ),
    }
}

impl View for HtmlNode {
    type V = LabelView;

    open spec fn view(&self) -> LabelView {
        label_view(*self)
    }
}

/// The values of a list of label nodes.
pub open spec fn labels_view(nodes: Seq<HtmlNode>) -> Seq<LabelView> {
    Seq::new(nodes.len(), |i: int| nodes[i]@)
}

/// The children of a node's value are the values of its children.
pub proof fn lemma_label_children(n: HtmlNode)
    ensures
        n@.children == labels_view(n.children@),
{
    assert(n@.children =~= labels_view(n.children@));
}

impl HtmlNode {
    /// A node with the same value.
    pub fn copy(&self) -> (n: Self)
        ensures
            n@ == self@,
        decreases self,
    {
        let mut children: Vec<HtmlNode> = Vec::new();
        let mut i: usize = 0;
        while i < self.children.len()
            invariant
                i <= self.children.len(),
                children.len() == i,
                forall|k: int| 0 <= k < i ==> children@[k]@ == self.children@[k]@,
            decreases self.children.len() - i,
        {
            let child = self.children[i].copy();
            children.push(child);
            i += 1;
        }
        let n = HtmlNode { text: self.text.clone(), id: self.id.clone(), children };
        assert(n@.children =~= self@.children);
        n
    }
}

impl Clone for HtmlNode {
    fn clone(&self) -> (n: Self)
        ensures
            n@ == self@,
    {
        self.copy()
    }
}

impl Default for HtmlNode {
    fn default() -> (n: Self)
        ensures
            n@ == (LabelView { text: Seq::empty(), id: Seq::empty(), children: Seq::empty() }),
    {
        let n = HtmlNode { text: String::new(), id: String::new(), children: Vec::new() };
        assert(n@.children =~= Seq::<LabelView>::empty());
        n
    }
}

/// A label node as it stands while a label is being read: like an
/// [`HtmlNode`], with the printed form of the markup node it came from.
#[derive(Debug, PartialEq, Eq, Hash)]
pub struct HtmlNodeRaw {
    pub text: String,
    pub id: String,
    pub children: Vec<HtmlNodeRaw>,
    pub raw: String,
}

/// The value of an [`HtmlNodeRaw`].
pub struct RawLabelView {
    pub text: Seq<char>,
    pub id: Seq<char>,
    pub children: Seq<RawLabelView>,
    pub raw: Seq<char>,
}

/// The value of a raw label node.
pub open spec fn raw_label_view(n: HtmlNodeRaw) -> RawLabelView
    decreases n,
{
    RawLabelView {
        text: n.text@,
        id: n.id@,
        children: Seq::new(
            n.children@.len(),
            |i: int|
                if 0 <= i < n.children@.len() {
                    raw_label_view(n.children@[i])
                } else {
                    arbitrary()
                },
        ),
        raw: n.raw@,
    }
}

impl View for HtmlNodeRaw {
    type V = RawLabelView;

    open spec fn view(&self) -> RawLabelView {
        raw_label_view(*self)
    }
}

/// The values of a list of raw label nodes.
pub open spec fn raw_labels_view(nodes: Seq<HtmlNodeRaw>) -> Seq<RawLabelView> {
    Seq::new(nodes.len(), |i: int| nodes[i]@)
}

/// The children of a raw node's value are the values of its children.
pub proof fn lemma_raw_label_children(n: HtmlNodeRaw)
    ensures
        n@.children == raw_labels_view(n.children@),
{
    assert(n@.children =~= raw_labels_view(n.children@));
}

impl HtmlNodeRaw {
    /// A node with the same value.
    pub fn copy(&self) -> (n: Self)
        ensures
            n@ == self@,
        decreases self,
    {
        let mut children: Vec<HtmlNodeRaw> = Vec::new();
        let mut i: usize = 0;
        while i < self.children.len()
            invariant
                i <= self.children.len(),
                children.len() == i,
                forall|k: int| 0 <= k < i ==> children@[k]@ == self.children@[k]@,
            decreases self.children.len() - i,
        {
            let child = self.children[i].copy();
            children.push(child);
            i += 1;
        }
        let n = HtmlNodeRaw {
            text: self.text.clone(),
            id: self.id.clone(),
            children,
            raw: self.raw.clone(),
        };
        assert(n@.children =~= self@.children);
        n
    }
}

impl Clone for HtmlNodeRaw {
    fn clone(&self) -> (n: Self)
        ensures
            n@ == self@,
    {
        self.copy()
    }
}

impl Default for HtmlNodeRaw {
    fn default() -> (n: Self)
        ensures
            n@ == (RawLabelView {
                text: Seq::empty(),
                id: Seq::empty(),
                children: Seq::empty(),
                raw: Seq::empty(),
            }),
    {
        let n = HtmlNodeRaw {
            text: String::new(),
            id: String::new(),
            children: Vec::new(),
            raw: String::new(),
        };
        assert(n@.children =~= Seq::<RawLabelView>::empty());
        n
    }
}

/// A loaded graph: its name, the roots of its label forest, its edges, and
/// the edge endpoints that name no node of the forest.
#[derive(Debug, PartialEq, Eq, Hash)]
pub struct Graph {
    pub id: String,
    pub nodes: Vec<HtmlNode>,
    pub edges: Vec<Edge>,
    pub edges_not_node: Vec<String>,
}

/// The value of a [`Graph`].
pub struct GraphView {
    pub id: Seq<char>,
    pub nodes: Seq<LabelView>,
    pub edges: Seq<EdgeView>,
    pub edges_not_node: Seq<Seq<char>>,
}

impl View for Graph {
    type V = GraphView;

    open spec fn view(&self) -> GraphView {
        GraphView {
            id: self.id@,
            nodes: labels_view(self.nodes@),
            edges: edges_view(self.edges@),
            edges_not_node: crate::collections::strings_view(self.edges_not_node@),
        }
    }
}

impl Clone for Graph {
    fn clone(&self) -> (g: Self)
        ensures
            g@ == self@,
    {
        let mut nodes: Vec<HtmlNode> = Vec::new();
        let mut i: usize = 0;
        while i < self.nodes.len()
            invariant
                i <= self.nodes.len(),
                nodes.len() == i,
                forall|k: int| 0 <= k < i ==> nodes@[k]@ == self.nodes@[k]@,
            decreases self.nodes.len() - i,
        {
            nodes.push(self.nodes[i].copy());
            i += 1;
        }
        let mut edges: Vec<Edge> = Vec::new();
        let mut i: usize = 0;
        while i < self.edges.len()
            invariant
                i <= self.edges.len(),
                edges.len() == i,
                forall|k: int| 0 <= k < i ==> edges@[k]@ == self.edges@[k]@,
            decreases self.edges.len() - i,
        {
            edges.push(self.edges[i].clone());
            i += 1;
        }
        let mut edges_not_node: Vec<String> = Vec::new();
        let mut i: usize = 0;
        while i < self.edges_not_node.len()
            invariant
                i <= self.edges_not_node.len(),
                edges_not_node.len() == i,
                forall|k: int| 0 <= k < i ==> edges_not_node@[k]@ == self.edges_not_node@[k]@,
            decreases self.edges_not_node.len() - i,
        {
            edges_not_node.push(self.edges_not_node[i].clone());
            i += 1;
        }
        let g = Graph { id: self.id.clone(), nodes, edges, edges_not_node };
        assert(g@.nodes =~= self@.nodes);
        assert(g@.edges =~= self@.edges);
        assert(g@.edges_not_node =~= self@.edges_not_node);
        g
    }
}

impl Default for Graph {
    fn default() -> (g: Self)
        ensures
            g@ == (GraphView {
                id: Seq::empty(),
                nodes: Seq::empty(),
                edges: Seq::empty(),
                edges_not_node: Seq::empty(),
            }),
    {
        let g = Graph {
            id: String::new(),
            nodes: Vec::new(),
            edges: Vec::new(),
            edges_not_node: Vec::new(),
        };
        assert(g@.nodes =~= Seq::<LabelView>::empty());
        assert(g@.edges =~= Seq::<EdgeView>::empty());
        assert(g@.edges_not_node =~= Seq::<Seq<char>>::empty());
        g
    }
}

} // verus!
