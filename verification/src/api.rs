//! The operations on a view: loading a graph into it, searching the names,
//! showing and hiding nodes, renaming them, growing the view along the
//! edges, and drawing what is shown.

use crate::api_model::{nodes_view, AppState, Node, NodeView, SearchNodeQuery};
use crate::collections::{
    bound, keys_of, lookup, removed, strings_view, StringMap, StringSet,
};
use crate::dot_parse::{graph_of_source, parse_from_dot};
use crate::error::{message_of, Error};
use crate::index::{
    forward_index, lemma_forward_index, lemma_reverse_index, link, reverse_index, turned,
};
use crate::model::{edges_view, EdgeView, Graph, GraphView};
use crate::naming::{
    gen_node_id_to_name, lemma_names_with_forest, name_in_forest, names_with_forest,
};
use crate::prune::{kept, lemma_kept_has_neighbour, neighbours, prune, pruned};
use crate::text::{contains, contains_seq, first_index, lemma_first_index, push_char, to_chars};
use crate::traverse::{breadth_first, follows, has_edge, is_walk, reach, reachable, Links};
use vstd::prelude::*;
use vstd::string::StringExecFns;

verus! {

/// A freshly loaded state shows nothing and has no name given by hand; its
/// names and its two indices are those of its graph.
pub open spec fn is_fresh(state: AppState, graph: GraphView) -> bool {
    &&& state.graph@ == graph
    &&& state.node_id_to_name@ == names_with_forest(graph.nodes, Seq::empty(), Seq::empty())
    &&& state.edge_from_to@ == forward_index(graph.edges)
    &&& state.edge_to_from@ == reverse_index(forward_index(graph.edges))
    &&& state.node_id_to_new_name@.len() == 0
    &&& state.node_set@.len() == 0
}

/// In a freshly loaded state the index by the start has exactly the edges
/// of the graph, and the index by the end has the same edges the other way
/// round.
pub proof fn lemma_fresh_indices(state: AppState, graph: GraphView, a: Seq<char>, b: Seq<char>)
    requires
        is_fresh(state, graph),
    ensures
        has_edge(state.edge_from_to@, a, b) <==> exists|i: int|
            0 <= i < graph.edges.len() && (#[trigger] graph.edges[i]).from == a
                && graph.edges[i].to == b,
        has_edge(state.edge_to_from@, b, a) <==> has_edge(state.edge_from_to@, a, b),
{
    lemma_forward_index(graph.edges, a, b);
    lemma_reverse_index(forward_index(graph.edges), a, b);
}

/// The state of a view on a graph that was just loaded.
pub fn load_state(graph: Graph) -> (state: AppState)
    ensures
        is_fresh(state, graph@),
        state.graph == graph,
{
    let mut node_id_to_name: StringMap<String> = StringMap::new();
    let mut father_name: Vec<String> = Vec::new();
    assert(strings_view(father_name@) =~= Seq::<Seq<char>>::empty());
    gen_node_id_to_name(&graph.nodes, &mut node_id_to_name, &mut father_name);
    let ghost links = edges_view(graph.edges@);
    let mut edge_from_to: StringMap<StringSet> = StringMap::new();
    let mut i: usize = 0;
    assert(links.take(0) =~= Seq::<EdgeView>::empty());
    while i < graph.edges.len()
        invariant
            i <= graph.edges.len(),
            links == edges_view(graph.edges@),
            edge_from_to@ == forward_index(links.take(i as int)),
        decreases graph.edges.len() - i,
    {
        proof {
            assert(links.take(i + 1).drop_last() =~= links.take(i as int));
            assert(links.take(i + 1).last() == graph.edges@[i as int]@);
        }
        link(&mut edge_from_to, &graph.edges[i].from, &graph.edges[i].to);
        i += 1;
    }
    assert(links.take(i as int) =~= links);
    let ghost forward = edge_from_to@;
    let mut edge_to_from: StringMap<StringSet> = StringMap::new();
    let mut i: usize = 0;
    assert(forward.take(0) =~= Seq::<(Seq<char>, Seq<Seq<char>>)>::empty());
    while i < edge_from_to.len()
        invariant
            i <= edge_from_to@.len(),
            forward == edge_from_to@,
            edge_to_from@ == reverse_index(forward.take(i as int)),
        decreases edge_from_to@.len() - i,
    {
        let (from, outs) = edge_from_to.entry(i);
        let ghost before = edge_to_from@;
        proof {
            assert(forward.take(i + 1).drop_last() =~= forward.take(i as int));
            assert(forward.take(i + 1).last() == forward[i as int]);
            assert(outs@.take(0) =~= Seq::<Seq<char>>::empty());
        }
        let mut j: usize = 0;
        while j < outs.len()
            invariant
                j <= outs@.len(),
                edge_to_from@ == turned(before, from@, outs@.take(j as int)),
            decreases outs@.len() - j,
        {
            proof {
                assert(outs@.take(j + 1).drop_last() =~= outs@.take(j as int));
                assert(outs@.take(j + 1).last() == outs@[j as int]);
            }
            link(&mut edge_to_from, outs.get(j), from);
            j += 1;
        }
        assert(outs@.take(j as int) =~= outs@);
        i += 1;
    }
    assert(forward.take(i as int) =~= forward);
    AppState {
        graph,
        node_id_to_name,
        edge_from_to,
        edge_to_from,
        node_id_to_new_name: StringMap::new(),
        node_set: StringSet::new(),
    }
}

/// What an operation answers on a state: `value` when a graph is loaded,
/// and the error that says so when none is.
pub open spec fn guarded<T>(state: Option<AppState>, value: T) -> Result<T, Error> {
    match state {
        Some(_) => Ok(value),
        None => Err(Error::StateNotInitialized),
    }
}

/// The view after the node `id` is shown: it joins the nodes that are
/// shown unless it is among them. Without a loaded graph nothing changes.
pub open spec fn node_shown(before: Option<AppState>, after: Option<AppState>, id: Seq<char>) -> bool {
    match before {
        None => after is None,
        Some(b) => {
            &&& after matches Some(a)
            &&& a.same_base(b)
            &&& a.node_id_to_new_name == b.node_id_to_new_name
            &&& a.node_set@ == if b.node_set@.contains(id) {
                b.node_set@
            } else {
                b.node_set@.push(id)
            }
        },
    }
}

/// Shows the node `query.id`, whether the graph has such a node or not.
pub fn put_node_inner(state: &mut Option<AppState>, query: Node) -> (r: Result<(), Error>)
    ensures
        r == guarded(*old(state), ()),
        node_shown(*old(state), *final(state), query.id@),
{
    match state {
        None => Err(Error::StateNotInitialized),
        Some(s) => {
            s.node_set.insert(query.id);
            Ok(())
        },
    }
}

/// What a renaming answers: an error without a loaded graph, and one
/// without a name.
pub open spec fn renaming(before: Option<AppState>, name: Option<Seq<char>>) -> Result<(), Error> {
    match before {
        None => Err(Error::StateNotInitialized),
        Some(_) => match name {
            None => Err(Error::MissingName),
            Some(_) => Ok(()),
        },
    }
}

/// The view after the node `id` is given the name `name` by hand. Without
/// a loaded graph or without a name nothing changes.
pub open spec fn node_renamed(
    before: Option<AppState>,
    after: Option<AppState>,
    id: Seq<char>,
    name: Option<Seq<char>>,
) -> bool {
    match (before, name) {
        (Some(b), Some(name)) => {
            &&& after matches Some(a)
            &&& a.same_base(b)
            &&& a.node_set == b.node_set
            &&& a.node_id_to_new_name@ == bound(b.node_id_to_new_name@, id, name)
        },
        _ => after == before,
    }
}

/// Gives the node `query.id` the name `query.name` by hand.
pub fn post_node_inner(state: &mut Option<AppState>, query: Node) -> (r: Result<(), Error>)
    ensures
        r == renaming(*old(state), text_view(query.name)),
        node_renamed(*old(state), *final(state), query.id@, text_view(query.name)),
{
    match state {
        None => Err(Error::StateNotInitialized),
        Some(s) => match query.name {
            None => Err(Error::MissingName),
            Some(name) => {
                s.node_id_to_new_name.insert(query.id, name);
                Ok(())
            },
        },
    }
}

/// The view after the nodes `shown` are pruned: a node is shown exactly if
/// it is an end of an edge whose ends are both in `shown`, and the nodes
/// stand in the order in which the edges bring them up. Without a loaded
/// graph nothing changes.
pub open spec fn view_pruned(
    before: Option<AppState>,
    after: Option<AppState>,
    shown: Seq<Seq<char>>,
) -> bool {
    match before {
        None => after is None,
        Some(b) => {
            &&& after matches Some(a)
            &&& a.same_base(b)
            &&& a.node_id_to_new_name == b.node_id_to_new_name
            &&& a.node_set@.no_duplicates()
            &&& a.node_set@ == pruned(b.edge_from_to@, shown)
            &&& forall|x: Seq<char>| #[trigger]
                a.node_set@.contains(x) <==> kept(b.edge_from_to@, shown, x)
        },
    }
}

/// After a pruning every node that is shown has a neighbour that is shown,
/// by an edge of the graph; a node that is no end of an edge between two of
/// the nodes `shown` is not shown.
pub proof fn lemma_pruned_view(
    before: AppState,
    after: AppState,
    shown: Seq<Seq<char>>,
    x: Seq<char>,
)
    requires
        view_pruned(Some(before), Some(after), shown),
    ensures
        after.node_set@.contains(x) ==> exists|y: Seq<char>|
            after.node_set@.contains(y) && #[trigger] neighbours(before.edge_from_to@, x, y),
        !kept(before.edge_from_to@, shown, x) ==> !after.node_set@.contains(x),
{
    if after.node_set@.contains(x) {
        lemma_kept_has_neighbour(before.edge_from_to@, shown, x);
        let y = choose|y: Seq<char>|
            kept(before.edge_from_to@, shown, y) && #[trigger] neighbours(
                before.edge_from_to@,
                x,
                y,
            );
        assert(after.node_set@.contains(y) && neighbours(before.edge_from_to@, x, y));
    }
}

/// The nodes that a view shows, none without a loaded graph.
pub open spec fn shown_in(state: Option<AppState>) -> Seq<Seq<char>> {
    match state {
        Some(s) => s.node_set@,
        None => Seq::empty(),
    }
}

/// Prunes the view: a node stays shown only if it is an end of an edge
/// whose ends are both shown.
pub fn clean_signal_inner(state: &mut Option<AppState>) -> (r: Result<(), Error>)
    ensures
        r == guarded(*old(state), ()),
        view_pruned(*old(state), *final(state), shown_in(*old(state))),
{
    match state {
        None => Err(Error::StateNotInitialized),
        Some(s) => {
            s.node_set = prune(&s.edge_from_to, &s.node_set);
            Ok(())
        },
    }
}

/// Hides the node `id` and prunes what is left of the view.
pub fn delete_node_inner(state: &mut Option<AppState>, id: String) -> (r: Result<(), Error>)
    ensures
        r == guarded(*old(state), ()),
        view_pruned(*old(state), *final(state), removed(shown_in(*old(state)), id@)),
{
    match state {
        None => {
            return Err(Error::StateNotInitialized);
        },
        Some(s) => {
            s.node_set.remove(&id);
        },
    }
    clean_signal_inner(state)
}

/// The view after it grew from the node `id` along the edges: a node is
/// shown, once, exactly if it can be reached from `id`, and the nodes stand
/// in the order in which a breadth-first search visits them. Without a
/// loaded graph nothing changes.
pub open spec fn grown_along(before: Option<AppState>, after: Option<AppState>, id: Seq<char>) -> bool {
    match before {
        None => after is None,
        Some(b) => {
            &&& after matches Some(a)
            &&& a.same_base(b)
            &&& a.node_id_to_new_name == b.node_id_to_new_name
            &&& a.node_set@.no_duplicates()
            &&& a.node_set@ == breadth_first(
                b.edge_from_to@,
                removed(b.node_set@, id),
                b.node_set@.len() <= 1,
                id,
            )
            &&& forall|x: Seq<char>| #[trigger]
                a.node_set@.contains(x) <==> reachable(
                    b.edge_from_to@,
                    removed(b.node_set@, id),
                    b.node_set@.len() <= 1,
                    id,
                    x,
                )
        },
    }
}

/// The view after it grew from the node `id` against the edges: a node is
/// shown, once, exactly if `id` can be reached from it, and the nodes stand
/// in the order in which a breadth-first search visits them. Without a
/// loaded graph nothing changes.
pub open spec fn grown_against(before: Option<AppState>, after: Option<AppState>, id: Seq<char>) -> bool {
    match before {
        None => after is None,
        Some(b) => {
            &&& after matches Some(a)
            &&& a.same_base(b)
            &&& a.node_id_to_new_name == b.node_id_to_new_name
            &&& a.node_set@.no_duplicates()
            &&& a.node_set@ == breadth_first(
                b.edge_to_from@,
                b.node_set@,
                b.node_set@.len() <= 1,
                id,
            )
            &&& forall|x: Seq<char>| #[trigger]
                a.node_set@.contains(x) <==> reachable(
                    b.edge_to_from@,
                    b.node_set@,
                    b.node_set@.len() <= 1,
                    id,
                    x,
                )
        },
    }
}

/// Grows the view from the node `query.id` along the edges: the view
/// becomes the nodes that can be reached from it. An edge is gone along
/// only to a node that is shown and is not `query.id`, unless at most one
/// node is shown, and then every edge is.
pub fn put_node_tree_inner(state: &mut Option<AppState>, query: Node) -> (r: Result<(), Error>)
    ensures
        r == guarded(*old(state), ()),
        grown_along(*old(state), *final(state), query.id@),
{
    match state {
        None => Err(Error::StateNotInitialized),
        Some(s) => {
            let is_init = s.node_set.len() <= 1;
            s.node_set.remove(&query.id);
            s.node_set = reach(&s.edge_from_to, &s.node_set, is_init, query.id);
            Ok(())
        },
    }
}

/// Grows the view from the node `query.id` against the edges: the view
/// becomes the nodes from which it can be reached. An edge is gone along
/// only from a node that is shown, unless at most one node is shown, and
/// then every edge is.
pub fn filter_node_father_tree_inner(state: &mut Option<AppState>, query: Node) -> (r: Result<
    (),
    Error,
>)
    ensures
        r == guarded(*old(state), ()),
        grown_against(*old(state), *final(state), query.id@),
{
    match state {
        None => Err(Error::StateNotInitialized),
        Some(s) => {
            let is_init = s.node_set.len() <= 1;
            s.node_set = reach(&s.edge_to_from, &s.node_set, is_init, query.id);
            Ok(())
        },
    }
}

/// The most nodes that a search answers.
pub const SEARCH_LIMIT: usize = 100;

/// The nodes among which a search looks: the neighbours of the related
/// node, none if it has no edge, or all nodes when no related node is given.
pub open spec fn related_to(adj: Links, related: Option<Seq<char>>) -> Option<Seq<Seq<char>>> {
    match related {
        None => None,
        Some(id) => Some(
            match lookup(adj, id) {
                Some(outs) => outs,
                None => Seq::empty(),
            },
        ),
    }
}

/// A named node answers a search: its name holds the hint, when there is
/// one, and it is among the related nodes, when a related node is given.
pub open spec fn answers(
    entry: (Seq<char>, Seq<char>),
    hint: Option<Seq<char>>,
    among: Option<Seq<Seq<char>>>,
) -> bool {
    &&& hint matches Some(h) ==> contains_seq(entry.1, h)
    &&& among matches Some(ids) ==> ids.contains(entry.0)
}

/// The named nodes that answer a search, in the order of the names.
pub open spec fn matching(
    names: Seq<(Seq<char>, Seq<char>)>,
    hint: Option<Seq<char>>,
    among: Option<Seq<Seq<char>>>,
) -> Seq<NodeView>
    decreases names.len(),
{
    if names.len() == 0 {
        Seq::empty()
    } else {
        let before = matching(names.drop_last(), hint, among);
        if answers(names.last(), hint, among) {
            before.push(NodeView { id: names.last().0, name: Some(names.last().1) })
        } else {
            before
        }
    }
}

/// The answer to a search: the first hundred of the named nodes that
/// answer it.
pub open spec fn found(
    names: Seq<(Seq<char>, Seq<char>)>,
    adj: Links,
    related: Option<Seq<char>>,
    hint: Option<Seq<char>>,
) -> Seq<NodeView> {
    let all = matching(names, hint, related_to(adj, related));
    if all.len() > SEARCH_LIMIT {
        all.take(SEARCH_LIMIT as int)
    } else {
        all
    }
}

/// What a search answers on a view.
pub open spec fn searched(
    state: Option<AppState>,
    related: Option<Seq<char>>,
    hint: Option<Seq<char>>,
) -> Result<Seq<NodeView>, Error> {
    match state {
        None => Err(Error::StateNotInitialized),
        Some(s) => Ok(found(s.node_id_to_name@, s.edge_from_to@, related, hint)),
    }
}

/// The value of a string that may be left out.
pub open spec fn text_view(text: Option<String>) -> Option<Seq<char>> {
    match text {
        Some(t) => Some(t@),
        None => None,
    }
}

/// Searches the names of the nodes.
pub fn search_node_inner(state: &Option<AppState>, query: SearchNodeQuery) -> (r: Result<
    Vec<Node>,
    Error,
>)
    ensures
        match r {
            Ok(nodes) => searched(
                *state,
                text_view(query.related_node_id),
                text_view(query.hint_node_id),
            ) == Ok::<Seq<NodeView>, Error>(nodes_view(nodes@)),
            Err(e) => searched(
                *state,
                text_view(query.related_node_id),
                text_view(query.hint_node_id),
            ) == Err::<Seq<NodeView>, Error>(e),
        },
        r matches Ok(nodes) ==> nodes.len() <= SEARCH_LIMIT,
{
    let s = match state {
        Some(s) => s,
        None => {
            return Err(Error::StateNotInitialized);
        },
    };
    let empty = StringSet::new();
    let edge_filter: Option<&StringSet> = match &query.related_node_id {
        None => None,
        Some(id) => match s.edge_from_to.get(id) {
            Some(outs) => Some(outs),
            None => Some(&empty),
        },
    };
    let hint: Option<Vec<char>> = match &query.hint_node_id {
        Some(h) => Some(to_chars(h.as_str())),
        None => None,
    };
    let ghost names = s.node_id_to_name@;
    let ghost among = related_to(s.edge_from_to@, text_view(query.related_node_id));
    let ghost wanted = text_view(query.hint_node_id);
    let mut ans: Vec<Node> = Vec::new();
    let n = s.node_id_to_name.len();
    let mut i: usize = 0;
    proof {
        assert(names.take(0) =~= Seq::<(Seq<char>, Seq<char>)>::empty());
        assert(nodes_view(ans@) =~= Seq::<NodeView>::empty());
    }
    while i < n
        invariant
            i <= n,
            n == names.len(),
            names == s.node_id_to_name@,
            *state == Some(*s),
            match edge_filter {
                Some(set) => among == Some(set@),
                None => among is None,
            },
            match hint {
                Some(h) => wanted == Some(h@),
                None => wanted is None,
            },
            nodes_view(ans@) == matching(names.take(i as int), wanted, among),
        decreases n - i,
    {
        let (id, name) = s.node_id_to_name.entry(i);
        proof {
            assert(names.take(i + 1).drop_last() =~= names.take(i as int));
            assert(names.take(i + 1).last() == names[i as int]);
        }
        let by_hint = match &hint {
            Some(h) => contains(&to_chars(name.as_str()), h),
            None => true,
        };
        let by_edge = match edge_filter {
            Some(set) => set.contains(id),
            None => true,
        };
        if by_hint && by_edge {
            let node = Node { id: id.clone(), name: Some(name.clone()) };
            proof {
                assert(nodes_view(ans@.push(node)) =~= nodes_view(ans@).push(node@));
            }
            ans.push(node);
        }
        i += 1;
    }
    proof {
        assert(names.take(i as int) =~= names);
        let all = nodes_view(ans@);
        if ans.len() > SEARCH_LIMIT {
            assert(nodes_view(ans@.subrange(0, SEARCH_LIMIT as int)) =~= all.take(
                SEARCH_LIMIT as int,
            ));
        }
    }
    ans.truncate(SEARCH_LIMIT);
    assert(nodes_view(ans@) =~= found(names, s.edge_from_to@, text_view(query.related_node_id), wanted));
    Ok(ans)
}

/// The name under which a node is drawn: the name given by hand, or else
/// the name of the node in the graph.
pub open spec fn display_name(
    names: Seq<(Seq<char>, Seq<char>)>,
    overrides: Seq<(Seq<char>, Seq<char>)>,
    id: Seq<char>,
) -> Option<Seq<char>> {
    match lookup(overrides, id) {
        Some(name) => Some(name),
        None => lookup(names, id),
    }
}

/// Every node of `ids` has a name under which it is drawn.
pub open spec fn all_named(
    ids: Seq<Seq<char>>,
    names: Seq<(Seq<char>, Seq<char>)>,
    overrides: Seq<(Seq<char>, Seq<char>)>,
) -> bool {
    forall|i: int| 0 <= i < ids.len() ==> display_name(names, overrides, #[trigger] ids[i]) is Some
}

/// The line that declares a node.
pub open spec fn node_line(id: Seq<char>, name: Seq<char>) -> Seq<char> {
    id + seq!['['] + name + seq![']', '\n']
}

/// The lines that declare the nodes of `ids`, in order.
pub open spec fn node_lines(
    ids: Seq<Seq<char>>,
    names: Seq<(Seq<char>, Seq<char>)>,
    overrides: Seq<(Seq<char>, Seq<char>)>,
) -> Seq<char>
    decreases ids.len(),
{
    if ids.len() == 0 {
        Seq::empty()
    } else {
        node_lines(ids.drop_last(), names, overrides) + node_line(
            ids.last(),
            display_name(names, overrides, ids.last()).unwrap(),
        )
    }
}

/// The line that draws an edge.
pub open spec fn edge_line(from: Seq<char>, to: Seq<char>) -> Seq<char> {
    from + " --> "@ + to + seq!['\n']
}

/// The lines that draw the edges from `from` to those of `outs` that are
/// shown, if `from` is shown.
pub open spec fn entry_lines(from: Seq<char>, outs: Seq<Seq<char>>, shown: Seq<Seq<char>>) -> Seq<
    char,
>
    decreases outs.len(),
{
    if outs.len() == 0 {
        Seq::empty()
    } else {
        let before = entry_lines(from, outs.drop_last(), shown);
        if shown.contains(outs.last()) && shown.contains(from) {
            before + edge_line(from, outs.last())
        } else {
            before
        }
    }
}

/// The lines that draw the edges of `adj` whose ends are both shown, in the
/// order of the index.
pub open spec fn edge_lines(adj: Links, shown: Seq<Seq<char>>) -> Seq<char>
    decreases adj.len(),
{
    if adj.len() == 0 {
        Seq::empty()
    } else {
        edge_lines(adj.drop_last(), shown) + entry_lines(adj.last().0, adj.last().1, shown)
    }
}

/// The drawing of a view: a header, a line for each node that is shown,
/// then a line for each edge between two nodes that are shown.
pub open spec fn drawing(
    shown: Seq<Seq<char>>,
    names: Seq<(Seq<char>, Seq<char>)>,
    overrides: Seq<(Seq<char>, Seq<char>)>,
    adj: Links,
) -> Seq<char> {
    "flowchart TD\n"@ + node_lines(shown, names, overrides) + edge_lines(adj, shown)
}

/// What drawing a view answers: the drawing, or an error without a loaded
/// graph or when a node that is shown has no name.
pub open spec fn drawn(state: Option<AppState>) -> Result<Seq<char>, Error> {
    match state {
        None => Err(Error::StateNotInitialized),
        Some(s) => if all_named(s.node_set@, s.node_id_to_name@, s.node_id_to_new_name@) {
            Ok(drawing(s.node_set@, s.node_id_to_name@, s.node_id_to_new_name@, s.edge_from_to@))
        } else {
            Err(Error::MissingNodeName)
        },
    }
}

/// Draws the view as a flowchart.
pub fn gen_graph_inner(state: &Option<AppState>) -> (r: Result<String, Error>)
    ensures
        match r {
            Ok(text) => drawn(*state) == Ok::<Seq<char>, Error>(text@),
            Err(e) => drawn(*state) == Err::<Seq<char>, Error>(e),
        },
{
    let s = match state {
        Some(s) => s,
        None => {
            return Err(Error::StateNotInitialized);
        },
    };
    let ghost shown = s.node_set@;
    let ghost names = s.node_id_to_name@;
    let ghost overrides = s.node_id_to_new_name@;
    let ghost adj = s.edge_from_to@;
    let mut dot = "flowchart TD\n".to_owned();
    let count = s.node_set.len();
    let mut i: usize = 0;
    proof {
        assert(shown.take(0) =~= Seq::<Seq<char>>::empty());
        assert(dot@ =~= "flowchart TD\n"@ + node_lines(shown.take(0), names, overrides));
    }
    while i < count
        invariant
            i <= count,
            count == shown.len(),
            shown == s.node_set@,
            names == s.node_id_to_name@,
            overrides == s.node_id_to_new_name@,
            *state == Some(*s),
            all_named(shown.take(i as int), names, overrides),
            dot@ == "flowchart TD\n"@ + node_lines(shown.take(i as int), names, overrides),
        decreases count - i,
    {
        let id = s.node_set.get(i);
        proof {
            assert(shown.take(i + 1).drop_last() =~= shown.take(i as int));
            assert(shown.take(i + 1).last() == shown[i as int]);
        }
        let name = match s.node_id_to_new_name.get(id) {
            Some(name) => name,
            None => match s.node_id_to_name.get(id) {
                Some(name) => name,
                None => {
                    assert(!all_named(shown, names, overrides)) by {
                        assert(display_name(names, overrides, shown[i as int]) is None);
                    }
                    return Err(Error::MissingNodeName);
                },
            },
        };
        let ghost before = dot@;
        dot.append(id.as_str());
        push_char(&mut dot, '[');
        dot.append(name.as_str());
        push_char(&mut dot, ']');
        push_char(&mut dot, '\n');
        proof {
            assert(dot@ =~= before + node_line(id@, name@));
            assert(dot@ =~= "flowchart TD\n"@ + node_lines(shown.take(i + 1), names, overrides));
            assert forall|k: int| 0 <= k < shown.take(i + 1).len() implies display_name(
                names,
                overrides,
                #[trigger] shown.take(i + 1)[k],
            ) is Some by {
                if k < i {
                    assert(shown.take(i as int)[k] == shown.take(i + 1)[k]);
                }
            }
        }
        i += 1;
    }
    assert(shown.take(i as int) =~= shown);
    let ghost top = dot@;
    let n = s.edge_from_to.len();
    let mut i: usize = 0;
    proof {
        assert(adj.take(0) =~= Seq::<(Seq<char>, Seq<Seq<char>>)>::empty());
        assert(dot@ =~= top + edge_lines(adj.take(0), shown));
    }
    while i < n
        invariant
            i <= n,
            n == adj.len(),
            adj == s.edge_from_to@,
            shown == s.node_set@,
            dot@ == top + edge_lines(adj.take(i as int), shown),
        decreases n - i,
    {
        let (from, outs) = s.edge_from_to.entry(i);
        let from_shown = s.node_set.contains(from);
        let ghost before = dot@;
        let mut j: usize = 0;
        proof {
            assert(adj.take(i + 1).drop_last() =~= adj.take(i as int));
            assert(adj.take(i + 1).last() == adj[i as int]);
            assert(outs@.take(0) =~= Seq::<Seq<char>>::empty());
            assert(dot@ =~= before + entry_lines(from@, outs@.take(0), shown));
        }
        while j < outs.len()
            invariant
                j <= outs@.len(),
                shown == s.node_set@,
                from_shown == shown.contains(from@),
                dot@ == before + entry_lines(from@, outs@.take(j as int), shown),
            decreases outs@.len() - j,
        {
            let to = outs.get(j);
            proof {
                assert(outs@.take(j + 1).drop_last() =~= outs@.take(j as int));
                assert(outs@.take(j + 1).last() == outs@[j as int]);
            }
            if s.node_set.contains(to) && from_shown {
                let ghost so_far = dot@;
                dot.append(from.as_str());
                dot.append(" --> ");
                dot.append(to.as_str());
                push_char(&mut dot, '\n');
                assert(dot@ =~= so_far + edge_line(from@, to@));
                assert(dot@ =~= before + entry_lines(from@, outs@.take(j + 1), shown));
            }
            j += 1;
        }
        proof {
            assert(outs@.take(j as int) =~= outs@);
            assert(dot@ =~= top + edge_lines(adj.take(i + 1), shown));
        }
        i += 1;
    }
    assert(adj.take(i as int) =~= adj);
    Ok(dot)
}

/// What loading answers: nothing is wrong when a graph is loaded already;
/// else the source must be there and must describe a graph.
pub open spec fn loading(before: Option<AppState>, source: Option<Seq<char>>) -> Result<(), Error> {
    match before {
        Some(_) => Ok(()),
        None => match source {
            None => Err(Error::SourceUnreadable),
            Some(text) => match graph_of_source(text) {
                Ok(_) => Ok(()),
                Err(e) => Err(e),
            },
        },
    }
}

/// The view after loading: unchanged when a graph was loaded already, a
/// fresh view on the graph that the source describes when it describes one,
/// and still without a graph when it does not.
pub open spec fn loaded(
    before: Option<AppState>,
    after: Option<AppState>,
    source: Option<Seq<char>>,
) -> bool {
    match before {
        Some(_) => after == before,
        None => match source {
            None => after is None,
            Some(text) => match graph_of_source(text) {
                Ok(graph) => after matches Some(a) && is_fresh(a, graph),
                Err(_) => after is None,
            },
        },
    }
}

/// Loads a graph into the view, unless one is loaded: then nothing changes
/// and `source` is not looked at. `source` is the graph description, or
/// nothing when it could not be read.
pub fn init_graph_inner(state: &mut Option<AppState>, source: Option<String>) -> (r: Result<
    (),
    Error,
>)
    ensures
        r == loading(*old(state), text_view(source)),
        loaded(*old(state), *final(state), text_view(source)),
{
    if state.is_some() {
        return Ok(());
    }
    let text = match source {
        Some(text) => text,
        None => {
            return Err(Error::SourceUnreadable);
        },
    };
    match parse_from_dot(text.as_str()) {
        Ok(graph) => {
            *state = Some(load_state(graph));
            Ok(())
        },
        Err(e) => Err(e),
    }
}

/// The code of an answer that reports success.
pub const RS_CODE_SUCCESS: i32 = 0;

/// The code of an answer that reports a failure.
pub const RS_CODE_FAILURE: i32 = -1;

/// What an answer carries.
#[derive(Debug, PartialEq, Eq)]
pub enum Payload {
    /// Nothing.
    Null,
    /// A text.
    Text(String),
    /// A list of nodes.
    Nodes(Vec<Node>),
}

/// The value of a [`Payload`].
pub enum PayloadView {
    Null,
    Text(Seq<char>),
    Nodes(Seq<NodeView>),
}

impl View for Payload {
    type V = PayloadView;

    open spec fn view(&self) -> PayloadView {
        match self {
            Payload::Null => PayloadView::Null,
            Payload::Text(text) => PayloadView::Text(text@),
            Payload::Nodes(nodes) => PayloadView::Nodes(nodes_view(nodes@)),
        }
    }
}

/// The answer to an operation: a code, a message and what it carries.
#[derive(Debug, PartialEq, Eq)]
pub struct ResponseStatus {
    pub code: i32,
    pub msg: String,
    pub data: Payload,
}

/// The value of a [`ResponseStatus`].
pub struct ResponseView {
    pub code: int,
    pub msg: Seq<char>,
    pub data: PayloadView,
}

impl View for ResponseStatus {
    type V = ResponseView;

    open spec fn view(&self) -> ResponseView {
        ResponseView { code: self.code as int, msg: self.msg@, data: self.data@ }
    }
}

/// The answer that reports the outcome of an operation: success with what
/// the operation gave, or a failure with the text of the error.
pub open spec fn envelope(outcome: Result<PayloadView, Error>) -> ResponseView {
    match outcome {
        Ok(data) => ResponseView { code: RS_CODE_SUCCESS as int, msg: "成功"@, data },
        Err(e) => ResponseView {
            code: RS_CODE_FAILURE as int,
            msg: message_of(e),
            data: PayloadView::Null,
        },
    }
}

/// The outcome of an operation that gives nothing.
pub open spec fn plain(outcome: Result<(), Error>) -> Result<PayloadView, Error> {
    match outcome {
        Ok(_) => Ok(PayloadView::Null),
        Err(e) => Err(e),
    }
}

impl ResponseStatus {
    /// An answer that reports success and carries nothing.
    pub fn success() -> (r: Self)
        ensures
            r@ == envelope(Ok(PayloadView::Null)),
    {
        ResponseStatus { code: RS_CODE_SUCCESS, msg: "成功".to_owned(), data: Payload::Null }
    }

    /// An answer that reports a failure without saying which.
    pub fn failure() -> (r: Self)
        ensures
            r@ == (ResponseView {
                code: RS_CODE_FAILURE as int,
                msg: "失败"@,
                data: PayloadView::Null,
            }),
    {
        ResponseStatus { code: RS_CODE_FAILURE, msg: "失败".to_owned(), data: Payload::Null }
    }

    /// An answer that reports success and carries `data`.
    pub fn ok(data: Payload) -> (r: Self)
        ensures
            r@ == envelope(Ok(data@)),
    {
        ResponseStatus { code: RS_CODE_SUCCESS, msg: "成功".to_owned(), data }
    }
}

/// The value of an outcome.
pub open spec fn outcome_view(resp: Result<Payload, Error>) -> Result<PayloadView, Error> {
    match resp {
        Ok(data) => Ok(data@),
        Err(e) => Err(e),
    }
}

/// Wraps the outcome of an operation into an answer.
pub fn process_resp(resp: Result<Payload, Error>) -> (r: ResponseStatus)
    ensures
        r@ == envelope(outcome_view(resp)),
{
    let mut res = ResponseStatus::success();
    match resp {
        Ok(data) => {
            res.data = data;
        },
        Err(e) => {
            res.code = RS_CODE_FAILURE;
            res.msg = e.message();
        },
    }
    res
}

fn unit_resp(resp: Result<(), Error>) -> (r: ResponseStatus)
    ensures
        r@ == envelope(plain(resp)),
{
    process_resp(
        match resp {
            Ok(_) => Ok(Payload::Null),
            Err(e) => Err(e),
        },
    )
}

/// Draws the view and answers with the drawing.
pub fn gen_graph(state: &Option<AppState>) -> (r: ResponseStatus)
    ensures
        r@ == envelope(
            match drawn(*state) {
                Ok(text) => Ok(PayloadView::Text(text)),
                Err(e) => Err(e),
            },
        ),
{
    process_resp(
        match gen_graph_inner(state) {
            Ok(text) => Ok(Payload::Text(text)),
            Err(e) => Err(e),
        },
    )
}

/// Gives a node a name by hand and answers.
pub fn post_node(state: &mut Option<AppState>, query: Node) -> (r: ResponseStatus)
    ensures
        r@ == envelope(plain(renaming(*old(state), text_view(query.name)))),
        node_renamed(*old(state), *final(state), query.id@, text_view(query.name)),
{
    unit_resp(post_node_inner(state, query))
}

/// Hides a node, prunes the view and answers.
pub fn delete_node(state: &mut Option<AppState>, query: Node) -> (r: ResponseStatus)
    ensures
        r@ == envelope(plain(guarded(*old(state), ()))),
        view_pruned(*old(state), *final(state), removed(shown_in(*old(state)), query.id@)),
{
    unit_resp(delete_node_inner(state, query.id))
}

/// Grows the view along the edges and answers.
pub fn put_node_tree(state: &mut Option<AppState>, query: Node) -> (r: ResponseStatus)
    ensures
        r@ == envelope(plain(guarded(*old(state), ()))),
        grown_along(*old(state), *final(state), query.id@),
{
    unit_resp(put_node_tree_inner(state, query))
}

/// Prunes the view and answers.
pub fn clean_signal(state: &mut Option<AppState>) -> (r: ResponseStatus)
    ensures
        r@ == envelope(plain(guarded(*old(state), ()))),
        view_pruned(*old(state), *final(state), shown_in(*old(state))),
{
    unit_resp(clean_signal_inner(state))
}

/// Grows the view against the edges and answers.
pub fn filter_node_father_tree(state: &mut Option<AppState>, query: Node) -> (r: ResponseStatus)
    ensures
        r@ == envelope(plain(guarded(*old(state), ()))),
        grown_against(*old(state), *final(state), query.id@),
{
    unit_resp(filter_node_father_tree_inner(state, query))
}

/// Shows a node and answers.
pub fn put_node(state: &mut Option<AppState>, query: Node) -> (r: ResponseStatus)
    ensures
        r@ == envelope(plain(guarded(*old(state), ()))),
        node_shown(*old(state), *final(state), query.id@),
{
    unit_resp(put_node_inner(state, query))
}

/// Searches the names and answers with the nodes found.
pub fn search_node(state: &Option<AppState>, query: SearchNodeQuery) -> (r: ResponseStatus)
    ensures
        r@ == envelope(
            match searched(
                *state,
                text_view(query.related_node_id),
                text_view(query.hint_node_id),
            ) {
                Ok(nodes) => Ok(PayloadView::Nodes(nodes)),
                Err(e) => Err(e),
            },
        ),
{
    process_resp(
        match search_node_inner(state, query) {
            Ok(nodes) => Ok(Payload::Nodes(nodes)),
            Err(e) => Err(e),
        },
    )
}

/// Loads a graph into the view, unless one is loaded, and answers.
pub fn init_graph(state: &mut Option<AppState>, source: Option<String>) -> (r: ResponseStatus)
    ensures
        r@ == envelope(plain(loading(*old(state), text_view(source)))),
        loaded(*old(state), *final(state), text_view(source)),
{
    unit_resp(init_graph_inner(state, source))
}

/// Loading twice is loading once: after a loading went well, another one
/// goes well and changes nothing, whatever its source.
pub proof fn lemma_loading_twice(
    start: Option<AppState>,
    first: Option<AppState>,
    second: Option<AppState>,
    source: Option<Seq<char>>,
    again: Option<Seq<char>>,
)
    requires
        loading(start, source) is Ok,
        loaded(start, first, source),
        loaded(first, second, again),
    ensures
        loading(first, again) is Ok,
        second == first,
{
}

/// A node without a name given by hand is drawn under the name that the
/// graph resolves for it.
pub proof fn lemma_drawn_name(
    names: Seq<(Seq<char>, Seq<char>)>,
    overrides: Seq<(Seq<char>, Seq<char>)>,
    id: Seq<char>,
)
    requires
        lookup(overrides, id) is None,
    ensures
        display_name(names, overrides, id) == lookup(names, id),
{
}

/// In a freshly loaded state a node is drawn under the name that it gets
/// from the forest of the graph.
pub proof fn lemma_fresh_name(state: AppState, graph: GraphView, id: Seq<char>)
    requires
        is_fresh(state, graph),
    ensures
        display_name(state.node_id_to_name@, state.node_id_to_new_name@, id) == name_in_forest(
            graph.nodes,
            Seq::empty(),
            id,
        ),
{
    lemma_names_with_forest(graph.nodes, Seq::empty(), Seq::empty(), id);
    assert(keys_of(state.node_id_to_new_name@) =~= Seq::<Seq<char>>::empty());
    assert(keys_of(Seq::<(Seq<char>, Seq<char>)>::empty()) =~= Seq::<Seq<char>>::empty());
}

/// `path` follows edges of `adj`, whatever is shown.
pub open spec fn is_path(adj: Links, path: Seq<Seq<char>>) -> bool {
    &&& path.len() > 0
    &&& forall|i: int| 0 <= i < path.len() - 1 ==> has_edge(adj, #[trigger] path[i], path[i + 1])
}

/// A path of `adj` leads from `seed` to `x`.
pub open spec fn connected(adj: Links, seed: Seq<char>, x: Seq<char>) -> bool {
    exists|path: Seq<Seq<char>>| is_path(adj, path) && path[0] == seed && #[trigger] path.last() == x
}

/// When at most one node is shown, growing the view from `seed` along the
/// edges shows exactly the nodes to which a path leads from `seed`, each
/// once.
pub proof fn lemma_first_growth(before: AppState, after: AppState, seed: Seq<char>, x: Seq<char>)
    requires
        grown_along(Some(before), Some(after), seed),
        before.node_set@.len() <= 1,
    ensures
        after.node_set@.contains(x) <==> connected(before.edge_from_to@, seed, x),
        after.node_set@.no_duplicates(),
{
    let adj = before.edge_from_to@;
    let shown = before.node_set@;
    let allowed = removed(shown, seed);
    if reachable(adj, allowed, true, seed, x) {
        let path = choose|path: Seq<Seq<char>>|
            is_walk(adj, allowed, true, path) && path[0] == seed
                && #[trigger] path.last() == x;
        assert forall|i: int| 0 <= i < path.len() - 1 implies has_edge(
            adj,
            #[trigger] path[i],
            path[i + 1],
        ) by {
            assert(follows(adj, allowed, true, path[i], path[i + 1]));
        }
        assert(is_path(adj, path) && path[0] == seed && path.last() == x);
    }
    if connected(adj, seed, x) {
        let path = choose|path: Seq<Seq<char>>|
            is_path(adj, path) && path[0] == seed && #[trigger] path.last() == x;
        assert forall|i: int| 0 <= i < path.len() - 1 implies follows(
            adj,
            allowed,
            true,
            #[trigger] path[i],
            path[i + 1],
        ) by {
            assert(has_edge(adj, path[i], path[i + 1]));
        }
        assert(is_walk(adj, allowed, true, path) && path[0] == seed
            && path.last() == x);
    }
}

/// When two nodes or more are shown, growing the view from `seed` along
/// the edges shows, besides `seed`, only nodes that were shown, each at the
/// end of a path from `seed` that passes only through nodes that were
/// shown.
pub proof fn lemma_later_growth(before: AppState, after: AppState, seed: Seq<char>, x: Seq<char>)
    requires
        grown_along(Some(before), Some(after), seed),
        before.node_set@.len() >= 2,
        after.node_set@.contains(x),
    ensures
        x == seed || before.node_set@.contains(x),
        exists|path: Seq<Seq<char>>|
            is_path(before.edge_from_to@, path) && path[0] == seed && #[trigger] path.last() == x
                && forall|i: int|
                1 <= i < path.len() ==> before.node_set@.contains(#[trigger] path[i]),
{
    let adj = before.edge_from_to@;
    let shown = before.node_set@;
    let allowed = removed(shown, seed);
    let path = choose|path: Seq<Seq<char>>|
        is_walk(adj, allowed, false, path) && path[0] == seed
            && #[trigger] path.last() == x;
    assert forall|i: int| 1 <= i < path.len() implies shown.contains(#[trigger] path[i]) by {
        assert(follows(adj, allowed, false, path[i - 1], path[i - 1 + 1]));
        assert(allowed.contains(path[i]));
        let k = choose|k: int| 0 <= k < allowed.len() && allowed[k] == path[i];
        let cut = first_index(shown, seed);
        lemma_first_index(shown, seed);
        if cut < shown.len() {
            if k < cut {
                assert(shown[k] == path[i]);
            } else {
                assert(shown[k + 1] == path[i]);
            }
        }
    }
    assert forall|i: int| 0 <= i < path.len() - 1 implies has_edge(
        adj,
        #[trigger] path[i],
        path[i + 1],
    ) by {
        assert(follows(adj, allowed, false, path[i], path[i + 1]));
    }
    assert(is_path(adj, path) && path[0] == seed && path.last() == x);
    if path.len() > 1 {
        assert(shown.contains(path[path.len() - 1]));
    }
}

} // verus!
