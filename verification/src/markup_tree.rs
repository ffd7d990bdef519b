//! The tree of a label's markup. The markup parser walks over the document
//! it has parsed, into each node and out of it; the tree is rebuilt from
//! that walk.

use crate::error::Error;
use vstd::prelude::*;

verus! {

/// A node of a label's markup: its printed form and its children.
#[derive(Debug, PartialEq, Eq, Hash)]
pub struct MarkupNode {
    pub raw: String,
    pub children: Vec<MarkupNode>,
}

/// The value of a [`MarkupNode`].
pub struct MarkupView {
    pub raw: Seq<char>,
    pub children: Seq<MarkupView>,
}

/// The value of a markup node.
pub open spec fn markup_view(n: MarkupNode) -> MarkupView
    decreases n,
{
    MarkupView {
        raw: n.raw@,
        children: Seq::new(
            n.children@.len(),
            |i: int|
                if 0 <= i < n.children@.len() {
                    markup_view(n.children@[i])
                } else {
                    arbitrary()
                },
        ),
    }
}

impl View for MarkupNode {
    type V = MarkupView;

    open spec fn view(&self) -> MarkupView {
        markup_view(*self)
    }
}

/// One step of a walk over a markup tree: into a node, or out of one.
#[derive(Debug, PartialEq, Eq, Hash)]
pub enum MarkupEvent {
    /// Into a node, with its printed form.
    Open(String),
    /// Out of the node entered last.
    Close,
}

/// The value of a [`MarkupEvent`].
pub enum MarkupEventView {
    Open(Seq<char>),
    Close,
}

impl View for MarkupEvent {
    type V = MarkupEventView;

    open spec fn view(&self) -> MarkupEventView {
        match self {
            MarkupEvent::Open(raw) => MarkupEventView::Open(raw@),
            MarkupEvent::Close => MarkupEventView::Close,
        }
    }
}

/// The values of a list of events.
pub open spec fn events_view(events: Seq<MarkupEvent>) -> Seq<MarkupEventView> {
    Seq::new(events.len(), |i: int| events[i]@)
}

/// The walk over the document that the markup parser makes of `html`.
pub uninterp spec fn parsed_markup(html: Seq<char>) -> Seq<MarkupEventView>;

/// Parses `html` as a document with `scraper::Html::parse_document` and
/// walks its tree from the root with `ego_tree::NodeRef::traverse`. Each
/// node is printed with its `Debug` form on the way in. The contract claims
/// only that the walk is a function of `html`.
#[verifier::external_body]
pub(crate) fn markup_events(html: &str) -> (events: Vec<MarkupEvent>)
    ensures
        events_view(events@) == parsed_markup(html@),
{
    let document = scraper::Html::parse_document(html);
    document.tree.root().traverse().map(
        |edge| match edge {
            ego_tree::iter::Edge::Open(node) => MarkupEvent::Open(format!("{:?}", node.value())),
            ego_tree::iter::Edge::Close(_) => MarkupEvent::Close,
        },
    ).collect()
}

/// The walk over a markup tree: into the root, over each child in order,
/// and out again.
pub open spec fn traversal(m: MarkupView) -> Seq<MarkupEventView>
    decreases m, 0nat,
{
    seq![MarkupEventView::Open(m.raw)] + traversal_all(m.children) + seq![MarkupEventView::Close]
}

/// The walks over a list of markup trees, one after the other.
pub open spec fn traversal_all(ms: Seq<MarkupView>) -> Seq<MarkupEventView>
    decreases ms, ms.len(),
{
    if ms.len() == 0 {
        Seq::empty()
    } else {
        traversal_all(ms.drop_last()) + traversal(ms.last())
    }
}

/// A list of events is the walk over some tree.
pub open spec fn is_walk_of_tree(events: Seq<MarkupEventView>) -> bool {
    exists|m: MarkupView| traversal(m) == events
}

/// The tree that a list of events walks over, when it walks over one.
pub open spec fn tree_of(events: Seq<MarkupEventView>) -> MarkupView {
    choose|m: MarkupView| traversal(m) == events
}

/// The walks over a list of trees start with the walk over the first.
pub proof fn lemma_traversal_all_front(ms: Seq<MarkupView>)
    requires
        ms.len() > 0,
    ensures
        traversal_all(ms) == traversal(ms[0]) + traversal_all(ms.drop_first()),
    decreases ms.len(),
{
    if ms.len() == 1 {
        assert(ms.drop_last() =~= Seq::<MarkupView>::empty());
        assert(ms.drop_first() =~= Seq::<MarkupView>::empty());
        assert(traversal_all(ms) =~= traversal(ms[0]) + traversal_all(ms.drop_first()));
    } else {
        lemma_traversal_all_front(ms.drop_last());
        assert(ms.drop_last().drop_first() =~= ms.drop_first().drop_last());
        assert(ms.drop_last()[0] == ms[0]);
        assert(ms.drop_first().last() == ms.last());
        assert(traversal_all(ms.drop_first()) == traversal_all(ms.drop_first().drop_last())
            + traversal(ms.last()));
        assert(traversal_all(ms) =~= traversal(ms[0]) + traversal_all(ms.drop_first()));
    }
}

/// A walk over a tree, followed by anything, tells the tree and what
/// follows.
pub proof fn lemma_walk_tells_tree(
    a: MarkupView,
    b: MarkupView,
    after_a: Seq<MarkupEventView>,
    after_b: Seq<MarkupEventView>,
)
    requires
        traversal(a) + after_a == traversal(b) + after_b,
    ensures
        a == b,
        after_a == after_b,
    decreases a, 0nat,
{
    let close = seq![MarkupEventView::Close];
    let left = traversal(a) + after_a;
    let right = traversal(b) + after_b;
    let inner_a = traversal_all(a.children) + close + after_a;
    let inner_b = traversal_all(b.children) + close + after_b;
    assert(left =~= seq![MarkupEventView::Open(a.raw)] + inner_a);
    assert(right =~= seq![MarkupEventView::Open(b.raw)] + inner_b);
    assert(left[0] == MarkupEventView::Open(a.raw));
    assert(right[0] == MarkupEventView::Open(b.raw));
    assert(inner_a =~= left.skip(1));
    assert(inner_b =~= right.skip(1));
    lemma_walks_tell_trees(a.children, b.children, after_a, after_b);
}

/// The walks over a list of trees, followed by a way out and anything, tell
/// the trees and what follows.
pub proof fn lemma_walks_tell_trees(
    xs: Seq<MarkupView>,
    ys: Seq<MarkupView>,
    after_x: Seq<MarkupEventView>,
    after_y: Seq<MarkupEventView>,
)
    requires
        traversal_all(xs) + seq![MarkupEventView::Close] + after_x == traversal_all(ys)
            + seq![MarkupEventView::Close] + after_y,
    ensures
        xs == ys,
        after_x == after_y,
    decreases xs, xs.len(),
{
    let close = seq![MarkupEventView::Close];
    let left = traversal_all(xs) + close + after_x;
    let right = traversal_all(ys) + close + after_y;
    if xs.len() == 0 {
        assert(left[0] == MarkupEventView::Close);
        if ys.len() > 0 {
            lemma_traversal_all_front(ys);
            assert(right[0] == MarkupEventView::Open(ys[0].raw));
        }
        assert(xs =~= ys);
        assert(after_x =~= left.skip(1));
        assert(after_y =~= right.skip(1));
    } else {
        lemma_traversal_all_front(xs);
        assert(left[0] == MarkupEventView::Open(xs[0].raw));
        if ys.len() == 0 {
            assert(right[0] == MarkupEventView::Close);
        }
        lemma_traversal_all_front(ys);
        let rest_x = traversal_all(xs.drop_first()) + close + after_x;
        let rest_y = traversal_all(ys.drop_first()) + close + after_y;
        assert(left =~= traversal(xs[0]) + rest_x);
        assert(right =~= traversal(ys[0]) + rest_y);
        lemma_walk_tells_tree(xs[0], ys[0], rest_x, rest_y);
        lemma_walks_tell_trees(xs.drop_first(), ys.drop_first(), after_x, after_y);
        assert(xs =~= seq![xs[0]] + xs.drop_first());
        assert(ys =~= seq![ys[0]] + ys.drop_first());
    }
}

/// Two trees with the same walk are the same tree.
pub proof fn lemma_traversal_unique(a: MarkupView, b: MarkupView)
    requires
        traversal(a) == traversal(b),
    ensures
        a == b,
{
    lemma_walk_tells_tree(
        a,
        b,
        Seq::<MarkupEventView>::empty(),
        Seq::<MarkupEventView>::empty(),
    );
}

/// The tree of the walk over a tree is that tree.
pub proof fn lemma_tree_of_traversal(m: MarkupView)
    ensures
        tree_of(traversal(m)) == m,
{
    lemma_traversal_unique(tree_of(traversal(m)), m);
}

/// How many nodes a list of events has entered and not left.
pub open spec fn depth(events: Seq<MarkupEventView>) -> int
    decreases events.len(),
{
    if events.len() == 0 {
        0
    } else {
        depth(events.drop_last()) + match events.last() {
            MarkupEventView::Open(_) => 1int,
            MarkupEventView::Close => -1int,
        }
    }
}

/// A list of events is the walk over one tree: it is not empty, it leaves
/// every node it enters, and it is inside the first node until its end.
pub open spec fn well_nested(events: Seq<MarkupEventView>) -> bool {
    &&& events.len() > 0
    &&& depth(events) == 0
    &&& forall|k: int| 0 < k < events.len() ==> depth(#[trigger] events.take(k)) > 0
}

/// The depth of two lists of events, one after the other, is the sum of
/// their depths.
pub proof fn lemma_depth_concat(a: Seq<MarkupEventView>, b: Seq<MarkupEventView>)
    ensures
        depth(a + b) == depth(a) + depth(b),
    decreases b.len(),
{
    if b.len() == 0 {
        assert(a + b =~= a);
    } else {
        assert((a + b).drop_last() =~= a + b.drop_last());
        assert((a + b).last() == b.last());
        lemma_depth_concat(a, b.drop_last());
    }
}

/// The walk over a tree is inside its root from its first event to its
/// last, and leaves every node that it enters.
pub proof fn lemma_walk_depth(m: MarkupView, k: int)
    requires
        0 <= k <= traversal(m).len(),
    ensures
        depth(traversal(m).take(k)) >= 0,
        0 < k < traversal(m).len() ==> depth(traversal(m).take(k)) > 0,
        depth(traversal(m)) == 0,
        traversal(m).len() >= 2,
    decreases m, 0nat,
{
    let way_in = seq![MarkupEventView::Open(m.raw)];
    let way_out = seq![MarkupEventView::Close];
    let inner = traversal_all(m.children);
    let walk = traversal(m);
    assert(way_in.drop_last() =~= Seq::<MarkupEventView>::empty());
    assert(way_out.drop_last() =~= Seq::<MarkupEventView>::empty());
    assert(depth(Seq::<MarkupEventView>::empty()) == 0);
    assert(way_in.last() == MarkupEventView::Open(m.raw));
    assert(way_out.last() == MarkupEventView::Close);
    assert(depth(way_in) == 1);
    assert(depth(way_out) == -1);
    lemma_walks_depth(m.children, inner.len() as int);
    assert(inner.take(inner.len() as int) =~= inner);
    lemma_depth_concat(way_in, inner);
    lemma_depth_concat(way_in + inner, way_out);
    if k == 0 {
        assert(walk.take(k) =~= Seq::<MarkupEventView>::empty());
    } else if k <= inner.len() + 1 {
        lemma_walks_depth(m.children, k - 1);
        assert(walk.take(k) =~= way_in + inner.take(k - 1));
        lemma_depth_concat(way_in, inner.take(k - 1));
    } else {
        assert(walk.take(k) =~= walk);
    }
}

/// The walks over a list of trees never leave more nodes than they have
/// entered, and leave every node that they enter.
pub proof fn lemma_walks_depth(ms: Seq<MarkupView>, k: int)
    requires
        0 <= k <= traversal_all(ms).len(),
    ensures
        depth(traversal_all(ms).take(k)) >= 0,
        depth(traversal_all(ms)) == 0,
    decreases ms, ms.len(),
{
    let all = traversal_all(ms);
    if ms.len() == 0 {
        assert(all.take(k) =~= Seq::<MarkupEventView>::empty());
    } else {
        let before = traversal_all(ms.drop_last());
        let last = traversal(ms.last());
        lemma_walks_depth(ms.drop_last(), 0);
        lemma_walk_depth(ms.last(), 0);
        lemma_depth_concat(before, last);
        if k <= before.len() {
            lemma_walks_depth(ms.drop_last(), k);
            assert(all.take(k) =~= before.take(k));
        } else {
            lemma_walk_depth(ms.last(), k - before.len());
            assert(all.take(k) =~= before + last.take(k - before.len()));
            lemma_depth_concat(before, last.take(k - before.len()));
        }
    }
}

/// The walk over any tree is well nested: `build_tree` rebuilds every tree
/// from its walk.
pub proof fn lemma_traversal_well_nested(m: MarkupView)
    ensures
        well_nested(traversal(m)),
{
    let walk = traversal(m);
    lemma_walk_depth(m, 0);
    assert forall|k: int| 0 < k < walk.len() implies depth(#[trigger] walk.take(k)) > 0 by {
        lemma_walk_depth(m, k);
    }
}

/// The values of a list of markup trees.
pub open spec fn markups_view(nodes: Seq<MarkupNode>) -> Seq<MarkupView> {
    Seq::new(nodes.len(), |i: int| nodes[i]@)
}

/// The events of the nodes that are entered and not yet left: for each, the
/// way in and the walks over the children it has so far.
pub open spec fn pending(stack: Seq<MarkupView>) -> Seq<MarkupEventView>
    decreases stack.len(),
{
    if stack.len() == 0 {
        Seq::empty()
    } else {
        pending(stack.drop_last()) + seq![MarkupEventView::Open(stack.last().raw)] + traversal_all(
            stack.last().children,
        )
    }
}

/// Builds the tree that a list of events walks over.
pub fn build_tree(events: &Vec<MarkupEvent>) -> (r: Result<MarkupNode, Error>)
    ensures
        r is Ok <==> well_nested(events_view(events@)),
        r is Ok <==> is_walk_of_tree(events_view(events@)),
        r matches Ok(tree) ==> traversal(tree@) == events_view(events@) && tree@ == tree_of(
            events_view(events@),
        ),
        r matches Err(e) ==> e == Error::MalformedMarkup,
{
    proof {
        if is_walk_of_tree(events_view(events@)) {
            let m = choose|m: MarkupView| traversal(m) == events_view(events@);
            lemma_traversal_well_nested(m);
        }
    }
    let ghost all = events_view(events@);
    let mut stack: Vec<MarkupNode> = Vec::new();
    let mut done: Option<MarkupNode> = None;
    let mut i: usize = 0;
    proof {
        assert(all.take(0) =~= Seq::<MarkupEventView>::empty());
        assert(markups_view(stack@) =~= Seq::<MarkupView>::empty());
    }
    while i < events.len()
        invariant
            i <= events.len(),
            all == events_view(events@),
            is_walk_of_tree(all) ==> well_nested(all),
            forall|k: int| 0 < k < i ==> depth(#[trigger] all.take(k)) > 0,
            match done {
                Some(tree) => {
                    &&& i > 0
                    &&& stack.len() == 0
                    &&& depth(all.take(i as int)) == 0
                    &&& traversal(tree@) == all.take(i as int)
                },
                None => {
                    &&& depth(all.take(i as int)) == stack.len()
                    &&& i > 0 ==> stack.len() > 0
                    &&& pending(markups_view(stack@)) == all.take(i as int)
                },
            },
        decreases events.len() - i,
    {
        let ghost prefix = all.take(i as int);
        let ghost next = all.take(i + 1);
        proof {
            assert(next.drop_last() =~= prefix);
            assert(next.last() == events@[i as int]@);
            assert(next =~= prefix.push(events@[i as int]@));
        }
        if done.is_some() {
            return Err(Error::MalformedMarkup);
        }
        match &events[i] {
            MarkupEvent::Open(raw) => {
                let node = MarkupNode { raw: raw.clone(), children: Vec::new() };
                proof {
                    let views = markups_view(stack@);
                    assert(node@.children =~= Seq::<MarkupView>::empty());
                    assert(markups_view(stack@.push(node)) =~= views.push(node@));
                    assert(views.push(node@).drop_last() =~= views);
                    assert(pending(views.push(node@)) =~= next);
                }
                stack.push(node);
            },
            MarkupEvent::Close => {
                if stack.len() == 0 {
                    proof {
                        assert(depth(next) == -1);
                        if i + 1 < events.len() {
                            assert(all.take(i + 1) == next);
                        } else {
                            assert(next =~= all);
                        }
                    }
                    return Err(Error::MalformedMarkup);
                }
                let ghost views = markups_view(stack@);
                let top = stack.pop().unwrap();
                proof {
                    assert(markups_view(stack@) =~= views.drop_last());
                    assert(views.last() == top@);
                    assert(traversal(top@) =~= seq![MarkupEventView::Open(top@.raw)]
                        + traversal_all(top@.children) + seq![MarkupEventView::Close]);
                }
                if stack.len() == 0 {
                    proof {
                        assert(pending(views.drop_last()) =~= Seq::<MarkupEventView>::empty());
                        assert(traversal(top@) =~= next);
                    }
                    done = Some(top);
                } else {
                    let ghost below = markups_view(stack@);
                    let parent = stack.pop().unwrap();
                    let MarkupNode { raw, children } = parent;
                    let mut children = children;
                    let ghost parent_view = parent@;
                    children.push(top);
                    let grown = MarkupNode { raw, children };
                    proof {
                        assert(below.last() == parent_view);
                        assert(grown@.children =~= parent_view.children.push(top@));
                        assert(grown@.children.drop_last() =~= parent_view.children);
                        assert(markups_view(stack@) =~= below.drop_last());
                        assert(markups_view(stack@.push(grown)) =~= below.drop_last().push(
                            grown@,
                        ));
                        let grown_stack = below.drop_last().push(grown@);
                        assert(grown_stack.drop_last() =~= below.drop_last());
                        assert(grown_stack.last() == grown@);
                        assert(views.drop_last() == below);
                        assert(pending(views) == pending(below) + seq![
                            MarkupEventView::Open(top@.raw),
                        ] + traversal_all(top@.children));
                        assert(pending(below) == pending(below.drop_last()) + seq![
                            MarkupEventView::Open(parent_view.raw),
                        ] + traversal_all(parent_view.children));
                        assert(traversal_all(grown@.children) == traversal_all(
                            parent_view.children,
                        ) + traversal(top@));
                        assert(pending(grown_stack) == pending(below.drop_last()) + seq![
                            MarkupEventView::Open(parent_view.raw),
                        ] + traversal_all(grown@.children));
                        assert(pending(grown_stack) =~= next);
                    }
                    stack.push(grown);
                }
            },
        }
        i += 1;
    }
    proof {
        assert(all.take(i as int) =~= all);
    }
    match done {
        Some(tree) => {
            proof {
                lemma_tree_of_traversal(tree@);
            }
            Ok(tree)
        },
        None => Err(Error::MalformedMarkup),
    }
}

} // verus!
