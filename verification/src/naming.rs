//! Names of the nodes of a label forest. The name of a node is the text of
//! each of its ancestors, from the root down, each followed by a colon, and
//! then its own text.

use crate::collections::{bound, lemma_lookup_bound, lookup, strings_view, StringMap};
use crate::model::{labels_view, lemma_label_children, HtmlNode, LabelView};
use crate::text::push_char;
use vstd::prelude::*;
use vstd::string::StringExecFns;

verus! {

/// The texts of `fathers`, each followed by a colon.
pub open spec fn path_prefix(fathers: Seq<Seq<char>>) -> Seq<char>
    decreases fathers.len(),
{
    if fathers.len() == 0 {
        Seq::empty()
    } else {
        path_prefix(fathers.drop_last()) + fathers.last() + seq![':']
    }
}

/// The name of a node with the text `text` below the ancestors `fathers`.
pub open spec fn full_name(fathers: Seq<Seq<char>>, text: Seq<char>) -> Seq<char> {
    path_prefix(fathers) + text
}

/// The names after a node and everything below it are named: the node's
/// identifier is bound to its name, then its children are named in order,
/// with the node as their innermost ancestor.
pub open spec fn names_with_node(
    node: LabelView,
    names: Seq<(Seq<char>, Seq<char>)>,
    fathers: Seq<Seq<char>>,
) -> Seq<(Seq<char>, Seq<char>)>
    decreases node, 0nat,
{
    names_with_forest(
        node.children,
        bound(names, node.id, full_name(fathers, node.text)),
        fathers.push(node.text),
    )
}

/// The names after each node of a list is named in order, below the
/// ancestors `fathers`.
pub open spec fn names_with_forest(
    nodes: Seq<LabelView>,
    names: Seq<(Seq<char>, Seq<char>)>,
    fathers: Seq<Seq<char>>,
) -> Seq<(Seq<char>, Seq<char>)>
    decreases nodes, nodes.len(),
{
    if nodes.len() == 0 {
        names
    } else {
        names_with_node(nodes.last(), names_with_forest(nodes.drop_last(), names, fathers), fathers)
    }
}

/// The name that the node with the identifier `id` gets from a node and
/// what is below it, if one of them has that identifier. Of several nodes
/// with the same identifier the last in document order gives the name.
pub open spec fn name_in_node(node: LabelView, fathers: Seq<Seq<char>>, id: Seq<char>) -> Option<
    Seq<char>,
>
    decreases node, 0nat,
{
    match name_in_forest(node.children, fathers.push(node.text), id) {
        Some(name) => Some(name),
        None => if node.id == id {
            Some(full_name(fathers, node.text))
        } else {
            None
        },
    }
}

/// The name that the node with the identifier `id` gets from a forest, if
/// a node of the forest has that identifier.
pub open spec fn name_in_forest(nodes: Seq<LabelView>, fathers: Seq<Seq<char>>, id: Seq<char>) -> Option<
    Seq<char>,
>
    decreases nodes, nodes.len(),
{
    if nodes.len() == 0 {
        None
    } else {
        match name_in_node(nodes.last(), fathers, id) {
            Some(name) => Some(name),
            None => name_in_forest(nodes.drop_last(), fathers, id),
        }
    }
}

/// After a node and what is below it are named, an identifier is bound to
/// the name that it gets from them, or, if it gets none, as before.
pub proof fn lemma_names_with_node(
    node: LabelView,
    names: Seq<(Seq<char>, Seq<char>)>,
    fathers: Seq<Seq<char>>,
    id: Seq<char>,
)
    ensures
        lookup(names_with_node(node, names, fathers), id) == match name_in_node(node, fathers, id) {
            Some(name) => Some(name),
            None => lookup(names, id),
        },
    decreases node, 0nat,
{
    let own = bound(names, node.id, full_name(fathers, node.text));
    lemma_lookup_bound(names, node.id, full_name(fathers, node.text), id);
    lemma_names_with_forest(node.children, own, fathers.push(node.text), id);
}

/// After a forest is named, an identifier is bound to the name that it
/// gets from the forest, or, if it gets none, as before.
pub proof fn lemma_names_with_forest(
    nodes: Seq<LabelView>,
    names: Seq<(Seq<char>, Seq<char>)>,
    fathers: Seq<Seq<char>>,
    id: Seq<char>,
)
    ensures
        lookup(names_with_forest(nodes, names, fathers), id) == match name_in_forest(
            nodes,
            fathers,
            id,
        ) {
            Some(name) => Some(name),
            None => lookup(names, id),
        },
    decreases nodes, nodes.len(),
{
    if nodes.len() > 0 {
        let before = names_with_forest(nodes.drop_last(), names, fathers);
        lemma_names_with_forest(nodes.drop_last(), names, fathers, id);
        lemma_names_with_node(nodes.last(), before, fathers, id);
    }
}

/// The name of a node with the text `text` below the ancestors `fathers`.
pub fn name_of(father_name: &Vec<String>, text: &String) -> (name: String)
    ensures
        name@ == full_name(strings_view(father_name@), text@),
{
    let ghost fathers = strings_view(father_name@);
    let mut name = String::new();
    let mut i: usize = 0;
    assert(fathers.take(0) =~= Seq::<Seq<char>>::empty());
    while i < father_name.len()
        invariant
            i <= father_name.len(),
            fathers == strings_view(father_name@),
            name@ == path_prefix(fathers.take(i as int)),
        decreases father_name.len() - i,
    {
        proof {
            assert(fathers.take(i + 1).drop_last() =~= fathers.take(i as int));
            assert(fathers.take(i + 1).last() == father_name@[i as int]@);
        }
        name.append(father_name[i].as_str());
        push_char(&mut name, ':');
        i += 1;
    }
    assert(fathers.take(i as int) =~= fathers);
    name.append(text.as_str());
    name
}

/// Names every node of the forest `nodes` into `node_id_to_name`, below the
/// ancestors in `father_name`, which is left as it was.
pub fn gen_node_id_to_name(
    nodes: &Vec<HtmlNode>,
    node_id_to_name: &mut StringMap<String>,
    father_name: &mut Vec<String>,
)
    ensures
        final(node_id_to_name)@ == names_with_forest(
            labels_view(nodes@),
            old(node_id_to_name)@,
            strings_view(old(father_name)@),
        ),
        final(father_name)@ == old(father_name)@,
        forall|id: Seq<char>| #[trigger]
            lookup(final(node_id_to_name)@, id) == match name_in_forest(
                labels_view(nodes@),
                strings_view(old(father_name)@),
                id,
            ) {
                Some(name) => Some(name),
                None => lookup(old(node_id_to_name)@, id),
            },
    decreases nodes,
{
    let ghost forest = labels_view(nodes@);
    let ghost fathers = strings_view(father_name@);
    let ghost names = node_id_to_name@;
    let mut i: usize = 0;
    assert(forest.take(0) =~= Seq::<LabelView>::empty());
    while i < nodes.len()
        invariant
            i <= nodes.len(),
            forest == labels_view(nodes@),
            father_name@ == old(father_name)@,
            fathers == strings_view(father_name@),
            node_id_to_name@ == names_with_forest(forest.take(i as int), names, fathers),
        decreases nodes.len() - i,
    {
        let node = &nodes[i];
        proof {
            assert(forest.take(i + 1).drop_last() =~= forest.take(i as int));
            assert(forest.take(i + 1).last() == node@);
            lemma_label_children(*node);
        }
        let name = name_of(father_name, &node.text);
        node_id_to_name.insert(node.id.clone(), name);
        let ghost saved = father_name@;
        father_name.push(node.text.clone());
        assert(strings_view(father_name@) =~= fathers.push(node.text@));
        gen_node_id_to_name(&node.children, node_id_to_name, father_name);
        father_name.pop();
        proof {
            let before = names_with_forest(forest.take(i as int), names, fathers);
            assert(father_name@ =~= saved);
            assert(node_id_to_name@ == names_with_forest(
                node@.children,
                bound(before, node@.id, full_name(fathers, node@.text)),
                fathers.push(node@.text),
            ));
            assert(node_id_to_name@ == names_with_node(node@, before, fathers));
            assert(names_with_forest(forest.take(i + 1), names, fathers) == names_with_node(
                node@,
                before,
                fathers,
            ));
        }
        i += 1;
    }
    proof {
        assert(forest.take(i as int) =~= forest);
        assert forall|id: Seq<char>| #[trigger]
            lookup(node_id_to_name@, id) == match name_in_forest(forest, fathers, id) {
                Some(name) => Some(name),
                None => lookup(names, id),
            } by {
            lemma_names_with_forest(forest, names, fathers, id);
        }
    }
}

} // verus!
