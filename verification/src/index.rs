//! Edges by their start and by their end: an index binds each node to the
//! nodes that an edge leads to, each once.

use crate::collections::{
    bound, keys_of, lemma_first_index_contains, lemma_lookup_bound, lemma_push_contains, lookup,
    StringMap, StringSet,
};
use crate::model::EdgeView;
use crate::traverse::{has_edge, Links};
use vstd::prelude::*;

verus! {

/// The index after an edge from `from` to `to` is added: `to` joins the
/// neighbours of `from` unless it is among them.
pub open spec fn linked(adj: Links, from: Seq<char>, to: Seq<char>) -> Links {
    match lookup(adj, from) {
        Some(outs) => bound(
            adj,
            from,
            if outs.contains(to) {
                outs
            } else {
                outs.push(to)
            },
        ),
        None => bound(adj, from, seq![to]),
    }
}

/// The index of a list of edges by their start.
pub open spec fn forward_index(edges: Seq<EdgeView>) -> Links
    decreases edges.len(),
{
    if edges.len() == 0 {
        Seq::empty()
    } else {
        linked(forward_index(edges.drop_last()), edges.last().from, edges.last().to)
    }
}

/// The index `acc` after the edges from `from` to each of `outs` are added
/// the other way round.
pub open spec fn turned(acc: Links, from: Seq<char>, outs: Seq<Seq<char>>) -> Links
    decreases outs.len(),
{
    if outs.len() == 0 {
        acc
    } else {
        linked(turned(acc, from, outs.drop_last()), outs.last(), from)
    }
}

/// The index of the edges of `adj` by their end.
pub open spec fn reverse_index(adj: Links) -> Links
    decreases adj.len(),
{
    if adj.len() == 0 {
        Seq::empty()
    } else {
        turned(reverse_index(adj.drop_last()), adj.last().0, adj.last().1)
    }
}

/// Adding an edge to an index adds that edge and no other, and keeps the
/// keys of the index distinct.
pub proof fn lemma_linked(adj: Links, from: Seq<char>, to: Seq<char>, a: Seq<char>, b: Seq<char>)
    ensures
        has_edge(linked(adj, from, to), a, b) <==> has_edge(adj, a, b) || (a == from && b == to),
        keys_of(adj).no_duplicates() ==> keys_of(linked(adj, from, to)).no_duplicates(),
{
    match lookup(adj, from) {
        Some(outs) => {
            let grown = if outs.contains(to) {
                outs
            } else {
                outs.push(to)
            };
            lemma_lookup_bound(adj, from, grown, a);
            lemma_push_contains(outs, to, b);
        },
        None => {
            lemma_lookup_bound(adj, from, seq![to], a);
            if b == to {
                assert(seq![to][0] == b);
            }
        },
    }
}

/// The index of a list of edges by their start has exactly the edges of
/// the list, and no key twice.
pub proof fn lemma_forward_index(edges: Seq<EdgeView>, a: Seq<char>, b: Seq<char>)
    ensures
        has_edge(forward_index(edges), a, b) <==> exists|i: int|
            0 <= i < edges.len() && (#[trigger] edges[i]).from == a && edges[i].to == b,
        keys_of(forward_index(edges)).no_duplicates(),
    decreases edges.len(),
{
    if edges.len() > 0 {
        let before = edges.drop_last();
        let last = edges.last();
        lemma_forward_index(before, a, b);
        lemma_linked(forward_index(before), last.from, last.to, a, b);
        if has_edge(forward_index(before), a, b) {
            let i = choose|i: int|
                0 <= i < before.len() && (#[trigger] before[i]).from == a && before[i].to == b;
            assert(edges[i].from == a && edges[i].to == b);
        }
        if a == last.from && b == last.to {
            assert(edges[edges.len() - 1].from == a && edges[edges.len() - 1].to == b);
        }
        if exists|i: int| 0 <= i < edges.len() && (#[trigger] edges[i]).from == a && edges[i].to == b {
            let i = choose|i: int|
                0 <= i < edges.len() && (#[trigger] edges[i]).from == a && edges[i].to == b;
            if i < before.len() {
                assert(before[i].from == a && before[i].to == b);
            }
        }
    } else {
        assert(keys_of(forward_index(edges)) =~= Seq::<Seq<char>>::empty());
    }
}

/// Turning the edges of one entry adds each of them the other way round,
/// and no other edge, and keeps the keys of the index distinct.
pub proof fn lemma_turned(
    acc: Links,
    from: Seq<char>,
    outs: Seq<Seq<char>>,
    a: Seq<char>,
    b: Seq<char>,
)
    ensures
        has_edge(turned(acc, from, outs), a, b) <==> has_edge(acc, a, b) || (b == from
            && outs.contains(a)),
        keys_of(acc).no_duplicates() ==> keys_of(turned(acc, from, outs)).no_duplicates(),
    decreases outs.len(),
{
    if outs.len() > 0 {
        let before = outs.drop_last();
        lemma_turned(acc, from, before, a, b);
        lemma_linked(turned(acc, from, before), outs.last(), from, a, b);
        assert(outs =~= before.push(outs.last()));
        lemma_push_contains(before, outs.last(), a);
    }
}

/// The index by the end has exactly the edges of the index by the start,
/// each the other way round, and no key twice.
pub proof fn lemma_reverse_index(adj: Links, a: Seq<char>, b: Seq<char>)
    requires
        keys_of(adj).no_duplicates(),
    ensures
        has_edge(reverse_index(adj), b, a) <==> has_edge(adj, a, b),
        keys_of(reverse_index(adj)).no_duplicates(),
    decreases adj.len(),
{
    if adj.len() > 0 {
        let before = adj.drop_last();
        let last = adj.last();
        let keys = keys_of(adj);
        assert(keys_of(before) =~= keys.drop_last());
        assert forall|i: int, j: int|
            0 <= i < keys.len() - 1 && 0 <= j < keys.len() - 1 && i != j implies keys.drop_last()[i]
            != keys.drop_last()[j] by {
            assert(keys[i] != keys[j]);
        }
        lemma_reverse_index(before, a, b);
        lemma_turned(reverse_index(before), last.0, last.1, b, a);
        assert(!keys_of(before).contains(last.0)) by {
            if keys_of(before).contains(last.0) {
                let i = choose|i: int| 0 <= i < before.len() && keys_of(before)[i] == last.0;
                assert(keys[i] == keys[keys.len() - 1]);
            }
        }
        lemma_first_index_contains(keys_of(before), last.0);
        assert(adj =~= bound(before, last.0, last.1));
        lemma_lookup_bound(before, last.0, last.1, a);
    } else {
        assert(keys_of(reverse_index(adj)) =~= Seq::<Seq<char>>::empty());
    }
}

/// Adds an edge from `from` to `to` to an index.
pub fn link(adj: &mut StringMap<StringSet>, from: &String, to: &String)
    ensures
        final(adj)@ == linked(old(adj)@, from@, to@),
{
    let mut outs = match adj.get(from) {
        Some(outs) => outs.copy(),
        None => StringSet::new(),
    };
    outs.insert(to.clone());
    adj.insert(from.clone(), outs);
}

} // verus!
