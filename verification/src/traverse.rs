//! Walks over an adjacency index: which nodes can be reached from a seed
//! along the edges that a policy lets through, and a breadth-first search
//! that finds exactly those.

use crate::collections::{keys_of, lookup, strings_view, StringMap, StringSet};
use crate::text::{first_index, lemma_first_index};
use vstd::prelude::*;
use vstd::seq_lib::seq_to_set_is_finite;
use vstd::set_lib::lemma_len_subset;

verus! {

/// An adjacency index as contracts see it: each key with its neighbours.
pub type Links = Seq<(Seq<char>, Seq<Seq<char>>)>;

/// The index has an edge from `a` to `b`.
pub open spec fn has_edge(adj: Links, a: Seq<char>, b: Seq<char>) -> bool {
    lookup(adj, a) matches Some(outs) && outs.contains(b)
}

/// A walk may go from `a` to `b`: there is an edge, and the policy lets it
/// through, which it does when `all` is set or when `b` is in `allowed`.
pub open spec fn follows(
    adj: Links,
    allowed: Seq<Seq<char>>,
    all: bool,
    a: Seq<char>,
    b: Seq<char>,
) -> bool {
    has_edge(adj, a, b) && (all || allowed.contains(b))
}

/// `path` is a walk: it is not empty and every step of it may be gone.
pub open spec fn is_walk(adj: Links, allowed: Seq<Seq<char>>, all: bool, path: Seq<Seq<char>>) -> bool {
    &&& path.len() > 0
    &&& forall|i: int|
        0 <= i < path.len() - 1 ==> follows(adj, allowed, all, #[trigger] path[i], path[i + 1])
}

/// `x` can be reached from `seed`: some walk starts at `seed` and ends at
/// `x`. The seed itself can always be reached.
pub open spec fn reachable(
    adj: Links,
    allowed: Seq<Seq<char>>,
    all: bool,
    seed: Seq<char>,
    x: Seq<char>,
) -> bool {
    exists|path: Seq<Seq<char>>|
        is_walk(adj, allowed, all, path) && path[0] == seed && #[trigger] path.last() == x
}

/// Every neighbour list of the index, one after the other.
pub open spec fn targets(adj: Links) -> Seq<Seq<char>>
    decreases adj.len(),
{
    if adj.len() == 0 {
        Seq::empty()
    } else {
        targets(adj.drop_last()) + adj.last().1
    }
}

/// The nodes of `outs` that the policy lets a walk go to, in order.
pub open spec fn let_through(outs: Seq<Seq<char>>, allowed: Seq<Seq<char>>, all: bool) -> Seq<
    Seq<char>,
>
    decreases outs.len(),
{
    if outs.len() == 0 {
        Seq::empty()
    } else {
        let before = let_through(outs.drop_last(), allowed, all);
        if all || allowed.contains(outs.last()) {
            before.push(outs.last())
        } else {
            before
        }
    }
}

/// The neighbours of a node in the index, none if it is no key.
pub open spec fn neighbours_of(adj: Links, node: Seq<char>) -> Seq<Seq<char>> {
    match lookup(adj, node) {
        Some(outs) => outs,
        None => Seq::empty(),
    }
}

/// The nodes in the order in which a breadth-first search visits them,
/// when `visited` are visited, `queue` waits to be, and `budget` more nodes
/// may be visited. The first node of the queue is visited next unless it
/// has been; the neighbours that the policy lets through then wait behind
/// the others.
pub open spec fn search_order(
    adj: Links,
    allowed: Seq<Seq<char>>,
    all: bool,
    queue: Seq<Seq<char>>,
    visited: Seq<Seq<char>>,
    budget: nat,
) -> Seq<Seq<char>>
    decreases budget, queue.len(),
{
    if queue.len() == 0 {
        visited
    } else if visited.contains(queue[0]) {
        search_order(adj, allowed, all, queue.drop_first(), visited, budget)
    } else if budget == 0 {
        visited
    } else {
        search_order(
            adj,
            allowed,
            all,
            queue.drop_first() + let_through(neighbours_of(adj, queue[0]), allowed, all),
            visited.push(queue[0]),
            (budget - 1) as nat,
        )
    }
}

/// The nodes that can be reached from `seed`, in the order in which a
/// breadth-first search from `seed` visits them. No more nodes can be
/// visited than the seed and the ends of all edges.
pub open spec fn breadth_first(
    adj: Links,
    allowed: Seq<Seq<char>>,
    all: bool,
    seed: Seq<char>,
) -> Seq<Seq<char>> {
    search_order(adj, allowed, all, seq![seed], Seq::empty(), 1 + targets(adj).len())
}

/// `w` waits in `queue` at or after position `head`.
pub open spec fn waiting(queue: Seq<String>, head: int, w: Seq<char>) -> bool {
    exists|k: int| head <= k < queue.len() && #[trigger] queue[k]@ == w
}

/// The seed can be reached.
pub proof fn lemma_seed_reachable(adj: Links, allowed: Seq<Seq<char>>, all: bool, seed: Seq<char>)
    ensures
        reachable(adj, allowed, all, seed, seed),
{
    let path = seq![seed];
    assert(is_walk(adj, allowed, all, path));
    assert(path[0] == seed && path.last() == seed);
}

/// What can be reached stays reachable one step further.
pub proof fn lemma_step_reachable(
    adj: Links,
    allowed: Seq<Seq<char>>,
    all: bool,
    seed: Seq<char>,
    a: Seq<char>,
    b: Seq<char>,
)
    requires
        reachable(adj, allowed, all, seed, a),
        follows(adj, allowed, all, a, b),
    ensures
        reachable(adj, allowed, all, seed, b),
{
    let path = choose|path: Seq<Seq<char>>|
        is_walk(adj, allowed, all, path) && path[0] == seed && #[trigger] path.last() == a;
    let longer = path.push(b);
    assert forall|i: int| 0 <= i < longer.len() - 1 implies follows(
        adj,
        allowed,
        all,
        #[trigger] longer[i],
        longer[i + 1],
    ) by {
        if i < path.len() - 1 {
            assert(longer[i] == path[i]);
            assert(longer[i + 1] == path[i + 1]);
        } else {
            assert(longer[i] == a);
        }
    }
    assert(is_walk(adj, allowed, all, longer));
    assert(longer[0] == seed && longer.last() == b);
}

/// A set that holds the start of a walk and, with every node, all the nodes
/// that a walk may go to from it, holds the end of the walk.
pub proof fn lemma_closed_holds_walk(
    adj: Links,
    allowed: Seq<Seq<char>>,
    all: bool,
    visited: Seq<Seq<char>>,
    path: Seq<Seq<char>>,
)
    requires
        is_walk(adj, allowed, all, path),
        visited.contains(path[0]),
        forall|v: Seq<char>, w: Seq<char>|
            visited.contains(v) && #[trigger] follows(adj, allowed, all, v, w)
                ==> visited.contains(w),
    ensures
        visited.contains(path.last()),
    decreases path.len(),
{
    if path.len() > 1 {
        let shorter = path.drop_last();
        assert forall|i: int| 0 <= i < shorter.len() - 1 implies follows(
            adj,
            allowed,
            all,
            #[trigger] shorter[i],
            shorter[i + 1],
        ) by {
            assert(shorter[i] == path[i]);
            assert(shorter[i + 1] == path[i + 1]);
        }
        lemma_closed_holds_walk(adj, allowed, all, visited, shorter);
        let i = path.len() - 2;
        assert(follows(adj, allowed, all, path[i], path[i + 1]));
        assert(shorter.last() == path[i]);
    }
}

/// Every neighbour of every entry is among the targets.
pub proof fn lemma_targets(adj: Links, i: int, b: Seq<char>)
    requires
        0 <= i < adj.len(),
        adj[i].1.contains(b),
    ensures
        targets(adj).contains(b),
    decreases adj.len(),
{
    let before = targets(adj.drop_last());
    let outs = adj.last().1;
    if i == adj.len() - 1 {
        let j = choose|j: int| 0 <= j < outs.len() && outs[j] == b;
        assert((before + outs)[before.len() + j] == b);
    } else {
        assert(adj.drop_last()[i] == adj[i]);
        lemma_targets(adj.drop_last(), i, b);
        let j = choose|j: int| 0 <= j < before.len() && before[j] == b;
        assert((before + outs)[j] == b);
    }
}

/// The end of every edge is among the targets.
pub proof fn lemma_edge_target(adj: Links, a: Seq<char>, b: Seq<char>)
    requires
        has_edge(adj, a, b),
    ensures
        targets(adj).contains(b),
{
    let i = first_index(keys_of(adj), a);
    lemma_first_index(keys_of(adj), a);
    lemma_targets(adj, i, b);
}

/// A list without repeats whose members all occur in another list is no
/// longer than that list.
pub proof fn lemma_distinct_within(s: Seq<Seq<char>>, t: Seq<Seq<char>>)
    requires
        s.no_duplicates(),
        forall|i: int| 0 <= i < s.len() ==> t.contains(#[trigger] s[i]),
    ensures
        s.len() <= t.len(),
{
    s.unique_seq_to_set();
    t.lemma_cardinality_of_set();
    seq_to_set_is_finite(t);
    assert(s.to_set().subset_of(t.to_set())) by {
        assert forall|x: Seq<char>| s.to_set().contains(x) implies t.to_set().contains(x) by {
            let i = choose|i: int| 0 <= i < s.len() && s[i] == x;
            assert(t.contains(s[i]));
        }
    }
    lemma_len_subset(s.to_set(), t.to_set());
}

/// The nodes that can be reached from `seed` in `adj` under the policy
/// given by `allowed` and `all`, each once, in the order in which a
/// breadth-first search from `seed` visits them.
pub fn reach(adj: &StringMap<StringSet>, allowed: &StringSet, all: bool, seed: String) -> (visited:
    StringSet)
    ensures
        forall|x: Seq<char>|
            visited@.contains(x) <==> reachable(adj@, allowed@, all, seed@, x),
        visited@.no_duplicates(),
        visited@ == breadth_first(adj@, allowed@, all, seed@),
{
    let ghost universe = seq![seed@] + targets(adj@);
    let ghost start = seed@;
    let mut visited = StringSet::new();
    let mut queue: Vec<String> = Vec::new();
    queue.push(seed);
    let mut head: usize = 0;
    proof {
        lemma_seed_reachable(adj@, allowed@, all, start);
        assert(universe[0] == start);
        assert(strings_view(queue@).skip(0) =~= seq![start]);
    }
    while head < queue.len()
        invariant
            head <= queue.len(),
            queue.len() >= 1,
            queue@[0]@ == start,
            universe == seq![start] + targets(adj@),
            visited@.no_duplicates(),
            forall|k: int|
                0 <= k < queue.len() ==> reachable(adj@, allowed@, all, start, #[trigger] queue@[k]@),
            forall|k: int| 0 <= k < queue.len() ==> universe.contains(#[trigger] queue@[k]@),
            forall|i: int|
                0 <= i < visited@.len() ==> reachable(adj@, allowed@, all, start, #[trigger] visited@[i])
                    && universe.contains(visited@[i]),
            head > 0 ==> visited@.contains(start),
            forall|v: Seq<char>, w: Seq<char>|
                visited@.contains(v) && #[trigger] follows(adj@, allowed@, all, v, w)
                    ==> visited@.contains(w) || waiting(queue@, head as int, w),
            visited@.len() <= universe.len(),
            search_order(
                adj@,
                allowed@,
                all,
                strings_view(queue@).skip(head as int),
                visited@,
                (universe.len() - visited@.len()) as nat,
            ) == breadth_first(adj@, allowed@, all, start),
        decreases universe.len() - visited@.len(), queue.len() - head,
    {
        let now = queue[head].clone();
        let ghost before = visited@;
        let ghost old_queue = queue@;
        let ghost old_head = head as int;
        let ghost waiting_now = strings_view(queue@).skip(head as int);
        let ghost rest = strings_view(queue@).skip(head + 1);
        head += 1;
        proof {
            lemma_distinct_within(visited@, universe);
            assert(waiting_now[0] == now@);
            assert(waiting_now.drop_first() =~= rest);
        }
        if visited.contains(&now) {
            proof {
                assert forall|v: Seq<char>, w: Seq<char>|
                    visited@.contains(v) && #[trigger] follows(
                        adj@,
                        allowed@,
                        all,
                        v,
                        w,
                    ) implies visited@.contains(w) || waiting(queue@, head as int, w) by {
                    if !visited@.contains(w) {
                        assert(waiting(queue@, old_head, w));
                        let k = choose|k: int| old_head <= k < queue@.len() && queue@[k]@ == w;
                        assert(k != old_head);
                        assert(head <= k < queue@.len() && queue@[k]@ == w);
                    }
                }
            }
        } else {
            visited.insert(now.clone());
            proof {
                assert(visited@ == before.push(now@));
                assert forall|i: int| 0 <= i < visited@.len() implies reachable(
                    adj@,
                    allowed@,
                    all,
                    start,
                    #[trigger] visited@[i],
                ) && universe.contains(visited@[i]) by {
                    if i < before.len() {
                        assert(visited@[i] == before[i]);
                    } else {
                        assert(visited@[i] == old_queue[old_head]@);
                    }
                }
                lemma_distinct_within(visited@, universe);
                assert(visited@.contains(start)) by {
                    if old_head == 0 {
                        assert(visited@[before.len() as int] == start);
                    } else {
                        let i = choose|i: int| 0 <= i < before.len() && before[i] == start;
                        assert(visited@[i] == start);
                    }
                }
            }
            proof {
                assert forall|v: Seq<char>, w: Seq<char>|
                    before.contains(v) && #[trigger] follows(
                        adj@,
                        allowed@,
                        all,
                        v,
                        w,
                    ) implies visited@.contains(w) || waiting(queue@, head as int, w) by {
                    if before.contains(w) {
                        let i = choose|i: int| 0 <= i < before.len() && before[i] == w;
                        assert(visited@[i] == w);
                    } else {
                        assert(waiting(old_queue, old_head, w));
                        let k = choose|k: int|
                            old_head <= k < old_queue.len() && old_queue[k]@ == w;
                        if k == old_head {
                            assert(visited@[before.len() as int] == w);
                        } else {
                            assert(queue@[k]@ == w);
                        }
                    }
                }
            }
            let found = adj.get(&now);
            match found {
                Some(outs) => {
                    let mut j: usize = 0;
                    proof {
                        assert(outs@.take(0) =~= Seq::<Seq<char>>::empty());
                        assert(strings_view(queue@).skip(head as int) =~= rest + let_through(
                            outs@.take(0),
                            allowed@,
                            all,
                        ));
                    }
                    while j < outs.len()
                        invariant
                            j <= outs@.len(),
                            strings_view(queue@).skip(head as int) == rest + let_through(
                                outs@.take(j as int),
                                allowed@,
                                all,
                            ),
                            head <= queue.len(),
                            head == old_head + 1,
                            0 <= old_head < old_queue.len() <= queue.len(),
                            now@ == old_queue[old_head]@,
                            forall|k: int|
                                0 <= k < old_queue.len() ==> #[trigger] queue@[k] == old_queue[k],
                            queue@[0]@ == start,
                            universe == seq![start] + targets(adj@),
                            visited@ == before.push(now@),
                            lookup(adj@, now@) == Some(outs@),
                            reachable(adj@, allowed@, all, start, now@),
                            forall|k: int|
                                0 <= k < queue.len() ==> reachable(
                                    adj@,
                                    allowed@,
                                    all,
                                    start,
                                    #[trigger] queue@[k]@,
                                ),
                            forall|k: int|
                                0 <= k < queue.len() ==> universe.contains(#[trigger] queue@[k]@),
                            forall|v: Seq<char>, w: Seq<char>|
                                before.contains(v) && #[trigger] follows(adj@, allowed@, all, v, w)
                                    ==> visited@.contains(w) || waiting(queue@, head as int, w),
                            forall|i: int|
                                0 <= i < j && (all || allowed@.contains(outs@[i])) ==> waiting(
                                    queue@,
                                    head as int,
                                    #[trigger] outs@[i],
                                ),
                        decreases outs@.len() - j,
                    {
                        let to = outs.get(j);
                        let ghost queue_before = queue@;
                        proof {
                            assert(outs@.take(j + 1).drop_last() =~= outs@.take(j as int));
                            assert(outs@.take(j + 1).last() == to@);
                        }
                        if all || allowed.contains(to) {
                            proof {
                                assert(outs@.contains(to@));
                                assert(follows(adj@, allowed@, all, now@, to@));
                                lemma_step_reachable(adj@, allowed@, all, start, now@, to@);
                                lemma_edge_target(adj@, now@, to@);
                                let p = choose|p: int|
                                    0 <= p < targets(adj@).len() && targets(adj@)[p] == to@;
                                assert(universe[p + 1] == to@);
                            }
                            queue.push(to.clone());
                            proof {
                                assert(strings_view(queue@).skip(head as int) =~= strings_view(
                                    queue_before,
                                ).skip(head as int).push(to@));
                                assert(queue@[0] == queue_before[0]);
                                assert(queue@[queue_before.len() as int]@ == to@);
                                assert(waiting(queue@, head as int, to@));
                            }
                        }
                        proof {
                            assert forall|w: Seq<char>|
                                waiting(queue_before, head as int, w) implies waiting(
                                queue@,
                                head as int,
                                w,
                            ) by {
                                let k = choose|k: int|
                                    head <= k < queue_before.len() && queue_before[k]@ == w;
                                assert(queue@[k]@ == w);
                            }
                            assert forall|i: int|
                                0 <= i < j + 1 && (all || allowed@.contains(outs@[i])) implies waiting(
                                queue@,
                                head as int,
                                #[trigger] outs@[i],
                            ) by {
                                if i < j {
                                    assert(waiting(queue_before, head as int, outs@[i]));
                                }
                            }
                        }
                        j += 1;
                    }
                    proof {
                        assert(outs@.take(j as int) =~= outs@);
                        assert(neighbours_of(adj@, now@) == outs@);
                        assert forall|v: Seq<char>, w: Seq<char>|
                            visited@.contains(v) && #[trigger] follows(
                                adj@,
                                allowed@,
                                all,
                                v,
                                w,
                            ) implies visited@.contains(w) || waiting(queue@, head as int, w) by {
                            if v == now@ {
                                let i = choose|i: int| 0 <= i < outs@.len() && outs@[i] == w;
                                assert(waiting(queue@, head as int, outs@[i]));
                            } else {
                                let i = choose|i: int| 0 <= i < visited@.len() && visited@[i] == v;
                                assert(before[i] == v);
                            }
                        }
                    }
                },
                None => {
                    proof {
                        assert(neighbours_of(adj@, now@) =~= Seq::<Seq<char>>::empty());
                        assert(strings_view(queue@).skip(head as int) =~= rest + let_through(
                            neighbours_of(adj@, now@),
                            allowed@,
                            all,
                        ));
                        assert forall|v: Seq<char>, w: Seq<char>|
                            visited@.contains(v) && #[trigger] follows(
                                adj@,
                                allowed@,
                                all,
                                v,
                                w,
                            ) implies visited@.contains(w) || waiting(queue@, head as int, w) by {
                            if v != now@ {
                                let i = choose|i: int| 0 <= i < visited@.len() && visited@[i] == v;
                                assert(before[i] == v);
                            }
                        }
                    }
                },
            }
        }
    }
    proof {
        assert forall|x: Seq<char>| visited@.contains(x) <==> reachable(
            adj@,
            allowed@,
            all,
            start,
            x,
        ) by {
            if visited@.contains(x) {
                let i = choose|i: int| 0 <= i < visited@.len() && visited@[i] == x;
                assert(reachable(adj@, allowed@, all, start, visited@[i]));
            }
            if reachable(adj@, allowed@, all, start, x) {
                let path = choose|path: Seq<Seq<char>>|
                    is_walk(adj@, allowed@, all, path) && path[0] == start && #[trigger] path.last()
                        == x;
                assert forall|v: Seq<char>, w: Seq<char>|
                    visited@.contains(v) && #[trigger] follows(
                        adj@,
                        allowed@,
                        all,
                        v,
                        w,
                    ) implies visited@.contains(w) by {
                    if waiting(queue@, head as int, w) {
                        let k = choose|k: int| head <= k < queue@.len() && queue@[k]@ == w;
                    }
                }
                lemma_closed_holds_walk(adj@, allowed@, all, visited@, path);
            }
        }
    }
    visited
}

} // verus!
