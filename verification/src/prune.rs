//! Pruning a view: only the ends of edges between two shown nodes stay.

use crate::collections::{keys_of, lemma_push_contains, lookup, StringMap, StringSet};
use crate::text::{first_index, lemma_first_index};
use crate::traverse::{has_edge, Links};
use vstd::prelude::*;

verus! {

/// `x` is an end of the edge that is number `q` of entry number `p` of the
/// index, and both ends of that edge are shown.
pub open spec fn edge_keeps(adj: Links, shown: Seq<Seq<char>>, p: int, q: int, x: Seq<char>) -> bool {
    &&& 0 <= p < adj.len()
    &&& 0 <= q < adj[p].1.len()
    &&& shown.contains(adj[p].0)
    &&& shown.contains(adj[p].1[q])
    &&& (x == adj[p].0 || x == adj[p].1[q])
}

/// `x` is an end of one of the edges before number `j` of entry number `i`
/// whose ends are both shown.
pub open spec fn kept_before(
    adj: Links,
    shown: Seq<Seq<char>>,
    i: int,
    j: int,
    x: Seq<char>,
) -> bool {
    exists|p: int, q: int| #[trigger]
        edge_keeps(adj, shown, p, q, x) && (p < i || (p == i && q < j))
}

/// `x` stays shown when the view is pruned: it is an end of an edge whose
/// ends are both shown.
pub open spec fn kept(adj: Links, shown: Seq<Seq<char>>, x: Seq<char>) -> bool {
    exists|a: Seq<char>, b: Seq<char>| #[trigger]
        has_edge(adj, a, b) && shown.contains(a) && shown.contains(b) && (x == a || x == b)
}

/// An edge goes from `x` to `y` or from `y` to `x`.
pub open spec fn neighbours(adj: Links, x: Seq<char>, y: Seq<char>) -> bool {
    has_edge(adj, x, y) || has_edge(adj, y, x)
}

/// After a pruning, every node that is shown has a neighbour that is shown:
/// a node that stays has a neighbour that stays.
pub proof fn lemma_kept_has_neighbour(adj: Links, shown: Seq<Seq<char>>, x: Seq<char>)
    requires
        kept(adj, shown, x),
    ensures
        exists|y: Seq<char>| kept(adj, shown, y) && #[trigger] neighbours(adj, x, y),
{
    let (a, b) = choose|a: Seq<char>, b: Seq<char>| #[trigger]
        has_edge(adj, a, b) && shown.contains(a) && shown.contains(b) && (x == a || x == b);
    assert(has_edge(adj, a, b) && shown.contains(a) && shown.contains(b) && (a == a || a == b));
    assert(has_edge(adj, a, b) && shown.contains(a) && shown.contains(b) && (b == a || b == b));
    assert(kept(adj, shown, a));
    assert(kept(adj, shown, b));
    if x == a {
        assert(kept(adj, shown, b) && neighbours(adj, x, b));
    } else {
        assert(kept(adj, shown, a) && neighbours(adj, x, a));
    }
}

/// A list with `x` at its end unless `x` is in it.
pub open spec fn with_member(s: Seq<Seq<char>>, x: Seq<char>) -> Seq<Seq<char>> {
    if s.contains(x) {
        s
    } else {
        s.push(x)
    }
}

/// The list `acc` after the edges from `from`, which is shown, to each of
/// `outs` are looked at in order: an edge to a node that is shown puts
/// first `from` and then that node into the list.
pub open spec fn pruned_entry(
    acc: Seq<Seq<char>>,
    from: Seq<char>,
    outs: Seq<Seq<char>>,
    shown: Seq<Seq<char>>,
) -> Seq<Seq<char>>
    decreases outs.len(),
{
    if outs.len() == 0 {
        acc
    } else {
        let before = pruned_entry(acc, from, outs.drop_last(), shown);
        if shown.contains(outs.last()) {
            with_member(with_member(before, from), outs.last())
        } else {
            before
        }
    }
}

/// The nodes that stay shown, in the order in which the edges of the index
/// bring them up.
pub open spec fn pruned(adj: Links, shown: Seq<Seq<char>>) -> Seq<Seq<char>>
    decreases adj.len(),
{
    if adj.len() == 0 {
        Seq::empty()
    } else {
        let before = pruned(adj.drop_last(), shown);
        if shown.contains(adj.last().0) {
            pruned_entry(before, adj.last().0, adj.last().1, shown)
        } else {
            before
        }
    }
}

/// The nodes of `shown` that are an end of an edge of `adj` whose ends are
/// both in `shown`, each once, in the order in which the edges of the index
/// bring them up.
pub fn prune(adj: &StringMap<StringSet>, shown: &StringSet) -> (left: StringSet)
    ensures
        forall|x: Seq<char>| #[trigger] left@.contains(x) <==> kept(adj@, shown@, x),
        left@.no_duplicates(),
        left@ == pruned(adj@, shown@),
{
    let mut left = StringSet::new();
    let n = adj.len();
    let mut i: usize = 0;
    assert(adj@.take(0) =~= Seq::<(Seq<char>, Seq<Seq<char>>)>::empty());
    while i < n
        invariant
            i <= n,
            n == adj@.len(),
            left@.no_duplicates(),
            left@ == pruned(adj@.take(i as int), shown@),
            forall|p: int|
                0 <= p < i ==> lookup(adj@, #[trigger] adj@[p].0) == Some(adj@[p].1),
            forall|x: Seq<char>| #[trigger]
                left@.contains(x) <==> kept_before(adj@, shown@, i as int, 0, x),
        decreases n - i,
    {
        let (from, outs) = adj.entry(i);
        let ghost so_far = left@;
        proof {
            assert(adj@.take(i + 1).drop_last() =~= adj@.take(i as int));
            assert(adj@.take(i + 1).last() == adj@[i as int]);
            assert(outs@.take(0) =~= Seq::<Seq<char>>::empty());
        }
        if shown.contains(from) {
            let mut j: usize = 0;
            while j < outs.len()
                invariant
                    i < n,
                    n == adj@.len(),
                    j <= outs@.len(),
                    left@.no_duplicates(),
                    left@ == pruned_entry(so_far, from@, outs@.take(j as int), shown@),
                    from@ == adj@[i as int].0,
                    outs@ == adj@[i as int].1,
                    shown@.contains(from@),
                    forall|x: Seq<char>| #[trigger]
                        left@.contains(x) <==> kept_before(adj@, shown@, i as int, j as int, x),
                decreases outs@.len() - j,
            {
                let to = outs.get(j);
                let ghost before = left@;
                proof {
                    assert(outs@.take(j + 1).drop_last() =~= outs@.take(j as int));
                    assert(outs@.take(j + 1).last() == outs@[j as int]);
                }
                if shown.contains(to) {
                    left.insert(from.clone());
                    left.insert(to.clone());
                }
                proof {
                    assert forall|x: Seq<char>| #[trigger]
                        left@.contains(x) <==> kept_before(
                            adj@,
                            shown@,
                            i as int,
                            j + 1,
                            x,
                        ) by {
                        let now = shown@.contains(to@) && (x == from@ || x == to@);
                        assert(left@.contains(x) <==> before.contains(x) || now) by {
                            lemma_two_inserts(before, from@, to@, left@, shown@.contains(to@), x);
                        }
                        if kept_before(adj@, shown@, i as int, j + 1, x) {
                            let (p, q) = choose|p: int, q: int| #[trigger]
                                edge_keeps(adj@, shown@, p, q, x) && (p < i || (p == i && q < j
                                    + 1));
                            if p == i && q == j {
                                assert(now);
                            } else {
                                assert(edge_keeps(adj@, shown@, p, q, x) && (p < i || (p == i
                                    && q < j)));
                            }
                        }
                        if before.contains(x) {
                            let (p, q) = choose|p: int, q: int| #[trigger]
                                edge_keeps(adj@, shown@, p, q, x) && (p < i || (p == i && q < j));
                            assert(edge_keeps(adj@, shown@, p, q, x) && (p < i || (p == i && q
                                < j + 1)));
                        }
                        if now {
                            assert(edge_keeps(adj@, shown@, i as int, j as int, x) && (i < i || (i
                                == i && j < j + 1)));
                        }
                    }
                }
                j += 1;
            }
            assert(outs@.take(j as int) =~= outs@);
        }
        proof {
            assert forall|x: Seq<char>| #[trigger]
                left@.contains(x) <==> kept_before(adj@, shown@, i + 1, 0, x) by {
                let upto = if shown@.contains(from@) {
                    outs@.len() as int
                } else {
                    0
                };
                assert(left@.contains(x) <==> kept_before(adj@, shown@, i as int, upto, x));
                if kept_before(adj@, shown@, i as int, upto, x) {
                    let (p, q) = choose|p: int, q: int| #[trigger]
                        edge_keeps(adj@, shown@, p, q, x) && (p < i || (p == i && q < upto));
                    assert(edge_keeps(adj@, shown@, p, q, x) && (p < i + 1 || (p == i + 1 && q
                        < 0)));
                }
                if kept_before(adj@, shown@, i + 1, 0, x) {
                    let (p, q) = choose|p: int, q: int| #[trigger]
                        edge_keeps(adj@, shown@, p, q, x) && (p < i + 1 || (p == i + 1 && q < 0));
                    assert(edge_keeps(adj@, shown@, p, q, x) && (p < i || (p == i && q < upto)));
                }
            }
        }
        i += 1;
    }
    proof {
        assert forall|x: Seq<char>| #[trigger] left@.contains(x) <==> kept(adj@, shown@, x) by {
            if kept_before(adj@, shown@, n as int, 0, x) {
                let (p, q) = choose|p: int, q: int| #[trigger]
                    edge_keeps(adj@, shown@, p, q, x) && (p < n || (p == n && q < 0));
                let a = adj@[p].0;
                let b = adj@[p].1[q];
                assert(adj@[p].1.contains(b));
                assert(has_edge(adj@, a, b) && shown@.contains(a) && shown@.contains(b) && (x == a
                    || x == b));
            }
            if kept(adj@, shown@, x) {
                let (a, b) = choose|a: Seq<char>, b: Seq<char>| #[trigger]
                    has_edge(adj@, a, b) && shown@.contains(a) && shown@.contains(b) && (x == a
                        || x == b);
                let keys = keys_of(adj@);
                let p = first_index(keys, a);
                lemma_first_index(keys, a);
                assert(keys[p] == a);
                let q = choose|q: int| 0 <= q < adj@[p].1.len() && adj@[p].1[q] == b;
                assert(edge_keeps(adj@, shown@, p, q, x) && (p < n || (p == n && q < 0)));
            }
        }
    }
    assert(adj@.take(n as int) =~= adj@);
    left
}

/// What two insertions, made when `both` holds, leave in a set.
pub proof fn lemma_two_inserts(
    before: Seq<Seq<char>>,
    a: Seq<char>,
    b: Seq<char>,
    after: Seq<Seq<char>>,
    both: bool,
    x: Seq<char>,
)
    requires
        after == if both {
            let mid = if before.contains(a) {
                before
            } else {
                before.push(a)
            };
            if mid.contains(b) {
                mid
            } else {
                mid.push(b)
            }
        } else {
            before
        },
    ensures
        after.contains(x) <==> before.contains(x) || (both && (x == a || x == b)),
{
    if both {
        let mid = if before.contains(a) {
            before
        } else {
            before.push(a)
        };
        lemma_push_contains(before, a, x);
        lemma_push_contains(mid, b, x);
        if before.contains(a) && x == a {
        }
        if mid.contains(b) && x == b {
        }
    }
}

} // verus!
