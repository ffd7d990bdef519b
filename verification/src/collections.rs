//! Insertion-ordered collections keyed by strings: a set of strings and a
//! map from strings to values. Both keep what came first in front and hold
//! no key twice.

use crate::text::{first_index, lemma_first_index, lemma_first_index_is};
use vstd::prelude::*;

verus! {

/// The contents of a list of strings.
pub open spec fn strings_view(items: Seq<String>) -> Seq<Seq<char>> {
    Seq::new(items.len(), |i: int| items[i]@)
}

/// `s` without its first `key`, if it has one.
pub open spec fn removed(s: Seq<Seq<char>>, key: Seq<char>) -> Seq<Seq<char>> {
    let i = first_index(s, key);
    if i < s.len() {
        s.remove(i)
    } else {
        s
    }
}

/// What is bound to `key` in an association list: the value of the first
/// entry with that key.
pub open spec fn lookup<T>(m: Seq<(Seq<char>, T)>, key: Seq<char>) -> Option<T> {
    let i = first_index(keys_of(m), key);
    if i < m.len() {
        Some(m[i].1)
    } else {
        None
    }
}

/// The keys of an association list, in order.
pub open spec fn keys_of<T>(m: Seq<(Seq<char>, T)>) -> Seq<Seq<char>> {
    Seq::new(m.len(), |i: int| m[i].0)
}

/// The association list after `key` is bound to `value`: a bound key keeps
/// its place and gets the new value, a new key goes to the end.
pub open spec fn bound<T>(m: Seq<(Seq<char>, T)>, key: Seq<char>, value: T) -> Seq<
    (Seq<char>, T),
> {
    let i = first_index(keys_of(m), key);
    if i < m.len() {
        m.update(i, (key, value))
    } else {
        m.push((key, value))
    }
}

/// `key` is in `s` exactly when `first_index` finds it.
pub proof fn lemma_first_index_contains<A>(s: Seq<A>, key: A)
    ensures
        s.contains(key) <==> first_index(s, key) < s.len(),
{
    lemma_first_index(s, key);
    if s.contains(key) {
        let j = choose|j: int| 0 <= j < s.len() && s[j] == key;
        if first_index(s, key) >= s.len() {
            assert(s[j] != key);
        }
    } else if first_index(s, key) < s.len() {
        assert(s[first_index(s, key)] == key);
    }
}

/// Taking a key out of a list without repeats leaves exactly the other
/// members, still without repeats.
pub proof fn lemma_removed(s: Seq<Seq<char>>, key: Seq<char>)
    requires
        s.no_duplicates(),
    ensures
        removed(s, key).no_duplicates(),
        forall|x: Seq<char>| removed(s, key).contains(x) <==> (s.contains(x) && x != key),
        removed(s, key).len() == if s.contains(key) {
            s.len() - 1
        } else {
            s.len() as int
        },
{
    let i = first_index(s, key);
    let r = removed(s, key);
    lemma_first_index(s, key);
    lemma_first_index_contains(s, key);
    if i < s.len() {
        assert forall|x: Seq<char>| r.contains(x) <==> (s.contains(x) && x != key) by {
            if r.contains(x) {
                let j = choose|j: int| 0 <= j < r.len() && r[j] == x;
                if j < i {
                    assert(s[j] == x);
                } else {
                    assert(s[j + 1] == x);
                }
            }
            if s.contains(x) && x != key {
                let j = choose|j: int| 0 <= j < s.len() && s[j] == x;
                if j < i {
                    assert(r[j] == x);
                } else {
                    assert(r[j - 1] == x);
                }
            }
        }
    } else {
        assert forall|x: Seq<char>| r.contains(x) <==> (s.contains(x) && x != key) by {}
    }
}

/// Where `first_index` finds a value in a list with one more member at its
/// end.
pub proof fn lemma_first_index_push<A>(s: Seq<A>, last: A, x: A)
    ensures
        first_index(s.push(last), x) == if first_index(s, x) < s.len() {
            first_index(s, x)
        } else if x == last {
            s.len() as int
        } else {
            s.len() as int + 1
        },
{
    lemma_first_index(s, x);
    let found = first_index(s, x);
    let longer = s.push(last);
    if found < s.len() {
        assert(longer[found] == x);
        assert forall|k: int| 0 <= k < found implies longer[k] != x by {
            assert(longer[k] == s[k]);
        }
        lemma_first_index_is(longer, x, found);
    } else {
        assert forall|k: int| 0 <= k < s.len() implies longer[k] != x by {
            assert(longer[k] == s[k]);
        }
        if x == last {
            lemma_first_index_is(longer, x, s.len() as int);
        } else {
            lemma_first_index_is(longer, x, s.len() as int + 1);
        }
    }
}

/// After `key` is bound to `value`, `key` is bound to `value` and every
/// other key is bound as before; and if no key occurred twice, none does.
pub proof fn lemma_lookup_bound<T>(
    m: Seq<(Seq<char>, T)>,
    key: Seq<char>,
    value: T,
    other: Seq<char>,
)
    ensures
        lookup(bound(m, key, value), other) == if other == key {
            Some(value)
        } else {
            lookup(m, other)
        },
        keys_of(m).no_duplicates() ==> keys_of(bound(m, key, value)).no_duplicates(),
{
    let keys = keys_of(m);
    let at = first_index(keys, key);
    let after = bound(m, key, value);
    lemma_first_index(keys, key);
    lemma_first_index(keys, other);
    if at < m.len() {
        assert(keys_of(after) =~= keys);
    } else {
        assert(keys_of(after) =~= keys.push(key));
        lemma_first_index_push(keys, key, other);
        lemma_first_index_contains(keys, key);
        if keys.no_duplicates() {
            assert forall|i: int, j: int|
                0 <= i < keys.len() + 1 && 0 <= j < keys.len() + 1 && i != j implies keys.push(
                key,
            )[i] != keys.push(key)[j] by {
                if i < keys.len() && j < keys.len() {
                } else if i < keys.len() {
                    assert(keys.contains(keys[i]));
                } else {
                    assert(keys.contains(keys[j]));
                }
            }
        }
    }
}

/// What is in a list after one more member is put at its end.
pub proof fn lemma_push_contains(s: Seq<Seq<char>>, a: Seq<char>, x: Seq<char>)
    ensures
        s.push(a).contains(x) <==> s.contains(x) || x == a,
{
    if s.push(a).contains(x) {
        let i = choose|i: int| 0 <= i < s.push(a).len() && s.push(a)[i] == x;
        if i < s.len() {
            assert(s[i] == x);
        }
    }
    if s.contains(x) {
        let i = choose|i: int| 0 <= i < s.len() && s[i] == x;
        assert(s.push(a)[i] == x);
    }
    if x == a {
        assert(s.push(a)[s.len() as int] == x);
    }
}

/// A member of two lists put together is a member of one of them.
pub proof fn lemma_concat_contains(a: Seq<Seq<char>>, b: Seq<Seq<char>>, x: Seq<char>)
    ensures
        (a + b).contains(x) <==> a.contains(x) || b.contains(x),
{
    if (a + b).contains(x) {
        let i = choose|i: int| 0 <= i < (a + b).len() && (a + b)[i] == x;
        if i < a.len() {
            assert(a[i] == x);
        } else {
            assert(b[i - a.len()] == x);
        }
    }
    if a.contains(x) {
        let i = choose|i: int| 0 <= i < a.len() && a[i] == x;
        assert((a + b)[i] == x);
    }
    if b.contains(x) {
        let i = choose|i: int| 0 <= i < b.len() && b[i] == x;
        assert((a + b)[a.len() + i] == x);
    }
}

/// An insertion-ordered set of strings.
#[derive(Debug)]
pub struct StringSet {
    items: Vec<String>,
}

impl View for StringSet {
    type V = Seq<Seq<char>>;

    closed spec fn view(&self) -> Seq<Seq<char>> {
        strings_view(self.items@)
    }
}

impl StringSet {
    #[verifier::type_invariant]
    spec fn distinct(self) -> bool {
        strings_view(self.items@).no_duplicates()
    }

    /// The empty set.
    pub fn new() -> (s: Self)
        ensures
            s@ == Seq::<Seq<char>>::empty(),
            s@.no_duplicates(),
    {
        let s = StringSet { items: Vec::new() };
        assert(s@ =~= Seq::<Seq<char>>::empty());
        s
    }

    /// The number of members. No member occurs twice.
    pub fn len(&self) -> (n: usize)
        ensures
            n == self@.len(),
            self@.no_duplicates(),
    {
        proof {
            use_type_invariant(&*self);
        }
        self.items.len()
    }

    /// The member at position `i`.
    pub fn get(&self, i: usize) -> (key: &String)
        requires
            i < self@.len(),
        ensures
            key@ == self@[i as int],
    {
        &self.items[i]
    }

    /// The position of `key`, or the number of members if it is none.
    fn position(&self, key: &String) -> (i: usize)
        ensures
            i == first_index(self@, key@),
            i <= self@.len(),
    {
        let mut i: usize = 0;
        while i < self.items.len() && self.items[i] != *key
            invariant
                i <= self.items.len(),
                forall|k: int| 0 <= k < i ==> self@[k] != key@,
            decreases self.items.len() - i,
        {
            i += 1;
        }
        proof {
            lemma_first_index_is(self@, key@, i as int);
        }
        i
    }

    /// Whether `key` is a member.
    pub fn contains(&self, key: &String) -> (b: bool)
        ensures
            b == self@.contains(key@),
    {
        let i = self.position(key);
        proof {
            lemma_first_index_contains(self@, key@);
        }
        i < self.items.len()
    }

    /// Adds `key` at the end unless it is a member already; tells whether it
    /// was added.
    pub fn insert(&mut self, key: String) -> (added: bool)
        ensures
            added == !old(self)@.contains(key@),
            final(self)@ == if added {
                old(self)@.push(key@)
            } else {
                old(self)@
            },
            final(self)@.no_duplicates(),
    {
        proof {
            use_type_invariant(&*self);
        }
        if self.contains(&key) {
            false
        } else {
            proof {
                let s = strings_view(self.items@);
                assert(strings_view(self.items@.push(key)) =~= s.push(key@));
                assert forall|i: int, j: int|
                    0 <= i < s.len() + 1 && 0 <= j < s.len() + 1 && i != j implies s.push(key@)[i]
                    != s.push(key@)[j] by {
                    if i < s.len() && j < s.len() {
                    } else if i < s.len() {
                        assert(s.contains(s[i]));
                    } else {
                        assert(s.contains(s[j]));
                    }
                }
            }
            let mut items: Vec<String> = Vec::new();
            std::mem::swap(&mut items, &mut self.items);
            items.push(key);
            self.items = items;
            true
        }
    }

    /// Takes `key` out; tells whether it was a member.
    pub fn remove(&mut self, key: &String) -> (was_member: bool)
        ensures
            was_member == old(self)@.contains(key@),
            final(self)@ == removed(old(self)@, key@),
            final(self)@.no_duplicates(),
    {
        proof {
            use_type_invariant(&*self);
            lemma_first_index_contains(self@, key@);
            lemma_removed(self@, key@);
        }
        let i = self.position(key);
        if i < self.items.len() {
            proof {
                assert(strings_view(self.items@.remove(i as int)) =~= strings_view(
                    self.items@,
                ).remove(i as int));
            }
            let mut items: Vec<String> = Vec::new();
            std::mem::swap(&mut items, &mut self.items);
            items.remove(i);
            self.items = items;
            true
        } else {
            false
        }
    }

    /// The members, in order.
    pub fn to_vec(&self) -> (v: Vec<String>)
        ensures
            strings_view(v@) == self@,
    {
        let mut items: Vec<String> = Vec::new();
        let mut i: usize = 0;
        while i < self.items.len()
            invariant
                i <= self.items.len(),
                items.len() == i,
                forall|k: int| 0 <= k < i ==> items@[k]@ == self.items@[k]@,
            decreases self.items.len() - i,
        {
            items.push(self.items[i].clone());
            i += 1;
        }
        assert(strings_view(items@) =~= strings_view(self.items@));
        items
    }

    /// A set with the same members in the same order.
    pub fn copy(&self) -> (s: Self)
        ensures
            s@ == self@,
    {
        proof {
            use_type_invariant(&*self);
        }
        let mut items: Vec<String> = Vec::new();
        let mut i: usize = 0;
        while i < self.items.len()
            invariant
                i <= self.items.len(),
                items.len() == i,
                forall|k: int| 0 <= k < i ==> items@[k]@ == self.items@[k]@,
            decreases self.items.len() - i,
        {
            items.push(self.items[i].clone());
            i += 1;
        }
        assert(strings_view(items@) =~= strings_view(self.items@));
        StringSet { items }
    }
}

/// An insertion-ordered map from strings to values.
#[derive(Debug)]
pub struct StringMap<V> {
    entries: Vec<(String, V)>,
}

/// The keys of a list of entries.
pub open spec fn entry_keys<V>(entries: Seq<(String, V)>) -> Seq<Seq<char>> {
    Seq::new(entries.len(), |i: int| entries[i].0@)
}

impl<V: View> View for StringMap<V> {
    type V = Seq<(Seq<char>, V::V)>;

    closed spec fn view(&self) -> Seq<(Seq<char>, V::V)> {
        Seq::new(self.entries@.len(), |i: int| (self.entries@[i].0@, self.entries@[i].1@))
    }
}

impl<V> StringMap<V> {
    #[verifier::type_invariant]
    spec fn distinct_keys(self) -> bool {
        entry_keys(self.entries@).no_duplicates()
    }
}

impl<V: View> StringMap<V> {
    /// The empty map.
    pub fn new() -> (m: Self)
        ensures
            m@ == Seq::<(Seq<char>, V::V)>::empty(),
    {
        let m = StringMap { entries: Vec::new() };
        assert(m@ =~= Seq::<(Seq<char>, V::V)>::empty());
        m
    }

    /// The number of entries. No key occurs twice.
    pub fn len(&self) -> (n: usize)
        ensures
            n == self@.len(),
            keys_of(self@).no_duplicates(),
    {
        proof {
            use_type_invariant(&*self);
            assert(keys_of(self@) =~= entry_keys(self.entries@));
        }
        self.entries.len()
    }

    /// The entry at position `i`: its key and its value. It is the entry
    /// that a search for its key finds.
    pub fn entry(&self, i: usize) -> (e: (&String, &V))
        requires
            i < self@.len(),
        ensures
            e.0@ == self@[i as int].0,
            e.1@ == self@[i as int].1,
            lookup(self@, self@[i as int].0) == Some(self@[i as int].1),
    {
        proof {
            use_type_invariant(&*self);
            let keys = keys_of(self@);
            assert(keys =~= entry_keys(self.entries@));
            assert forall|k: int| 0 <= k < i implies keys[k] != keys[i as int] by {}
            lemma_first_index_is(keys, keys[i as int], i as int);
        }
        (&self.entries[i].0, &self.entries[i].1)
    }

    /// The position of `key`, or the number of entries if it is not bound.
    fn position(&self, key: &String) -> (i: usize)
        ensures
            i == first_index(keys_of(self@), key@),
            i <= self@.len(),
    {
        let mut i: usize = 0;
        while i < self.entries.len() && self.entries[i].0 != *key
            invariant
                i <= self.entries.len(),
                forall|k: int| 0 <= k < i ==> keys_of(self@)[k] != key@,
            decreases self.entries.len() - i,
        {
            i += 1;
        }
        proof {
            lemma_first_index_is(keys_of(self@), key@, i as int);
        }
        i
    }

    /// The value bound to `key`, if there is one.
    pub fn get(&self, key: &String) -> (v: Option<&V>)
        ensures
            match v {
                Some(x) => lookup(self@, key@) == Some(x@),
                None => lookup(self@, key@) is None,
            },
    {
        let i = self.position(key);
        if i < self.entries.len() {
            Some(&self.entries[i].1)
        } else {
            None
        }
    }

    /// Binds `key` to `value`.
    pub fn insert(&mut self, key: String, value: V)
        ensures
            final(self)@ == bound(old(self)@, key@, value@),
    {
        proof {
            use_type_invariant(&*self);
        }
        let i = self.position(&key);
        let ghost before = self@;
        let ghost old_keys = entry_keys(self.entries@);
        let ghost k = key@;
        let ghost v = value@;
        let mut entries: Vec<(String, V)> = Vec::new();
        std::mem::swap(&mut entries, &mut self.entries);
        proof {
            assert(keys_of(before) =~= old_keys);
            lemma_first_index(old_keys, k);
            lemma_first_index_contains(old_keys, k);
        }
        if i < entries.len() {
            entries[i] = (key, value);
            assert(entry_keys(entries@) =~= old_keys);
        } else {
            entries.push((key, value));
            proof {
                assert(entry_keys(entries@) =~= old_keys.push(k));
                assert forall|a: int, b: int|
                    0 <= a < old_keys.len() + 1 && 0 <= b < old_keys.len() + 1 && a
                        != b implies old_keys.push(k)[a] != old_keys.push(k)[b] by {
                    if a < old_keys.len() && b < old_keys.len() {
                    } else if a < old_keys.len() {
                        assert(old_keys.contains(old_keys[a]));
                    } else {
                        assert(old_keys.contains(old_keys[b]));
                    }
                }
            }
        }
        self.entries = entries;
        assert(self@ =~= bound(before, k, v));
    }
}

impl Clone for StringSet {
    fn clone(&self) -> (s: Self)
        ensures
            s@ == self@,
    {
        self.copy()
    }
}

impl Default for StringSet {
    fn default() -> (s: Self)
        ensures
            s@ == Seq::<Seq<char>>::empty(),
    {
        StringSet::new()
    }
}

impl StringMap<String> {
    /// A map with the same entries in the same order.
    pub fn copy(&self) -> (m: Self)
        ensures
            m@ == self@,
    {
        proof {
            use_type_invariant(&*self);
        }
        let mut entries: Vec<(String, String)> = Vec::new();
        let mut i: usize = 0;
        while i < self.entries.len()
            invariant
                i <= self.entries.len(),
                entries.len() == i,
                forall|k: int|
                    0 <= k < i ==> entries@[k].0@ == self.entries@[k].0@ && entries@[k].1@
                        == self.entries@[k].1@,
            decreases self.entries.len() - i,
        {
            entries.push((self.entries[i].0.clone(), self.entries[i].1.clone()));
            i += 1;
        }
        assert(entry_keys(entries@) =~= entry_keys(self.entries@));
        let m = StringMap { entries };
        assert(m@ =~= self@);
        m
    }
}

impl Clone for StringMap<String> {
    fn clone(&self) -> (m: Self)
        ensures
            m@ == self@,
    {
        self.copy()
    }
}

impl StringMap<StringSet> {
    /// A map with the same entries in the same order.
    pub fn copy(&self) -> (m: Self)
        ensures
            m@ == self@,
    {
        proof {
            use_type_invariant(&*self);
        }
        let mut entries: Vec<(String, StringSet)> = Vec::new();
        let mut i: usize = 0;
        while i < self.entries.len()
            invariant
                i <= self.entries.len(),
                entries.len() == i,
                forall|k: int|
                    0 <= k < i ==> entries@[k].0@ == self.entries@[k].0@ && entries@[k].1@
                        == self.entries@[k].1@,
            decreases self.entries.len() - i,
        {
            entries.push((self.entries[i].0.clone(), self.entries[i].1.copy()));
            i += 1;
        }
        assert(entry_keys(entries@) =~= entry_keys(self.entries@));
        let m = StringMap { entries };
        assert(m@ =~= self@);
        m
    }
}

impl Clone for StringMap<StringSet> {
    fn clone(&self) -> (m: Self)
        ensures
            m@ == self@,
    {
        self.copy()
    }
}

impl<V: View> Default for StringMap<V> {
    fn default() -> (m: Self)
        ensures
            m@ == Seq::<(Seq<char>, V::V)>::empty(),
    {
        StringMap::new()
    }
}

} // verus!
