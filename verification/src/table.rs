//! A map from digraphs to values that is walked in ascending key order.

use crate::digraph::{ascending, digraph_before, digraph_lt, same_digraph, Digraph};
use vstd::prelude::*;

verus! {

/// The map that pairs each of `keys` with the value at its position.
pub open spec fn entries_map<V>(keys: Seq<Digraph>, values: Seq<V>) -> Map<Digraph, V> {
    Map::new(|d: Digraph| keys.contains(d), |d: Digraph| values[keys.index_of(d)])
}

/// With strictly rising keys, each key stands for the value at its own position.
pub proof fn lemma_entries_map<V>(keys: Seq<Digraph>, values: Seq<V>)
    requires
        ascending(keys),
        keys.len() == values.len(),
    ensures
        keys.no_duplicates(),
        entries_map(keys, values).dom() == keys.to_set(),
        forall|i: int|
            0 <= i < keys.len() ==> entries_map(keys, values).dom().contains(#[trigger] keys[i])
                && entries_map(keys, values)[keys[i]] == values[i],
{
    assert forall|i: int, j: int| 0 <= i < keys.len() && 0 <= j < keys.len() && i != j implies keys[i]
        != keys[j] by {
        if i < j {
            assert(digraph_lt(keys[i], keys[j]));
        } else {
            assert(digraph_lt(keys[j], keys[i]));
        }
    }
    assert(entries_map(keys, values).dom() =~= keys.to_set());
    assert forall|i: int| 0 <= i < keys.len() implies entries_map(keys, values).dom().contains(
        #[trigger] keys[i],
    ) && entries_map(keys, values)[keys[i]] == values[i] by {
        assert(keys.contains(keys[i]));
        let j = keys.index_of(keys[i]);
        assert(j == i);
    }
}

/// A finite map keyed by digraph, stored in ascending key order.
pub struct DigraphMap<V> {
    keys: Vec<Digraph>,
    values: Vec<V>,
}

impl<V> View for DigraphMap<V> {
    type V = Map<Digraph, V>;

    closed spec fn view(&self) -> Map<Digraph, V> {
        entries_map(self.keys@, self.values@)
    }
}

impl<V> DigraphMap<V> {
    /// The keys, in the order in which the map is walked.
    pub closed spec fn keys(&self) -> Seq<Digraph> {
        self.keys@
    }

    #[verifier::type_invariant]
    spec fn well_formed(&self) -> bool {
        ascending(self.keys@) && self.keys@.len() == self.values@.len()
    }

    /// The empty map.
    pub fn new() -> (map: DigraphMap<V>)
        ensures
            map@ == Map::<Digraph, V>::empty(),
            map.keys() == Seq::<Digraph>::empty(),
    {
        let map = DigraphMap { keys: Vec::new(), values: Vec::new() };
        assert(map@ =~= Map::<Digraph, V>::empty());
        map
    }

    /// The number of entries. The keys rise strictly and are the map's domain.
    pub fn len(&self) -> (n: usize)
        ensures
            n == self.keys().len(),
            ascending(self.keys()),
            self.keys().no_duplicates(),
            self.keys().to_set() == self@.dom(),
    {
        proof {
            use_type_invariant(self);
            lemma_entries_map(self.keys@, self.values@);
        }
        self.keys.len()
    }

    /// The entry at position `i` of the walk.
    pub fn entry_at(&self, i: usize) -> (entry: (Digraph, &V))
        requires
            i < self.keys().len(),
        ensures
            entry.0 == self.keys()[i as int],
            self@.dom().contains(entry.0),
            *entry.1 == self@[entry.0],
    {
        proof {
            use_type_invariant(self);
            lemma_entries_map(self.keys@, self.values@);
        }
        (self.keys[i], &self.values[i])
    }

    /// Stores `v` for `d` and hands back the value it replaces, if any.
    pub fn insert(&mut self, d: Digraph, v: V) -> (previous: Option<V>)
        ensures
            final(self)@ == old(self)@.insert(d, v),
            previous == (if old(self)@.dom().contains(d) {
                Some(old(self)@[d])
            } else {
                None
            }),
    {
        proof {
            use_type_invariant(&*self);
            lemma_entries_map(self.keys@, self.values@);
        }
        let mut taken = DigraphMap::new();
        core::mem::swap(self, &mut taken);
        let DigraphMap { mut keys, mut values } = taken;
        let ghost keys0 = keys@;
        let ghost values0 = values@;
        let i = lower_bound(&keys, d);
        let previous = if i < keys.len() && same_digraph(keys[i], d) {
            values.push(v);
            let replaced = values.swap_remove(i);
            assert(values@ =~= values0.update(i as int, v));
            Some(replaced)
        } else {
            proof {
                lemma_absent_at_bound(keys0, d, i as int);
            }
            keys.insert(i, d);
            values.insert(i, v);
            assert(ascending(keys@)) by {
                assert forall|a: int, b: int| 0 <= a < b < keys@.len() implies digraph_lt(
                    #[trigger] keys@[a],
                    #[trigger] keys@[b],
                ) by {
                    if a < i && b > i {
                        assert(digraph_lt(keys0[a], keys0[b - 1]));
                    } else if a == i {
                        assert(!digraph_lt(keys0[b - 1], d));
                    } else if b == i {
                        assert(digraph_lt(keys0[a], d));
                    } else if b < i {
                        assert(digraph_lt(keys0[a], keys0[b]));
                    } else {
                        assert(digraph_lt(keys0[a - 1], keys0[b - 1]));
                    }
                }
            }
            None
        };
        proof {
            lemma_entries_map(keys@, values@);
            assert(entries_map(keys@, values@) =~= entries_map(keys0, values0).insert(d, v)) by {
                assert forall|e: Digraph| #[trigger]
                    entries_map(keys0, values0).insert(d, v).dom().contains(e) implies entries_map(
                    keys@,
                    values@,
                ).dom().contains(e) && entries_map(keys@, values@)[e] == entries_map(
                    keys0,
                    values0,
                ).insert(d, v)[e] by {
                    if e == d {
                        assert(keys@[i as int] == d);
                    } else {
                        let j = keys0.index_of(e);
                        assert(keys0[j] == e);
                        if previous is Some || j < i {
                            assert(keys@[j] == e);
                        } else {
                            assert(keys@[j + 1] == e);
                        }
                    }
                }
                assert forall|e: Digraph| #[trigger]
                    entries_map(keys@, values@).dom().contains(e) implies entries_map(
                    keys0,
                    values0,
                ).insert(d, v).dom().contains(e) by {
                    let j = keys@.index_of(e);
                    assert(keys@[j] == e);
                    if e != d {
                        if previous is Some || j < i {
                            assert(keys0[j] == e);
                        } else {
                            assert(keys0[j - 1] == e);
                        }
                    }
                }
            }
        }
        *self = DigraphMap { keys, values };
        previous
    }

    /// Gives up the map for its keys, in ascending order, and the value of
    /// each key at the same position.
    pub fn into_entries(self) -> (entries: (Vec<Digraph>, Vec<V>))
        ensures
            entries.0@ == self.keys(),
            entries.1@.len() == entries.0@.len(),
            ascending(entries.0@),
            entries.0@.to_set() == self@.dom(),
            forall|i: int|
                0 <= i < entries.0@.len() ==> #[trigger] entries.1@[i] == self@[entries.0@[i]],
    {
        proof {
            use_type_invariant(&self);
            lemma_entries_map(self.keys@, self.values@);
        }
        let DigraphMap { keys, values } = self;
        (keys, values)
    }

    /// The value stored for `d`, if any.
    pub fn get(&self, d: Digraph) -> (found: Option<&V>)
        ensures
            match found {
                Some(v) => self@.dom().contains(d) && *v == self@[d],
                None => !self@.dom().contains(d),
            },
    {
        proof {
            use_type_invariant(self);
            lemma_entries_map(self.keys@, self.values@);
        }
        let i = lower_bound(&self.keys, d);
        if i < self.keys.len() && same_digraph(self.keys[i], d) {
            Some(&self.values[i])
        } else {
            proof {
                if self.keys@.contains(d) {
                    let j = choose|j: int| 0 <= j < self.keys@.len() && self.keys@[j] == d;
                    assert(!digraph_lt(self.keys@[j], d));
                    if i < j {
                        assert(digraph_lt(self.keys@[i as int], self.keys@[j]));
                    }
                }
            }
            None
        }
    }
}

/// The list stored for `d`, or the empty list where none is stored.
pub open spec fn list_at<T>(lists: Map<Digraph, Seq<T>>, d: Digraph) -> Seq<T> {
    if lists.dom().contains(d) {
        lists[d]
    } else {
        Seq::empty()
    }
}

impl<T> DigraphMap<Vec<T>> {
    /// The map with each stored list taken by its contents.
    pub open spec fn lists(&self) -> Map<Digraph, Seq<T>> {
        self@.map_values(|list: Vec<T>| list@)
    }

    /// Adds `x` to the end of the list stored for `d`, starting a list
    /// where none is stored yet.
    pub fn append_to(&mut self, d: Digraph, x: T)
        ensures
            final(self).lists() == old(self).lists().insert(
                d,
                list_at(old(self).lists(), d).push(x),
            ),
    {
        proof {
            use_type_invariant(&*self);
            lemma_entries_map(self.keys@, self.values@);
        }
        let ghost before = self.lists();
        let mut taken = DigraphMap::new();
        core::mem::swap(self, &mut taken);
        let DigraphMap { keys, mut values } = taken;
        let i = lower_bound(&keys, d);
        if i < keys.len() && same_digraph(keys[i], d) {
            values[i].push(x);
            *self = DigraphMap { keys, values };
            proof {
                lemma_entries_map(self.keys@, self.values@);
                assert(self.lists() =~= before.insert(d, list_at(before, d).push(x))) by {
                    assert forall|e: Digraph| #[trigger]
                        before.dom().contains(e) && e != d implies self.lists()[e] == before[e] by {
                        let j = keys@.index_of(e);
                        assert(keys@[j] == e);
                    }
                }
            }
        } else {
            *self = DigraphMap { keys, values };
            let mut list = Vec::new();
            list.push(x);
            self.insert(d, list);
            assert(self.lists() =~= before.insert(d, list_at(before, d).push(x))) by {
                assert(seq![x] =~= Seq::<T>::empty().push(x));
            }
        }
    }
}

impl DigraphMap<String> {
    /// The map with each stored string taken by its characters.
    pub open spec fn texts(&self) -> Map<Digraph, Seq<char>> {
        self@.map_values(|text: String| text@)
    }
}

/// A key that is not at its place in the order is not in `keys` at all.
proof fn lemma_absent_at_bound(keys: Seq<Digraph>, d: Digraph, at: int)
    requires
        ascending(keys),
        0 <= at <= keys.len(),
        forall|j: int| 0 <= j < at ==> digraph_lt(#[trigger] keys[j], d),
        forall|j: int| at <= j < keys.len() ==> !digraph_lt(#[trigger] keys[j], d),
        at < keys.len() ==> keys[at] != d,
    ensures
        !keys.contains(d),
{
    if keys.contains(d) {
        let j = choose|j: int| 0 <= j < keys.len() && keys[j] == d;
        if j < at {
            assert(digraph_lt(keys[j], d));
        } else if j > at {
            assert(digraph_lt(keys[at], keys[j]));
            assert(!digraph_lt(keys[at], d));
        }
    }
}

/// The first position of `keys` whose key is not below `d`.
fn lower_bound(keys: &Vec<Digraph>, d: Digraph) -> (at: usize)
    requires
        ascending(keys@),
    ensures
        at <= keys@.len(),
        forall|j: int| 0 <= j < at ==> digraph_lt(#[trigger] keys@[j], d),
        forall|j: int| at <= j < keys@.len() ==> !digraph_lt(#[trigger] keys@[j], d),
{
    let mut lo: usize = 0;
    let mut hi: usize = keys.len();
    while lo < hi
        invariant
            lo <= hi <= keys@.len(),
            ascending(keys@),
            forall|j: int| 0 <= j < lo ==> digraph_lt(#[trigger] keys@[j], d),
            forall|j: int| hi <= j < keys@.len() ==> !digraph_lt(#[trigger] keys@[j], d),
        decreases hi - lo,
    {
        let mid = lo + (hi - lo) / 2;
        if digraph_before(keys[mid], d) {
            assert forall|j: int| 0 <= j < mid + 1 implies digraph_lt(#[trigger] keys@[j], d) by {
                if j < mid {
                    assert(digraph_lt(keys@[j], keys@[mid as int]));
                }
            }
            lo = mid + 1;
        } else {
            assert forall|j: int| mid <= j < keys@.len() implies !digraph_lt(
                #[trigger] keys@[j],
                d,
            ) by {
                if mid < j {
                    assert(digraph_lt(keys@[mid as int], keys@[j]));
                }
            }
            hi = mid;
        }
    }
    lo
}

} // verus!
