//! A map from strings to values, kept as a vector sorted by the keys' bytes.
//!
//! The sorted vector is the canonical form of the map: two maps with the same
//! contents hold the same keys and values in the same order, whatever the
//! order in which they were filled.

use vstd::prelude::*;
use crate::lex::{bytes_of, lex_less, rank_strs, Rank};
use crate::lex::{lemma_lex_irreflexive, lemma_lex_transitive, lemma_lex_total, lemma_lex_asymmetric};

verus! {

/// Every key comes strictly before all keys after it.
pub open spec fn ascending(keys: Seq<Seq<u8>>) -> bool {
    forall|i: int, j: int| 0 <= i < j < keys.len() ==> lex_less(#[trigger] keys[i], #[trigger] keys[j])
}

/// The map that holds `values[i]` under `keys[i]`.
pub open spec fn to_map<T>(keys: Seq<Seq<u8>>, values: Seq<T>) -> Map<Seq<u8>, T> {
    Map::new(|k: Seq<u8>| keys.contains(k), |k: Seq<u8>| values[keys.index_of(k)])
}

/// Ascending keys are pairwise distinct.
pub proof fn lemma_ascending_distinct(keys: Seq<Seq<u8>>, i: int, j: int)
    requires
        ascending(keys),
        0 <= i < keys.len(),
        0 <= j < keys.len(),
        keys[i] == keys[j],
    ensures
        i == j,
{
    if i < j {
        lemma_lex_irreflexive(keys[i]);
    } else if j < i {
        lemma_lex_irreflexive(keys[j]);
    }
}

/// Under ascending keys the map holds exactly the paired values.
pub proof fn lemma_to_map_at<T>(keys: Seq<Seq<u8>>, values: Seq<T>, i: int)
    requires
        ascending(keys),
        keys.len() == values.len(),
        0 <= i < keys.len(),
    ensures
        to_map(keys, values).contains_key(keys[i]),
        to_map(keys, values)[keys[i]] == values[i],
{
    assert(keys.contains(keys[i]));
    lemma_ascending_distinct(keys, i, keys.index_of(keys[i]));
}

/// Putting a new key at its place in the order inserts it into the map.
pub proof fn lemma_to_map_insert<T>(keys: Seq<Seq<u8>>, values: Seq<T>, at: int, k: Seq<u8>, v: T)
    requires
        ascending(keys),
        keys.len() == values.len(),
        0 <= at <= keys.len(),
        forall|j: int| 0 <= j < at ==> lex_less(#[trigger] keys[j], k),
        forall|j: int| at <= j < keys.len() ==> lex_less(k, #[trigger] keys[j]),
    ensures
        ascending(keys.insert(at, k)),
        to_map(keys.insert(at, k), values.insert(at, v)) == to_map(keys, values).insert(k, v),
{
    let keys2 = keys.insert(at, k);
    let values2 = values.insert(at, v);
    assert forall|i: int, j: int| 0 <= i < j < keys2.len() implies lex_less(
        #[trigger] keys2[i],
        #[trigger] keys2[j],
    ) by {
        if i < at && j == at {
            assert(lex_less(keys[i], k));
        } else if i < at && j > at {
            assert(lex_less(keys[i], keys[j - 1]));
        } else if i == at {
            assert(lex_less(k, keys[j - 1]));
        } else if i > at {
            assert(lex_less(keys[i - 1], keys[j - 1]));
        } else {
            assert(lex_less(keys[i], keys[j]));
        }
    }
    let m1 = to_map(keys2, values2);
    let m2 = to_map(keys, values).insert(k, v);
    assert forall|x: Seq<u8>| m1.contains_key(x) == m2.contains_key(x) by {
        if keys2.contains(x) {
            let i = keys2.index_of(x);
            if i < at {
                assert(keys[i] == x);
            } else if i > at {
                assert(keys[i - 1] == x);
            }
        }
        if keys.contains(x) {
            let i = keys.index_of(x);
            if i < at {
                assert(keys2[i] == x);
            } else {
                assert(keys2[i + 1] == x);
            }
        }
        if x == k {
            assert(keys2[at] == x);
        }
    }
    assert forall|x: Seq<u8>| m1.contains_key(x) implies m1[x] == m2[x] by {
        let i = keys2.index_of(x);
        lemma_to_map_at(keys2, values2, i);
        if i < at {
            lemma_to_map_at(keys, values, i);
            lemma_lex_irreflexive(k);
        } else if i > at {
            lemma_to_map_at(keys, values, i - 1);
            lemma_lex_irreflexive(k);
        }
    }
    assert(m1 =~= m2);
}

/// Replacing the value at a position replaces it in the map.
pub proof fn lemma_to_map_update<T>(keys: Seq<Seq<u8>>, values: Seq<T>, at: int, v: T)
    requires
        ascending(keys),
        keys.len() == values.len(),
        0 <= at < keys.len(),
    ensures
        to_map(keys, values.update(at, v)) == to_map(keys, values).insert(keys[at], v),
{
    let values2 = values.update(at, v);
    let m1 = to_map(keys, values2);
    let m2 = to_map(keys, values).insert(keys[at], v);
    assert forall|x: Seq<u8>| m1.contains_key(x) == m2.contains_key(x) by {
        assert(keys.contains(keys[at]));
    }
    assert forall|x: Seq<u8>| m1.contains_key(x) implies m1[x] == m2[x] by {
        let i = keys.index_of(x);
        lemma_to_map_at(keys, values2, i);
        lemma_to_map_at(keys, values, i);
        if x == keys[at] {
            lemma_ascending_distinct(keys, i, at);
        }
    }
    assert(m1 =~= m2);
}

/// The first `n + 1` pairs hold what the first `n` hold and the pair at `n`,
/// whose key is new to them.
pub proof fn lemma_to_map_take<T>(keys: Seq<Seq<u8>>, values: Seq<T>, n: int)
    requires
        ascending(keys),
        keys.len() == values.len(),
        0 <= n < keys.len(),
    ensures
        ascending(keys.take(n)),
        ascending(keys.take(n + 1)),
        !to_map(keys.take(n), values.take(n)).contains_key(keys[n]),
        to_map(keys.take(n + 1), values.take(n + 1)) == to_map(keys.take(n), values.take(n)).insert(
            keys[n],
            values[n],
        ),
{
    let front = keys.take(n);
    assert forall|i: int, j: int| 0 <= i < j < front.len() implies lex_less(
        #[trigger] front[i],
        #[trigger] front[j],
    ) by {
        assert(lex_less(keys[i], keys[j]));
    }
    assert forall|j: int| 0 <= j < n implies lex_less(#[trigger] front[j], keys[n]) by {
        assert(lex_less(keys[j], keys[n]));
    }
    lemma_to_map_insert(front, values.take(n), n, keys[n], values[n]);
    assert(front.insert(n, keys[n]) =~= keys.take(n + 1));
    assert(values.take(n).insert(n, values[n]) =~= values.take(n + 1));
    if front.contains(keys[n]) {
        let j = front.index_of(keys[n]);
        assert(lex_less(front[j], keys[n]));
        lemma_lex_irreflexive(keys[n]);
    }
}

/// Without its last pair the map is the map without the last key.
pub proof fn lemma_to_map_drop_last<T>(keys: Seq<Seq<u8>>, values: Seq<T>)
    requires
        ascending(keys),
        keys.len() == values.len(),
        keys.len() > 0,
    ensures
        ascending(keys.drop_last()),
        to_map(keys.drop_last(), values.drop_last()) == to_map(keys, values).remove(keys.last()),
{
    let n = keys.len() - 1;
    assert(keys.drop_last() =~= keys.take(n));
    assert(values.drop_last() =~= values.take(n));
    lemma_to_map_take(keys, values, n);
    assert(keys.take(n + 1) =~= keys);
    assert(values.take(n + 1) =~= values);
    assert(to_map(keys.take(n), values.take(n)) =~= to_map(keys, values).remove(keys.last()));
}

/// The ascending listing of a map is unique: two ascending listings of the
/// same map hold the same keys and values at the same positions.
pub proof fn lemma_canonical<T>(keys1: Seq<Seq<u8>>, values1: Seq<T>, keys2: Seq<Seq<u8>>, values2: Seq<T>)
    requires
        ascending(keys1),
        ascending(keys2),
        keys1.len() == values1.len(),
        keys2.len() == values2.len(),
        to_map(keys1, values1) == to_map(keys2, values2),
    ensures
        keys1 == keys2,
        values1 == values2,
    decreases keys1.len(),
{
    let m = to_map(keys1, values1);
    if keys1.len() == 0 {
        if keys2.len() > 0 {
            lemma_to_map_at(keys2, values2, 0);
            assert(m.contains_key(keys2[0]));
            assert(keys1.contains(keys2[0]));
        }
        assert(keys1 =~= keys2);
        assert(values1 =~= values2);
    } else {
        let n1 = keys1.len() - 1;
        lemma_to_map_at(keys1, values1, n1);
        assert(keys2.contains(keys1[n1]));
        let j = keys2.index_of(keys1[n1]);
        let n2 = keys2.len() - 1;
        lemma_to_map_at(keys2, values2, n2);
        assert(keys1.contains(keys2[n2]));
        let i = keys1.index_of(keys2[n2]);
        if j < n2 {
            assert(lex_less(keys2[j], keys2[n2]));
            if i < n1 {
                assert(lex_less(keys1[i], keys1[n1]));
                lemma_lex_asymmetric(keys1[i], keys1[n1]);
            } else {
                lemma_lex_irreflexive(keys1[n1]);
            }
        }
        assert(j == n2);
        lemma_to_map_at(keys2, values2, j);
        assert(values1[n1] == values2[n2]);
        lemma_to_map_drop_last(keys1, values1);
        lemma_to_map_drop_last(keys2, values2);
        lemma_canonical(keys1.drop_last(), values1.drop_last(), keys2.drop_last(), values2.drop_last());
        assert(keys1 =~= keys1.drop_last().push(keys1.last()));
        assert(keys2 =~= keys2.drop_last().push(keys2.last()));
        assert(values1 =~= values1.drop_last().push(values1.last()));
        assert(values2 =~= values2.drop_last().push(values2.last()));
    }
}

/// `keys` lists the keys of `m` in ascending order.
pub open spec fn is_listing<T>(keys: Seq<Seq<u8>>, m: Map<Seq<u8>, T>) -> bool {
    ascending(keys) && forall|k: Seq<u8>| keys.contains(k) <==> m.contains_key(k)
}

/// The keys of a finite map in ascending order.
pub open spec fn sorted_keys<T>(m: Map<Seq<u8>, T>) -> Seq<Seq<u8>> {
    choose|keys: Seq<Seq<u8>>| is_listing(keys, m)
}

/// The values of a finite map in the ascending order of their keys.
pub open spec fn sorted_values<T>(m: Map<Seq<u8>, T>) -> Seq<T> {
    Seq::new(sorted_keys(m).len(), |i: int| m[sorted_keys(m)[i]])
}

/// A map that its sorted keys list is the map of its sorted listing.
pub proof fn lemma_listing_to_map<T>(m: Map<Seq<u8>, T>)
    requires
        is_listing(sorted_keys(m), m),
    ensures
        to_map(sorted_keys(m), sorted_values(m)) == m,
        sorted_keys(m).len() == sorted_values(m).len(),
{
    let ks = sorted_keys(m);
    let vs = sorted_values(m);
    let m2 = to_map(ks, vs);
    assert forall|k: Seq<u8>| m2.contains_key(k) implies m2[k] == m[k] by {
        let i = ks.index_of(k);
        lemma_to_map_at(ks, vs, i);
    }
    assert(m2 =~= m);
}

/// An ascending listing of a map is its sorted listing.
pub proof fn lemma_sorted<T>(keys: Seq<Seq<u8>>, values: Seq<T>)
    requires
        ascending(keys),
        keys.len() == values.len(),
    ensures
        sorted_keys(to_map(keys, values)) == keys,
        sorted_values(to_map(keys, values)) == values,
        is_listing(keys, to_map(keys, values)),
{
    let m = to_map(keys, values);
    assert(is_listing(keys, m));
    let ks = sorted_keys(m);
    let vs = sorted_values(m);
    let m2 = to_map(ks, vs);
    assert forall|k: Seq<u8>| m2.contains_key(k) implies m2[k] == m[k] by {
        let i = ks.index_of(k);
        lemma_to_map_at(ks, vs, i);
    }
    assert(m2 =~= m);
    lemma_canonical(ks, vs, keys, values);
}

/// Two ascending listings of maps with the same keys are the same.
pub proof fn lemma_listing_unique<T, U>(
    keys1: Seq<Seq<u8>>,
    m1: Map<Seq<u8>, T>,
    keys2: Seq<Seq<u8>>,
    m2: Map<Seq<u8>, U>,
)
    requires
        is_listing(keys1, m1),
        is_listing(keys2, m2),
        forall|k: Seq<u8>| m1.contains_key(k) <==> m2.contains_key(k),
    ensures
        keys1 == keys2,
{
    let units1 = Seq::new(keys1.len(), |i: int| ());
    let units2 = Seq::new(keys2.len(), |i: int| ());
    assert(to_map(keys1, units1) =~= to_map(keys2, units2));
    lemma_canonical(keys1, units1, keys2, units2);
}

/// Mapping the values of a map maps the values of its listing.
pub proof fn lemma_map_values_listing<T, U>(keys: Seq<Seq<u8>>, values: Seq<T>, f: spec_fn(T) -> U)
    requires
        ascending(keys),
        keys.len() == values.len(),
    ensures
        to_map(keys, values).map_values(f) == to_map(keys, values.map_values(f)),
        sorted_keys(to_map(keys, values).map_values(f)) == keys,
        sorted_values(to_map(keys, values).map_values(f)) == values.map_values(f),
{
    let mapped = values.map_values(f);
    let m1 = to_map(keys, values).map_values(f);
    let m2 = to_map(keys, mapped);
    assert forall|k: Seq<u8>| m2.contains_key(k) implies m1[k] == m2[k] by {
        let i = keys.index_of(k);
        lemma_to_map_at(keys, values, i);
        lemma_to_map_at(keys, mapped, i);
    }
    assert(m1 =~= m2);
    lemma_sorted(keys, mapped);
}

/// A map from strings to values, ordered by the bytes of the keys.
pub struct StrMap<T> {
    items: Vec<(String, T)>,
}

impl<T> View for StrMap<T> {
    type V = Map<Seq<u8>, T>;

    /// The contents: each key's bytes with its value.
    open spec fn view(&self) -> Map<Seq<u8>, T> {
        to_map(self.keys(), self.values())
    }
}

impl<T> StrMap<T> {
    /// The keys' bytes in the order in which the map holds them.
    pub closed spec fn keys(&self) -> Seq<Seq<u8>> {
        Seq::new(self.items@.len(), |i: int| bytes_of(self.items@[i].0@))
    }

    /// The keys' texts in the order in which the map holds them.
    pub closed spec fn texts(&self) -> Seq<Seq<char>> {
        Seq::new(self.items@.len(), |i: int| self.items@[i].0@)
    }

    /// The values in the order of their keys.
    pub closed spec fn values(&self) -> Seq<T> {
        Seq::new(self.items@.len(), |i: int| self.items@[i].1)
    }

    /// The keys are strictly ascending, and each has one value.
    pub open spec fn wf(&self) -> bool {
        &&& ascending(self.keys())
        &&& self.keys().len() == self.values().len()
        &&& self.texts().len() == self.keys().len()
        &&& forall|i: int| 0 <= i < self.keys().len() ==> bytes_of(#[trigger] self.texts()[i]) == self.keys()[i]
        &&& forall|i: int| 0 <= i < self.keys().len() ==> (#[trigger] self.keys()[i]).len() <= usize::MAX
    }

    /// Every map of this type is well formed.
    #[verifier::type_invariant]
    pub open spec fn inv(&self) -> bool {
        self.wf()
    }

    /// The map holds its keys and values in the sorted order of the keys.
    pub proof fn lemma_listing(&self)
        requires
            self.wf(),
        ensures
            self.keys() == sorted_keys(self@),
            self.values() == sorted_values(self@),
            is_listing(self.keys(), self@),
    {
        lemma_sorted(self.keys(), self.values());
    }

    /// The number of keys in the listing is the size of the map.
    pub proof fn lemma_len_is_size(&self)
        requires
            self.wf(),
        ensures
            self@.dom().finite(),
            self@.dom().len() == self.keys().len(),
    {
        let keys = self.keys();
        assert forall|i: int, j: int| 0 <= i < keys.len() && 0 <= j < keys.len() && i != j implies keys[i]
            != keys[j] by {
            if keys[i] == keys[j] {
                lemma_ascending_distinct(keys, i, j);
            }
        }
        assert(keys.no_duplicates());
        keys.unique_seq_to_set();
        assert(self@.dom() =~= keys.to_set());
    }

    /// The empty map.
    pub fn new() -> (m: Self)
        ensures
            m@ == Map::<Seq<u8>, T>::empty(),
            m.keys().len() == 0,
            m.wf(),
    {
        let m = StrMap { items: Vec::new() };
        proof {
            assert(m.keys() =~= Seq::empty());
            assert(m@ =~= Map::<Seq<u8>, T>::empty());
        }
        m
    }

    /// The number of keys.
    pub fn len(&self) -> (n: usize)
        ensures
            n == self.keys().len(),
            n == self.values().len(),
            self.wf(),
    {
        proof {
            use_type_invariant(self);
        }
        self.items.len()
    }

    /// Where `key` stands, or where it would be put.
    fn position(&self, key: &str) -> (r: (bool, usize))
        ensures
            r.1 <= self.keys().len(),
            r.0 ==> r.1 < self.keys().len() && self.keys()[r.1 as int] == bytes_of(key@),
            !r.0 ==> !self.keys().contains(bytes_of(key@)),
            !r.0 ==> forall|j: int| 0 <= j < r.1 ==> lex_less(#[trigger] self.keys()[j], bytes_of(key@)),
            !r.0 ==> forall|j: int|
                r.1 <= j < self.keys().len() ==> lex_less(bytes_of(key@), #[trigger] self.keys()[j]),
    {
        proof {
            use_type_invariant(self);
        }
        let ghost k = bytes_of(key@);
        let mut lo: usize = 0;
        let mut hi: usize = self.items.len();
        while lo < hi
            invariant
                self.wf(),
                k == bytes_of(key@),
                lo <= hi <= self.items@.len(),
                self.items@.len() == self.keys().len(),
                forall|j: int| 0 <= j < lo ==> lex_less(#[trigger] self.keys()[j], k),
                forall|j: int| hi <= j < self.keys().len() ==> lex_less(k, #[trigger] self.keys()[j]),
            decreases hi - lo,
        {
            let mid = lo + (hi - lo) / 2;
            match rank_strs(self.items[mid].0.as_str(), key) {
                Rank::Same => {
                    return (true, mid);
                },
                Rank::Before => {
                    proof {
                        assert forall|j: int| 0 <= j < mid + 1 implies lex_less(
                            #[trigger] self.keys()[j],
                            k,
                        ) by {
                            if j < mid {
                                lemma_lex_transitive(self.keys()[j], self.keys()[mid as int], k);
                            }
                        }
                    }
                    lo = mid + 1;
                },
                Rank::After => {
                    proof {
                        lemma_lex_total(self.keys()[mid as int], k);
                        assert forall|j: int| mid <= j < self.keys().len() implies lex_less(
                            k,
                            #[trigger] self.keys()[j],
                        ) by {
                            if j > mid {
                                lemma_lex_transitive(k, self.keys()[mid as int], self.keys()[j]);
                            }
                        }
                    }
                    hi = mid;
                },
            }
        }
        proof {
            if self.keys().contains(k) {
                let j = self.keys().index_of(k);
                lemma_lex_irreflexive(k);
            }
        }
        (false, lo)
    }

    /// The position of `key` in the order, if the map holds it.
    pub fn find(&self, key: &str) -> (r: Option<usize>)
        ensures
            match r {
                Some(at) => at < self.keys().len() && self.keys()[at as int] == bytes_of(key@)
                    && self@.contains_key(bytes_of(key@)) && self@[bytes_of(key@)]
                    == self.values()[at as int],
                None => !self@.contains_key(bytes_of(key@)),
            },
            self.wf(),
    {
        proof {
            use_type_invariant(self);
        }
        let (found, at) = self.position(key);
        if found {
            proof {
                lemma_to_map_at(self.keys(), self.values(), at as int);
            }
            Some(at)
        } else {
            None
        }
    }

    /// Exchanges the value at a position with `value`.
    pub fn swap_at(&mut self, at: usize, value: &mut T)
        requires
            at < old(self).keys().len(),
        ensures
            final(self).keys() == old(self).keys(),
            final(self).texts() == old(self).texts(),
            final(self).values() == old(self).values().update(at as int, *old(value)),
            *final(value) == old(self).values()[at as int],
            final(self)@ == old(self)@.insert(old(self).keys()[at as int], *old(value)),
            final(self).wf(),
    {
        proof {
            use_type_invariant(&*self);
        }
        let ghost keys = self.keys();
        let ghost values = self.values();
        let ghost texts = self.texts();
        let ghost given = *value;
        let mut items: Vec<(String, T)> = Vec::new();
        core::mem::swap(&mut self.items, &mut items);
        proof {
            lemma_to_map_update(keys, values, at as int, given);
        }
        core::mem::swap(&mut items[at].1, value);
        proof {
            let m = StrMap { items };
            assert(m.keys() =~= keys);
            assert(m.texts() =~= texts);
            assert(m.values() =~= values.update(at as int, given));
        }
        self.items = items;
    }

    /// Whether the map holds `key`.
    pub fn contains_key(&self, key: &str) -> (b: bool)
        ensures
            b == self@.contains_key(bytes_of(key@)),
    {
        let (found, _at) = self.position(key);
        found
    }

    /// The value under `key`, if the map holds the key.
    pub fn get(&self, key: &str) -> (r: Option<&T>)
        ensures
            match r {
                Some(v) => self@.contains_key(bytes_of(key@)) && *v == self@[bytes_of(key@)],
                None => !self@.contains_key(bytes_of(key@)),
            },
    {
        proof {
            use_type_invariant(self);
        }
        let (found, at) = self.position(key);
        if found {
            proof {
                lemma_to_map_at(self.keys(), self.values(), at as int);
            }
            Some(&self.items[at].1)
        } else {
            None
        }
    }

    /// Puts `value` under `key` and hands back the value it replaces, if any.
    pub fn insert(&mut self, key: String, value: T) -> (previous: Option<T>)
        ensures
            final(self)@ == old(self)@.insert(bytes_of(key@), value),
            previous == if old(self)@.contains_key(bytes_of(key@)) {
                Some(old(self)@[bytes_of(key@)])
            } else {
                None::<T>
            },
            final(self).wf(),
    {
        proof {
            use_type_invariant(&*self);
        }
        let (found, at) = self.position(key.as_str());
        let ghost keys = self.keys();
        let ghost values = self.values();
        let ghost texts = self.texts();
        let mut items: Vec<(String, T)> = Vec::new();
        core::mem::swap(&mut self.items, &mut items);
        if found {
            let mut held = value;
            proof {
                lemma_to_map_at(keys, values, at as int);
                lemma_to_map_update(keys, values, at as int, value);
            }
            core::mem::swap(&mut items[at].1, &mut held);
            proof {
                let m = StrMap { items };
                assert(m.keys() =~= keys);
                assert(m.texts() =~= texts);
                assert(m.values() =~= values.update(at as int, value));
            }
            self.items = items;
            Some(held)
        } else {
            // The bytes of a string are a slice, so their number fits in `usize`.
            let key_len = key.as_str().as_bytes().len();
            proof {
                lemma_to_map_insert(keys, values, at as int, bytes_of(key@), value);
            }
            items.insert(at, (key, value));
            proof {
                let m = StrMap { items };
                assert(m.keys() =~= keys.insert(at as int, bytes_of(key@)));
                assert(m.values() =~= values.insert(at as int, value));
                assert(m.texts() =~= texts.insert(at as int, key@));
            }
            self.items = items;
            None
        }
    }

    /// The keys and values as they are held, in key order.
    pub(crate) fn as_items(&self) -> (items: &Vec<(String, T)>)
        ensures
            items@.len() == self.keys().len(),
            forall|i: int|
                0 <= i < items@.len() ==> bytes_of((#[trigger] items@[i]).0@) == self.keys()[i]
                    && items@[i].1 == self.values()[i],
            self.wf(),
    {
        proof {
            use_type_invariant(self);
        }
        &self.items
    }

    /// The key at a position in the order.
    pub fn key_at(&self, i: usize) -> (key: &String)
        requires
            i < self.keys().len(),
        ensures
            bytes_of(key@) == self.keys()[i as int],
            key@ == self.texts()[i as int],
    {
        &self.items[i].0
    }

    /// The value at a position in the order.
    pub fn value_at(&self, i: usize) -> (value: &T)
        requires
            i < self.keys().len(),
        ensures
            *value == self.values()[i as int],
    {
        &self.items[i].1
    }
}

} // verus!
