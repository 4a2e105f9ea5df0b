//! A minimal insertion-ordered map over a flat `Vec` of pairs, used for the
//! posting lists of the inverted index.
//!
//! Posting lists are small, so a linear scan beats hashing while avoiding
//! the per-map overhead of a hash table. Iteration order is insertion order.
//! Lookups scan from the back: the entry being updated is almost always the
//! most recently appended one.
use vstd::prelude::*;
use vstd::laws_eq::obeys_concrete_eq;
use vstd::std_specs::slice::into_iter_elts;
use rustc_hash::FxBuildHasher;
use std::collections::HashMap;

verus! {

pub struct VecMap<K, V> {
    entries: Vec<(K, V)>,
}

impl<K, V> View for VecMap<K, V> {
    type V = Seq<(K, V)>;

    /// The entries in insertion order.
    closed spec fn view(&self) -> Seq<(K, V)> {
        self.entries@
    }
}

/// The keys of a sequence of entries.
pub open spec fn keys_of<K, V>(entries: Seq<(K, V)>) -> Seq<K> {
    entries.map_values(|entry: (K, V)| entry.0)
}

/// No key occurs twice.
pub open spec fn unique_keys<K, V>(entries: Seq<(K, V)>) -> bool {
    forall|i: int, j: int|
        0 <= i < entries.len() && 0 <= j < entries.len() && i != j ==> (#[trigger] entries[i]).0
            != (#[trigger] entries[j]).0
}

/// The position of `key` among the entries, if present.
pub open spec fn index_of<K, V>(entries: Seq<(K, V)>, key: K) -> int {
    choose|i: int| 0 <= i < entries.len() && (#[trigger] entries[i]).0 == key
}

pub open spec fn has_key<K, V>(entries: Seq<(K, V)>, key: K) -> bool {
    exists|i: int| 0 <= i < entries.len() && (#[trigger] entries[i]).0 == key
}

/// The entries after setting `key` to `value`: an existing entry keeps its
/// position, a new one is appended.
pub open spec fn assoc_set<K, V>(entries: Seq<(K, V)>, key: K, value: V) -> Seq<(K, V)> {
    if has_key(entries, key) {
        entries.update(index_of(entries, key), (key, value))
    } else {
        entries.push((key, value))
    }
}

/// The entries without the one for `key`, the others keeping their order.
pub open spec fn assoc_remove<K, V>(entries: Seq<(K, V)>, key: K) -> Seq<(K, V)> {
    if has_key(entries, key) {
        entries.remove(index_of(entries, key))
    } else {
        entries
    }
}

/// The value stored for `key`, if any.
pub open spec fn assoc_get<K, V>(entries: Seq<(K, V)>, key: K) -> Option<V> {
    if has_key(entries, key) {
        Some(entries[index_of(entries, key)].1)
    } else {
        None
    }
}

pub proof fn lemma_assoc_set_unique<K, V>(entries: Seq<(K, V)>, key: K, value: V)
    requires
        unique_keys(entries),
    ensures
        unique_keys(assoc_set(entries, key, value)),
        has_key(assoc_set(entries, key, value), key),
        assoc_get(assoc_set(entries, key, value), key) == Some(value),
        forall|k: K| k != key ==> #[trigger] assoc_get(assoc_set(entries, key, value), k) == assoc_get(entries, k),
{
    let e = assoc_set(entries, key, value);
    if has_key(entries, key) {
        let p = index_of(entries, key);
        assert(entries[p].0 == key);
    }
    assert forall|i: int, j: int|
        0 <= i < e.len() && 0 <= j < e.len() && i != j implies (#[trigger] e[i]).0
        != (#[trigger] e[j]).0 by {
        if has_key(entries, key) {
            let p = index_of(entries, key);
            if i == p {
                assert(entries[j].0 != entries[p].0);
            } else if j == p {
                assert(entries[i].0 != entries[p].0);
            }
        } else {
            if i == entries.len() {
                assert(entries[j].0 != key);
            } else if j == entries.len() {
                assert(entries[i].0 != key);
            }
        }
    }
    let p = if has_key(entries, key) { index_of(entries, key) } else { entries.len() as int };
    assert(e[p].0 == key);
    assert(has_key(e, key));
    assert(index_of(e, key) == p);
    assert forall|k: K| k != key implies #[trigger] assoc_get(e, k) == assoc_get(entries, k) by {
        if has_key(entries, k) {
            let q = index_of(entries, k);
            assert(e[q] == entries[q]);
            assert(has_key(e, k));
            assert(index_of(e, k) == q);
        }
        if has_key(e, k) {
            let q = index_of(e, k);
            assert(q != p);
            assert(e[q] == entries[q]);
            assert(has_key(entries, k));
        }
    }
}

pub proof fn lemma_assoc_remove_unique<K, V>(entries: Seq<(K, V)>, key: K)
    requires
        unique_keys(entries),
    ensures
        unique_keys(assoc_remove(entries, key)),
        !has_key(assoc_remove(entries, key), key),
        forall|k: K| k != key ==> #[trigger] assoc_get(assoc_remove(entries, key), k) == assoc_get(entries, k),
{
    let e = assoc_remove(entries, key);
    if has_key(entries, key) {
        let p = index_of(entries, key);
        assert(entries[p].0 == key);
        assert forall|i: int, j: int|
            0 <= i < e.len() && 0 <= j < e.len() && i != j implies (#[trigger] e[i]).0
            != (#[trigger] e[j]).0 by {
            let fi = if i < p { i } else { i + 1 };
            let fj = if j < p { j } else { j + 1 };
            assert(e[i] == entries[fi] && e[j] == entries[fj]);
        }
        assert forall|i: int| 0 <= i < e.len() implies (#[trigger] e[i]).0 != key by {
            let fi = if i < p { i } else { i + 1 };
            assert(e[i] == entries[fi]);
        }
        assert forall|k: K| k != key implies #[trigger] assoc_get(e, k) == assoc_get(entries, k) by {
            if has_key(entries, k) {
                let q = index_of(entries, k);
                assert(entries[q].0 == k);
                assert(q != p);
                let nq = if q < p { q } else { q - 1 };
                assert(e[nq] == entries[q]);
                assert(has_key(e, k));
                assert(index_of(e, k) == nq);
            }
            if has_key(e, k) {
                let q = index_of(e, k);
                let fq = if q < p { q } else { q + 1 };
                assert(e[q] == entries[fq]);
                assert(has_key(entries, k));
            }
        }
    }
}

/// The entries with `f` applied to every value.
pub open spec fn map_second<K, V, W>(entries: Seq<(K, V)>, f: spec_fn(V) -> W) -> Seq<(K, W)> {
    entries.map_values(|entry: (K, V)| (entry.0, f(entry.1)))
}

pub proof fn lemma_map_second<K, V, W>(entries: Seq<(K, V)>, f: spec_fn(V) -> W)
    requires
        unique_keys(entries),
    ensures
        unique_keys(map_second(entries, f)),
        forall|k: K| #[trigger] has_key(map_second(entries, f), k) == has_key(entries, k),
        forall|k: K|
            #[trigger] assoc_get(map_second(entries, f), k) == match assoc_get(entries, k) {
                Some(v) => Some(f(v)),
                None => None,
            },
{
    let m = map_second(entries, f);
    assert forall|i: int, j: int|
        0 <= i < m.len() && 0 <= j < m.len() && i != j implies (#[trigger] m[i]).0
        != (#[trigger] m[j]).0 by {
        assert(m[i].0 == entries[i].0 && m[j].0 == entries[j].0);
    }
    assert forall|k: K| #[trigger] has_key(m, k) == has_key(entries, k) by {
        if has_key(entries, k) {
            let i = index_of(entries, k);
            assert(m[i].0 == k);
        }
        if has_key(m, k) {
            let i = index_of(m, k);
            assert(entries[i].0 == k);
        }
    }
    assert forall|k: K|
        #[trigger] assoc_get(m, k) == match assoc_get(entries, k) {
            Some(v) => Some(f(v)),
            None => None,
        } by {
        if has_key(entries, k) {
            let i = index_of(entries, k);
            assert(m[i].0 == k);
            assert(has_key(m, k));
            assert(index_of(m, k) == i);
        }
    }
}

pub proof fn lemma_map_second_set<K, V, W>(entries: Seq<(K, V)>, f: spec_fn(V) -> W, key: K, value: V)
    requires
        unique_keys(entries),
    ensures
        map_second(assoc_set(entries, key, value), f) == assoc_set(map_second(entries, f), key, f(value)),
{
    lemma_map_second(entries, f);
    let m = map_second(entries, f);
    if has_key(entries, key) {
        let i = index_of(entries, key);
        assert(m[i].0 == key);
        assert(index_of(m, key) == i);
        assert(map_second(assoc_set(entries, key, value), f) =~= assoc_set(m, key, f(value)));
    } else {
        assert(map_second(assoc_set(entries, key, value), f) =~= assoc_set(m, key, f(value)));
    }
}

pub proof fn lemma_map_second_remove<K, V, W>(entries: Seq<(K, V)>, f: spec_fn(V) -> W, key: K)
    requires
        unique_keys(entries),
    ensures
        map_second(assoc_remove(entries, key), f) == assoc_remove(map_second(entries, f), key),
{
    lemma_map_second(entries, f);
    let m = map_second(entries, f);
    if has_key(entries, key) {
        let i = index_of(entries, key);
        assert(m[i].0 == key);
        assert(index_of(m, key) == i);
        assert(map_second(assoc_remove(entries, key), f) =~= assoc_remove(m, key));
    } else {
        assert(map_second(assoc_remove(entries, key), f) =~= assoc_remove(m, key));
    }
}

impl<K, V> VecMap<K, V> {
    pub open spec fn wf(&self) -> bool {
        unique_keys(self@)
    }

    /// The entries as a map from keys to values.
    pub open spec fn as_map(&self) -> Map<K, V> {
        Map::new(|key: K| has_key(self@, key), |key: K| self@[index_of(self@, key)].1)
    }
}

impl<K, V> Default for VecMap<K, V> {
    fn default() -> (map: Self)
        ensures
            map@ == Seq::<(K, V)>::empty(),
    {
        VecMap { entries: Vec::new() }
    }
}

impl<K: Copy + Eq, V> VecMap<K, V> {
    pub fn len(&self) -> (len: usize)
        ensures
            len == self@.len(),
    {
        self.entries.len()
    }

    pub fn is_empty(&self) -> (empty: bool)
        ensures
            empty == (self@.len() == 0),
    {
        self.entries.len() == 0
    }

    /// The position of `key`, searching from the back.
    fn position(&self, key: K) -> (position: Option<usize>)
        requires
            obeys_concrete_eq::<K>(),
            self.wf(),
        ensures
            match position {
                Some(i) => i < self@.len() && self@[i as int].0 == key && has_key(self@, key)
                    && index_of(self@, key) == i,
                None => !has_key(self@, key),
            },
    {
        let mut i = self.entries.len();
        while i > 0
            invariant
                obeys_concrete_eq::<K>(),
                self.wf(),
                i <= self@.len(),
                forall|j: int| i <= j < self@.len() ==> (#[trigger] self@[j]).0 != key,
            decreases i,
        {
            let found = self.entries[i - 1].0 == key;
            if found {
                proof {
                    reveal(obeys_concrete_eq);
                    assert(self@[i - 1].0 == key);
                    assert(has_key(self@, key));
                    let k = index_of(self@, key);
                    assert(self@[k].0 == key);
                }
                return Some(i - 1);
            }
            proof {
                reveal(obeys_concrete_eq);
            }
            i = i - 1;
        }
        None
    }
}

impl<K: Copy + Eq, V> VecMap<K, V> {
    pub fn get(&self, key: K) -> (value: Option<&V>)
        requires
            obeys_concrete_eq::<K>(),
            self.wf(),
        ensures
            match value {
                Some(v) => self.as_map().contains_key(key) && self.as_map()[key] == *v,
                None => !self.as_map().contains_key(key),
            },
    {
        match self.position(key) {
            Some(index) => Some(&self.entries[index].1),
            None => None,
        }
    }

    pub fn get_mut(&mut self, key: K) -> (value: Option<&mut V>)
        requires
            obeys_concrete_eq::<K>(),
            old(self).wf(),
        ensures
            final(self).wf(),
            match value {
                Some(v) => {
                    &&& old(self).as_map().contains_key(key)
                    &&& old(self).as_map()[key] == *v
                    &&& final(self)@ == old(self)@.update(
                        index_of(old(self)@, key),
                        (key, *final(v)),
                    )
                },
                None => !old(self).as_map().contains_key(key) && final(self)@ == old(self)@,
            },
    {
        match self.position(key) {
            Some(index) => {
                let ghost old_entries = self@;
                let entry = &mut self.entries[index];
                let value = &mut entry.1;
                proof {
                    assert forall|i: int, j: int|
                        0 <= i < old_entries.len() && 0 <= j < old_entries.len() && i != j
                        implies (#[trigger] old_entries.update(index as int, (key, *final(value)))[i]).0
                        != (#[trigger] old_entries.update(index as int, (key, *final(value)))[j]).0 by {
                    }
                }
                Some(value)
            },
            None => None,
        }
    }

    /// Returns the value for `key`, inserting the value produced by `default`
    /// if absent. New keys are appended, preserving insertion order.
    pub fn get_or_insert_with(&mut self, key: K, default: impl FnOnce() -> V) -> (value: &mut V)
        requires
            obeys_concrete_eq::<K>(),
            old(self).wf(),
            default.requires(()),
        ensures
            final(self).wf(),
            old(self).as_map().contains_key(key) ==> {
                &&& *value == old(self).as_map()[key]
                &&& final(self)@ == old(self)@.update(index_of(old(self)@, key), (key, *final(value)))
            },
            !old(self).as_map().contains_key(key) ==> {
                &&& default.ensures((), *value)
                &&& final(self)@ == old(self)@.push((key, *final(value)))
            },
    {
        let ghost old_entries = self@;
        let index = match self.position(key) {
            Some(index) => index,
            None => {
                self.entries.push((key, default()));
                self.entries.len() - 1
            },
        };
        let entry = &mut self.entries[index];
        let value = &mut entry.1;
        proof {
            let fv = *final(value);
            if has_key(old_entries, key) {
                let e = old_entries.update(index as int, (key, fv));
                assert forall|i: int, j: int|
                    0 <= i < e.len() && 0 <= j < e.len() && i != j implies (#[trigger] e[i]).0
                    != (#[trigger] e[j]).0 by {
                }
            } else {
                let e = old_entries.push((key, fv));
                assert forall|i: int, j: int|
                    0 <= i < e.len() && 0 <= j < e.len() && i != j implies (#[trigger] e[i]).0
                    != (#[trigger] e[j]).0 by {
                    if i < old_entries.len() && j < old_entries.len() {
                    } else if i < old_entries.len() {
                        assert(old_entries[i].0 != key);
                    } else {
                        assert(old_entries[j].0 != key);
                    }
                }
            }
        }
        value
    }

    /// Inserts or replaces the value for `key`. Replacement keeps the
    /// entry's position; a new key is appended.
    pub fn insert(&mut self, key: K, value: V)
        requires
            obeys_concrete_eq::<K>(),
            old(self).wf(),
        ensures
            final(self).wf(),
            old(self).as_map().contains_key(key) ==> final(self)@ == old(self)@.update(
                index_of(old(self)@, key),
                (key, value),
            ),
            !old(self).as_map().contains_key(key) ==> final(self)@ == old(self)@.push((key, value)),
            final(self)@ == assoc_set(old(self)@, key, value),
            final(self).as_map() == old(self).as_map().insert(key, value),
    {
        let ghost old_map = *self;
        match self.position(key) {
            Some(index) => {
                self.entries.set(index, (key, value));
            },
            None => {
                self.entries.push((key, value));
            },
        }
        proof {
            let e = self@;
            let o = old_map@;
            assert forall|i: int, j: int|
                0 <= i < e.len() && 0 <= j < e.len() && i != j implies (#[trigger] e[i]).0
                != (#[trigger] e[j]).0 by {
                if i < o.len() && j < o.len() {
                    if e[i].0 == key {
                        assert(o[i].0 == key);
                    }
                    if e[j].0 == key {
                        assert(o[j].0 == key);
                    }
                } else if i < o.len() {
                    assert(o[i].0 != key);
                } else if j < o.len() {
                    assert(o[j].0 != key);
                }
            }
            lemma_as_map_after_set(o, e, key, value);
        }
    }

    /// Removes the entry for `key`, preserving the order of the remaining
    /// entries.
    pub fn remove(&mut self, key: K) -> (removed: Option<V>)
        requires
            obeys_concrete_eq::<K>(),
            old(self).wf(),
        ensures
            final(self).wf(),
            match removed {
                Some(v) => {
                    &&& old(self).as_map().contains_key(key)
                    &&& old(self).as_map()[key] == v
                    &&& final(self)@ == old(self)@.remove(index_of(old(self)@, key))
                },
                None => !old(self).as_map().contains_key(key) && final(self)@ == old(self)@,
            },
            final(self).as_map() == old(self).as_map().remove(key),
    {
        let ghost o = self@;
        match self.position(key) {
            Some(index) => {
                let entry = self.entries.remove(index);
                proof {
                    let e = self@;
                    assert forall|i: int, j: int|
                        0 <= i < e.len() && 0 <= j < e.len() && i != j implies (#[trigger] e[i]).0
                        != (#[trigger] e[j]).0 by {
                        let fi = if i < index { i } else { i + 1 };
                        let fj = if j < index { j } else { j + 1 };
                        assert(e[i] == o[fi] && e[j] == o[fj]);
                    }
                    lemma_as_map_after_remove(o, e, key, index as int);
                }
                Some(entry.1)
            },
            None => {
                proof {
                    assert(self.as_map() =~= self.as_map().remove(key));
                }
                None
            },
        }
    }

    /// The entries in insertion order, as a slice.
    pub(crate) fn as_slice(&self) -> (entries: &[(K, V)])
        ensures
            entries@ == self@,
    {
        self.entries.as_slice()
    }

    /// The entries in insertion order.
    pub fn iter(&self) -> (entries: std::slice::Iter<'_, (K, V)>)
        ensures
            into_iter_elts(entries) == self@,
    {
        self.entries.iter()
    }
}

/// The entries made by inserting `pairs` one after another: a repeated key
/// keeps its first position and takes its last value.
pub open spec fn inserted_all<K, V>(pairs: Seq<(K, V)>) -> Seq<(K, V)>
    decreases pairs.len(),
{
    if pairs.len() == 0 {
        Seq::empty()
    } else {
        assoc_set(inserted_all(pairs.drop_last()), pairs.last().0, pairs.last().1)
    }
}

/// Building a map from pairs gives what inserting them one after another
/// gives: if `steps` are the entries of a map that starts empty and takes
/// each pair in turn by `insert` (whose contract sets the key as
/// `assoc_set` does), the last step is what `from_pairs_last_wins` builds.
pub proof fn lemma_from_pairs_is_sequential_insert<K, V>(pairs: Seq<(K, V)>, steps: Seq<Seq<(K, V)>>)
    requires
        steps.len() == pairs.len() + 1,
        steps[0] == Seq::<(K, V)>::empty(),
        forall|i: int|
            0 <= i < pairs.len() ==> #[trigger] steps[i + 1] == assoc_set(
                steps[i],
                pairs[i].0,
                pairs[i].1,
            ),
    ensures
        steps[pairs.len() as int] == inserted_all(pairs),
    decreases pairs.len(),
{
    if pairs.len() > 0 {
        let n = pairs.len() - 1;
        let before = pairs.drop_last();
        let shorter = steps.drop_last();
        assert forall|i: int| 0 <= i < before.len() implies #[trigger] shorter[i + 1] == assoc_set(
            shorter[i],
            before[i].0,
            before[i].1,
        ) by {
            assert(steps[i + 1] == assoc_set(steps[i], pairs[i].0, pairs[i].1));
        }
        lemma_from_pairs_is_sequential_insert(before, shorter);
        assert(steps[n + 1] == assoc_set(steps[n], pairs[n].0, pairs[n].1));
    }
}

/// Positions of keys among entries.
pub(crate) type Positions = HashMap<u32, usize, FxBuildHasher>;

/// `FxHashMap::default`: an empty map.
#[verifier::external_body]
pub(crate) fn new_positions() -> (positions: Positions)
    ensures
        (positions@ == Map::<u32, usize>::empty()),
{
    HashMap::default()
}

/// `HashMap::get`: the position stored for `key`.
#[verifier::external_body]
pub(crate) fn position_of(positions: &Positions, key: u32) -> (position: Option<usize>)
    ensures
        match position {
            Some(p) => positions@.contains_key(key) && positions@[key] == p,
            None => !positions@.contains_key(key),
        },
{
    positions.get(&key).copied()
}

/// `HashMap::insert`: records the position of `key`.
#[verifier::external_body]
pub(crate) fn set_position(positions: &mut Positions, key: u32, position: usize)
    ensures
        final(positions)@ == old(positions)@.insert(key, position),
{
    positions.insert(key, position);
}

impl<V> VecMap<u32, V> {
    /// Builds a map from a pair sequence in one pass, with the exact
    /// semantics of repeated `insert`: a duplicate key keeps its first
    /// position and takes its last value. Sequential `insert` is quadratic on
    /// a long sequence of distinct keys, because each miss scans the whole
    /// vector; a hash map of positions avoids the scans.
    pub fn from_pairs_last_wins(pairs: Vec<(u32, V)>) -> (map: Self)
        ensures
            map.wf(),
            map@ == inserted_all(pairs@),
    {
        let ghost all = pairs@;
        let mut entries: Vec<(u32, V)> = Vec::new();
        let mut positions = new_positions();
        for pair in it: pairs.into_iter()
            invariant
                it.seq() == all,
                entries@ == inserted_all(all.take(it.index() as int)),
                unique_keys(entries@),
                forall|k: u32| #[trigger] positions@.contains_key(k) == has_key(entries@, k),
                forall|k: u32|
                    #[trigger] positions@.contains_key(k) ==> positions@[k] == index_of(entries@, k),
        {
            let (key, value) = pair;
            let ghost before = entries@;
            let ghost count = it.index();
            proof {
                assert(all.take(count + 1).drop_last() =~= all.take(count as int));
                assert(all[count as int] == (key, value));
                lemma_assoc_set_unique(before, key, value);
            }
            match position_of(&positions, key) {
                Some(position) => {
                    proof {
                        let i = index_of(before, key);
                        assert(before[i].0 == key);
                    }
                    entries.set(position, (key, value));
                },
                None => {
                    set_position(&mut positions, key, entries.len());
                    entries.push((key, value));
                    proof {
                        assert(entries@[before.len() as int].0 == key);
                        assert(index_of(entries@, key) == before.len());
                    }
                },
            }
            proof {
                assert(entries@ == assoc_set(before, key, value));
                assert forall|k: u32| #[trigger] positions@.contains_key(k) == has_key(entries@, k) by {
                    if k != key {
                        if has_key(before, k) {
                            let i = index_of(before, k);
                            assert(entries@[i] == before[i]);
                        }
                        if has_key(entries@, k) {
                            let i = index_of(entries@, k);
                            if i < before.len() {
                                assert(entries@[i] == before[i]);
                            }
                        }
                    }
                }
                assert forall|k: u32| #[trigger] positions@.contains_key(k) implies positions@[k] == index_of(
                    entries@,
                    k,
                ) by {
                    if k != key {
                        let i = index_of(before, k);
                        assert(before[i].0 == k);
                        assert(entries@[i] == before[i]);
                    }
                }
            }
        }
        proof {
            assert(all.take(all.len() as int) =~= all);
        }
        VecMap { entries }
    }
}

proof fn lemma_as_map_after_set<K, V>(old: Seq<(K, V)>, new: Seq<(K, V)>, key: K, value: V)
    requires
        unique_keys(old),
        unique_keys(new),
        has_key(old, key) ==> new == old.update(index_of(old, key), (key, value)),
        !has_key(old, key) ==> new == old.push((key, value)),
    ensures
        Map::new(|k: K| has_key(new, k), |k: K| new[index_of(new, k)].1) == Map::new(
            |k: K| has_key(old, k),
            |k: K| old[index_of(old, k)].1,
        ).insert(key, value),
{
    let mo = Map::new(|k: K| has_key(old, k), |k: K| old[index_of(old, k)].1);
    let mn = Map::new(|k: K| has_key(new, k), |k: K| new[index_of(new, k)].1);
    assert forall|k: K| #[trigger] mn.contains_key(k) <==> mo.insert(key, value).contains_key(k) by {
        if has_key(new, k) {
            let i = index_of(new, k);
            if k != key {
                assert(old[i].0 == k);
            }
        }
        if k == key {
            if has_key(old, key) {
                let i = index_of(old, key);
                assert(new[i].0 == key);
            } else {
                assert(new[old.len() as int].0 == key);
            }
        } else if has_key(old, k) {
            let i = index_of(old, k);
            assert(new[i].0 == k);
        }
    }
    assert forall|k: K| #[trigger] mn.contains_key(k) implies mn[k] == mo.insert(key, value)[k] by {
        let i = index_of(new, k);
        assert(new[i].0 == k);
        if k == key {
            if has_key(old, key) {
                let j = index_of(old, key);
                assert(new[j].0 == key);
            } else {
                assert(new[old.len() as int].0 == key);
            }
        } else {
            assert(old[i].0 == k);
            let j = index_of(old, k);
            assert(old[j].0 == k);
        }
    }
    assert(mn =~= mo.insert(key, value));
}

proof fn lemma_as_map_after_remove<K, V>(old: Seq<(K, V)>, new: Seq<(K, V)>, key: K, index: int)
    requires
        unique_keys(old),
        0 <= index < old.len(),
        old[index].0 == key,
        new == old.remove(index),
    ensures
        Map::new(|k: K| has_key(new, k), |k: K| new[index_of(new, k)].1) == Map::new(
            |k: K| has_key(old, k),
            |k: K| old[index_of(old, k)].1,
        ).remove(key),
{
    let mo = Map::new(|k: K| has_key(old, k), |k: K| old[index_of(old, k)].1);
    let mn = Map::new(|k: K| has_key(new, k), |k: K| new[index_of(new, k)].1);
    assert forall|k: K| #[trigger] mn.contains_key(k) <==> mo.remove(key).contains_key(k) by {
        if has_key(new, k) {
            let i = index_of(new, k);
            let fi = if i < index { i } else { i + 1 };
            assert(old[fi] == new[i]);
        }
        if k != key && has_key(old, k) {
            let i = index_of(old, k);
            assert(i != index);
            let ni = if i < index { i } else { i - 1 };
            assert(new[ni] == old[i]);
        }
    }
    assert forall|k: K| #[trigger] mn.contains_key(k) implies mn[k] == mo.remove(key)[k] by {
        let i = index_of(new, k);
        let fi = if i < index { i } else { i + 1 };
        assert(old[fi] == new[i]);
        let j = index_of(old, k);
        assert(old[j].0 == k);
    }
    assert(mn =~= mo.remove(key));
}

} // verus!
