//! Compressed prefix tree (radix tree) used as the inverted index.
//!
//! Each node keeps a single insertion-ordered `Vec` of slots — the leaf value
//! or an edge to a child — so that two traversal orders are available:
//! entries and prefix views visit the slots of every node in *reverse*
//! insertion order, while fuzzy search visits them in *forward* order.
//!
//! The abstract view of a tree is a finite map from keys (sequences of
//! characters) to values, defined by the path semantics of `find`.
use vstd::prelude::*;

use crate::text::{chars_of, string_of};
use crate::levenshtein::{
    levenshtein, lemma_empty, lemma_length_difference, lemma_row_bound, lemma_step, min3,
};

verus! {

broadcast use vstd::seq_lib::group_seq_properties;

pub enum Slot<T> {
    Leaf(T),
    Child(Vec<char>, Node<T>),
}

pub struct Node<T> {
    pub slots: Vec<Slot<T>>,
}

/// `edge` is a prefix of `key`.
pub open spec fn is_prefix(edge: Seq<char>, key: Seq<char>) -> bool {
    edge.len() <= key.len() && key.take(edge.len() as int) == edge
}

/// The slot is an edge that is a non-empty prefix of `key`.
pub open spec fn slot_matches<T>(slot: Slot<T>, key: Seq<char>) -> bool {
    match slot {
        Slot::Child(edge, _) => edge@.len() > 0 && is_prefix(edge@, key),
        Slot::Leaf(_) => false,
    }
}

pub open spec fn has_child_for<T>(slots: Seq<Slot<T>>, key: Seq<char>) -> bool {
    exists|i: int| 0 <= i < slots.len() && #[trigger] slot_matches(slots[i], key)
}

pub open spec fn child_for<T>(slots: Seq<Slot<T>>, key: Seq<char>) -> int {
    choose|i: int| 0 <= i < slots.len() && #[trigger] slot_matches(slots[i], key)
}

pub open spec fn has_leaf<T>(slots: Seq<Slot<T>>) -> bool {
    exists|i: int| 0 <= i < slots.len() && (#[trigger] slots[i]) is Leaf
}

pub open spec fn leaf_pos<T>(slots: Seq<Slot<T>>) -> int {
    choose|i: int| 0 <= i < slots.len() && (#[trigger] slots[i]) is Leaf
}

/// The value held by the node whose slots are `slots` (its leaf), if any.
pub open spec fn leaf_of<T>(slots: Seq<Slot<T>>) -> Option<T> {
    if has_leaf(slots) {
        Some(slots[leaf_pos(slots)]->Leaf_0)
    } else {
        None
    }
}

pub open spec fn leaf_value<T>(node: Node<T>) -> Option<T> {
    leaf_of(node.slots@)
}

/// The slots of the node reached from the node with `slots` by following
/// edges that spell `key`.
pub open spec fn find<T>(slots: Seq<Slot<T>>, key: Seq<char>) -> Option<Seq<Slot<T>>>
    decreases key.len(),
{
    if key.len() == 0 {
        Some(slots)
    } else if has_child_for(slots, key) {
        match slots[child_for(slots, key)] {
            Slot::Child(edge, child) => if 0 < edge@.len() <= key.len() {
                find(child.slots@, key.skip(edge@.len() as int))
            } else {
                None
            },
            Slot::Leaf(_) => None,
        }
    } else {
        None
    }
}

/// No edge among `slots` starts with `c`.
pub open spec fn no_edge_starts<T>(slots: Seq<Slot<T>>, c: char) -> bool {
    forall|j: int| 0 <= j < slots.len() && (#[trigger] slots[j]) is Child ==> slots[j]->Child_0@[0] != c
}

/// `after` is `before` with one more slot at the end: an edge `edge` to
/// `child`.
pub open spec fn appended_edge<T>(
    before: Seq<Slot<T>>,
    after: Seq<Slot<T>>,
    edge: Seq<char>,
    child: Node<T>,
) -> bool {
    &&& after.len() == before.len() + 1
    &&& after.take(before.len() as int) == before
    &&& after.last() is Child
    &&& after.last()->Child_0@ == edge
    &&& after.last()->Child_1 == child
}

/// The entries below the first `count` slots depend on those slots alone.
proof fn lemma_slots_entries_prefix<T>(a: Node<T>, b: Node<T>, prefix: Seq<char>, count: int)
    requires
        0 <= count <= a.slots@.len(),
        count <= b.slots@.len(),
        a.slots@.take(count) == b.slots@.take(count),
    ensures
        slots_entries(a, prefix, count) == slots_entries(b, prefix, count),
    decreases count,
{
    if count > 0 {
        assert(a.slots@[count - 1] == a.slots@.take(count)[count - 1]);
        assert(b.slots@[count - 1] == b.slots@.take(count)[count - 1]);
        assert(a.slots@.take(count - 1) =~= a.slots@.take(count).take(count - 1));
        assert(b.slots@.take(count - 1) =~= b.slots@.take(count).take(count - 1));
        lemma_slots_entries_prefix(a, b, prefix, count - 1);
    }
}

/// Fuzzy collection over slots that gained one more slot at the end: what
/// the old slots give, then what the new one gives.
proof fn lemma_fuzzy_collect_appended<T>(
    a: Node<T>,
    b: Node<T>,
    prefix: Seq<char>,
    start: int,
    query: Seq<char>,
    max: int,
)
    requires
        b.slots@.len() == a.slots@.len() + 1,
        b.slots@.take(a.slots@.len() as int) == a.slots@,
        0 <= start <= a.slots@.len(),
    ensures
        fuzzy_collect(b, prefix, start, query, max) == fuzzy_collect(a, prefix, start, query, max)
            + fuzzy_collect(b, prefix, a.slots@.len() as int, query, max),
    decreases a.slots@.len() - start,
{
    if start < a.slots@.len() {
        lemma_fuzzy_collect_appended(a, b, prefix, start + 1, query, max);
        assert(b.slots@[start] == b.slots@.take(a.slots@.len() as int)[start]);
        let here = match b.slots@[start] {
            Slot::Leaf(_) => if levenshtein(prefix, query) <= max {
                seq![(prefix, levenshtein(prefix, query) as int)]
            } else {
                Seq::empty()
            },
            Slot::Child(edge, child) => fuzzy_collect(child, prefix + edge@, 0, query, max),
        };
        assert(here + (fuzzy_collect(a, prefix, start + 1, query, max) + fuzzy_collect(
            b,
            prefix,
            a.slots@.len() as int,
            query,
            max,
        )) =~= (here + fuzzy_collect(a, prefix, start + 1, query, max)) + fuzzy_collect(
            b,
            prefix,
            a.slots@.len() as int,
            query,
            max,
        ));
    } else {
        assert(fuzzy_collect(a, prefix, start, query, max) =~= Seq::<(Seq<char>, int)>::empty());
        assert(Seq::<(Seq<char>, int)>::empty() + fuzzy_collect(b, prefix, start, query, max)
            =~= fuzzy_collect(b, prefix, start, query, max));
    }
}

/// Fuzzy collection below a root that gained, last, an edge `key` to a node
/// holding only a leaf: what the old root gives, then the key if it is
/// close enough.
#[verifier::spinoff_prover]
proof fn lemma_fuzzy_new_edge<T>(a: Node<T>, b: Node<T>, key: Seq<char>, query: Seq<char>, max: int)
    requires
        b.slots@.len() == a.slots@.len() + 1,
        b.slots@.take(a.slots@.len() as int) == a.slots@,
        b.slots@[a.slots@.len() as int] is Child,
        b.slots@[a.slots@.len() as int]->Child_0@ == key,
        b.slots@[a.slots@.len() as int]->Child_1.slots@.len() == 1,
        b.slots@[a.slots@.len() as int]->Child_1.slots@[0] is Leaf,
    ensures
        fuzzy_collect(b, Seq::<char>::empty(), 0, query, max) == fuzzy_collect(
            a,
            Seq::<char>::empty(),
            0,
            query,
            max,
        ) + if levenshtein(key, query) <= max {
            seq![(key, levenshtein(key, query) as int)]
        } else {
            Seq::<(Seq<char>, int)>::empty()
        },
{
    let n = a.slots@.len() as int;
    let child = b.slots@[n]->Child_1;
    let empty = Seq::<char>::empty();
    lemma_fuzzy_collect_appended(a, b, empty, 0, query, max);
    assert(empty + key =~= key);
    let leaf_part = if levenshtein(key, query) <= max {
        seq![(key, levenshtein(key, query) as int)]
    } else {
        Seq::<(Seq<char>, int)>::empty()
    };
    assert(fuzzy_collect(child, key, 1, query, max) == Seq::<(Seq<char>, int)>::empty());
    assert(fuzzy_collect(child, key, 0, query, max) == leaf_part + fuzzy_collect(child, key, 1, query, max));
    assert(fuzzy_collect(child, key, 0, query, max) =~= leaf_part);
    assert(fuzzy_collect(b, empty, n + 1, query, max) == Seq::<(Seq<char>, int)>::empty());
    assert(fuzzy_collect(b, empty, n, query, max) == fuzzy_collect(child, empty + key, 0, query, max)
        + fuzzy_collect(b, empty, n + 1, query, max));
    assert(fuzzy_collect(b, empty, n, query, max) =~= leaf_part);
}

/// The value stored under `key` below the node with `slots`.
pub open spec fn lookup_in<T>(slots: Seq<Slot<T>>, key: Seq<char>) -> Option<T> {
    match find(slots, key) {
        Some(target) => leaf_of(target),
        None => None,
    }
}

/// The value stored under `key` below `node`.
pub open spec fn lookup<T>(node: Node<T>, key: Seq<char>) -> Option<T> {
    lookup_in(node.slots@, key)
}

/// The entries below `node` in traversal order, with keys prefixed by
/// `prefix`: the slots of every node are visited in reverse insertion order.
pub open spec fn node_entries<T>(node: Node<T>, prefix: Seq<char>) -> Seq<(Seq<char>, T)> {
    slots_entries(node, prefix, node.slots@.len() as int)
}

/// The entries below the first `count` slots of `node`, last slot first.
pub open spec fn slots_entries<T>(node: Node<T>, prefix: Seq<char>, count: int) -> Seq<
    (Seq<char>, T),
>
    decreases node, count,
{
    if 0 < count <= node.slots@.len() {
        let here = match node.slots@[count - 1] {
            Slot::Leaf(value) => seq![(prefix, value)],
            Slot::Child(edge, child) => slots_entries(
                child,
                prefix + edge@,
                child.slots@.len() as int,
            ),
        };
        here + slots_entries(node, prefix, count - 1)
    } else {
        Seq::empty()
    }
}

/// An edge slot that extends `rest`: `rest` is a prefix of its edge.
pub open spec fn slot_extends<T>(slot: Slot<T>, rest: Seq<char>) -> bool {
    match slot {
        Slot::Child(edge, _) => is_prefix(rest, edge@),
        Slot::Leaf(_) => false,
    }
}

pub open spec fn has_extension<T>(slots: Seq<Slot<T>>, rest: Seq<char>) -> bool {
    exists|i: int| 0 <= i < slots.len() && #[trigger] slot_extends(slots[i], rest)
}

pub open spec fn extension_for<T>(slots: Seq<Slot<T>>, rest: Seq<char>) -> int {
    choose|i: int| 0 <= i < slots.len() && #[trigger] slot_extends(slots[i], rest)
}

/// The entries below `node` whose keys (relative to `node`) start with
/// `rest`, in traversal order, with keys prefixed by `path`.
pub open spec fn prefix_walk<T>(node: Node<T>, path: Seq<char>, rest: Seq<char>) -> Seq<
    (Seq<char>, T),
>
    decreases rest.len(),
{
    if rest.len() == 0 {
        node_entries(node, path)
    } else if has_child_for(node.slots@, rest) {
        let slot = node.slots@[child_for(node.slots@, rest)];
        if 0 < slot->Child_0@.len() <= rest.len() {
            prefix_walk(
                slot->Child_1,
                path + slot->Child_0@,
                rest.skip(slot->Child_0@.len() as int),
            )
        } else {
            Seq::empty()
        }
    } else if has_extension(node.slots@, rest) {
        let slot = node.slots@[extension_for(node.slots@, rest)];
        node_entries(slot->Child_1, path + slot->Child_0@)
    } else {
        Seq::empty()
    }
}

/// The entries below the slots of `node` from position `start` on, visited
/// in forward insertion order at every node, that are within `max` edits of
/// `query`, each with its distance.
pub open spec fn fuzzy_collect<T>(
    node: Node<T>,
    prefix: Seq<char>,
    start: int,
    query: Seq<char>,
    max: int,
) -> Seq<(Seq<char>, int)>
    decreases node, node.slots@.len() - start,
{
    if 0 <= start < node.slots@.len() {
        let here = match node.slots@[start] {
            Slot::Leaf(_) => if levenshtein(prefix, query) <= max {
                seq![(prefix, levenshtein(prefix, query) as int)]
            } else {
                Seq::empty()
            },
            Slot::Child(edge, child) => fuzzy_collect(child, prefix + edge@, 0, query, max),
        };
        here + fuzzy_collect(node, prefix, start + 1, query, max)
    } else {
        Seq::empty()
    }
}

/// The map represented by the subtree below `node`.
pub open spec fn node_view<T>(node: Node<T>) -> Map<Seq<char>, T> {
    Map::new(|key: Seq<char>| lookup(node, key) is Some, |key: Seq<char>| lookup(node, key)->0)
}

/// Local well-formedness of a slot list: at most one leaf, non-empty edges,
/// and edges that start with pairwise distinct characters.
pub open spec fn slots_wf<T>(slots: Seq<Slot<T>>) -> bool {
    &&& forall|i: int, j: int|
        0 <= i < slots.len() && 0 <= j < slots.len() && (#[trigger] slots[i]) is Leaf
            && (#[trigger] slots[j]) is Leaf ==> i == j
    &&& forall|i: int|
        0 <= i < slots.len() && (#[trigger] slots[i]) is Child ==> slots[i]->Child_0@.len() > 0
    &&& forall|i: int, j: int|
        0 <= i < slots.len() && 0 <= j < slots.len() && i != j && (#[trigger] slots[i]) is Child
            && (#[trigger] slots[j]) is Child ==> slots[i]->Child_0@[0] != slots[j]->Child_0@[0]
}

pub open spec fn node_wf<T>(node: Node<T>) -> bool
    decreases node,
{
    &&& slots_wf(node.slots@)
    &&& forall|i: int|
        0 <= i < node.slots@.len() && (#[trigger] node.slots@[i]) is Child ==> node_wf(
            node.slots@[i]->Child_1,
        )
}

/// A node reached by an edge holds a value or has at least two edges.
pub open spec fn holds_enough<T>(node: Node<T>) -> bool {
    has_leaf(node.slots@) || node.slots@.len() >= 2
}

/// Below `node`, no node is a valueless pass-through or a dead end: every
/// node reached by an edge holds a value or branches.
pub open spec fn node_compact<T>(node: Node<T>) -> bool
    decreases node,
{
    forall|i: int|
        0 <= i < node.slots@.len() && (#[trigger] node.slots@[i]) is Child ==> {
            &&& holds_enough(node.slots@[i]->Child_1)
            &&& node_compact(node.slots@[i]->Child_1)
        }
}

/// `after` has at least as many slots as `before`, and a leaf if `before`
/// has one.
pub open spec fn grows<T>(before: Node<T>, after: Node<T>) -> bool {
    &&& after.slots@.len() >= before.slots@.len()
    &&& has_leaf(before.slots@) ==> has_leaf(after.slots@)
}

/// A one-slot list whose slot is an edge has one edge slot.
proof fn lemma_one_edge_count<T>(slots: Seq<Slot<T>>)
    requires
        slots.len() == 1,
        slots[0] is Child,
    ensures
        slots.filter(|slot: Slot<T>| slot is Child).len() == 1,
{
    reveal_with_fuel(Seq::filter, 2);
    assert(slots.drop_last() =~= Seq::<Slot<T>>::empty());
}

pub struct RadixTree<T> {
    root: Node<T>,
    len: usize,
}

impl<T> View for RadixTree<T> {
    type V = Map<Seq<char>, T>;

    /// The map from keys to values represented by the tree.
    closed spec fn view(&self) -> Map<Seq<char>, T> {
        node_view(self.root)
    }
}

impl<T> Node<T> {
    fn value(&self) -> (value: Option<&T>)
        requires
            slots_wf(self.slots@),
        ensures
            match value {
                Some(v) => leaf_value(*self) == Some(*v),
                None => leaf_value(*self) is None,
            },
    {
        let mut i: usize = 0;
        while i < self.slots.len()
            invariant
                slots_wf(self.slots@),
                i <= self.slots@.len(),
                forall|j: int| 0 <= j < i ==> !(#[trigger] self.slots@[j] is Leaf),
            decreases self.slots@.len() - i,
        {
            match &self.slots[i] {
                Slot::Leaf(v) => {
                    proof {
                        assert(self.slots@[i as int] is Leaf);
                        let k = leaf_pos(self.slots@);
                        assert(self.slots@[k] is Leaf);
                        assert(k == i);
                        assert(self.slots@[i as int] == Slot::Leaf(*v));
                    }
                    return Some(v);
                },
                Slot::Child(..) => {},
            }
            i = i + 1;
        }
        None
    }

    /// Position of the child edge that starts with `first`.
    fn child_position_by_first(&self, first: char) -> (position: Option<usize>)
        requires
            slots_wf(self.slots@),
        ensures
            match position {
                Some(i) => i < self.slots@.len() && self.slots@[i as int] is Child
                    && self.slots@[i as int]->Child_0@[0] == first,
                None => forall|j: int|
                    0 <= j < self.slots@.len() && (#[trigger] self.slots@[j]) is Child
                        ==> self.slots@[j]->Child_0@[0] != first,
            },
    {
        let mut i: usize = 0;
        while i < self.slots.len()
            invariant
                slots_wf(self.slots@),
                i <= self.slots@.len(),
                forall|j: int|
                    0 <= j < i && (#[trigger] self.slots@[j]) is Child
                        ==> self.slots@[j]->Child_0@[0] != first,
            decreases self.slots@.len() - i,
        {
            if let Slot::Child(edge, _) = &self.slots[i] {
                if edge[0] == first {
                    return Some(i);
                }
            }
            i = i + 1;
        }
        None
    }

    /// Number of edge slots.
    fn child_count(&self) -> (count: usize)
        ensures
            count == self.slots@.filter(|slot: Slot<T>| slot is Child).len(),
    {
        let mut count: usize = 0;
        let mut i: usize = 0;
        while i < self.slots.len()
            invariant
                i <= self.slots@.len(),
                count == self.slots@.take(i as int).filter(|slot: Slot<T>| slot is Child).len(),
                count <= i,
            decreases self.slots@.len() - i,
        {
            proof {
                reveal_with_fuel(Seq::filter, 1);
                assert(self.slots@.take(i + 1).drop_last() =~= self.slots@.take(i as int));
            }
            if let Slot::Child(..) = &self.slots[i] {
                count = count + 1;
            }
            i = i + 1;
        }
        assert(self.slots@.take(self.slots@.len() as int) =~= self.slots@);
        count
    }

    /// Position of the edge that `key[pos..]` is a prefix of.
    fn extension_position(&self, key: &Vec<char>, pos: usize) -> (position: Option<usize>)
        requires
            slots_wf(self.slots@),
            pos < key@.len(),
        ensures
            match position {
                Some(i) => has_extension(self.slots@, key@.skip(pos as int)) && i == extension_for(
                    self.slots@,
                    key@.skip(pos as int),
                ),
                None => !has_extension(self.slots@, key@.skip(pos as int)),
            },
    {
        let ghost rest = key@.skip(pos as int);
        let mut i: usize = 0;
        while i < self.slots.len()
            invariant
                slots_wf(self.slots@),
                i <= self.slots@.len(),
                pos < key@.len(),
                rest == key@.skip(pos as int),
                forall|j: int| 0 <= j < i ==> !slot_extends(#[trigger] self.slots@[j], rest),
            decreases self.slots@.len() - i,
        {
            if let Slot::Child(edge, _) = &self.slots[i] {
                if extends_at(key, pos, edge) {
                    proof {
                        assert(slot_extends(self.slots@[i as int], rest));
                        lemma_unique_extension(self.slots@, rest, extension_for(self.slots@, rest), i as int);
                    }
                    return Some(i);
                }
            }
            i = i + 1;
        }
        None
    }

    /// Mutable access to the node's own value (its leaf slot).
    fn value_mut(&mut self) -> (value: Option<&mut T>)
        requires
            node_wf(*old(self)),
        ensures
            node_wf(*final(self)),
            match value {
                Some(v) => leaf_value(*old(self)) == Some(*v),
                None => leaf_value(*old(self)) is None && *final(self) == *old(self),
            },
            forall|k: Seq<char>|
                #![trigger lookup(*final(self), k)]
                lookup(*final(self), k) == if value is Some && k.len() == 0 {
                    Some(*final(value->0))
                } else {
                    lookup(*old(self), k)
                },
            value is Some ==> final(self).slots@ == old(self).slots@.update(
                leaf_pos(old(self).slots@),
                Slot::Leaf(*final(value->0)),
            ),
    {
        let ghost final_node = *final(self);
        let ghost old_node = *self;
        let i = match self.leaf_position() {
            Some(i) => i,
            None => {
                return None;
            },
        };
        match &mut self.slots[i] {
            Slot::Leaf(v) => {
                let ghost final_value = *final(v);
                proof {
                    lemma_replace_leaf(old_node, final_node, i as int, final_value);
                    assert forall|j: int|
                        0 <= j < final_node.slots@.len() && (#[trigger] final_node.slots@[j]) is Child
                        implies node_wf(final_node.slots@[j]->Child_1) by {
                        assert(final_node.slots@[j] == old_node.slots@[j]);
                    }
                    assert forall|k: Seq<char>| #![trigger lookup(final_node, k)]
                        k.len() == 0 implies k == Seq::<char>::empty() by {
                        assert(k =~= Seq::<char>::empty());
                    }
                }
                Some(v)
            },
            Slot::Child(..) => None,
        }
    }

    /// Adds a leaf slot to a node that has none.
    fn push_leaf(&mut self, value: T)
        requires
            node_wf(*old(self)),
            leaf_value(*old(self)) is None,
        ensures
            node_wf(*final(self)),
            final(self).slots@ == old(self).slots@.push(Slot::Leaf(value)),
            forall|k: Seq<char>|
                #![trigger lookup(*final(self), k)]
                lookup(*final(self), k) == if k.len() == 0 {
                    Some(value)
                } else {
                    lookup(*old(self), k)
                },
    {
        let ghost old_node = *self;
        self.slots.push(Slot::Leaf(value));
        proof {
            let new = self.slots@;
            let last = old_node.slots@.len() as int;
            assert(slots_wf(new)) by {
                assert forall|a: int, b: int|
                    0 <= a < new.len() && 0 <= b < new.len() && (#[trigger] new[a]) is Leaf
                        && (#[trigger] new[b]) is Leaf implies a == b by {
                    if a < last {
                        assert(old_node.slots@[a] is Leaf);
                        assert(has_leaf(old_node.slots@));
                    }
                    if b < last {
                        assert(old_node.slots@[b] is Leaf);
                        assert(has_leaf(old_node.slots@));
                    }
                }
                assert forall|a: int, b: int|
                    0 <= a < new.len() && 0 <= b < new.len() && a != b && (#[trigger] new[a]) is Child
                        && (#[trigger] new[b]) is Child implies new[a]->Child_0@[0]
                    != new[b]->Child_0@[0] by {
                    assert(new[a] == old_node.slots@[a] && new[b] == old_node.slots@[b]);
                }
            }
            assert forall|j: int|
                0 <= j < new.len() && (#[trigger] new[j]) is Child implies node_wf(new[j]->Child_1) by {
                assert(new[j] == old_node.slots@[j]);
            }
            assert forall|k: Seq<char>| #![trigger lookup(*self, k)]
                lookup(*self, k) == if k.len() == 0 {
                    Some(value)
                } else {
                    lookup(old_node, k)
                } by {
                if k.len() == 0 {
                    lemma_lookup_leaf_at(new, last);
                    assert(k =~= Seq::<char>::empty());
                } else if exists|j: int| 0 <= j < old_node.slots@.len() && #[trigger] slot_matches(old_node.slots@[j], k) {
                    let j = choose|j: int| 0 <= j < old_node.slots@.len() && #[trigger] slot_matches(old_node.slots@[j], k);
                    assert(new[j] == old_node.slots@[j]);
                    lemma_lookup_at(old_node.slots@, k, j);
                    lemma_lookup_at(new, k, j);
                } else {
                    assert forall|j: int| 0 <= j < new.len() implies !slot_matches(#[trigger] new[j], k) by {
                        if j < last {
                            assert(new[j] == old_node.slots@[j]);
                        }
                    }
                    lemma_lookup_no_match(old_node.slots@, k);
                    lemma_lookup_no_match(new, k);
                }
            }
        }
    }

    /// Position of the leaf slot, if any.
    fn leaf_position(&self) -> (position: Option<usize>)
        requires
            slots_wf(self.slots@),
        ensures
            match position {
                Some(i) => has_leaf(self.slots@) && i == leaf_pos(self.slots@) && self.slots@[i as int] is Leaf,
                None => !has_leaf(self.slots@),
            },
    {
        let mut i: usize = 0;
        while i < self.slots.len()
            invariant
                slots_wf(self.slots@),
                i <= self.slots@.len(),
                forall|j: int| 0 <= j < i ==> !(#[trigger] self.slots@[j] is Leaf),
            decreases self.slots@.len() - i,
        {
            if let Slot::Leaf(_) = &self.slots[i] {
                proof {
                    assert(self.slots@[i as int] is Leaf);
                    let k = leaf_pos(self.slots@);
                    assert(self.slots@[k] is Leaf);
                }
                return Some(i);
            }
            i = i + 1;
        }
        None
    }

    /// Position of the child edge that is a prefix of `key[pos..]`.
    fn child_position(&self, key: &Vec<char>, pos: usize) -> (position: Option<usize>)
        requires
            slots_wf(self.slots@),
            pos < key@.len(),
        ensures
            match position {
                Some(i) => has_child_for(self.slots@, key@.skip(pos as int)) && i == child_for(
                    self.slots@,
                    key@.skip(pos as int),
                ),
                None => !has_child_for(self.slots@, key@.skip(pos as int)),
            },
    {
        let ghost rest = key@.skip(pos as int);
        let mut i: usize = 0;
        while i < self.slots.len()
            invariant
                slots_wf(self.slots@),
                i <= self.slots@.len(),
                pos < key@.len(),
                rest == key@.skip(pos as int),
                forall|j: int| 0 <= j < i ==> !slot_matches(#[trigger] self.slots@[j], rest),
            decreases self.slots@.len() - i,
        {
            match &self.slots[i] {
                Slot::Child(edge, _) => {
                    if starts_with_at(key, pos, edge) {
                        proof {
                            assert(slot_matches(self.slots@[i as int], rest));
                            assert(has_child_for(self.slots@, rest));
                            let k = child_for(self.slots@, rest);
                            assert(0 <= k < self.slots@.len() && slot_matches(self.slots@[k], rest));
                            let ek = self.slots@[k]->Child_0@;
                            let ei = self.slots@[i as int]->Child_0@;
                            assert(ek[0] == rest.take(ek.len() as int)[0]);
                            assert(ei[0] == rest.take(ei.len() as int)[0]);
                            assert(rest.take(ek.len() as int)[0] == rest[0]);
                            assert(rest.take(ei.len() as int)[0] == rest[0]);
                            assert(k == i);
                        }
                        return Some(i);
                    }
                },
                Slot::Leaf(_) => {},
            }
            i = i + 1;
        }
        None
    }
}

/// The abstract form of traversal output: keys as character sequences.
pub open spec fn entry_view<T>(entries: Seq<(String, &T)>) -> Seq<(Seq<char>, T)> {
    entries.map_values(|entry: (String, &T)| (entry.0@, *entry.1))
}

/// Depth-first traversal below `node`, appending `(key, value)` pairs with
/// keys prefixed by `key`, in reverse insertion order at every node.
fn dfs<'a, T>(node: &'a Node<T>, key: &mut Vec<char>, out: &mut Vec<(String, &'a T)>)
    requires
        node_wf(*node),
    ensures
        final(key)@ == old(key)@,
        entry_view(final(out)@) == entry_view(old(out)@) + node_entries(*node, old(key)@),
    decreases *node,
{
    let ghost prefix = key@;
    let mut count = node.slots.len();
    while count > 0
        invariant
            node_wf(*node),
            count <= node.slots@.len(),
            key@ == prefix,
            entry_view(out@) + slots_entries(*node, prefix, count as int) == entry_view(old(out)@)
                + node_entries(*node, prefix),
        decreases count,
    {
        let ghost before = out@;
        match &node.slots[count - 1] {
            Slot::Leaf(value) => {
                out.push((string_of(key), value));
                proof {
                    assert(entry_view(out@) =~= entry_view(before) + seq![(prefix, *value)]);
                }
            },
            Slot::Child(edge, child) => {
                let length = key.len();
                let mut j: usize = 0;
                while j < edge.len()
                    invariant
                        j <= edge@.len(),
                        length == prefix.len(),
                        key@ == prefix + edge@.take(j as int),
                    decreases edge@.len() - j,
                {
                    assert(edge@.take(j + 1) =~= edge@.take(j as int).push(edge@[j as int]));
                    key.push(edge[j]);
                    j = j + 1;
                }
                assert(edge@.take(edge@.len() as int) =~= edge@);
                proof {
                    assert(node_wf(*child));
                }
                dfs(child, key, out);
                key.truncate(length);
                assert(key@ =~= prefix);
            },
        }
        proof {
            assert(entry_view(out@) + slots_entries(*node, prefix, count - 1) =~= entry_view(before)
                + slots_entries(*node, prefix, count as int));
        }
        count = count - 1;
    }
    assert(entry_view(out@) =~= entry_view(out@) + slots_entries(*node, prefix, 0));
}

/// Mutable access to the child of an edge slot.
fn child_mut<T>(slot: &mut Slot<T>) -> (child: Option<&mut Node<T>>)
    ensures
        match child {
            Some(c) => {
                &&& *old(slot) is Child
                &&& *c == old(slot)->Child_1
                &&& *final(slot) == Slot::Child(old(slot)->Child_0, *final(c))
            },
            None => *old(slot) is Leaf && *final(slot) == *old(slot),
        },
{
    match slot {
        Slot::Child(_, child) => Some(child),
        Slot::Leaf(_) => None,
    }
}

/// The characters of `a` followed by those of `b`.
fn concat_chars(a: &Vec<char>, b: &Vec<char>) -> (joined: Vec<char>)
    ensures
        joined@ == a@ + b@,
{
    let mut joined = a.clone();
    let mut i: usize = 0;
    while i < b.len()
        invariant
            i <= b@.len(),
            joined@ == a@ + b@.take(i as int),
        decreases b@.len() - i,
    {
        assert(b@.take(i + 1) =~= b@.take(i as int).push(b@[i as int]));
        joined.push(b[i]);
        i = i + 1;
    }
    assert(b@.take(b@.len() as int) =~= b@);
    joined
}

/// The characters `chars[from..to]`.
fn slice_chars(chars: &Vec<char>, from: usize, to: usize) -> (part: Vec<char>)
    requires
        from <= to <= chars@.len(),
    ensures
        part@ == chars@.subrange(from as int, to as int),
{
    let mut part: Vec<char> = Vec::new();
    let mut i: usize = from;
    while i < to
        invariant
            from <= i <= to <= chars@.len(),
            part@ == chars@.subrange(from as int, i as int),
        decreases to - i,
    {
        part.push(chars[i]);
        i = i + 1;
    }
    part
}

/// Length of the longest common prefix of `key[pos..]` and `edge`, counted
/// in characters.
fn common_prefix_len(key: &Vec<char>, pos: usize, edge: &Vec<char>) -> (len: usize)
    requires
        pos <= key@.len(),
    ensures
        len <= edge@.len(),
        pos + len <= key@.len(),
        key@.skip(pos as int).take(len as int) == edge@.take(len as int),
        len < edge@.len() && pos + len < key@.len() ==> key@[pos + len] != edge@[len as int],
{
    let key_len = key.len();
    let mut len: usize = 0;
    while len < edge.len() && pos + len < key_len && key[pos + len] == edge[len]
        invariant
            key_len == key@.len(),
            pos <= key_len,
            len <= edge@.len(),
            pos + len <= key@.len(),
            key@.skip(pos as int).take(len as int) == edge@.take(len as int),
        decreases edge@.len() - len,
    {
        assert(key@.skip(pos as int).take(len + 1) =~= key@.skip(pos as int).take(len as int).push(
            key@[pos + len],
        ));
        assert(edge@.take(len + 1) =~= edge@.take(len as int).push(edge@[len as int]));
        len = len + 1;
    }
    len
}

/// Whether `key[pos..]` is a prefix of `edge`.
fn extends_at(key: &Vec<char>, pos: usize, edge: &Vec<char>) -> (r: bool)
    requires
        pos <= key@.len(),
    ensures
        r == is_prefix(key@.skip(pos as int), edge@),
{
    let key_len = key.len();
    if key_len - pos > edge.len() {
        return false;
    }
    let mut j: usize = 0;
    while pos + j < key_len
        invariant
            key_len == key@.len(),
            pos <= key_len,
            key_len - pos <= edge@.len(),
            forall|m: int| 0 <= m < j ==> edge@[m] == key@[pos + m],
            pos + j <= key_len,
        decreases key_len - pos - j,
    {
        if edge[j] != key[pos + j] {
            assert(edge@.take(key_len - pos)[j as int] != key@.skip(pos as int)[j as int]);
            return false;
        }
        j = j + 1;
    }
    assert(edge@.take(key_len - pos) =~= key@.skip(pos as int));
    true
}

/// Whether `edge` is a non-empty prefix of `key[pos..]`.
fn starts_with_at(key: &Vec<char>, pos: usize, edge: &Vec<char>) -> (r: bool)
    requires
        pos <= key@.len(),
    ensures
        r == (edge@.len() > 0 && is_prefix(edge@, key@.skip(pos as int))),
{
    if edge.len() == 0 || edge.len() > key.len() - pos {
        return false;
    }
    let key_len = key.len();
    let mut j: usize = 0;
    while j < edge.len()
        invariant
            key_len == key@.len(),
            j <= edge@.len(),
            pos + edge@.len() <= key@.len(),
            forall|m: int| 0 <= m < j ==> edge@[m] == key@[pos + m],
        decreases edge@.len() - j,
    {
        assert(pos + j < key@.len());
        if edge[j] != key[pos + j] {
            assert(key@.skip(pos as int).take(edge@.len() as int)[j as int] != edge@[j as int]);
            return false;
        }
        j = j + 1;
    }
    assert(key@.skip(pos as int).take(edge@.len() as int) =~= edge@);
    true
}

/// Replacing the subtree below one edge changes only the lookups that go
/// through that edge.
proof fn lemma_replace_child_in<T>(
    old: Seq<Slot<T>>,
    new: Seq<Slot<T>>,
    i: int,
    edge: Vec<char>,
    child: Node<T>,
)
    requires
        slots_wf(old),
        0 <= i < old.len(),
        old[i] is Child,
        edge@.len() > 0,
        edge@[0] == old[i]->Child_0@[0],
        new == old.update(i, Slot::Child(edge, child)),
    ensures
        slots_wf(new),
        forall|key: Seq<char>|
            #![trigger lookup_in(new, key)]
            lookup_in(new, key) == if is_prefix(edge@, key) {
                lookup_in(child.slots@, key.skip(edge@.len() as int))
            } else if slot_matches(old[i], key) {
                None
            } else {
                lookup_in(old, key)
            },
{
    assert(slots_wf(new)) by {
        assert forall|a: int, b: int|
            0 <= a < new.len() && 0 <= b < new.len() && a != b && (#[trigger] new[a]) is Child
                && (#[trigger] new[b]) is Child implies new[a]->Child_0@[0]
            != new[b]->Child_0@[0] by {
            if a != i && b != i {
                assert(new[a] == old[a] && new[b] == old[b]);
            } else if a == i {
                assert(new[b] == old[b]);
            } else {
                assert(new[a] == old[a]);
            }
        }
    }
    assert forall|key: Seq<char>|
        #![trigger lookup_in(new, key)]
        lookup_in(new, key) == if is_prefix(edge@, key) {
            lookup_in(child.slots@, key.skip(edge@.len() as int))
        } else if slot_matches(old[i], key) {
            None
        } else {
            lookup_in(old, key)
        } by {
        if is_prefix(edge@, key) {
            assert(slot_matches(new[i], key));
            lemma_lookup_at(new, key, i);
        } else if slot_matches(old[i], key) {
            assert(key[0] == old[i]->Child_0@[0]) by {
                assert(key.take(old[i]->Child_0@.len() as int)[0] == key[0]);
            }
            assert forall|j: int| 0 <= j < new.len() implies !slot_matches(#[trigger] new[j], key) by {
                if j != i && slot_matches(new[j], key) {
                    assert(new[j] == old[j]);
                    assert(new[j]->Child_0@[0] == key.take(new[j]->Child_0@.len() as int)[0]);
                }
            }
            lemma_lookup_no_match(new, key);
        } else if key.len() == 0 {
            if exists|j: int| 0 <= j < old.len() && (#[trigger] old[j]) is Leaf {
                let j = choose|j: int| 0 <= j < old.len() && (#[trigger] old[j]) is Leaf;
                lemma_lookup_leaf_at(old, j);
                lemma_lookup_leaf_at(new, j);
            } else {
                assert forall|j: int| 0 <= j < new.len() implies !(#[trigger] new[j] is Leaf) by {
                    assert(!(old[j] is Leaf));
                }
                lemma_lookup_no_leaf(old);
                lemma_lookup_no_leaf(new);
            }
        } else {
            if exists|j: int| 0 <= j < old.len() && #[trigger] slot_matches(old[j], key) {
                let j = choose|j: int| 0 <= j < old.len() && #[trigger] slot_matches(old[j], key);
                assert(new[j] == old[j]);
                lemma_lookup_at(old, key, j);
                lemma_lookup_at(new, key, j);
            } else {
                assert forall|j: int| 0 <= j < new.len() implies !slot_matches(#[trigger] new[j], key) by {
                    assert(!slot_matches(old[j], key));
                }
                lemma_lookup_no_match(old, key);
                lemma_lookup_no_match(new, key);
            }
        }
    }
}

proof fn lemma_replace_child<T>(old: Node<T>, new: Node<T>, i: int, child: Node<T>)
    requires
        slots_wf(old.slots@),
        0 <= i < old.slots@.len(),
        old.slots@[i] is Child,
        new.slots@ == old.slots@.update(i, Slot::Child(old.slots@[i]->Child_0, child)),
    ensures
        slots_wf(new.slots@),
        forall|key: Seq<char>|
            #![trigger lookup(new, key)]
            lookup(new, key) == if slot_matches(old.slots@[i], key) {
                lookup(child, key.skip(old.slots@[i]->Child_0@.len() as int))
            } else {
                lookup(old, key)
            },
{
    lemma_replace_child_in(old.slots@, new.slots@, i, old.slots@[i]->Child_0, child);
}

/// Appending an edge whose first character is new to a node changes only
/// the lookups that go through that edge.
proof fn lemma_push_child<T>(old: Seq<Slot<T>>, new: Seq<Slot<T>>, edge: Vec<char>, child: Node<T>)
    requires
        slots_wf(old),
        edge@.len() > 0,
        forall|j: int|
            0 <= j < old.len() && (#[trigger] old[j]) is Child ==> old[j]->Child_0@[0] != edge@[0],
        new == old.push(Slot::Child(edge, child)),
    ensures
        slots_wf(new),
        forall|key: Seq<char>|
            #![trigger lookup_in(new, key)]
            lookup_in(new, key) == if is_prefix(edge@, key) {
                lookup_in(child.slots@, key.skip(edge@.len() as int))
            } else {
                lookup_in(old, key)
            },
{
    let last = old.len() as int;
    assert(new[last] == Slot::Child(edge, child));
    assert forall|key: Seq<char>|
        #![trigger lookup_in(new, key)]
        lookup_in(new, key) == if is_prefix(edge@, key) {
            lookup_in(child.slots@, key.skip(edge@.len() as int))
        } else {
            lookup_in(old, key)
        } by {
        if is_prefix(edge@, key) {
            assert(slot_matches(new[last], key));
            lemma_lookup_at(new, key, last);
        } else if key.len() == 0 {
            if exists|j: int| 0 <= j < old.len() && (#[trigger] old[j]) is Leaf {
                let j = choose|j: int| 0 <= j < old.len() && (#[trigger] old[j]) is Leaf;
                lemma_lookup_leaf_at(old, j);
                lemma_lookup_leaf_at(new, j);
            } else {
                assert forall|j: int| 0 <= j < new.len() implies !(#[trigger] new[j] is Leaf) by {
                    if j < last {
                        assert(!(old[j] is Leaf));
                    }
                }
                lemma_lookup_no_leaf(old);
                lemma_lookup_no_leaf(new);
            }
        } else {
            if exists|j: int| 0 <= j < old.len() && #[trigger] slot_matches(old[j], key) {
                let j = choose|j: int| 0 <= j < old.len() && #[trigger] slot_matches(old[j], key);
                assert(new[j] == old[j]);
                lemma_lookup_at(old, key, j);
                lemma_lookup_at(new, key, j);
            } else {
                assert forall|j: int| 0 <= j < new.len() implies !slot_matches(#[trigger] new[j], key) by {
                    if j < last {
                        assert(!slot_matches(old[j], key));
                    }
                }
                lemma_lookup_no_match(old, key);
                lemma_lookup_no_match(new, key);
            }
        }
    }
}

/// Splitting an edge with an intermediate node, moved to the end of the
/// slot list, leaves every lookup unchanged.
proof fn lemma_split_edge<T>(
    old: Seq<Slot<T>>,
    new: Seq<Slot<T>>,
    i: int,
    common: int,
    head: Vec<char>,
    tail: Vec<char>,
    mid: Node<T>,
)
    requires
        slots_wf(old),
        0 <= i < old.len(),
        old[i] is Child,
        0 < common < old[i]->Child_0@.len(),
        head@ == old[i]->Child_0@.take(common),
        tail@ == old[i]->Child_0@.skip(common),
        mid.slots@ == seq![Slot::Child(tail, old[i]->Child_1)],
        new == old.remove(i).push(Slot::Child(head, mid)),
    ensures
        slots_wf(new),
        slots_wf(mid.slots@),
        node_wf(old[i]->Child_1) ==> node_wf(mid),
        forall|key: Seq<char>| #[trigger] lookup_in(new, key) == lookup_in(old, key),
{
    let edge = old[i]->Child_0@;
    let child = old[i]->Child_1;
    let upd = old.update(i, Slot::Child(head, mid));
    assert(head@[0] == edge[0]);
    lemma_replace_child_in(old, upd, i, head, mid);
    let last = new.len() - 1;
    assert forall|x: Slot<T>| #[trigger] new.contains(x) <==> upd.contains(x) by {
        if new.contains(x) {
            let j = choose|j: int| 0 <= j < new.len() && new[j] == x;
            if j == last {
                assert(upd[i] == x);
            } else if j < i {
                assert(upd[j] == x);
            } else {
                assert(upd[j + 1] == x);
            }
        }
        if upd.contains(x) {
            let j = choose|j: int| 0 <= j < upd.len() && upd[j] == x;
            if j == i {
                assert(new[last] == x);
            } else if j < i {
                assert(new[j] == x);
            } else {
                assert(new[j - 1] == x);
            }
        }
    }
    assert(slots_wf(new)) by {
        assert forall|a: int, b: int|
            0 <= a < new.len() && 0 <= b < new.len() && (#[trigger] new[a]) is Leaf
                && (#[trigger] new[b]) is Leaf implies a == b by {
            let fa = if a < i { a } else { a + 1 };
            let fb = if b < i { b } else { b + 1 };
            assert(old[fa] == new[a] && old[fb] == new[b]);
        }
        assert forall|a: int, b: int|
            0 <= a < new.len() && 0 <= b < new.len() && a != b && (#[trigger] new[a]) is Child
                && (#[trigger] new[b]) is Child implies new[a]->Child_0@[0]
            != new[b]->Child_0@[0] by {
            let fa = if a == last { i } else if a < i { a } else { a + 1 };
            let fb = if b == last { i } else if b < i { b } else { b + 1 };
            assert(upd[fa] == new[a] && upd[fb] == new[b]);
        }
    }
    assert(mid.slots@[0] == Slot::Child(tail, child));
    assert(slots_wf(mid.slots@));
    if node_wf(child) {
        assert(node_wf(mid));
    }
    lemma_same_slots(new, upd);
    assert forall|key: Seq<char>| #[trigger] lookup_in(new, key) == lookup_in(old, key) by {
        assert(lookup_in(new, key) == lookup_in(upd, key));
        if slot_matches(old[i], key) {
            assert(is_prefix(head@, key)) by {
                assert(key.take(common) =~= key.take(edge.len() as int).take(common));
            }
            assert(slot_matches(upd[i], key));
            lemma_lookup_at(upd, key, i);
            let rest = key.skip(common);
            assert(is_prefix(tail@, rest)) by {
                assert(rest.take(tail@.len() as int) =~= key.take(edge.len() as int).skip(common));
            }
            assert(slot_matches(mid.slots@[0], rest));
            lemma_lookup_at(mid.slots@, rest, 0);
            assert(rest.skip(tail@.len() as int) =~= key.skip(edge.len() as int));
            lemma_lookup_at(old, key, i);
        } else if slot_matches(upd[i], key) {
            lemma_lookup_at(upd, key, i);
            let rest = key.skip(common);
            if slot_matches(mid.slots@[0], rest) {
                assert(key.take(edge.len() as int) =~= head@ + rest.take(tail@.len() as int));
                assert(edge =~= head@ + tail@);
                assert(false);
            }
            if rest.len() == 0 {
                lemma_lookup_no_leaf(mid.slots@);
            } else {
                lemma_lookup_no_match(mid.slots@, rest);
            }
            assert(key[0] == edge[0]) by {
                assert(key.take(common)[0] == head@[0]);
            }
            assert forall|j: int| 0 <= j < old.len() implies !slot_matches(#[trigger] old[j], key) by {
                if j != i && slot_matches(old[j], key) {
                    assert(old[j]->Child_0@[0] == key.take(old[j]->Child_0@.len() as int)[0]);
                }
            }
            lemma_lookup_no_match(old, key);
        }
    }
}

/// Removing the leaf slot removes exactly the value of the empty key.
proof fn lemma_remove_leaf<T>(old: Node<T>, new: Node<T>, i: int)
    requires
        node_wf(old),
        0 <= i < old.slots@.len(),
        old.slots@[i] is Leaf,
        new.slots@ == old.slots@.remove(i),
    ensures
        node_wf(new),
        forall|key: Seq<char>|
            #![trigger lookup(new, key)]
            lookup(new, key) == if key.len() == 0 {
                None
            } else {
                lookup(old, key)
            },
{
    let o = old.slots@;
    let n = new.slots@;
    assert(slots_wf(n)) by {
        assert forall|a: int, b: int|
            0 <= a < n.len() && 0 <= b < n.len() && a != b && (#[trigger] n[a]) is Child
                && (#[trigger] n[b]) is Child implies n[a]->Child_0@[0] != n[b]->Child_0@[0] by {
            let fa = if a < i { a } else { a + 1 };
            let fb = if b < i { b } else { b + 1 };
            assert(o[fa] == n[a] && o[fb] == n[b]);
        }
        assert forall|a: int, b: int|
            0 <= a < n.len() && 0 <= b < n.len() && (#[trigger] n[a]) is Leaf
                && (#[trigger] n[b]) is Leaf implies a == b by {
            let fa = if a < i { a } else { a + 1 };
            let fb = if b < i { b } else { b + 1 };
            assert(o[fa] == n[a] && o[fb] == n[b]);
        }
    }
    assert forall|j: int| 0 <= j < n.len() && (#[trigger] n[j]) is Child implies node_wf(n[j]->Child_1) by {
        let fj = if j < i { j } else { j + 1 };
        assert(o[fj] == n[j]);
    }
    assert forall|key: Seq<char>|
        #![trigger lookup(new, key)]
        lookup(new, key) == if key.len() == 0 {
            None
        } else {
            lookup(old, key)
        } by {
        if key.len() == 0 {
            assert forall|j: int| 0 <= j < n.len() implies !(#[trigger] n[j] is Leaf) by {
                let fj = if j < i { j } else { j + 1 };
                assert(o[fj] == n[j]);
            }
            lemma_lookup_no_leaf(n);
        } else if exists|j: int| 0 <= j < n.len() && #[trigger] slot_matches(n[j], key) {
            let j = choose|j: int| 0 <= j < n.len() && #[trigger] slot_matches(n[j], key);
            let fj = if j < i { j } else { j + 1 };
            assert(o[fj] == n[j]);
            lemma_lookup_at(o, key, fj);
            lemma_lookup_at(n, key, j);
        } else {
            lemma_lookup_no_match(n, key);
            assert forall|j: int| 0 <= j < o.len() implies !slot_matches(#[trigger] o[j], key) by {
                if j < i {
                    assert(o[j] == n[j]);
                } else if j > i {
                    assert(o[j] == n[j - 1]);
                }
            }
            lemma_lookup_no_match(o, key);
        }
    }
}

/// A one-slot list with one edge slot holds an edge.
proof fn lemma_single_child<T>(slots: Seq<Slot<T>>)
    requires
        slots.len() == 1,
        slots.filter(|slot: Slot<T>| slot is Child).len() == 1,
    ensures
        slots[0] is Child,
{
    reveal_with_fuel(Seq::filter, 2);
    assert(slots.drop_last() =~= Seq::<Slot<T>>::empty());
}

/// Merging a valueless node with a single edge into its parent edge, moved
/// to the end of the slot list, leaves every lookup unchanged.
proof fn lemma_merge_edge<T>(
    old: Seq<Slot<T>>,
    new: Seq<Slot<T>>,
    i: int,
    edge: Vec<char>,
    sub_edge: Vec<char>,
    collapsed: Node<T>,
)
    requires
        slots_wf(old),
        0 <= i < old.len(),
        old[i] == Slot::Child(edge, collapsed),
        node_wf(collapsed),
        collapsed.slots@.len() == 1,
        collapsed.slots@[0] is Child,
        collapsed.slots@[0]->Child_0 == sub_edge,
        new.len() == old.len(),
        new.drop_last() == old.remove(i),
        new.last() is Child,
        new.last()->Child_0@ == edge@ + sub_edge@,
        new.last()->Child_1 == collapsed.slots@[0]->Child_1,
    ensures
        slots_wf(new),
        forall|key: Seq<char>| #[trigger] lookup_in(new, key) == lookup_in(old, key),
{
    let last = new.len() - 1;
    let merged = new.last()->Child_0;
    let sub_node = collapsed.slots@[0]->Child_1;
    assert(edge@.len() > 0);
    assert(sub_edge@.len() > 0);
    assert(merged@[0] == edge@[0]);
    assert(new =~= old.remove(i).push(new.last()));
    assert(slots_wf(new)) by {
        assert forall|a: int, b: int|
            0 <= a < new.len() && 0 <= b < new.len() && (#[trigger] new[a]) is Leaf
                && (#[trigger] new[b]) is Leaf implies a == b by {
            let fa = if a < i { a } else { a + 1 };
            let fb = if b < i { b } else { b + 1 };
            assert(old[fa] == new[a] && old[fb] == new[b]);
        }
        assert forall|a: int, b: int|
            0 <= a < new.len() && 0 <= b < new.len() && a != b && (#[trigger] new[a]) is Child
                && (#[trigger] new[b]) is Child implies new[a]->Child_0@[0]
            != new[b]->Child_0@[0] by {
            let fa = if a == last { i } else if a < i { a } else { a + 1 };
            let fb = if b == last { i } else if b < i { b } else { b + 1 };
            assert(a != last ==> old[fa] == new[a]);
            assert(b != last ==> old[fb] == new[b]);
        }
    }
    let split = new.remove(last).push(Slot::Child(edge, collapsed));
    assert(collapsed.slots@ =~= seq![Slot::Child(sub_edge, new[last]->Child_1)]);
    assert(edge@ =~= merged@.take(edge@.len() as int));
    assert(sub_edge@ =~= merged@.skip(edge@.len() as int));
    lemma_split_edge(new, split, last, edge@.len() as int, edge, sub_edge, collapsed);
    assert forall|x: Slot<T>| #[trigger] split.contains(x) <==> old.contains(x) by {
        if split.contains(x) {
            let j = choose|j: int| 0 <= j < split.len() && split[j] == x;
            if j == last {
                assert(old[i] == x);
            } else if j < i {
                assert(old[j] == x);
            } else {
                assert(old[j + 1] == x);
            }
        }
        if old.contains(x) {
            let j = choose|j: int| 0 <= j < old.len() && old[j] == x;
            if j == i {
                assert(split[last] == x);
            } else if j < i {
                assert(split[j] == x);
            } else {
                assert(split[j - 1] == x);
            }
        }
    }
    lemma_same_slots(split, old);
    assert forall|key: Seq<char>| #[trigger] lookup_in(new, key) == lookup_in(old, key) by {
        assert(lookup_in(split, key) == lookup_in(new, key));
        assert(lookup_in(split, key) == lookup_in(old, key));
    }
}

/// Removing an edge whose subtree holds nothing leaves every lookup unchanged.
proof fn lemma_remove_empty_child<T>(old: Seq<Slot<T>>, new: Seq<Slot<T>>, i: int)
    requires
        slots_wf(old),
        0 <= i < old.len(),
        old[i] is Child,
        forall|k: Seq<char>| #[trigger] lookup_in(old[i]->Child_1.slots@, k) is None,
        new == old.remove(i),
    ensures
        slots_wf(new),
        forall|key: Seq<char>| #[trigger] lookup_in(new, key) == lookup_in(old, key),
{
    assert(slots_wf(new)) by {
        assert forall|a: int, b: int|
            0 <= a < new.len() && 0 <= b < new.len() && (#[trigger] new[a]) is Leaf
                && (#[trigger] new[b]) is Leaf implies a == b by {
            let fa = if a < i { a } else { a + 1 };
            let fb = if b < i { b } else { b + 1 };
            assert(old[fa] == new[a] && old[fb] == new[b]);
        }
        assert forall|a: int, b: int|
            0 <= a < new.len() && 0 <= b < new.len() && a != b && (#[trigger] new[a]) is Child
                && (#[trigger] new[b]) is Child implies new[a]->Child_0@[0]
            != new[b]->Child_0@[0] by {
            let fa = if a < i { a } else { a + 1 };
            let fb = if b < i { b } else { b + 1 };
            assert(old[fa] == new[a] && old[fb] == new[b]);
        }
    }
    assert forall|key: Seq<char>| #[trigger] lookup_in(new, key) == lookup_in(old, key) by {
        if key.len() == 0 {
            if exists|j: int| 0 <= j < new.len() && (#[trigger] new[j]) is Leaf {
                let j = choose|j: int| 0 <= j < new.len() && (#[trigger] new[j]) is Leaf;
                let fj = if j < i { j } else { j + 1 };
                assert(old[fj] == new[j]);
                lemma_lookup_leaf_at(old, fj);
                lemma_lookup_leaf_at(new, j);
            } else {
                assert forall|j: int| 0 <= j < old.len() implies !(#[trigger] old[j] is Leaf) by {
                    if j < i {
                        assert(old[j] == new[j]);
                    } else if j > i {
                        assert(old[j] == new[j - 1]);
                    }
                }
                lemma_lookup_no_leaf(old);
                lemma_lookup_no_leaf(new);
            }
        } else if exists|j: int| 0 <= j < new.len() && #[trigger] slot_matches(new[j], key) {
            let j = choose|j: int| 0 <= j < new.len() && #[trigger] slot_matches(new[j], key);
            let fj = if j < i { j } else { j + 1 };
            assert(old[fj] == new[j]);
            lemma_lookup_at(old, key, fj);
            lemma_lookup_at(new, key, j);
        } else {
            lemma_lookup_no_match(new, key);
            if slot_matches(old[i], key) {
                lemma_lookup_at(old, key, i);
            } else {
                assert forall|j: int| 0 <= j < old.len() implies !slot_matches(#[trigger] old[j], key) by {
                    if j < i {
                        assert(old[j] == new[j]);
                    } else if j > i {
                        assert(old[j] == new[j - 1]);
                    }
                }
                lemma_lookup_no_match(old, key);
            }
        }
    }
}

/// Replacing the leaf value of a node changes only the lookup of the empty key.
proof fn lemma_replace_leaf<T>(old: Node<T>, new: Node<T>, i: int, value: T)
    requires
        slots_wf(old.slots@),
        0 <= i < old.slots@.len(),
        old.slots@[i] is Leaf,
        new.slots@ == old.slots@.update(i, Slot::Leaf(value)),
    ensures
        slots_wf(new.slots@),
        forall|key: Seq<char>|
            #![trigger lookup(new, key)]
            lookup(new, key) == if key.len() == 0 {
                Some(value)
            } else {
                lookup(old, key)
            },
{
    assert forall|key: Seq<char>|
        #![trigger lookup(new, key)]
        lookup(new, key) == if key.len() == 0 {
            Some(value)
        } else {
            lookup(old, key)
        } by {
        if key.len() == 0 {
            assert(new.slots@[i] is Leaf);
            let k = leaf_pos(new.slots@);
            assert(new.slots@[k] is Leaf);
            assert(old.slots@[k] is Leaf);
        } else {
            assert(has_child_for(old.slots@, key) == has_child_for(new.slots@, key)) by {
                if has_child_for(old.slots@, key) {
                    let k = child_for(old.slots@, key);
                    assert(slot_matches(new.slots@[k], key));
                }
                if has_child_for(new.slots@, key) {
                    let k = child_for(new.slots@, key);
                    assert(slot_matches(old.slots@[k], key));
                }
            }
            if has_child_for(old.slots@, key) {
                let k1 = child_for(old.slots@, key);
                let k2 = child_for(new.slots@, key);
                assert(slot_matches(old.slots@[k2], key));
                lemma_unique_match(old.slots@, key, k1, k2);
            }
        }
    }
}

/// In a well-formed slot list, at most one edge is a prefix of a key.
proof fn lemma_unique_match<T>(slots: Seq<Slot<T>>, key: Seq<char>, i: int, j: int)
    requires
        slots_wf(slots),
        0 <= i < slots.len(),
        0 <= j < slots.len(),
        slot_matches(slots[i], key),
        slot_matches(slots[j], key),
    ensures
        i == j,
{
    let ei = slots[i]->Child_0@;
    let ej = slots[j]->Child_0@;
    assert(ei[0] == key.take(ei.len() as int)[0]);
    assert(ej[0] == key.take(ej.len() as int)[0]);
}

/// Lookup through a matching edge continues in that edge's child.
proof fn lemma_lookup_at<T>(slots: Seq<Slot<T>>, key: Seq<char>, i: int)
    requires
        slots_wf(slots),
        0 <= i < slots.len(),
        slot_matches(slots[i], key),
    ensures
        lookup_in(slots, key) == lookup_in(
            slots[i]->Child_1.slots@,
            key.skip(slots[i]->Child_0@.len() as int),
        ),
        key.len() > 0,
{
    assert(has_child_for(slots, key));
    lemma_unique_match(slots, key, child_for(slots, key), i);
}

/// A non-empty key that matches no edge has no value.
proof fn lemma_lookup_no_match<T>(slots: Seq<Slot<T>>, key: Seq<char>)
    requires
        key.len() > 0,
        forall|i: int| 0 <= i < slots.len() ==> !slot_matches(#[trigger] slots[i], key),
    ensures
        lookup_in(slots, key) is None,
{
}

/// The empty key reads the leaf slot.
proof fn lemma_lookup_leaf_at<T>(slots: Seq<Slot<T>>, i: int)
    requires
        slots_wf(slots),
        0 <= i < slots.len(),
        slots[i] is Leaf,
    ensures
        lookup_in(slots, Seq::<char>::empty()) == Some(slots[i]->Leaf_0),
{
    assert(has_leaf(slots));
    assert(slots[leaf_pos(slots)] is Leaf);
}

/// Without a leaf slot the empty key has no value.
proof fn lemma_lookup_no_leaf<T>(slots: Seq<Slot<T>>)
    requires
        forall|i: int| 0 <= i < slots.len() ==> !(#[trigger] slots[i] is Leaf),
    ensures
        lookup_in(slots, Seq::<char>::empty()) is None,
{
}

/// Lookups depend on the slots of a node, not on their order.
proof fn lemma_same_slots<T>(a: Seq<Slot<T>>, b: Seq<Slot<T>>)
    requires
        slots_wf(a),
        slots_wf(b),
        forall|x: Slot<T>| #[trigger] a.contains(x) <==> b.contains(x),
    ensures
        forall|key: Seq<char>| #[trigger] lookup_in(a, key) == lookup_in(b, key),
{
    assert forall|key: Seq<char>| #[trigger] lookup_in(a, key) == lookup_in(b, key) by {
        if key.len() == 0 {
            if exists|i: int| 0 <= i < a.len() && (#[trigger] a[i]) is Leaf {
                let i = choose|i: int| 0 <= i < a.len() && (#[trigger] a[i]) is Leaf;
                assert(a.contains(a[i]));
                assert(b.contains(a[i]));
                let j = choose|j: int| 0 <= j < b.len() && b[j] == a[i];
                lemma_lookup_leaf_at(a, i);
                lemma_lookup_leaf_at(b, j);
                assert(key =~= Seq::<char>::empty());
            } else {
                assert forall|j: int| 0 <= j < b.len() implies !(#[trigger] b[j] is Leaf) by {
                    assert(b.contains(b[j]));
                    assert(a.contains(b[j]));
                }
                lemma_lookup_no_leaf(a);
                lemma_lookup_no_leaf(b);
                assert(key =~= Seq::<char>::empty());
            }
        } else {
            if exists|i: int| 0 <= i < a.len() && #[trigger] slot_matches(a[i], key) {
                let i = choose|i: int| 0 <= i < a.len() && #[trigger] slot_matches(a[i], key);
                assert(a.contains(a[i]));
                assert(b.contains(a[i]));
                let j = choose|j: int| 0 <= j < b.len() && b[j] == a[i];
                lemma_lookup_at(a, key, i);
                lemma_lookup_at(b, key, j);
            } else {
                assert forall|j: int| 0 <= j < b.len() implies !slot_matches(#[trigger] b[j], key) by {
                    assert(b.contains(b[j]));
                    assert(a.contains(b[j]));
                }
                lemma_lookup_no_match(a, key);
                lemma_lookup_no_match(b, key);
            }
        }
    }
}

/// In a well-formed slot list, at most one edge extends a non-empty key.
proof fn lemma_unique_extension<T>(slots: Seq<Slot<T>>, rest: Seq<char>, i: int, j: int)
    requires
        slots_wf(slots),
        rest.len() > 0,
        0 <= i < slots.len(),
        0 <= j < slots.len(),
        slot_extends(slots[i], rest),
        slot_extends(slots[j], rest),
    ensures
        i == j,
{
    let ei = slots[i]->Child_0@;
    let ej = slots[j]->Child_0@;
    assert(ei[0] == ei.take(rest.len() as int)[0]);
    assert(ej[0] == ej.take(rest.len() as int)[0]);
}

/// Two keys that share a prefix and agree after it are equal.
proof fn lemma_prefix_skip_eq(edge: Seq<char>, a: Seq<char>, b: Seq<char>)
    requires
        is_prefix(edge, a),
        is_prefix(edge, b),
        a.skip(edge.len() as int) == b.skip(edge.len() as int),
    ensures
        a == b,
{
    assert(a =~= a.take(edge.len() as int) + a.skip(edge.len() as int));
    assert(b =~= b.take(edge.len() as int) + b.skip(edge.len() as int));
}

/// Mutable access to the value stored under `key[pos..]` below `node`.
fn node_get_mut<'a, T>(node: &'a mut Node<T>, key: &Vec<char>, pos: usize) -> (value: Option<&'a mut T>)
    requires
        node_wf(*old(node)),
        pos <= key@.len(),
    ensures
        node_wf(*final(node)),
        match value {
            Some(v) => lookup(*old(node), key@.skip(pos as int)) == Some(*v),
            None => lookup(*old(node), key@.skip(pos as int)) is None,
        },
        forall|k: Seq<char>|
            #![trigger lookup(*final(node), k)]
            lookup(*final(node), k) == if value is Some && k == key@.skip(pos as int) {
                Some(*final(value->0))
            } else {
                lookup(*old(node), k)
            },
        node_compact(*old(node)) ==> node_compact(*final(node)),
        grows(*old(node), *final(node)),
        forall|p: Seq<char>|
            #[trigger] entry_keys(node_entries(*final(node), p)) == entry_keys(
                node_entries(*old(node), p),
            ),
    decreases key@.len() - pos,
{
    let ghost final_node = *final(node);
    let ghost old_node = *node;
    if pos == key.len() {
        proof {
            assert(key@.skip(pos as int) =~= Seq::<char>::empty());
        }
        let value = node.value_mut();
        proof {
            if value is Some {
                let l = leaf_pos(old_node.slots@);
                assert(old_node.slots@[l] is Leaf);
                assert(final_node.slots@[l] is Leaf);
                if node_compact(old_node) {
                    lemma_compact_same_edges(old_node, final_node);
                }
                assert forall|p: Seq<char>| #[trigger] entry_keys(node_entries(final_node, p))
                    == entry_keys(node_entries(old_node, p)) by {
                    assert(entry_keys(slot_chunk(final_node, p, l)) =~= seq![p]);
                    assert(entry_keys(slot_chunk(old_node, p, l)) =~= seq![p]);
                    lemma_keys_same(old_node, final_node, p, old_node.slots@.len() as int, l);
                }
            }
            assert forall|k: Seq<char>| #![trigger lookup(final_node, k)]
                (k == key@.skip(pos as int)) == (k.len() == 0) by {
                if k.len() == 0 {
                    assert(k =~= key@.skip(pos as int));
                }
            }
        }
        return value;
    }
    let position = match node.child_position(key, pos) {
        Some(position) => position,
        None => {
            return None;
        },
    };
    match &mut node.slots[position] {
        Slot::Child(edge, child) => {
            let next = pos + edge.len();
            let ghost old_child = *child;
            let ghost final_child = *final(child);
            let ghost edge_chars = edge@;
            let ghost rest = key@.skip(pos as int);
            proof {
                assert(rest.skip(edge@.len() as int) =~= key@.skip(next as int));
            }
            let found = node_get_mut(child, key, next);
            proof {
                lemma_replace_child(old_node, final_node, position as int, final_child);
                {
                    assert forall|j: int|
                        0 <= j < final_node.slots@.len() && (#[trigger] final_node.slots@[j]) is Child
                        implies node_wf(final_node.slots@[j]->Child_1) by {
                        if j != position {
                            assert(final_node.slots@[j] == old_node.slots@[j]);
                        }
                    }
                    assert forall|k: Seq<char>| #![trigger lookup(final_node, k)]
                        k != rest implies lookup(final_node, k) == lookup(old_node, k) by {
                        if slot_matches(old_node.slots@[position as int], k) {
                            if k.skip(edge_chars.len() as int) == key@.skip(next as int) {
                                lemma_prefix_skip_eq(edge_chars, k, rest);
                            }
                            assert(has_child_for(old_node.slots@, k));
                            lemma_unique_match(old_node.slots@, k, child_for(old_node.slots@, k), position as int);
                            assert(lookup(old_node, k) == lookup(old_child, k.skip(edge_chars.len() as int)));
                        }
                    }
                    assert(lookup(final_node, rest) == lookup(final_child, key@.skip(next as int)));
                    assert(lookup(old_node, rest) == lookup(old_child, key@.skip(next as int)));
                }
                if has_leaf(old_node.slots@) {
                    let l = leaf_pos(old_node.slots@);
                    assert(old_node.slots@[l] is Leaf);
                    assert(final_node.slots@[l] == old_node.slots@[l]);
                }
                if node_compact(old_node) {
                    assert(old_node.slots@[position as int] is Child);
                    lemma_compact_replace(old_node, final_node, position as int, final_child);
                }
                assert forall|p: Seq<char>| #[trigger] entry_keys(node_entries(final_node, p))
                    == entry_keys(node_entries(old_node, p)) by {
                    assert(entry_keys(node_entries(final_child, p + edge_chars)) == entry_keys(
                        node_entries(old_child, p + edge_chars),
                    ));
                    assert(forall|j: int| 0 <= j < old_node.slots@.len() && j != position ==> final_node.slots@[j] == old_node.slots@[j]);
                    lemma_keys_same(old_node, final_node, p, old_node.slots@.len() as int, position as int);
                }
            }
            found
        },
        Slot::Leaf(_) => None,
    }
}

/// A node whose edge child was replaced by a well-formed node is well formed.
proof fn lemma_wf_after_replace<T>(old: Node<T>, new: Node<T>, i: int, child: Node<T>)
    requires
        node_wf(old),
        slots_wf(new.slots@),
        0 <= i < old.slots@.len(),
        new.slots@ == old.slots@.update(i, Slot::Child(old.slots@[i]->Child_0, child)),
    ensures
        node_wf(child) ==> node_wf(new),
{
    if node_wf(child) {
        assert forall|j: int|
            0 <= j < new.slots@.len() && (#[trigger] new.slots@[j]) is Child implies node_wf(
            new.slots@[j]->Child_1,
        ) by {
            if j != i {
                assert(new.slots@[j] == old.slots@[j]);
            }
        }
    }
}

/// A node with an appended well-formed edge child is well formed.
proof fn lemma_wf_after_push<T>(old: Node<T>, new: Node<T>, child: Node<T>)
    requires
        node_wf(old),
        slots_wf(new.slots@),
        new.slots@.len() == old.slots@.len() + 1,
        new.slots@.last() is Child,
        new.slots@.last()->Child_1 == child,
        forall|j: int| 0 <= j < old.slots@.len() ==> new.slots@[j] == old.slots@[j],
    ensures
        node_wf(child) ==> node_wf(new),
{
    if node_wf(child) {
        assert forall|j: int|
            0 <= j < new.slots@.len() && (#[trigger] new.slots@[j]) is Child implies node_wf(
            new.slots@[j]->Child_1,
        ) by {
            if j < old.slots@.len() {
                assert(new.slots@[j] == old.slots@[j]);
            }
        }
    }
}

/// A slot list change that keeps every edge slot where it was, and adds or
/// changes only leaves, keeps a compact node compact.
proof fn lemma_compact_same_edges<T>(old: Node<T>, new: Node<T>)
    requires
        node_compact(old),
        forall|j: int|
            0 <= j < new.slots@.len() && (#[trigger] new.slots@[j]) is Child ==> j
                < old.slots@.len() && new.slots@[j] == old.slots@[j],
    ensures
        node_compact(new),
{
    assert forall|j: int| 0 <= j < new.slots@.len() && (#[trigger] new.slots@[j]) is Child implies {
        &&& holds_enough(new.slots@[j]->Child_1)
        &&& node_compact(new.slots@[j]->Child_1)
    } by {
        assert(old.slots@[j] is Child);
    }
}

/// Replacing one edge's subtree by a compact subtree that holds enough keeps
/// a compact node compact.
proof fn lemma_compact_replace<T>(old: Node<T>, new: Node<T>, i: int, child: Node<T>)
    requires
        node_compact(old),
        0 <= i < old.slots@.len(),
        old.slots@[i] is Child,
        new.slots@ == old.slots@.update(i, Slot::Child(old.slots@[i]->Child_0, child)),
        holds_enough(child),
        node_compact(child),
    ensures
        node_compact(new),
{
    assert forall|j: int| 0 <= j < new.slots@.len() && (#[trigger] new.slots@[j]) is Child implies {
        &&& holds_enough(new.slots@[j]->Child_1)
        &&& node_compact(new.slots@[j]->Child_1)
    } by {
        if j != i {
            assert(new.slots@[j] == old.slots@[j]);
        }
    }
}

/// Removes the value stored under `key[pos..]` below `node`, dropping edges
/// to subtrees left empty and merging a valueless node that is left with a
/// single edge into its parent edge. Returns whether a value was removed.
fn remove_rec<T>(node: &mut Node<T>, key: &Vec<char>, pos: usize, Ghost(path): Ghost<Seq<char>>) -> (removed: bool)
    requires
        node_wf(*old(node)),
        pos <= key@.len(),
    ensures
        node_wf(*final(node)),
        removed == lookup(*old(node), key@.skip(pos as int)) is Some,
        forall|k: Seq<char>|
            #![trigger lookup(*final(node), k)]
            lookup(*final(node), k) == if k == key@.skip(pos as int) {
                None
            } else {
                lookup(*old(node), k)
            },
        node_compact(*old(node)) ==> node_compact(*final(node)),
        !removed ==> grows(*old(node), *final(node)),
        node_compact(*old(node)) ==> entry_keys(node_entries(*final(node), path)) == keys_after_remove(
            entry_keys(node_entries(*old(node), path)),
            path,
            path + key@.skip(pos as int),
        ),
    decreases key@.len() - pos,
{
    let ghost old_node = *node;
    let ghost rest = key@.skip(pos as int);
    proof {
        lemma_contains_lookup(old_node, path, rest);
    }
    if pos == key.len() {
        proof {
            assert(rest =~= Seq::<char>::empty());
        }
        match node.leaf_position() {
            None => {
                return false;
            },
            Some(i) => {
                node.slots.remove(i);
                proof {
                    assert(path + rest =~= path);
                    lemma_keys_remove_leaf(old_node, *node, path, old_node.slots@.len() as int, i as int);
                    lemma_lookup_leaf_at(old_node.slots@, i as int);
                    lemma_remove_leaf(old_node, *node, i as int);
                    if node_compact(old_node) {
                        assert forall|j: int|
                            0 <= j < node.slots@.len() && (#[trigger] node.slots@[j]) is Child implies {
                            &&& holds_enough(node.slots@[j]->Child_1)
                            &&& node_compact(node.slots@[j]->Child_1)
                        } by {
                            let fj = if j < i { j } else { j + 1 };
                            assert(old_node.slots@[fj] == node.slots@[j]);
                        }
                    }
                }
                return true;
            },
        }
    }
    let position = match node.child_position(key, pos) {
        Some(position) => position,
        None => {
            proof {
                assert forall|k: Seq<char>| #![trigger lookup(*node, k)] k == rest implies lookup(*node, k) is None by {
                    lemma_lookup_no_match(old_node.slots@, rest);
                }
            }
            return false;
        },
    };
    let ghost edge = old_node.slots@[position as int]->Child_0;
    let ghost old_child = old_node.slots@[position as int]->Child_1;
    let edge_len = match &node.slots[position] {
        Slot::Child(edge, _) => edge.len(),
        Slot::Leaf(_) => 0,
    };
    let key_len = key.len();
    proof {
        assert(edge_len == edge@.len());
        assert(pos + edge_len <= key_len);
        assert(rest.skip(edge@.len() as int) =~= key@.skip(pos + edge_len));
        lemma_lookup_at(old_node.slots@, rest, position as int);
    }
    let next = pos + edge_len;
    let removed = match child_mut(&mut node.slots[position]) {
        Some(child) => remove_rec(child, key, next, Ghost(path + edge@)),
        None => false,
    };
    let ghost updated = *node;
    proof {
        let new_child = updated.slots@[position as int]->Child_1;
        assert(updated.slots@ == old_node.slots@.update(position as int, Slot::Child(edge, new_child)));
        assert((path + edge@) + key@.skip(next as int) =~= path + rest) by {
            assert(rest =~= rest.take(edge@.len() as int) + key@.skip(next as int));
        }
        if has_leaf(old_node.slots@) {
            let l = leaf_pos(old_node.slots@);
            assert(old_node.slots@[l] is Leaf);
            assert(updated.slots@[l] == old_node.slots@[l]);
        }
        if node_compact(old_node) {
            assert(old_node.slots@[position as int] is Child);
            assert(node_compact(old_child) && holds_enough(old_child));
        }
        lemma_replace_child(old_node, updated, position as int, new_child);
        lemma_wf_after_replace(old_node, updated, position as int, new_child);
        assert forall|k: Seq<char>| #![trigger lookup(updated, k)]
            lookup(updated, k) == if k == rest { None } else { lookup(old_node, k) } by {
            if slot_matches(old_node.slots@[position as int], k) {
                lemma_lookup_at(old_node.slots@, k, position as int);
                if k != rest && k.skip(edge@.len() as int) == key@.skip(next as int) {
                    lemma_prefix_skip_eq(edge@, k, rest);
                }
            }
        }
    }
    if !removed {
        proof {
            let new_child = updated.slots@[position as int]->Child_1;
            if node_compact(old_node) {
                lemma_compact_replace(old_node, updated, position as int, new_child);
                lemma_contains_lookup(old_child, path + edge@, key@.skip(next as int));
                assert(forall|j: int| 0 <= j < old_node.slots@.len() && j != position ==> updated.slots@[j] == old_node.slots@[j]);
                lemma_keys_same(old_node, updated, path, old_node.slots@.len() as int, position as int);
            }
        }
    }
    if removed {
        let (no_value, empty, single) = match &node.slots[position] {
            Slot::Child(_, child) => (
                child.value().is_none(),
                child.slots.len() == 0,
                child.child_count() == 1 && child.slots.len() == 1,
            ),
            Slot::Leaf(_) => (false, false, false),
        };
        if no_value {
            if empty {
                node.slots.remove(position);
                proof {
                    let c = updated.slots@[position as int]->Child_1;
                    assert forall|k: Seq<char>| #[trigger] lookup_in(c.slots@, k) is None by {
                        if k.len() == 0 {
                            lemma_lookup_no_leaf(c.slots@);
                        } else {
                            lemma_lookup_no_match(c.slots@, k);
                        }
                    }
                    lemma_remove_empty_child(updated.slots@, node.slots@, position as int);
                    assert forall|j: int|
                        0 <= j < node.slots@.len() && (#[trigger] node.slots@[j]) is Child
                        implies node_wf(node.slots@[j]->Child_1) by {
                        if j < position {
                            assert(node.slots@[j] == updated.slots@[j]);
                        } else {
                            assert(node.slots@[j] == updated.slots@[j + 1]);
                        }
                    }
                    if node_compact(old_node) {
                        assert forall|j: int|
                            0 <= j < node.slots@.len() && (#[trigger] node.slots@[j]) is Child implies {
                            &&& holds_enough(node.slots@[j]->Child_1)
                            &&& node_compact(node.slots@[j]->Child_1)
                        } by {
                            let fj = if j < position { j } else { j + 1 };
                            assert(node.slots@[j] == updated.slots@[fj]);
                            assert(updated.slots@[fj] == old_node.slots@[fj]);
                        }
                        let n = old_node.slots@.len() as int;
                        assert(node.slots@.take(n - 1) =~= old_node.slots@.remove(position as int));
                        assert(node_entries(c, path + edge@) =~= Seq::<(Seq<char>, T)>::empty());
                        let left = entry_keys(node_entries(c, path + edge@));
                        assert(left =~= Seq::<Seq<char>>::empty());
                        assert(entry_keys(node_entries(*node, path)) =~= left + entry_keys(
                            slots_entries(*node, path, n - 1),
                        ));
                        lemma_keys_left_moved(old_node, *node, path, rest, position as int, left);
                    }
                }
            } else if single {
                let removed_slot = node.slots.remove(position);
                let ghost without = node.slots@;
                match removed_slot {
                    Slot::Child(edge, mut collapsed) => {
                        let ghost collapsed_node = collapsed;
                        proof {
                            lemma_single_child(collapsed_node.slots@);
                        }
                        match collapsed.slots.pop() {
                            Some(Slot::Child(sub_edge, sub_node)) => {
                                let merged = concat_chars(&edge, &sub_edge);
                                let ghost merged_chars = merged@;
                                node.slots.push(Slot::Child(merged, sub_node));
                                proof {
                                    assert(node.slots@.drop_last() =~= updated.slots@.remove(position as int));
                                    lemma_merge_edge(
                                        updated.slots@,
                                        node.slots@,
                                        position as int,
                                        edge,
                                        sub_edge,
                                        collapsed_node,
                                    );
                                    assert forall|j: int|
                                        0 <= j < node.slots@.len() && (#[trigger] node.slots@[j]) is Child
                                        implies node_wf(node.slots@[j]->Child_1) by {
                                        if j < position {
                                            assert(node.slots@[j] == updated.slots@[j]);
                                        } else if j < node.slots@.len() - 1 {
                                            assert(node.slots@[j] == updated.slots@[j + 1]);
                                        } else {
                                            assert(collapsed_node.slots@[0] is Child);
                                        }
                                    }
                                    if node_compact(old_node) {
                                        assert(node_compact(collapsed_node));
                                        assert(collapsed_node.slots@[0] is Child);
                                        assert forall|j: int|
                                            0 <= j < node.slots@.len() && (#[trigger] node.slots@[j]) is Child implies {
                                            &&& holds_enough(node.slots@[j]->Child_1)
                                            &&& node_compact(node.slots@[j]->Child_1)
                                        } by {
                                            if j < position {
                                                assert(node.slots@[j] == updated.slots@[j]);
                                                assert(updated.slots@[j] == old_node.slots@[j]);
                                            } else if j < node.slots@.len() - 1 {
                                                assert(node.slots@[j] == updated.slots@[j + 1]);
                                                assert(updated.slots@[j + 1] == old_node.slots@[j + 1]);
                                            }
                                        }
                                        let n = old_node.slots@.len() as int;
                                        let sub = collapsed_node.slots@[0]->Child_1;
                                        let sub_chars = collapsed_node.slots@[0]->Child_0@;
                                        let q = path + edge@;
                                        assert(node.slots@.take(n - 1) =~= old_node.slots@.remove(position as int));
                                        assert(node.slots@[n - 1] == node.slots@.last());
                                        assert(q + sub_chars =~= path + merged_chars);
                                        assert(slots_entries(collapsed_node, q, 0) =~= Seq::<(Seq<char>, T)>::empty());
                                        assert(node_entries(collapsed_node, q) =~= node_entries(sub, q + sub_chars));
                                        assert(slots_entries(*node, path, n) == slot_chunk(*node, path, n - 1)
                                            + slots_entries(*node, path, n - 1));
                                        lemma_keys_add(slot_chunk(*node, path, n - 1), slots_entries(*node, path, n - 1));
                                        assert(node_compact(sub) && holds_enough(sub) && node_wf(sub));
                                        lemma_shared_prefix(sub, q + sub_chars);
                                        lemma_keys_left_moved(
                                            old_node,
                                            *node,
                                            path,
                                            rest,
                                            position as int,
                                            entry_keys(node_entries(collapsed_node, q)),
                                        );
                                    }
                                }
                            },
                            _ => {},
                        }
                    },
                    Slot::Leaf(_) => {},
                }
            } else {
                proof {
                    let new_child = updated.slots@[position as int]->Child_1;
                    if node_compact(old_node) {
                        if new_child.slots@.len() == 1 {
                            assert(!has_leaf(new_child.slots@));
                            assert(!(new_child.slots@[0] is Leaf));
                            lemma_one_edge_count(new_child.slots@);
                        }
                        lemma_compact_replace(old_node, updated, position as int, new_child);
                        lemma_keys_left_in_place(old_node, updated, path, rest, position as int, new_child);
                    }
                }
            }
        } else {
            proof {
                let new_child = updated.slots@[position as int]->Child_1;
                if node_compact(old_node) {
                    lemma_compact_replace(old_node, updated, position as int, new_child);
                    lemma_keys_left_in_place(old_node, updated, path, rest, position as int, new_child);
                }
            }
        }
    }
    removed
}

/// Walks (and builds) the path for `key[pos..]` below `node`, splitting an
/// edge that the key leaves in its middle, and returns the node at the end
/// of the path. Edge splits append the new edge and remove the old one.
///
/// The returned node holds what `node` held under `key[pos..]`; whatever it
/// holds when the borrow ends is what the whole subtree holds under that
/// prefix.
fn create_path<'a, T>(
    node: &'a mut Node<T>,
    key: &Vec<char>,
    pos: usize,
    Ghost(path): Ghost<Seq<char>>,
    Ghost(value): Ghost<T>,
) -> (target: &'a mut Node<T>)
    requires
        node_wf(*old(node)),
        pos <= key@.len(),
    ensures
        node_wf(*target),
        pos < key@.len() && no_edge_starts(old(node).slots@, key@[pos as int]) ==> {
            &&& target.slots@.len() == 0
            &&& appended_edge(old(node).slots@, final(node).slots@, key@.skip(pos as int), *final(target))
        },
        forall|k: Seq<char>|
            #![trigger lookup(*target, k)]
            lookup(*target, k) == lookup(*old(node), key@.skip(pos as int) + k),
        node_wf(*final(target)) ==> node_wf(*final(node)),
        forall|k: Seq<char>|
            #![trigger lookup(*final(node), k)]
            lookup(*final(node), k) == if is_prefix(key@.skip(pos as int), k) {
                lookup(*final(target), k.skip(key@.len() - pos))
            } else {
                lookup(*old(node), k)
            },
        pos == key@.len() ==> *target == *old(node) && *final(target) == *final(node),
        node_compact(*old(node)) ==> node_compact(*target),
        grows(*target, *final(target)) ==> grows(*old(node), *final(node)),
        node_compact(*old(node)) && node_compact(*final(target)) && has_leaf(final(target).slots@)
            && grows(*target, *final(target)) ==> node_compact(*final(node)),
        lookup(*old(node), key@.skip(pos as int)) is Some && node_entries(
            *final(target),
            path + key@.skip(pos as int),
        ) == node_entries(*target, path + key@.skip(pos as int)).map_values(
            set_value(path + key@.skip(pos as int), value),
        ) ==> node_entries(*final(node), path) == node_entries(*old(node), path).map_values(
            set_value(path + key@.skip(pos as int), value),
        ),
        prefix_walk(*old(node), path, key@.skip(pos as int)) == node_entries(
            *target,
            path + key@.skip(pos as int),
        ),
        prefix_walk(*final(node), path, key@.skip(pos as int)) == node_entries(
            *final(target),
            path + key@.skip(pos as int),
        ),
        lookup(*old(node), key@.skip(pos as int)) is None && node_compact(*old(node)) && leaf_pushed(
            *target,
            *final(target),
        ) ==> entry_keys(node_entries(*final(node), path)) == keys_after_insert(
            entry_keys(node_entries(*old(node), path)),
            path,
            path + key@.skip(pos as int),
        ),
        lookup(*old(node), key@.skip(pos as int)) is Some && entry_keys(
            node_entries(*final(target), path + key@.skip(pos as int)),
        ) == entry_keys(node_entries(*target, path + key@.skip(pos as int))) ==> entry_keys(
            node_entries(*final(node), path),
        ) == entry_keys(node_entries(*old(node), path)),
    decreases key@.len() - pos, 1int,
{
    let ghost final_node = *final(node);
    let ghost old_node = *node;
    let ghost rest = key@.skip(pos as int);
    if pos == key.len() {
        proof {
            assert forall|k: Seq<char>| #![trigger lookup(old_node, k)]
                lookup(old_node, k) == lookup(old_node, rest + k) by {
                assert(rest + k =~= k);
            }
            assert forall|k: Seq<char>| #![trigger lookup(final_node, k)]
                is_prefix(rest, k) && lookup(final_node, k) == lookup(final_node, k.skip(0)) by {
                assert(k.skip(0) =~= k);
                assert(k.take(0) =~= rest);
            }
            assert(path + rest =~= path);
            lemma_keys_at_end(old_node, final_node, path, rest);
        }
        return node;
    }
    let first = key[pos];
    match node.child_position_by_first(first) {
        None => {
            let edge = slice_chars(key, pos, key.len());
            let ghost edge_chars = edge@;
            node.slots.push(Slot::Child(edge, Node { slots: Vec::new() }));
            let ghost pushed = node.slots@;
            let last = node.slots.len() - 1;
            let child = child_mut(&mut node.slots[last]).unwrap();
            let ghost final_child = *final(child);
            proof {
                assert(edge_chars =~= rest);
                let empty = pushed[last as int]->Child_1;
                assert forall|k: Seq<char>| #![trigger lookup(empty, k)]
                    lookup(empty, k) == lookup(old_node, rest + k) by {
                    if k.len() == 0 {
                        lemma_lookup_no_leaf(empty.slots@);
                    } else {
                        lemma_lookup_no_match(empty.slots@, k);
                    }
                    assert forall|j: int| 0 <= j < old_node.slots@.len() implies !slot_matches(
                        #[trigger] old_node.slots@[j],
                        rest + k,
                    ) by {
                        if slot_matches(old_node.slots@[j], rest + k) {
                            let e = old_node.slots@[j]->Child_0@;
                            assert(e[0] == (rest + k).take(e.len() as int)[0]);
                        }
                    }
                    lemma_lookup_no_match(old_node.slots@, rest + k);
                }
                assert(final_node.slots@ == old_node.slots@.push(
                    Slot::Child(pushed[last as int]->Child_0, final_child),
                ));
                assert(final_node.slots@.take(old_node.slots@.len() as int) =~= old_node.slots@);
                lemma_push_child(
                    old_node.slots@,
                    final_node.slots@,
                    pushed[last as int]->Child_0,
                    final_child,
                );
                lemma_wf_after_push(old_node, final_node, final_child);
                assert(!has_child_for(old_node.slots@, rest)) by {
                    if has_child_for(old_node.slots@, rest) {
                        let j = child_for(old_node.slots@, rest);
                        let ej = old_node.slots@[j]->Child_0@;
                        assert(ej[0] == rest.take(ej.len() as int)[0]);
                    }
                }
                assert(!has_extension(old_node.slots@, rest)) by {
                    if has_extension(old_node.slots@, rest) {
                        let j = extension_for(old_node.slots@, rest);
                        let ej = old_node.slots@[j]->Child_0@;
                        assert(ej[0] == ej.take(rest.len() as int)[0]);
                    }
                }
                assert(node_entries(empty, path + rest) =~= Seq::<(Seq<char>, T)>::empty());
                assert(final_node.slots@[last as int]->Child_0@ == rest);
                assert(rest.take(rest.len() as int) =~= rest);
                lemma_walk_through(final_node, last as int, path, rest);
                assert(rest.skip(rest.len() as int) =~= Seq::<char>::empty());
                assert((path + rest) + Seq::<char>::empty() =~= path + rest);
                lemma_keys_new_edge(old_node, final_node, path, rest, empty, final_child);
                if has_leaf(old_node.slots@) {
                    let l = leaf_pos(old_node.slots@);
                    assert(old_node.slots@[l] is Leaf);
                    assert(final_node.slots@[l] == old_node.slots@[l]);
                }
            }
            child
        },
        Some(position) => {
            let (common, edge_len) = match &node.slots[position] {
                Slot::Child(edge, _) => (common_prefix_len(key, pos, edge), edge.len()),
                Slot::Leaf(_) => (0, 0),
            };
            if common == edge_len {
                proof {
                    let e = old_node.slots@[position as int]->Child_0@;
                    assert(e.take(common as int) =~= e);
                    assert(slot_matches(old_node.slots@[position as int], rest));
                }
                let target = create_path_through(node, position, key, pos, Ghost(path), Ghost(value));
                proof {
                    if has_leaf(old_node.slots@) {
                        let l = leaf_pos(old_node.slots@);
                        assert(old_node.slots@[l] is Leaf);
                        assert(final_node.slots@[l] == old_node.slots@[l]);
                    }
                    if node_compact(old_node) {
                        assert(old_node.slots@[position as int] is Child);
                    }
                }
                target
            } else {
                let ghost old_slot = node.slots@[position as int];
                let removed = node.slots.remove(position);
                match removed {
                    Slot::Child(old_edge, old_child) => {
                        proof {
                            assert(common > 0) by {
                                assert(old_edge@[0] == first);
                                if common == 0 {
                                    assert(key@[pos + 0] == old_edge@[0]);
                                }
                            }
                        }
                        let head = slice_chars(&old_edge, 0, common);
                        let tail = slice_chars(&old_edge, common, old_edge.len());
                        let ghost head_chars = head@;
                        let ghost tail_chars = tail@;
                        let mid = Node { slots: vec![Slot::Child(tail, old_child)] };
                        let ghost mid_node = mid;
                        proof {
                            assert(old_slot == Slot::Child(old_edge, old_child));
                            assert(mid_node.slots@ =~= seq![Slot::Child(mid_node.slots@[0]->Child_0, old_child)]);
                        }
                        node.slots.push(Slot::Child(head, mid));
                        let last = node.slots.len() - 1;
                        proof {
                            assert(head_chars =~= old_edge@.take(common as int));
                            assert(tail_chars =~= old_edge@.skip(common as int));
                            lemma_split_edge(
                                old_node.slots@,
                                node.slots@,
                                position as int,
                                common as int,
                                node.slots@[last as int]->Child_0,
                                mid_node.slots@[0]->Child_0,
                                mid_node,
                            );
                            assert forall|j: int|
                                0 <= j < node.slots@.len() && (#[trigger] node.slots@[j]) is Child
                                implies node_wf(node.slots@[j]->Child_1) by {
                                if j < position {
                                    assert(node.slots@[j] == old_node.slots@[j]);
                                } else if j < last {
                                    assert(node.slots@[j] == old_node.slots@[j + 1]);
                                }
                            }
                            assert(node_wf(*node));
                            let e = node.slots@[last as int]->Child_0@;
                            assert(rest.take(common as int) =~= e);
                            assert(slot_matches(node.slots@[last as int], rest));
                        }
                        let ghost split = *node;
                        proof {
                            if pos + common < key@.len() {
                                assert(mid_node.slots@[0]->Child_0@[0] == old_edge@[common as int]);
                                assert(no_edge_starts(mid_node.slots@, key@[pos + common]));
                            }
                            assert(split.slots@[last as int]->Child_1 == mid_node);
                        }
                        let target = create_path_through(node, last, key, pos, Ghost(path), Ghost(value));
                        let ghost final_target = *final(target);
                        proof {
                            let c2 = final_node.slots@[last as int]->Child_1;
                            let n = old_node.slots@.len() as int;
                            assert(final_node.slots@.take(n - 1) =~= old_node.slots@.remove(position as int));
                            assert(final_node.slots@.last() == final_node.slots@[last as int]);
                            assert(head_chars =~= old_edge@.take(common as int));
                            assert(tail_chars =~= old_edge@.skip(common as int));
                            assert(key@.skip(pos + common) =~= rest.skip(common as int));
                            if pos + common < key@.len() {
                                assert(rest[common as int] == key@[pos + common]);
                            }
                            lemma_keys_split(
                                old_node,
                                final_node,
                                position as int,
                                path,
                                rest,
                                common as int,
                                mid_node,
                                c2,
                                *target,
                                final_target,
                            );
                            assert(rest.take(common as int) == old_edge@.take(common as int));
                            assert(old_node.slots@[position as int]->Child_0 == old_edge);
                            lemma_walk_split(
                                old_node,
                                position as int,
                                path,
                                rest,
                                common as int,
                                mid_node,
                                *target,
                            );
                            if has_leaf(old_node.slots@) {
                                let l = leaf_pos(old_node.slots@);
                                assert(old_node.slots@[l] is Leaf);
                                let l2 = if l < position { l } else { l - 1 };
                                assert(split.slots@[l2] == old_node.slots@[l]);
                                assert(final_node.slots@[l2] == split.slots@[l2]);
                            }
                        }
                        target
                    },
                    Slot::Leaf(_) => {
                        node
                    },
                }
            }
        },
    }
}

/// `create_path` through the edge at `position`, which is a prefix of
/// `key[pos..]`.
fn create_path_through<'a, T>(
    node: &'a mut Node<T>,
    position: usize,
    key: &Vec<char>,
    pos: usize,
    Ghost(path): Ghost<Seq<char>>,
    Ghost(value): Ghost<T>,
) -> (target: &'a mut Node<T>)
    requires
        node_wf(*old(node)),
        pos < key@.len(),
        position < old(node).slots@.len(),
        slot_matches(old(node).slots@[position as int], key@.skip(pos as int)),
    ensures
        node_wf(*target),
        forall|k: Seq<char>|
            #![trigger lookup(*target, k)]
            lookup(*target, k) == lookup(*old(node), key@.skip(pos as int) + k),
        node_wf(*final(target)) ==> node_wf(*final(node)),
        forall|k: Seq<char>|
            #![trigger lookup(*final(node), k)]
            lookup(*final(node), k) == if is_prefix(key@.skip(pos as int), k) {
                lookup(*final(target), k.skip(key@.len() - pos))
            } else {
                lookup(*old(node), k)
            },
        final(node).slots@ == old(node).slots@.update(
            position as int,
            Slot::Child(
                old(node).slots@[position as int]->Child_0,
                final(node).slots@[position as int]->Child_1,
            ),
        ),
        ({
            let c = old(node).slots@[position as int]->Child_1;
            let c2 = final(node).slots@[position as int]->Child_1;
            let next = pos + old(node).slots@[position as int]->Child_0@.len();
            &&& node_compact(c) ==> node_compact(*target)
            &&& grows(*target, *final(target)) ==> grows(c, c2)
            &&& node_compact(c) && node_compact(*final(target)) && has_leaf(final(target).slots@)
                && grows(*target, *final(target)) ==> node_compact(c2)
            &&& next == key@.len() ==> *target == c && *final(target) == c2
            &&& next < key@.len() && no_edge_starts(c.slots@, key@[next]) ==> c2.slots@.len()
                == c.slots@.len() + 1
        }),
        lookup(*old(node), key@.skip(pos as int)) is Some && node_entries(
            *final(target),
            path + key@.skip(pos as int),
        ) == node_entries(*target, path + key@.skip(pos as int)).map_values(
            set_value(path + key@.skip(pos as int), value),
        ) ==> node_entries(*final(node), path) == node_entries(*old(node), path).map_values(
            set_value(path + key@.skip(pos as int), value),
        ),
        prefix_walk(*old(node), path, key@.skip(pos as int)) == node_entries(
            *target,
            path + key@.skip(pos as int),
        ),
        prefix_walk(*final(node), path, key@.skip(pos as int)) == node_entries(
            *final(target),
            path + key@.skip(pos as int),
        ),
        ({
            let c = old(node).slots@[position as int]->Child_1;
            let c2 = final(node).slots@[position as int]->Child_1;
            let next = pos + old(node).slots@[position as int]->Child_0@.len();
            next < key@.len() && no_edge_starts(c.slots@, key@[next]) ==> target.slots@.len() == 0
                && appended_edge(c.slots@, c2.slots@, key@.skip(next), *final(target))
        }),
        lookup(*old(node), key@.skip(pos as int)) is None && node_compact(*old(node)) && leaf_pushed(
            *target,
            *final(target),
        ) ==> entry_keys(node_entries(*final(node), path)) == keys_after_insert(
            entry_keys(node_entries(*old(node), path)),
            path,
            path + key@.skip(pos as int),
        ),
        lookup(*old(node), key@.skip(pos as int)) is Some && entry_keys(
            node_entries(*final(target), path + key@.skip(pos as int)),
        ) == entry_keys(node_entries(*target, path + key@.skip(pos as int))) ==> entry_keys(
            node_entries(*final(node), path),
        ) == entry_keys(node_entries(*old(node), path)),
    decreases key@.len() - pos, 0int,
{
    let ghost final_node = *final(node);
    let ghost old_node = *node;
    let ghost rest = key@.skip(pos as int);
    let ghost edge = old_node.slots@[position as int]->Child_0@;
    let ghost old_child = old_node.slots@[position as int]->Child_1;
    let edge_len = match &node.slots[position] {
        Slot::Child(edge, _) => edge.len(),
        Slot::Leaf(_) => 0,
    };
    let key_len = key.len();
    proof {
        assert(edge_len == edge.len());
        assert(pos + edge.len() <= key_len);
    }
    let next = pos + edge_len;
    let child = child_mut(&mut node.slots[position]).unwrap();
    let ghost final_child = *final(child);
    proof {
        assert(rest.skip(edge.len() as int) =~= key@.skip(next as int));
    }
    let target = create_path(child, key, next, Ghost(path + edge), Ghost(value));
    let ghost final_target = *final(target);
    proof {
        let rest2 = key@.skip(next as int);
        lemma_replace_child(old_node, final_node, position as int, final_child);
        assert forall|k: Seq<char>| #![trigger lookup(*target, k)]
            lookup(*target, k) == lookup(old_node, rest + k) by {
            assert(slot_matches(old_node.slots@[position as int], rest + k)) by {
                assert((rest + k).take(edge.len() as int) =~= rest.take(edge.len() as int));
            }
            lemma_lookup_at(old_node.slots@, rest + k, position as int);
            assert((rest + k).skip(edge.len() as int) =~= rest2 + k);
        }
        lemma_wf_after_replace(old_node, final_node, position as int, final_child);
        assert forall|k: Seq<char>| #![trigger lookup(final_node, k)]
            lookup(final_node, k) == if is_prefix(rest, k) {
                lookup(final_target, k.skip(key@.len() - pos))
            } else {
                lookup(old_node, k)
            } by {
            if slot_matches(old_node.slots@[position as int], k) {
                let k2 = k.skip(edge.len() as int);
                lemma_lookup_at(old_node.slots@, k, position as int);
                assert(is_prefix(rest, k) == is_prefix(rest2, k2)) by {
                    if is_prefix(rest, k) {
                        assert(k2.take(rest2.len() as int) =~= k.take(rest.len() as int).skip(
                            edge.len() as int,
                        ));
                    }
                    if is_prefix(rest2, k2) {
                        assert(k.take(rest.len() as int) =~= k.take(edge.len() as int) + k2.take(
                            rest2.len() as int,
                        ));
                        assert(rest =~= rest.take(edge.len() as int) + rest2);
                    }
                }
                if is_prefix(rest, k) {
                    assert(k2.skip(key@.len() - next) =~= k.skip(key@.len() - pos));
                }
            } else {
                if is_prefix(rest, k) {
                    assert(k.take(edge.len() as int) =~= k.take(rest.len() as int).take(
                        edge.len() as int,
                    ));
                }
            }
        }
    }
    proof {
        lemma_through_entries(
            old_node,
            final_node,
            position as int,
            path,
            rest,
            final_child,
            *target,
            final_target,
            value,
        );
        let rest2 = key@.skip(next as int);
        assert((path + edge) + rest2 =~= path + rest) by {
            assert(rest =~= rest.take(edge.len() as int) + rest2);
        }
        lemma_walk_through(old_node, position as int, path, rest);
        lemma_walk_through(final_node, position as int, path, rest);
        lemma_keys_through(
            old_node,
            final_node,
            position as int,
            path,
            rest,
            final_child,
            *target,
            final_target,
        );
    }
    target
}

/// `v` capped at `max + 1`: every distance above `max` looks the same.
pub open spec fn clip(v: int, max: int) -> int {
    if v <= max + 1 {
        v
    } else {
        max + 1
    }
}

/// Cell `(r, c)` of a row-major matrix with `n` columns.
pub open spec fn cell(matrix: Seq<u32>, n: int, r: int, c: int) -> int {
    matrix[r * n + c] as int
}

/// The cells of the Levenshtein matrix that fuzzy search never writes:
/// row 0, column 0, and the cells outside the band `|r - c| <= max`; and a
/// bound on every cell.
pub open spec fn matrix_frame(matrix: Seq<u32>, rows: int, n: int, max: int) -> bool {
    forall|r: int, c: int|
        #![trigger cell(matrix, n, r, c)]
        0 <= r < rows && 0 <= c < n ==> {
            &&& r == 0 ==> cell(matrix, n, r, c) == c
            &&& c == 0 ==> cell(matrix, n, r, c) == r
            &&& (r > 0 && c > 0 && (c < r - max || c > r + max)) ==> cell(matrix, n, r, c) == max + 1
            &&& 0 <= cell(matrix, n, r, c) <= r + c + max + 1
        }
}

/// The first `count` rows hold the edit distances between the prefixes of
/// `path` and those of `query`, up to the cap `max + 1`.
pub open spec fn rows_exact(
    matrix: Seq<u32>,
    n: int,
    count: int,
    path: Seq<char>,
    query: Seq<char>,
    max: int,
) -> bool {
    forall|r: int, c: int|
        #![trigger cell(matrix, n, r, c)]
        0 <= r < count && 0 <= c < n ==> clip(cell(matrix, n, r, c), max) == clip(
            levenshtein(path.take(r), query.take(c)) as int,
            max,
        )
}

/// Two matrices agree on their first `count` rows.
pub open spec fn rows_unchanged(a: Seq<u32>, b: Seq<u32>, n: int, count: int) -> bool {
    &&& a.len() == b.len()
    &&& forall|x: int| 0 <= x < count * n ==> a[x] == b[x]
}

proof fn lemma_cell_index(r: int, c: int, n: int, rows: int)
    requires
        0 <= r < rows,
        0 <= c < n,
    ensures
        0 <= r * n + c < rows * n,
        r * n + c < (r + 1) * n,
        r * n <= r * n + c,
{
    assert(0 <= r * n + c < rows * n) by (nonlinear_arith)
        requires
            0 <= r < rows,
            0 <= c < n,
    ;
    assert((r + 1) * n == r * n + n) by (nonlinear_arith);
    assert(r * n >= 0) by (nonlinear_arith)
        requires
            0 <= r,
            0 <= c < n,
    ;
}

proof fn lemma_cell_distinct(r1: int, c1: int, r2: int, c2: int, n: int)
    requires
        0 <= r1,
        0 <= r2,
        0 <= c1 < n,
        0 <= c2 < n,
        r1 != r2 || c1 != c2,
    ensures
        r1 * n + c1 != r2 * n + c2,
{
    if r1 == r2 {
    } else if r1 < r2 {
        assert(r1 * n + n <= r2 * n) by (nonlinear_arith)
            requires
                r1 < r2,
                0 <= c1 < n,
        ;
    } else {
        assert(r2 * n + n <= r1 * n) by (nonlinear_arith)
            requires
                r2 < r1,
                0 <= c1 < n,
        ;
    }
}

/// Capping commutes with one step of the recurrence.
proof fn lemma_clip_step(a: int, b: int, c: int, a2: int, b2: int, c2: int, d: int, max: int)
    requires
        0 <= a,
        0 <= b,
        0 <= c,
        0 <= a2,
        0 <= b2,
        0 <= c2,
        0 <= max,
        0 <= d <= 1,
        clip(a, max) == clip(a2, max),
        clip(b, max) == clip(b2, max),
        clip(c, max) == clip(c2, max),
    ensures
        clip(min3(a + d, b + 1, c + 1), max) == clip(min3(a2 + d, b2 + 1, c2 + 1), max),
{
}

/// Computes row `i` of the Levenshtein matrix for the key character `ch`,
/// inside the band of half-width `max_distance` around the diagonal, and
/// returns the smallest distance in the row (column 0 included).
#[verifier::rlimit(40)]
#[verifier::spinoff_prover]
fn fill_row(
    matrix: &mut Vec<u32>,
    query: &Vec<char>,
    ch: char,
    i: usize,
    n: usize,
    max_distance: usize,
    Ghost(path): Ghost<Seq<char>>,
) -> (min_distance: u32)
    requires
        n == query@.len() + 1,
        n + max_distance <= 65535,
        old(matrix)@.len() == (n + max_distance) * n,
        1 <= i < n + max_distance,
        path.len() == i - 1,
        matrix_frame(old(matrix)@, n + max_distance, n as int, max_distance as int),
        rows_exact(old(matrix)@, n as int, i as int, path, query@, max_distance as int),
    ensures
        matrix_frame(final(matrix)@, n + max_distance, n as int, max_distance as int),
        rows_unchanged(old(matrix)@, final(matrix)@, n as int, i as int),
        rows_exact(
            final(matrix)@,
            n as int,
            i + 1,
            path.push(ch),
            query@,
            max_distance as int,
        ),
        min_distance > max_distance ==> forall|j: int|
            0 <= j <= query@.len() ==> levenshtein(path.push(ch), #[trigger] query@.take(j))
                > max_distance,
{
    let ghost rows = (n + max_distance) as int;
    let ghost max = max_distance as int;
    let ghost q = query@;
    let ghost word = path.push(ch);
    let ghost start = matrix@;
    proof {
        lemma_cell_index(i as int, 0, n as int, rows);
        lemma_cell_index(i as int - 1, 0, n as int, rows);
        assert(word.take(i as int) =~= word);
        assert(word.drop_last() =~= path);
        assert(path.take(i - 1) =~= path);
    }
    let total = matrix.len();
    proof {
        assert(i * n < rows * n) by (nonlinear_arith)
            requires
                i < rows,
                n >= 1,
        ;
        assert(i * n == (i - 1) * n + n && (i - 1) * n >= 0) by (nonlinear_arith)
            requires
                i >= 1,
                n >= 1,
        ;
    }
    let this_row = i * n;
    let prev_row = this_row - n;
    let mut min_distance = matrix[this_row];
    proof {
        assert(cell(start, n as int, i as int, 0) == i);
    }
    let jmin = if i > max_distance + 1 {
        i - (max_distance + 1)
    } else {
        0
    };
    let jmax = if i + max_distance < n - 1 {
        i + max_distance
    } else {
        n - 1
    };
    let mut j = jmin;
    while j < jmax
        invariant
            n == q.len() + 1,
            n + max_distance <= 65535,
            rows == n + max_distance,
            max == max_distance,
            1 <= i < rows,
            word == path.push(ch),
            path.len() == i - 1,
            path.take(i - 1) == path,
            this_row == i * n,
            prev_row == (i - 1) * n,
            jmin <= j <= jmax,
            jmax <= n - 1,
            jmin == (if i > max + 1 { i - (max + 1) } else { 0 }),
            jmax == (if i + max < n - 1 { i + max } else { n - 1 }),
            matrix@.len() == rows * n,
            total == matrix@.len(),
            q == query@,
            matrix_frame(matrix@, rows, n as int, max),
            rows_unchanged(start, matrix@, n as int, i as int),
            rows_exact(start, n as int, i as int, path, q, max),
            forall|c: int|
                #![trigger cell(matrix@, n as int, i as int, c)]
                0 <= c < n && (c <= jmin || c > j) ==> cell(matrix@, n as int, i as int, c) == cell(
                    start,
                    n as int,
                    i as int,
                    c,
                ),
            forall|c: int|
                #![trigger cell(matrix@, n as int, i as int, c)]
                jmin < c <= j ==> clip(cell(matrix@, n as int, i as int, c), max) == clip(
                    levenshtein(word, q.take(c)) as int,
                    max,
                ) && cell(matrix@, n as int, i as int, c) >= min_distance,
            cell(matrix@, n as int, i as int, 0) >= min_distance,
        decreases jmax - j,
    {
        proof {
            lemma_cell_index(i as int, j as int, n as int, rows);
            lemma_cell_index(i as int, j + 1, n as int, rows);
            lemma_cell_index(i - 1, j as int, n as int, rows);
            lemma_cell_index(i - 1, j + 1, n as int, rows);
            assert(cell(matrix@, n as int, i - 1, j as int) == cell(start, n as int, i - 1, j as int));
            assert(cell(matrix@, n as int, i - 1, j + 1) == cell(start, n as int, i - 1, j + 1));
            assert(matrix@[this_row + j] == cell(matrix@, n as int, i as int, j as int));
            assert(matrix@[prev_row + j] == cell(matrix@, n as int, i - 1, j as int));
            assert(matrix@[prev_row + j + 1] == cell(matrix@, n as int, i - 1, j + 1));
        }
        let different: u32 = if ch != query[j] {
            1
        } else {
            0
        };
        let replace = matrix[prev_row + j] + different;
        let delete = matrix[prev_row + j + 1] + 1;
        let insert = matrix[this_row + j] + 1;
        let mut distance = replace;
        if delete < distance {
            distance = delete;
        }
        if insert < distance {
            distance = insert;
        }
        let ghost before = matrix@;
        proof {
            let a = levenshtein(path, q.take(j as int)) as int;
            let b = levenshtein(path, q.take(j + 1)) as int;
            let c = levenshtein(word, q.take(j as int)) as int;
            lemma_step(path, ch, q, j as int);
            assert(clip(cell(before, n as int, i - 1, j as int), max) == clip(a, max));
            assert(clip(cell(before, n as int, i - 1, j + 1), max) == clip(b, max));
            if j == jmin {
                if jmin == 0 {
                    lemma_empty(word);
                    assert(q.take(0) =~= Seq::<char>::empty());
                } else {
                    lemma_length_difference(word, q.take(j as int));
                }
            }
            assert(clip(cell(before, n as int, i as int, j as int), max) == clip(c, max));
            lemma_clip_step(
                cell(before, n as int, i - 1, j as int),
                cell(before, n as int, i - 1, j + 1),
                cell(before, n as int, i as int, j as int),
                a,
                b,
                c,
                different as int,
                max,
            );
        }
        matrix.set(this_row + j + 1, distance);
        proof {
            assert forall|r: int, c: int|
                0 <= r < rows && 0 <= c < n && (r != i || c != j + 1) implies cell(
                matrix@,
                n as int,
                r,
                c,
            ) == cell(before, n as int, r, c) by {
                lemma_cell_distinct(r, c, i as int, j + 1, n as int);
                lemma_cell_index(r, c, n as int, rows);
            }
            assert(cell(matrix@, n as int, i as int, j + 1) == distance);
            assert forall|r: int, c: int|
                #![trigger cell(matrix@, n as int, r, c)]
                0 <= r < rows && 0 <= c < n implies {
                    &&& r == 0 ==> cell(matrix@, n as int, r, c) == c
                    &&& c == 0 ==> cell(matrix@, n as int, r, c) == r
                    &&& (r > 0 && c > 0 && (c < r - max || c > r + max)) ==> cell(matrix@, n as int, r, c) == max + 1
                    &&& 0 <= cell(matrix@, n as int, r, c) <= r + c + max + 1
                } by {
                if r != i || c != j + 1 {
                    assert(cell(matrix@, n as int, r, c) == cell(before, n as int, r, c));
                }
            }
            assert forall|x: int| 0 <= x < i * n implies start[x] == matrix@[x] by {
                assert(x < this_row + j + 1);
            }
        }
        let ghost old_min = min_distance;
        if distance < min_distance {
            min_distance = distance;
        }
        proof {
            assert forall|c: int|
                #![trigger cell(matrix@, n as int, i as int, c)]
                0 <= c < n && (c <= jmin || c > j + 1) implies cell(matrix@, n as int, i as int, c)
                == cell(start, n as int, i as int, c) by {
                assert(cell(matrix@, n as int, i as int, c) == cell(before, n as int, i as int, c));
            }
            assert forall|c: int|
                #![trigger cell(matrix@, n as int, i as int, c)]
                jmin < c <= j + 1 implies clip(cell(matrix@, n as int, i as int, c), max) == clip(
                    levenshtein(word, q.take(c)) as int,
                    max,
                ) && cell(matrix@, n as int, i as int, c) >= min_distance by {
                if c <= j {
                    assert(cell(matrix@, n as int, i as int, c) == cell(before, n as int, i as int, c));
                    assert(cell(before, n as int, i as int, c) >= old_min);
                }
            }
            assert(cell(matrix@, n as int, i as int, 0) == cell(before, n as int, i as int, 0));
        }
        j = j + 1;
    }
    proof {
        assert forall|r: int, c: int|
            #![trigger cell(matrix@, n as int, r, c)]
            0 <= r < i + 1 && 0 <= c < n implies clip(cell(matrix@, n as int, r, c), max) == clip(
            levenshtein(word.take(r), q.take(c)) as int,
            max,
        ) by {
            if r < i {
                lemma_cell_index(r, c, n as int, rows);
                lemma_cell_index(r, c, n as int, i as int);
                assert(cell(matrix@, n as int, r, c) == cell(start, n as int, r, c));
                assert(word.take(r) =~= path.take(r));
            } else if c == 0 {
                lemma_empty(word);
                assert(q.take(0) =~= Seq::<char>::empty());
            } else if c <= jmin {
                lemma_length_difference(word, q.take(c));
            } else if c > jmax {
                lemma_length_difference(word, q.take(c));
            }
        }
        if min_distance > max_distance {
            assert forall|jj: int| 0 <= jj <= q.len() implies levenshtein(word, #[trigger] q.take(jj))
                > max by {
                if jj == 0 {
                    lemma_empty(word);
                    assert(q.take(0) =~= Seq::<char>::empty());
                } else if jj <= jmin || jj > jmax {
                    lemma_length_difference(word, q.take(jj));
                } else {
                    assert(clip(cell(matrix@, n as int, i as int, jj), max) == clip(
                        levenshtein(word.take(i as int), q.take(jj)) as int,
                        max,
                    ));
                }
            }
        }
    }
    min_distance
}

/// Rows that did not change keep the distances they held.
proof fn lemma_rows_exact_kept(
    a: Seq<u32>,
    b: Seq<u32>,
    n: int,
    count: int,
    rows: int,
    path: Seq<char>,
    query: Seq<char>,
    max: int,
)
    requires
        0 <= count <= rows,
        n >= 1,
        a.len() == rows * n,
        rows_unchanged(a, b, n, count),
        rows_exact(a, n, count, path, query, max),
    ensures
        rows_exact(b, n, count, path, query, max),
{
    assert forall|r: int, c: int|
        #![trigger cell(b, n, r, c)]
        0 <= r < count && 0 <= c < n implies cell(b, n, r, c) == cell(a, n, r, c) by {
        lemma_cell_index(r, c, n, count);
    }
}

/// `rows_unchanged` is transitive, and weakens to fewer rows.
proof fn lemma_rows_unchanged_trans(a: Seq<u32>, b: Seq<u32>, c: Seq<u32>, n: int, k1: int, k2: int)
    requires
        n >= 1,
        0 <= k1 <= k2,
        rows_unchanged(a, b, n, k1),
        rows_unchanged(b, c, n, k2),
    ensures
        rows_unchanged(a, c, n, k1),
{
    assert(k1 * n <= k2 * n) by (nonlinear_arith)
        requires
            k1 <= k2,
            n >= 1,
    ;
}

/// If no extension of `prefix` is within `max` edits of `query`, fuzzy
/// collection below it finds nothing.
proof fn lemma_prune<T>(node: Node<T>, prefix: Seq<char>, start: int, query: Seq<char>, max: int)
    requires
        forall|x: Seq<char>| levenshtein(#[trigger] (prefix + x), query) > max,
    ensures
        fuzzy_collect(node, prefix, start, query, max) == Seq::<(Seq<char>, int)>::empty(),
    decreases node, node.slots@.len() - start,
{
    if 0 <= start < node.slots@.len() {
        match node.slots@[start] {
            Slot::Leaf(_) => {
                assert(prefix + Seq::<char>::empty() =~= prefix);
            },
            Slot::Child(edge, child) => {
                assert forall|x: Seq<char>| levenshtein(#[trigger] ((prefix + edge@) + x), query) > max by {
                    assert((prefix + edge@) + x =~= prefix + (edge@ + x));
                }
                lemma_prune(child, prefix + edge@, 0, query, max);
            },
        }
        lemma_prune(node, prefix, start + 1, query, max);
    }
}

/// Extends the Levenshtein matrix by the rows of the characters of `edge`,
/// following the path `path` of `m - 1` characters. Returns the number of
/// filled rows, or `None` when no key through the edge can be within
/// `max_distance` edits of the query: a row whose distances all exceed it,
/// or a key longer than the query plus `max_distance`.
fn fill_edge(
    matrix: &mut Vec<u32>,
    query: &Vec<char>,
    edge: &Vec<char>,
    m: usize,
    n: usize,
    max_distance: usize,
    Ghost(path): Ghost<Seq<char>>,
) -> (filled: Option<usize>)
    requires
        n == query@.len() + 1,
        n + max_distance <= 65535,
        old(matrix)@.len() == (n + max_distance) * n,
        1 <= m <= n + max_distance,
        path.len() == m - 1,
        matrix_frame(old(matrix)@, n + max_distance, n as int, max_distance as int),
        rows_exact(old(matrix)@, n as int, m as int, path, query@, max_distance as int),
    ensures
        final(matrix)@.len() == old(matrix)@.len(),
        matrix_frame(final(matrix)@, n + max_distance, n as int, max_distance as int),
        rows_unchanged(old(matrix)@, final(matrix)@, n as int, m as int),
        match filled {
            Some(i) => {
                &&& i == m + edge@.len()
                &&& i <= n + max_distance
                &&& rows_exact(final(matrix)@, n as int, i as int, path + edge@, query@, max_distance as int)
            },
            None => forall|x: Seq<char>|
                levenshtein(#[trigger] (path + edge@ + x), query@) > max_distance,
        },
{
    let ghost rows = (n + max_distance) as int;
    let ghost start = matrix@;
    let total = matrix.len();
    let mut i = m;
    let mut t: usize = 0;
    proof {
        assert(path + edge@.take(0) =~= path);
    }
    while t < edge.len()
        invariant
            start == old(matrix)@,
            n == query@.len() + 1,
            n + max_distance <= 65535,
            rows == n + max_distance,
            total == matrix@.len(),
            matrix@.len() == rows * n,
            1 <= m <= i <= rows,
            i == m + t,
            t <= edge@.len(),
            path.len() == m - 1,
            matrix_frame(matrix@, rows, n as int, max_distance as int),
            rows_unchanged(start, matrix@, n as int, m as int),
            rows_exact(matrix@, n as int, i as int, path + edge@.take(t as int), query@, max_distance as int),
        decreases edge@.len() - t,
    {
        let ghost word = path + edge@.take(t + 1);
        assert((path + edge@.take(t as int)).push(edge@[t as int]) =~= word);
        if i >= n + max_distance {
            proof {
                assert forall|x: Seq<char>| levenshtein(#[trigger] (path + edge@ + x), query@) > max_distance by {
                    lemma_length_difference(path + edge@ + x, query@);
                }
            }
            return None;
        }
        let ghost before = matrix@;
        let min_distance = fill_row(
            matrix,
            query,
            edge[t],
            i,
            n,
            max_distance,
            Ghost(path + edge@.take(t as int)),
        );
        proof {
            lemma_rows_unchanged_trans(start, before, matrix@, n as int, m as int, i as int);
        }
        if min_distance as usize > max_distance {
            proof {
                assert forall|x: Seq<char>| levenshtein(#[trigger] (path + edge@ + x), query@) > max_distance by {
                    let y = edge@.skip(t + 1) + x;
                    lemma_row_bound(word, query@, y, max_distance as int);
                    assert(word + y =~= path + edge@ + x);
                    assert(query@.take(query@.len() as int) =~= query@);
                }
            }
            return None;
        }
        i = i + 1;
        t = t + 1;
    }
    proof {
        assert(edge@.take(edge@.len() as int) =~= edge@);
    }
    Some(i)
}

/// The abstract form of fuzzy-search output: keys as character sequences.
pub open spec fn fuzzy_view(results: Seq<(String, usize)>) -> Seq<(Seq<char>, int)> {
    results.map_values(|entry: (String, usize)| (entry.0@, entry.1 as int))
}

/// Collects the keys below `node` within `max_distance` edits of the query,
/// in forward insertion order at every node, reusing the rows of the
/// Levenshtein matrix computed for `prefix` (its first `m` rows).
fn fuzzy_rec<T>(
    node: &Node<T>,
    query: &Vec<char>,
    max_distance: usize,
    results: &mut Vec<(String, usize)>,
    matrix: &mut Vec<u32>,
    m: usize,
    n: usize,
    prefix: &mut Vec<char>,
)
    requires
        node_wf(*node),
        n == query@.len() + 1,
        n + max_distance <= 65535,
        old(matrix)@.len() == (n + max_distance) * n,
        1 <= m <= n + max_distance,
        old(prefix)@.len() == m - 1,
        matrix_frame(old(matrix)@, n + max_distance, n as int, max_distance as int),
        rows_exact(old(matrix)@, n as int, m as int, old(prefix)@, query@, max_distance as int),
    ensures
        final(prefix)@ == old(prefix)@,
        final(matrix)@.len() == old(matrix)@.len(),
        matrix_frame(final(matrix)@, n + max_distance, n as int, max_distance as int),
        rows_unchanged(old(matrix)@, final(matrix)@, n as int, m as int),
        fuzzy_view(final(results)@) == fuzzy_view(old(results)@) + fuzzy_collect(
            *node,
            old(prefix)@,
            0,
            query@,
            max_distance as int,
        ),
    decreases *node,
{
    let ghost rows = (n + max_distance) as int;
    let ghost start = matrix@;
    let ghost path = prefix@;
    let ghost max = max_distance as int;
    let total = matrix.len();
    proof {
        lemma_cell_index(m - 1, n - 1, n as int, rows);
        assert(m * n == (m - 1) * n + n && m * n <= rows * n) by (nonlinear_arith)
            requires
                1 <= m <= rows,
                n >= 1,
        ;
    }
    let offset = m * n;
    let mut index: usize = 0;
    while index < node.slots.len()
        invariant
            node_wf(*node),
            n == query@.len() + 1,
            n + max_distance <= 65535,
            rows == n + max_distance,
            max == max_distance,
            total == matrix@.len(),
            matrix@.len() == rows * n,
            1 <= m <= rows,
            offset == m * n,
            prefix@ == path,
            path.len() == m - 1,
            index <= node.slots@.len(),
            matrix_frame(matrix@, rows, n as int, max),
            rows_unchanged(start, matrix@, n as int, m as int),
            rows_exact(matrix@, n as int, m as int, path, query@, max),
            fuzzy_view(results@) + fuzzy_collect(*node, path, index as int, query@, max) == fuzzy_view(
                old(results)@,
            ) + fuzzy_collect(*node, path, 0, query@, max),
        decreases node.slots@.len() - index,
    {
        let ghost before_results = results@;
        match &node.slots[index] {
            Slot::Leaf(_) => {
                proof {
                    lemma_cell_index(m - 1, n - 1, n as int, rows);
                    assert(m * n == (m - 1) * n + n) by (nonlinear_arith);
                    assert(matrix@[offset - 1] == cell(matrix@, n as int, m - 1, n - 1));
                    assert(path.take(m - 1) =~= path);
                    assert(query@.take(n - 1) =~= query@);
                }
                let distance = matrix[offset - 1] as usize;
                if distance <= max_distance {
                    results.push((string_of(prefix), distance));
                    proof {
                        assert(fuzzy_view(results@) =~= fuzzy_view(before_results) + seq![
                            (path, levenshtein(path, query@) as int),
                        ]);
                    }
                } else {
                    proof {
                        assert(fuzzy_view(results@) =~= fuzzy_view(before_results) + Seq::<
                            (Seq<char>, int),
                        >::empty());
                    }
                }
            },
            Slot::Child(edge, child) => {
                let ghost before_matrix = matrix@;
                match fill_edge(matrix, query, edge, m, n, max_distance, Ghost(path)) {
                    None => {
                        proof {
                            lemma_prune(*child, path + edge@, 0, query@, max);
                            lemma_rows_unchanged_trans(start, before_matrix, matrix@, n as int, m as int, m as int);
                            lemma_rows_exact_kept(before_matrix, matrix@, n as int, m as int, rows, path, query@, max);
                            assert(fuzzy_view(results@) =~= fuzzy_view(before_results) + Seq::<
                                (Seq<char>, int),
                            >::empty());
                        }
                    },
                    Some(i) => {
                        let ghost filled = matrix@;
                        let mut j: usize = 0;
                        while j < edge.len()
                            invariant
                                j <= edge@.len(),
                                prefix@ == path + edge@.take(j as int),
                            decreases edge@.len() - j,
                        {
                            assert(edge@.take(j + 1) =~= edge@.take(j as int).push(edge@[j as int]));
                            prefix.push(edge[j]);
                            j = j + 1;
                        }
                        proof {
                            assert(edge@.take(edge@.len() as int) =~= edge@);
                            assert(node_wf(*child));
                        }
                        fuzzy_rec(child, query, max_distance, results, matrix, i, n, prefix);
                        prefix.truncate(m - 1);
                        proof {
                            assert(prefix@ =~= path);
                            lemma_rows_unchanged_trans(before_matrix, filled, matrix@, n as int, m as int, i as int);
                            lemma_rows_unchanged_trans(start, before_matrix, matrix@, n as int, m as int, m as int);
                            lemma_rows_exact_kept(before_matrix, matrix@, n as int, m as int, rows, path, query@, max);
                        }
                    },
                }
            },
        }
        proof {
            assert(fuzzy_view(results@) + fuzzy_collect(*node, path, index + 1, query@, max) =~= fuzzy_view(
                before_results,
            ) + fuzzy_collect(*node, path, index as int, query@, max));
        }
        index = index + 1;
    }
    proof {
        assert(fuzzy_view(results@) =~= fuzzy_view(results@) + fuzzy_collect(
            *node,
            path,
            index as int,
            query@,
            max,
        ));
    }
}

/// The key `key` (relative to the node with `slots`) is reached through one
/// of the first `count` slots.
pub open spec fn covered<T>(slots: Seq<Slot<T>>, count: int, key: Seq<char>) -> bool {
    if key.len() == 0 {
        exists|i: int| 0 <= i < count && (#[trigger] slots[i]) is Leaf
    } else {
        exists|i: int| 0 <= i < count && #[trigger] slot_matches(slots[i], key)
    }
}

/// The traversal of the first `count` slots of a well-formed node lists each
/// entry reached through those slots exactly once, under its full key.
proof fn lemma_slots_entries<T>(node: Node<T>, prefix: Seq<char>, count: int)
    requires
        node_wf(node),
        0 <= count <= node.slots@.len(),
    ensures
        ({
            let e = slots_entries(node, prefix, count);
            &&& forall|i: int|
                #![trigger e[i]]
                0 <= i < e.len() ==> {
                    &&& is_prefix(prefix, e[i].0)
                    &&& lookup(node, e[i].0.skip(prefix.len() as int)) == Some(e[i].1)
                    &&& covered(node.slots@, count, e[i].0.skip(prefix.len() as int))
                }
            &&& forall|k: Seq<char>|
                #![trigger lookup(node, k)]
                lookup(node, k) is Some && covered(node.slots@, count, k) ==> exists|i: int|
                    0 <= i < e.len() && (#[trigger] e[i]).0 == prefix + k
            &&& forall|i: int, j: int|
                0 <= i < e.len() && 0 <= j < e.len() && i != j ==> (#[trigger] e[i]).0 != (
                #[trigger] e[j]).0
        }),
    decreases node, count,
{
    let e = slots_entries(node, prefix, count);
    let slots = node.slots@;
    if count == 0 {
        assert forall|k: Seq<char>| #![trigger lookup(node, k)] !covered(slots, 0, k) by {}
        return;
    }
    lemma_slots_entries(node, prefix, count - 1);
    let rest = slots_entries(node, prefix, count - 1);
    match slots[count - 1] {
        Slot::Leaf(value) => {
            let here = seq![(prefix, value)];
            assert(e == here + rest);
            lemma_lookup_leaf_at(slots, count - 1);
            assert(prefix.skip(prefix.len() as int) =~= Seq::<char>::empty());
            assert(prefix.take(prefix.len() as int) =~= prefix);
            assert forall|i: int|
                #![trigger e[i]]
                0 <= i < e.len() implies {
                    &&& is_prefix(prefix, e[i].0)
                    &&& lookup(node, e[i].0.skip(prefix.len() as int)) == Some(e[i].1)
                    &&& covered(slots, count, e[i].0.skip(prefix.len() as int))
                } by {
                if i == 0 {
                    assert(e[i] == (prefix, value));
                    assert(slots[count - 1] is Leaf);
                } else {
                    assert(e[i] == rest[i - 1]);
                    let rel = rest[i - 1].0.skip(prefix.len() as int);
                    assert(covered(slots, count - 1, rel));
                    if rel.len() == 0 {
                        let w = choose|w: int| 0 <= w < count - 1 && (#[trigger] slots[w]) is Leaf;
                        assert(slots[w] is Leaf);
                    } else {
                        let w = choose|w: int| 0 <= w < count - 1 && #[trigger] slot_matches(slots[w], rel);
                        assert(slot_matches(slots[w], rel));
                    }
                }
            }
            assert forall|k: Seq<char>|
                #![trigger lookup(node, k)]
                lookup(node, k) is Some && covered(slots, count, k) implies exists|i: int|
                    0 <= i < e.len() && (#[trigger] e[i]).0 == prefix + k by {
                if k.len() == 0 {
                    assert(e[0].0 == prefix + k) by {
                        assert(prefix + k =~= prefix);
                    }
                } else {
                    let w = choose|w: int| 0 <= w < count && #[trigger] slot_matches(slots[w], k);
                    assert(w != count - 1);
                    assert(covered(slots, count - 1, k));
                    let j = choose|j: int| 0 <= j < rest.len() && (#[trigger] rest[j]).0 == prefix + k;
                    assert(e[j + 1] == rest[j]);
                }
            }
            assert forall|i: int, j: int|
                0 <= i < e.len() && 0 <= j < e.len() && i != j implies (#[trigger] e[i]).0 != (
                #[trigger] e[j]).0 by {
                if i > 0 && j > 0 {
                    assert(e[i] == rest[i - 1] && e[j] == rest[j - 1]);
                } else {
                    let other = if i == 0 { j } else { i };
                    assert(e[other] == rest[other - 1]);
                    let rel = rest[other - 1].0.skip(prefix.len() as int);
                    if rest[other - 1].0 == prefix {
                        assert(rel =~= Seq::<char>::empty());
                        assert(covered(slots, count - 1, rel));
                        let w = choose|w: int| 0 <= w < count - 1 && (#[trigger] slots[w]) is Leaf;
                        assert(slots[w] is Leaf);
                    }
                }
            }
        },
        Slot::Child(edge, child) => {
            let path = prefix + edge@;
            assert(node_wf(child));
            lemma_slots_entries(child, path, child.slots@.len() as int);
            let here = node_entries(child, path);
            assert(e == here + rest);
            let ed = edge@;
            assert(ed.len() > 0);
            assert forall|i: int|
                #![trigger here[i]]
                0 <= i < here.len() implies {
                    &&& is_prefix(prefix, here[i].0)
                    &&& lookup(node, here[i].0.skip(prefix.len() as int)) == Some(here[i].1)
                    &&& slot_matches(slots[count - 1], here[i].0.skip(prefix.len() as int))
                } by {
                let k = here[i].0;
                let rel2 = k.skip(path.len() as int);
                assert(is_prefix(path, k));
                assert(k =~= path + rel2) by {
                    assert(k.take(path.len() as int) =~= path);
                }
                let rel = k.skip(prefix.len() as int);
                assert(rel =~= ed + rel2);
                assert(k.take(prefix.len() as int) =~= prefix);
                assert(rel.take(ed.len() as int) =~= ed);
                assert(slot_matches(slots[count - 1], rel));
                lemma_lookup_at(slots, rel, count - 1);
                assert(rel.skip(ed.len() as int) =~= rel2);
                let kk = child.slots@.len() as int;
                if rel2.len() == 0 {
                    let w = choose|w: int| 0 <= w < kk && (#[trigger] child.slots@[w]) is Leaf;
                    assert(child.slots@[w] is Leaf);
                } else {
                    let w = choose|w: int| 0 <= w < kk && #[trigger] slot_matches(child.slots@[w], rel2);
                    assert(slot_matches(child.slots@[w], rel2));
                }
            }
            assert forall|i: int|
                #![trigger e[i]]
                0 <= i < e.len() implies {
                    &&& is_prefix(prefix, e[i].0)
                    &&& lookup(node, e[i].0.skip(prefix.len() as int)) == Some(e[i].1)
                    &&& covered(slots, count, e[i].0.skip(prefix.len() as int))
                } by {
                if i < here.len() {
                    assert(e[i] == here[i]);
                    let rel = here[i].0.skip(prefix.len() as int);
                    assert(slot_matches(slots[count - 1], rel));
                } else {
                    assert(e[i] == rest[i - here.len()]);
                    let rel = rest[i - here.len()].0.skip(prefix.len() as int);
                    assert(covered(slots, count - 1, rel));
                    if rel.len() == 0 {
                        let w = choose|w: int| 0 <= w < count - 1 && (#[trigger] slots[w]) is Leaf;
                        assert(slots[w] is Leaf);
                    } else {
                        let w = choose|w: int| 0 <= w < count - 1 && #[trigger] slot_matches(slots[w], rel);
                        assert(slot_matches(slots[w], rel));
                    }
                }
            }
            assert forall|k: Seq<char>|
                #![trigger lookup(node, k)]
                lookup(node, k) is Some && covered(slots, count, k) implies exists|i: int|
                    0 <= i < e.len() && (#[trigger] e[i]).0 == prefix + k by {
                if k.len() > 0 && slot_matches(slots[count - 1], k) {
                    lemma_lookup_at(slots, k, count - 1);
                    let k2 = k.skip(ed.len() as int);
                    assert(lookup(child, k2) is Some);
                    let kk = child.slots@.len() as int;
                    if k2.len() == 0 {
                        assert(has_leaf(child.slots@));
                        let w = leaf_pos(child.slots@);
                        assert(child.slots@[w] is Leaf);
                        assert(covered(child.slots@, kk, k2));
                    } else {
                        assert(has_child_for(child.slots@, k2));
                        let w = child_for(child.slots@, k2);
                        assert(slot_matches(child.slots@[w], k2));
                        assert(covered(child.slots@, kk, k2));
                    }
                    let j = choose|j: int| 0 <= j < here.len() && (#[trigger] here[j]).0 == path + k2;
                    assert(e[j] == here[j]);
                    assert(path + k2 =~= prefix + k) by {
                        assert(k =~= ed + k2) by {
                            assert(k.take(ed.len() as int) =~= ed);
                        }
                    }
                } else {
                    if k.len() == 0 {
                        let w = choose|w: int| 0 <= w < count && (#[trigger] slots[w]) is Leaf;
                        assert(slots[w] is Leaf);
                        assert(covered(slots, count - 1, k));
                    } else {
                        let w = choose|w: int| 0 <= w < count && #[trigger] slot_matches(slots[w], k);
                        assert(w != count - 1);
                        assert(covered(slots, count - 1, k));
                    }
                    let j = choose|j: int| 0 <= j < rest.len() && (#[trigger] rest[j]).0 == prefix + k;
                    assert(e[j + here.len()] == rest[j]);
                }
            }
            assert forall|i: int, j: int|
                0 <= i < e.len() && 0 <= j < e.len() && i != j implies (#[trigger] e[i]).0 != (
                #[trigger] e[j]).0 by {
                if i < here.len() && j < here.len() {
                    assert(e[i] == here[i] && e[j] == here[j]);
                } else if i >= here.len() && j >= here.len() {
                    assert(e[i] == rest[i - here.len()] && e[j] == rest[j - here.len()]);
                } else {
                    let a = if i < here.len() { i } else { j };
                    let b = if i < here.len() { j } else { i };
                    assert(e[a] == here[a]);
                    assert(e[b] == rest[b - here.len()]);
                    let rel_a = here[a].0.skip(prefix.len() as int);
                    let rel_b = rest[b - here.len()].0.skip(prefix.len() as int);
                    assert(slot_matches(slots[count - 1], rel_a));
                    assert(covered(slots, count - 1, rel_b));
                    if here[a].0 == rest[b - here.len()].0 {
                        assert(rel_a == rel_b);
                        let w = choose|w: int| 0 <= w < count - 1 && #[trigger] slot_matches(slots[w], rel_b);
                        lemma_unique_match(slots, rel_b, w, count - 1);
                    }
                }
            }
        },
    }
}

/// The prefix view of a well-formed node lists each entry whose key
/// starts with `rest` exactly once, under its full key.
proof fn lemma_prefix_walk<T>(node: Node<T>, path: Seq<char>, rest: Seq<char>)
    requires
        node_wf(node),
    ensures
        ({
            let e = prefix_walk(node, path, rest);
            &&& forall|i: int|
                #![trigger e[i]]
                0 <= i < e.len() ==> {
                    &&& is_prefix(path + rest, e[i].0)
                    &&& is_prefix(path, e[i].0)
                    &&& lookup(node, e[i].0.skip(path.len() as int)) == Some(e[i].1)
                }
            &&& forall|k: Seq<char>|
                #![trigger lookup(node, k)]
                lookup(node, k) is Some && is_prefix(rest, k) ==> exists|i: int|
                    0 <= i < e.len() && (#[trigger] e[i]).0 == path + k
            &&& forall|i: int, j: int|
                0 <= i < e.len() && 0 <= j < e.len() && i != j ==> (#[trigger] e[i]).0 != (
                #[trigger] e[j]).0
        }),
    decreases rest.len(),
{
    let e = prefix_walk(node, path, rest);
    let slots = node.slots@;
    if rest.len() == 0 {
        lemma_slots_entries(node, path, slots.len() as int);
        assert(path + rest =~= path);
        assert forall|k: Seq<char>| #![trigger lookup(node, k)]
            lookup(node, k) is Some && is_prefix(rest, k) implies exists|i: int|
                0 <= i < e.len() && (#[trigger] e[i]).0 == path + k by {
            if k.len() == 0 {
                assert(slots[leaf_pos(slots)] is Leaf);
            } else {
                assert(slot_matches(slots[child_for(slots, k)], k));
            }
            assert(covered(slots, slots.len() as int, k));
        }
    } else if has_child_for(slots, rest) {
        let i = child_for(slots, rest);
        let edge = slots[i]->Child_0@;
        let child = slots[i]->Child_1;
        let rest2 = rest.skip(edge.len() as int);
        let path2 = path + edge;
        assert(node_wf(child));
        lemma_prefix_walk(child, path2, rest2);
        assert(e == prefix_walk(child, path2, rest2));
        assert(path2 + rest2 =~= path + rest) by {
            assert(rest =~= rest.take(edge.len() as int) + rest2);
        }
        assert forall|j: int| #![trigger e[j]] 0 <= j < e.len() implies {
            &&& is_prefix(path + rest, e[j].0)
            &&& is_prefix(path, e[j].0)
            &&& lookup(node, e[j].0.skip(path.len() as int)) == Some(e[j].1)
        } by {
            let k = e[j].0;
            assert(is_prefix(path2, k));
            assert(k.take(path.len() as int) =~= k.take(path2.len() as int).take(path.len() as int));
            let rel = k.skip(path.len() as int);
            assert(rel.take(edge.len() as int) =~= k.take(path2.len() as int).skip(path.len() as int));
            assert(slot_matches(slots[i], rel));
            lemma_lookup_at(slots, rel, i);
            assert(rel.skip(edge.len() as int) =~= k.skip(path2.len() as int));
        }
        assert forall|k: Seq<char>| #![trigger lookup(node, k)]
            lookup(node, k) is Some && is_prefix(rest, k) implies exists|j: int|
                0 <= j < e.len() && (#[trigger] e[j]).0 == path + k by {
            assert(k.take(edge.len() as int) =~= k.take(rest.len() as int).take(edge.len() as int));
            assert(slot_matches(slots[i], k));
            lemma_lookup_at(slots, k, i);
            let k2 = k.skip(edge.len() as int);
            assert(k2.take(rest2.len() as int) =~= k.take(rest.len() as int).skip(edge.len() as int));
            assert(lookup(child, k2) is Some);
            let j = choose|j: int| 0 <= j < e.len() && (#[trigger] e[j]).0 == path2 + k2;
            assert(path2 + k2 =~= path + k) by {
                assert(k =~= k.take(edge.len() as int) + k2);
            }
        }
    } else if has_extension(slots, rest) {
        let i = extension_for(slots, rest);
        let edge = slots[i]->Child_0@;
        let child = slots[i]->Child_1;
        let path2 = path + edge;
        assert(node_wf(child));
        lemma_slots_entries(child, path2, child.slots@.len() as int);
        assert(e == node_entries(child, path2));
        assert(edge.len() > 0);
        assert forall|j: int| #![trigger e[j]] 0 <= j < e.len() implies {
            &&& is_prefix(path + rest, e[j].0)
            &&& is_prefix(path, e[j].0)
            &&& lookup(node, e[j].0.skip(path.len() as int)) == Some(e[j].1)
        } by {
            let k = e[j].0;
            assert(is_prefix(path2, k));
            assert(k.take(path.len() as int) =~= k.take(path2.len() as int).take(path.len() as int));
            assert(k.take((path.len() + rest.len()) as int) =~= path + rest) by {
                assert(k.take((path.len() + rest.len()) as int) =~= k.take(path2.len() as int).take((path.len() + rest.len()) as int));
                assert(edge.take(rest.len() as int) =~= rest);
            }
            let rel = k.skip(path.len() as int);
            assert(rel.take(edge.len() as int) =~= k.take(path2.len() as int).skip(path.len() as int));
            assert(slot_matches(slots[i], rel));
            lemma_lookup_at(slots, rel, i);
            assert(rel.skip(edge.len() as int) =~= k.skip(path2.len() as int));
        }
        assert forall|k: Seq<char>| #![trigger lookup(node, k)]
            lookup(node, k) is Some && is_prefix(rest, k) implies exists|j: int|
                0 <= j < e.len() && (#[trigger] e[j]).0 == path + k by {
            assert(has_child_for(slots, k));
            let w = child_for(slots, k);
            assert(slot_matches(slots[w], k));
            let ew = slots[w]->Child_0@;
            assert(ew[0] == k.take(ew.len() as int)[0]);
            assert(edge[0] == edge.take(rest.len() as int)[0]);
            assert(k[0] == k.take(rest.len() as int)[0]);
            assert(w == i);
            lemma_lookup_at(slots, k, i);
            let k2 = k.skip(edge.len() as int);
            assert(lookup(child, k2) is Some);
            if k2.len() == 0 {
                assert(child.slots@[leaf_pos(child.slots@)] is Leaf);
            } else {
                assert(slot_matches(child.slots@[child_for(child.slots@, k2)], k2));
            }
            assert(covered(child.slots@, child.slots@.len() as int, k2));
            let j = choose|j: int| 0 <= j < e.len() && (#[trigger] e[j]).0 == path2 + k2;
            assert(path2 + k2 =~= path + k) by {
                assert(k =~= k.take(edge.len() as int) + k2);
            }
        }
    } else {
        assert forall|k: Seq<char>| #![trigger lookup(node, k)]
            lookup(node, k) is Some && is_prefix(rest, k) implies exists|j: int|
                0 <= j < e.len() && (#[trigger] e[j]).0 == path + k by {
            assert(has_child_for(slots, k));
            let w = child_for(slots, k);
            assert(slot_matches(slots[w], k));
            let ew = slots[w]->Child_0@;
            if ew.len() <= rest.len() {
                assert(rest.take(ew.len() as int) =~= k.take(rest.len() as int).take(ew.len() as int));
                assert(k.take(ew.len() as int) =~= k.take(rest.len() as int).take(ew.len() as int));
                assert(slot_matches(slots[w], rest));
            } else {
                assert(ew.take(rest.len() as int) =~= k.take(ew.len() as int).take(rest.len() as int));
                assert(k.take(rest.len() as int) =~= k.take(ew.len() as int).take(rest.len() as int));
                assert(slot_extends(slots[w], rest));
            }
        }
    }
}

/// The predicate on entries whose key starts with `prefix`.
pub open spec fn keyed_under<T>(prefix: Seq<char>) -> spec_fn((Seq<char>, T)) -> bool {
    |e: (Seq<char>, T)| is_prefix(prefix, e.0)
}

/// What traversal lists for slot `j` of `node`, with keys prefixed by `path`.
pub open spec fn slot_chunk<T>(node: Node<T>, path: Seq<char>, j: int) -> Seq<(Seq<char>, T)> {
    match node.slots@[j] {
        Slot::Leaf(value) => seq![(path, value)],
        Slot::Child(edge, child) => node_entries(child, path + edge@),
    }
}

/// No key below `slot` starts with `rest`: the slot is a leaf, or an edge
/// that neither starts `rest` nor is started by it.
pub open spec fn slot_excludes<T>(slot: Slot<T>, rest: Seq<char>) -> bool {
    match slot {
        Slot::Leaf(_) => true,
        Slot::Child(edge, _) => !is_prefix(edge@, rest) && !is_prefix(rest, edge@),
    }
}

proof fn lemma_filter_keeps_all<A>(s: Seq<A>, pred: spec_fn(A) -> bool)
    requires
        forall|i: int| 0 <= i < s.len() ==> pred(#[trigger] s[i]),
    ensures
        s.filter(pred) == s,
    decreases s.len(),
{
    reveal(Seq::filter);
    if s.len() > 0 {
        lemma_filter_keeps_all(s.drop_last(), pred);
        assert(s.drop_last().push(s.last()) =~= s);
    }
}

proof fn lemma_filter_drops_all<A>(s: Seq<A>, pred: spec_fn(A) -> bool)
    requires
        forall|i: int| 0 <= i < s.len() ==> !pred(#[trigger] s[i]),
    ensures
        s.filter(pred) == Seq::<A>::empty(),
    decreases s.len(),
{
    reveal(Seq::filter);
    if s.len() > 0 {
        lemma_filter_drops_all(s.drop_last(), pred);
    }
}

/// Every key listed for slot `j` is `path` (a leaf) or starts with `path`
/// followed by the slot's edge.
proof fn lemma_slot_chunk_keys<T>(node: Node<T>, path: Seq<char>, j: int)
    requires
        node_wf(node),
        0 <= j < node.slots@.len(),
    ensures
        forall|x: int|
            #![trigger slot_chunk(node, path, j)[x]]
            0 <= x < slot_chunk(node, path, j).len() ==> match node.slots@[j] {
                Slot::Leaf(_) => slot_chunk(node, path, j)[x].0 == path,
                Slot::Child(edge, _) => is_prefix(path + edge@, slot_chunk(node, path, j)[x].0),
            },
{
    match node.slots@[j] {
        Slot::Leaf(_) => {},
        Slot::Child(edge, child) => {
            assert(node_wf(child));
            lemma_slots_entries(child, path + edge@, child.slots@.len() as int);
        },
    }
}

/// The keys of `entries`, in order.
pub open spec fn entry_keys<T>(entries: Seq<(Seq<char>, T)>) -> Seq<Seq<char>> {
    entries.map_values(|entry: (Seq<char>, T)| entry.0)
}

/// The keys in `keys` that start with `prefix`, in order.
pub open spec fn keys_under(keys: Seq<Seq<char>>, prefix: Seq<char>) -> Seq<Seq<char>> {
    keys.filter(|key: Seq<char>| is_prefix(prefix, key))
}

/// The keys in `keys` that do not start with `prefix`, in order.
pub open spec fn keys_outside(keys: Seq<Seq<char>>, prefix: Seq<char>) -> Seq<Seq<char>> {
    keys.filter(|key: Seq<char>| !is_prefix(prefix, key))
}

/// `prefix` starts every key in `keys`.
pub open spec fn starts_all(keys: Seq<Seq<char>>, prefix: Seq<char>) -> bool {
    forall|i: int| 0 <= i < keys.len() ==> is_prefix(prefix, #[trigger] keys[i])
}

/// The longest sequence that starts every key in `keys`.
#[verifier::opaque]
pub open spec fn shared_prefix(keys: Seq<Seq<char>>) -> Seq<char> {
    choose|p: Seq<char>|
        starts_all(keys, p) && forall|q: Seq<char>| #[trigger] starts_all(keys, q) ==> q.len() <= p.len()
}

/// `keys` with its run of keys that start with `prefix` replaced by `block`.
pub open spec fn replace_block(keys: Seq<Seq<char>>, prefix: Seq<char>, block: Seq<Seq<char>>) -> Seq<
    Seq<char>,
>
    decreases keys.len(),
{
    if keys.len() == 0 {
        Seq::empty()
    } else if is_prefix(prefix, keys[0]) {
        block + keys_outside(keys, prefix)
    } else {
        seq![keys[0]] + replace_block(keys.drop_first(), prefix, block)
    }
}

/// The traversal order of the keys below a node at `path`, listed in
/// `keys`, after `key` (which starts with `path`) is added. Where no key
/// continues `key` past `path`, the new key comes first. Where some do and
/// their shared prefix starts `key`, the key goes below the node at that
/// prefix, and the run of those keys is replaced in place. Otherwise the
/// edge to them is split: the new key comes first, then that run, then the
/// other keys.
pub open spec fn keys_after_insert(keys: Seq<Seq<char>>, path: Seq<char>, key: Seq<char>) -> Seq<
    Seq<char>,
>
    decreases key.len() - path.len(),
{
    if key.len() <= path.len() {
        seq![key] + keys
    } else {
        let first = path.push(key[path.len() as int]);
        let group = keys_under(keys, first);
        if group.len() == 0 {
            seq![key] + keys
        } else {
            let node = shared_prefix(group);
            if path.len() < node.len() && is_prefix(node, key) {
                replace_block(keys, first, keys_after_insert(group, node, key))
            } else {
                seq![key] + group + keys_outside(keys, first)
            }
        }
    }
}

proof fn lemma_keys_add<T>(a: Seq<(Seq<char>, T)>, b: Seq<(Seq<char>, T)>)
    ensures
        entry_keys(a + b) == entry_keys(a) + entry_keys(b),
{
    assert(entry_keys(a + b) =~= entry_keys(a) + entry_keys(b));
}

/// A node reached by an edge in a compact tree lists at least one key.
proof fn lemma_compact_nonempty<T>(node: Node<T>, path: Seq<char>)
    requires
        node_wf(node),
        holds_enough(node),
        node_compact(node),
    ensures
        node_entries(node, path).len() > 0,
    decreases node,
{
    let slots = node.slots@;
    if has_leaf(slots) {
        let l = leaf_pos(slots);
        assert(slots[l] is Leaf);
        lemma_slots_entries(node, path, slots.len() as int);
        assert(lookup(node, Seq::<char>::empty()) is Some);
        assert(covered(slots, slots.len() as int, Seq::<char>::empty()));
    } else {
        assert(slots[0] is Child) by {
            if slots[0] is Leaf {
                assert(has_leaf(slots));
            }
        }
        let child = slots[0]->Child_1;
        lemma_compact_nonempty(child, path + slots[0]->Child_0@);
        lemma_slots_entries_count_chunk(node, path, slots.len() as int, 0);
    }
}

/// The traversal of the first `count` slots is at least as long as what
/// slot `j` lists, for `j < count`.
proof fn lemma_slots_entries_count_chunk<T>(node: Node<T>, path: Seq<char>, count: int, j: int)
    requires
        0 <= j < count <= node.slots@.len(),
    ensures
        slots_entries(node, path, count).len() >= slot_chunk(node, path, j).len(),
    decreases count,
{
    assert(slots_entries(node, path, count) == slot_chunk(node, path, count - 1) + slots_entries(
        node,
        path,
        count - 1,
    ));
    if j < count - 1 {
        lemma_slots_entries_count_chunk(node, path, count - 1, j);
    }
}

/// Filtering keys commutes with taking them from entries.
proof fn lemma_keys_filter<T>(s: Seq<(Seq<char>, T)>, prefix: Seq<char>)
    ensures
        keys_under(entry_keys(s), prefix) == entry_keys(s.filter(keyed_under::<T>(prefix))),
    decreases s.len(),
{
    reveal(Seq::filter);
    if s.len() > 0 {
        lemma_keys_filter(s.drop_last(), prefix);
        assert(entry_keys(s).drop_last() =~= entry_keys(s.drop_last()));
        if is_prefix(prefix, s.last().0) {
            assert(entry_keys(s.filter(keyed_under::<T>(prefix))) =~= entry_keys(
                s.drop_last().filter(keyed_under::<T>(prefix)),
            ).push(s.last().0));
        } else {
            assert(entry_keys(s.filter(keyed_under::<T>(prefix))) =~= entry_keys(
                s.drop_last().filter(keyed_under::<T>(prefix)),
            ));
        }
    } else {
        assert(entry_keys(s) =~= Seq::<Seq<char>>::empty());
        assert(entry_keys(s.filter(keyed_under::<T>(prefix))) =~= Seq::<Seq<char>>::empty());
    }
}

/// The keys below a node at `path` that continue with `c` are those that
/// the edge starting with `c` lists, or none.
proof fn lemma_group<T>(node: Node<T>, path: Seq<char>, c: char)
    requires
        node_wf(node),
    ensures
        forall|i: int|
            0 <= i < node.slots@.len() && (#[trigger] node.slots@[i]) is Child
                && node.slots@[i]->Child_0@[0] == c ==> keys_under(
                entry_keys(node_entries(node, path)),
                path.push(c),
            ) == entry_keys(slot_chunk(node, path, i)),
        (forall|i: int|
            0 <= i < node.slots@.len() && (#[trigger] node.slots@[i]) is Child
                ==> node.slots@[i]->Child_0@[0] != c) ==> keys_under(
            entry_keys(node_entries(node, path)),
            path.push(c),
        ) == Seq::<Seq<char>>::empty(),
{
    let one = seq![c];
    let slots = node.slots@;
    assert(path + one =~= path.push(c));
    lemma_prefix_walk_filter(node, path, one);
    lemma_keys_filter(node_entries(node, path), path.push(c));
    assert forall|i: int|
        0 <= i < slots.len() && (#[trigger] slots[i]) is Child && slots[i]->Child_0@[0] == c
        implies keys_under(entry_keys(node_entries(node, path)), path.push(c)) == entry_keys(
        slot_chunk(node, path, i),
    ) by {
        let e = slots[i]->Child_0@;
        if e.len() == 1 {
            assert(e =~= one);
            assert(slot_matches(slots[i], one));
            lemma_unique_match(slots, one, child_for(slots, one), i);
            assert(one.skip(1) =~= Seq::<char>::empty());
            assert(prefix_walk(slots[i]->Child_1, path + e, Seq::<char>::empty()) == node_entries(
                slots[i]->Child_1,
                path + e,
            ));
            assert(prefix_walk(node, path, one) == slot_chunk(node, path, i));
        } else {
            assert(one.take(1) =~= one);
            assert(!has_child_for(slots, one)) by {
                if has_child_for(slots, one) {
                    let j = child_for(slots, one);
                    let ej = slots[j]->Child_0@;
                    assert(ej[0] == one.take(ej.len() as int)[0]);
                    assert(j == i);
                }
            }
            assert(e.take(1) =~= one);
            assert(slot_extends(slots[i], one));
            lemma_unique_extension(slots, one, extension_for(slots, one), i);
            assert(prefix_walk(node, path, one) == slot_chunk(node, path, i));
        }
    }
    if forall|i: int|
        0 <= i < slots.len() && (#[trigger] slots[i]) is Child ==> slots[i]->Child_0@[0] != c {
        assert(!has_child_for(slots, one)) by {
            if has_child_for(slots, one) {
                let j = child_for(slots, one);
                let ej = slots[j]->Child_0@;
                assert(ej[0] == one.take(ej.len() as int)[0]);
            }
        }
        assert(!has_extension(slots, one)) by {
            if has_extension(slots, one) {
                let j = extension_for(slots, one);
                let ej = slots[j]->Child_0@;
                assert(ej[0] == ej.take(1)[0]);
            }
        }
        assert(entry_keys(Seq::<(Seq<char>, T)>::empty()) =~= Seq::<Seq<char>>::empty());
    }
}

/// What slot `j` lists appears in the traversal of the first `count`
/// slots: its entry `x` is entry `y` there.
proof fn lemma_chunk_in_entries<T>(node: Node<T>, path: Seq<char>, count: int, j: int, x: int) -> (y:
    int)
    requires
        0 <= j < count <= node.slots@.len(),
        0 <= x < slot_chunk(node, path, j).len(),
    ensures
        0 <= y < slots_entries(node, path, count).len(),
        slots_entries(node, path, count)[y] == slot_chunk(node, path, j)[x],
    decreases count,
{
    let here = slot_chunk(node, path, count - 1);
    let rest = slots_entries(node, path, count - 1);
    assert(slots_entries(node, path, count) == here + rest);
    if j == count - 1 {
        x
    } else {
        let y2 = lemma_chunk_in_entries(node, path, count - 1, j, x);
        here.len() + y2
    }
}

/// No key that slot `j` lists continues `path` with `c`, when the slot is
/// a leaf or an edge that starts otherwise.
proof fn lemma_chunk_outside<T>(node: Node<T>, path: Seq<char>, j: int, c: char)
    requires
        node_wf(node),
        0 <= j < node.slots@.len(),
        node.slots@[j] is Leaf || node.slots@[j]->Child_0@[0] != c,
    ensures
        forall|x: int|
            0 <= x < slot_chunk(node, path, j).len() ==> !is_prefix(
                path.push(c),
                (#[trigger] slot_chunk(node, path, j)[x]).0,
            ),
{
    lemma_slot_chunk_keys(node, path, j);
    assert forall|x: int| 0 <= x < slot_chunk(node, path, j).len() implies !is_prefix(
        path.push(c),
        (#[trigger] slot_chunk(node, path, j)[x]).0,
    ) by {
        let k = slot_chunk(node, path, j)[x].0;
        if is_prefix(path.push(c), k) {
            assert(k[path.len() as int] == k.take(path.len() as int + 1)[path.len() as int]);
            match node.slots@[j] {
                Slot::Leaf(_) => {},
                Slot::Child(edge, _) => {
                    assert(k[path.len() as int] == k.take((path + edge@).len() as int)[path.len() as int]);
                },
            }
        }
    }
}

/// Every key that slot `j` lists continues `path` with the first
/// character of its edge.
proof fn lemma_chunk_inside<T>(node: Node<T>, path: Seq<char>, j: int)
    requires
        node_wf(node),
        0 <= j < node.slots@.len(),
        node.slots@[j] is Child,
    ensures
        forall|x: int|
            0 <= x < slot_chunk(node, path, j).len() ==> is_prefix(
                path.push(node.slots@[j]->Child_0@[0]),
                (#[trigger] slot_chunk(node, path, j)[x]).0,
            ),
{
    lemma_slot_chunk_keys(node, path, j);
    let e = node.slots@[j]->Child_0@;
    assert forall|x: int| 0 <= x < slot_chunk(node, path, j).len() implies is_prefix(
        path.push(e[0]),
        (#[trigger] slot_chunk(node, path, j)[x]).0,
    ) by {
        let k = slot_chunk(node, path, j)[x].0;
        assert(k.take(path.len() as int + 1) =~= k.take((path + e).len() as int).take(path.len() as int + 1));
        assert((path + e).take(path.len() as int + 1) =~= path.push(e[0]));
    }
}

/// The shared prefix of the keys below a node reached by an edge in a
/// compact tree is the node's path.
proof fn lemma_shared_prefix<T>(node: Node<T>, path: Seq<char>)
    requires
        node_wf(node),
        holds_enough(node),
        node_compact(node),
    ensures
        shared_prefix(entry_keys(node_entries(node, path))) == path,
        entry_keys(node_entries(node, path)).len() > 0,
{
    let slots = node.slots@;
    let e = node_entries(node, path);
    let keys = entry_keys(e);
    lemma_compact_nonempty(node, path);
    lemma_slots_entries(node, path, slots.len() as int);
    assert(starts_all(keys, path)) by {
        assert forall|i: int| 0 <= i < keys.len() implies is_prefix(path, #[trigger] keys[i]) by {
            assert(keys[i] == e[i].0);
        }
    }
    assert forall|q: Seq<char>| #[trigger] starts_all(keys, q) implies q.len() <= path.len() by {
        if q.len() > path.len() {
            if has_leaf(slots) {
                let l = leaf_pos(slots);
                assert(slots[l] is Leaf);
                assert(lookup(node, Seq::<char>::empty()) is Some);
                assert(covered(slots, slots.len() as int, Seq::<char>::empty()));
                let i = choose|i: int|
                    0 <= i < e.len() && (#[trigger] e[i]).0 == path + Seq::<char>::empty();
                assert(keys[i] == e[i].0);
                assert(path + Seq::<char>::empty() =~= path);
                assert(is_prefix(q, keys[i]));
            } else {
                assert(slots[0] is Child && slots[1] is Child) by {
                    if slots[0] is Leaf {
                        assert(has_leaf(slots));
                    }
                    if slots[1] is Leaf {
                        assert(has_leaf(slots));
                    }
                }
                let c0 = slots[0]->Child_1;
                let c1 = slots[1]->Child_1;
                let e0 = slots[0]->Child_0@;
                let e1 = slots[1]->Child_0@;
                lemma_compact_nonempty(c0, path + e0);
                lemma_compact_nonempty(c1, path + e1);
                lemma_chunk_inside(node, path, 0);
                lemma_chunk_inside(node, path, 1);
                let y0 = lemma_chunk_in_entries(node, path, slots.len() as int, 0, 0);
                let y1 = lemma_chunk_in_entries(node, path, slots.len() as int, 1, 0);
                let k0 = keys[y0];
                let k1 = keys[y1];
                assert(k0 == slot_chunk(node, path, 0)[0].0);
                assert(k1 == slot_chunk(node, path, 1)[0].0);
                assert(is_prefix(q, k0) && is_prefix(q, k1));
                let n = path.len() as int;
                assert(k0[n] == k0.take(n + 1)[n]);
                assert(k1[n] == k1.take(n + 1)[n]);
                assert(k0[n] == k0.take(q.len() as int)[n]);
                assert(k1[n] == k1.take(q.len() as int)[n]);
                assert(path.push(e0[0])[n] == e0[0]);
                assert(path.push(e1[0])[n] == e1[0]);
            }
        }
    }
    let p = shared_prefix(keys);
    reveal(shared_prefix);
    assert(starts_all(keys, p) && forall|q: Seq<char>| #[trigger]
        starts_all(keys, q) ==> q.len() <= p.len());
    assert(is_prefix(p, keys[0]) && is_prefix(path, keys[0]));
    assert(p =~= path) by {
        assert(p == keys[0].take(p.len() as int));
        assert(path == keys[0].take(path.len() as int));
    }
}

/// The shared prefix of `keys` is `p` when `p` starts every key and is
/// itself one of them, or two of them go on past `p` differently.
pub proof fn lemma_shared_prefix_is(keys: Seq<Seq<char>>, p: Seq<char>)
    requires
        starts_all(keys, p),
        (exists|i: int| 0 <= i < keys.len() && keys[i] == p) || (exists|i: int, j: int|
            0 <= i < keys.len() && 0 <= j < keys.len() && keys[i].len() > p.len() && keys[j].len()
                > p.len() && keys[i][p.len() as int] != keys[j][p.len() as int]),
    ensures
        shared_prefix(keys) == p,
{
    assert forall|q: Seq<char>| #[trigger] starts_all(keys, q) implies q.len() <= p.len() by {
        if q.len() > p.len() {
            if exists|i: int| 0 <= i < keys.len() && keys[i] == p {
                let i = choose|i: int| 0 <= i < keys.len() && keys[i] == p;
                assert(is_prefix(q, keys[i]));
            } else {
                let (i, j) = choose|i: int, j: int|
                    0 <= i < keys.len() && 0 <= j < keys.len() && keys[i].len() > p.len()
                        && keys[j].len() > p.len() && keys[i][p.len() as int] != keys[j][p.len() as int];
                assert(is_prefix(q, keys[i]) && is_prefix(q, keys[j]));
                assert(keys[i][p.len() as int] == keys[i].take(q.len() as int)[p.len() as int]);
                assert(keys[j][p.len() as int] == keys[j].take(q.len() as int)[p.len() as int]);
            }
        }
    }
    let s = shared_prefix(keys);
    reveal(shared_prefix);
    assert(starts_all(keys, s) && forall|q: Seq<char>| #[trigger]
        starts_all(keys, q) ==> q.len() <= s.len());
    assert(keys.len() > 0);
    assert(is_prefix(s, keys[0]) && is_prefix(p, keys[0]));
    assert(s =~= p) by {
        assert(s == keys[0].take(s.len() as int));
        assert(p == keys[0].take(p.len() as int));
    }
}

/// Keys that none of which starts with `prefix` stay before the run.
proof fn lemma_rb_skip(a: Seq<Seq<char>>, b: Seq<Seq<char>>, prefix: Seq<char>, block: Seq<Seq<char>>)
    requires
        forall|x: int| 0 <= x < a.len() ==> !is_prefix(prefix, #[trigger] a[x]),
    ensures
        replace_block(a + b, prefix, block) == a + replace_block(b, prefix, block),
    decreases a.len(),
{
    if a.len() == 0 {
        assert(a + b =~= b);
        assert(a + replace_block(b, prefix, block) =~= replace_block(b, prefix, block));
    } else {
        assert((a + b)[0] == a[0]);
        assert((a + b).drop_first() =~= a.drop_first() + b);
        lemma_rb_skip(a.drop_first(), b, prefix, block);
        assert(a =~= seq![a[0]] + a.drop_first());
        assert(a + replace_block(b, prefix, block) =~= seq![a[0]] + (a.drop_first()
            + replace_block(b, prefix, block)));
    }
}

/// A non-empty run of keys that start with `prefix`, followed by keys
/// that do not, is replaced by `block`.
proof fn lemma_rb_hit(a: Seq<Seq<char>>, b: Seq<Seq<char>>, prefix: Seq<char>, block: Seq<Seq<char>>)
    requires
        a.len() > 0,
        forall|x: int| 0 <= x < a.len() ==> is_prefix(prefix, #[trigger] a[x]),
        forall|x: int| 0 <= x < b.len() ==> !is_prefix(prefix, #[trigger] b[x]),
    ensures
        replace_block(a + b, prefix, block) == block + b,
{
    let pred = |key: Seq<char>| !is_prefix(prefix, key);
    assert((a + b)[0] == a[0]);
    Seq::filter_distributes_over_add(a, b, pred);
    lemma_filter_drops_all(a, pred);
    lemma_filter_keeps_all(b, pred);
    assert(keys_outside(a + b, prefix) =~= b);
}

/// Keys of a concatenation are the keys of its parts.
proof fn lemma_outside_add(a: Seq<Seq<char>>, b: Seq<Seq<char>>, prefix: Seq<char>)
    ensures
        keys_outside(a + b, prefix) == keys_outside(a, prefix) + keys_outside(b, prefix),
{
    Seq::filter_distributes_over_add(a, b, |key: Seq<char>| !is_prefix(prefix, key));
}

/// Replacing the subtree of the edge at `i`, whose first character is `c`,
/// replaces the run of keys that continue `path` with `c` by what the new
/// subtree lists, in place.
proof fn lemma_keys_replace<T>(
    old: Node<T>,
    new: Node<T>,
    path: Seq<char>,
    count: int,
    i: int,
    block: Seq<Seq<char>>,
)
    requires
        node_wf(old),
        0 <= i < count <= old.slots@.len(),
        new.slots@.len() == old.slots@.len(),
        forall|j: int| 0 <= j < old.slots@.len() && j != i ==> new.slots@[j] == old.slots@[j],
        old.slots@[i] is Child,
        entry_keys(slot_chunk(new, path, i)) == block,
        slot_chunk(old, path, i).len() > 0,
    ensures
        entry_keys(slots_entries(new, path, count)) == replace_block(
            entry_keys(slots_entries(old, path, count)),
            path.push(old.slots@[i]->Child_0@[0]),
            block,
        ),
    decreases count,
{
    let c = old.slots@[i]->Child_0@[0];
    let p = path.push(c);
    let j = count - 1;
    let chunk_old = slot_chunk(old, path, j);
    let chunk_new = slot_chunk(new, path, j);
    assert(slots_entries(old, path, count) == chunk_old + slots_entries(old, path, j));
    assert(slots_entries(new, path, count) == chunk_new + slots_entries(new, path, j));
    lemma_keys_add(chunk_old, slots_entries(old, path, j));
    lemma_keys_add(chunk_new, slots_entries(new, path, j));
    if j == i {
        assert(new.slots@.take(j) =~= old.slots@.take(j));
        lemma_slots_entries_prefix(new, old, path, j);
        lemma_chunk_inside(old, path, i);
        lemma_slots_outside(old, path, j, c);
        let a = entry_keys(chunk_old);
        assert forall|x: int| 0 <= x < a.len() implies is_prefix(p, #[trigger] a[x]) by {
            assert(a[x] == chunk_old[x].0);
        }
        lemma_rb_hit(a, entry_keys(slots_entries(old, path, j)), p, block);
    } else {
        assert(new.slots@[j] == old.slots@[j]);
        assert(chunk_new == chunk_old);
        let a = entry_keys(chunk_old);
        assert(old.slots@[j] is Leaf || old.slots@[j]->Child_0@[0] != c) by {
            if old.slots@[j] is Child && old.slots@[j]->Child_0@[0] == c {
                assert(old.slots@[i] is Child);
            }
        }
        lemma_chunk_outside(old, path, j, c);
        assert forall|x: int| 0 <= x < a.len() implies !is_prefix(p, #[trigger] a[x]) by {
            assert(a[x] == chunk_old[x].0);
        }
        lemma_keys_replace(old, new, path, j, i, block);
        lemma_rb_skip(a, entry_keys(slots_entries(old, path, j)), p, block);
    }
}

/// When no slot among the first `count` is an edge starting with `c`, no
/// key they list continues `path` with `c`.
proof fn lemma_slots_outside<T>(node: Node<T>, path: Seq<char>, count: int, c: char)
    requires
        node_wf(node),
        0 <= count <= node.slots@.len(),
        forall|j: int|
            0 <= j < count && (#[trigger] node.slots@[j]) is Child ==> node.slots@[j]->Child_0@[0]
                != c,
    ensures
        forall|x: int|
            0 <= x < entry_keys(slots_entries(node, path, count)).len() ==> !is_prefix(
                path.push(c),
                #[trigger] entry_keys(slots_entries(node, path, count))[x],
            ),
    decreases count,
{
    if count > 0 {
        let j = count - 1;
        let chunk = slot_chunk(node, path, j);
        let rest = slots_entries(node, path, j);
        assert(slots_entries(node, path, count) == chunk + rest);
        lemma_slots_outside(node, path, j, c);
        lemma_chunk_outside(node, path, j, c);
        let all = entry_keys(slots_entries(node, path, count));
        assert forall|x: int| 0 <= x < all.len() implies !is_prefix(path.push(c), #[trigger] all[x]) by {
            if x < chunk.len() {
                assert(all[x] == chunk[x].0);
            } else {
                assert(all[x] == rest[x - chunk.len()].0);
                assert(entry_keys(rest)[x - chunk.len()] == rest[x - chunk.len()].0);
            }
        }
    }
}

/// Removing the edge at `i`, which starts with `c`, drops exactly the keys
/// that continue `path` with `c`.
proof fn lemma_keys_remove<T>(old: Node<T>, removed: Node<T>, path: Seq<char>, count: int, i: int)
    requires
        node_wf(old),
        0 <= i < old.slots@.len(),
        old.slots@[i] is Child,
        removed.slots@.len() >= old.slots@.len() - 1,
        removed.slots@.take(old.slots@.len() - 1) == old.slots@.remove(i),
        0 <= count <= old.slots@.len(),
    ensures
        keys_outside(
            entry_keys(slots_entries(old, path, count)),
            path.push(old.slots@[i]->Child_0@[0]),
        ) == entry_keys(slots_entries(removed, path, if count > i { count - 1 } else { count })),
    decreases count,
{
    let c = old.slots@[i]->Child_0@[0];
    let p = path.push(c);
    let pred = |key: Seq<char>| !is_prefix(p, key);
    if count == 0 {
        assert(entry_keys(slots_entries(old, path, 0)) =~= Seq::<Seq<char>>::empty());
        assert(keys_outside(Seq::<Seq<char>>::empty(), p) =~= Seq::<Seq<char>>::empty()) by {
            reveal(Seq::filter);
        }
        assert(entry_keys(slots_entries(removed, path, 0)) =~= Seq::<Seq<char>>::empty());
    } else {
        let j = count - 1;
        let chunk = slot_chunk(old, path, j);
        let rest = slots_entries(old, path, j);
        assert(slots_entries(old, path, count) == chunk + rest);
        lemma_keys_add(chunk, rest);
        lemma_outside_add(entry_keys(chunk), entry_keys(rest), p);
        lemma_keys_remove(old, removed, path, j, i);
        let a = entry_keys(chunk);
        if j == i {
            lemma_chunk_inside(old, path, i);
            assert forall|x: int| 0 <= x < a.len() implies !pred(#[trigger] a[x]) by {
                assert(a[x] == chunk[x].0);
            }
            lemma_filter_drops_all(a, pred);
            assert(keys_outside(a, p) + keys_outside(entry_keys(rest), p) =~= keys_outside(
                entry_keys(rest),
                p,
            ));
        } else {
            assert(old.slots@[j] is Leaf || old.slots@[j]->Child_0@[0] != c) by {
                if old.slots@[j] is Child && old.slots@[j]->Child_0@[0] == c {
                    assert(old.slots@[i] is Child);
                }
            }
            lemma_chunk_outside(old, path, j, c);
            assert forall|x: int| 0 <= x < a.len() implies pred(#[trigger] a[x]) by {
                assert(a[x] == chunk[x].0);
            }
            lemma_filter_keeps_all(a, pred);
            let rj = if j < i { j } else { j - 1 };
            assert(removed.slots@[rj] == removed.slots@.take(old.slots@.len() - 1)[rj]);
            assert(removed.slots@[rj] == old.slots@[j]);
            assert(slot_chunk(removed, path, rj) == chunk);
            let rc = if count > i { count - 1 } else { count };
            assert(rc == rj + 1);
            assert(slots_entries(removed, path, rc) == slot_chunk(removed, path, rj) + slots_entries(
                removed,
                path,
                rj,
            ));
            lemma_keys_add(slot_chunk(removed, path, rj), slots_entries(removed, path, rj));
        }
    }
}

/// `after` is `before` with a leaf slot added at the end.
pub open spec fn leaf_pushed<T>(before: Node<T>, after: Node<T>) -> bool {
    &&& after.slots@.len() == before.slots@.len() + 1
    &&& after.slots@.take(before.slots@.len() as int) == before.slots@
    &&& after.slots@.last() is Leaf
}

/// A leaf added at the end of a node's slots is listed first.
proof fn lemma_leaf_pushed_keys<T>(before: Node<T>, after: Node<T>, path: Seq<char>)
    requires
        leaf_pushed(before, after),
    ensures
        entry_keys(node_entries(after, path)) == seq![path] + entry_keys(node_entries(before, path)),
{
    let n = before.slots@.len() as int;
    assert(after.slots@.take(n) =~= before.slots@.take(n));
    lemma_slots_entries_prefix(after, before, path, n);
    assert(after.slots@[n] == after.slots@.last());
    assert(slot_chunk(after, path, n) == seq![(path, after.slots@[n]->Leaf_0)]);
    assert(slots_entries(after, path, n + 1) == slot_chunk(after, path, n) + slots_entries(after, path, n));
    lemma_keys_add(slot_chunk(after, path, n), slots_entries(before, path, n));
    assert(entry_keys(slot_chunk(after, path, n)) =~= seq![path]);
}

/// Keys are unchanged when one slot's subtree is replaced by one that lists
/// the same keys.
proof fn lemma_keys_same<T>(old: Node<T>, new: Node<T>, path: Seq<char>, count: int, i: int)
    requires
        0 <= count <= old.slots@.len(),
        new.slots@.len() == old.slots@.len(),
        forall|j: int| 0 <= j < old.slots@.len() && j != i ==> new.slots@[j] == old.slots@[j],
        0 <= i < old.slots@.len() ==> entry_keys(slot_chunk(new, path, i)) == entry_keys(
            slot_chunk(old, path, i),
        ),
    ensures
        entry_keys(slots_entries(new, path, count)) == entry_keys(slots_entries(old, path, count)),
    decreases count,
{
    if count > 0 {
        let j = count - 1;
        lemma_keys_same(old, new, path, j, i);
        assert(slots_entries(old, path, count) == slot_chunk(old, path, j) + slots_entries(old, path, j));
        assert(slots_entries(new, path, count) == slot_chunk(new, path, j) + slots_entries(new, path, j));
        lemma_keys_add(slot_chunk(old, path, j), slots_entries(old, path, j));
        lemma_keys_add(slot_chunk(new, path, j), slots_entries(new, path, j));
        if j != i {
            assert(new.slots@[j] == old.slots@[j]);
        }
    }
}

/// At the end of the key, a leaf added to the node is listed first.
proof fn lemma_keys_at_end<T>(old: Node<T>, fin: Node<T>, path: Seq<char>, rest: Seq<char>)
    requires
        rest.len() == 0,
    ensures
        leaf_pushed(old, fin) ==> entry_keys(node_entries(fin, path)) == keys_after_insert(
            entry_keys(node_entries(old, path)),
            path,
            path + rest,
        ),
{
    assert(path + rest =~= path);
    if leaf_pushed(old, fin) {
        lemma_leaf_pushed_keys(old, fin, path);
    }
}

/// Through an edge that `rest` continues: the keys of the node follow the
/// keys of the child.
proof fn lemma_keys_through<T>(
    old_node: Node<T>,
    final_node: Node<T>,
    position: int,
    path: Seq<char>,
    rest: Seq<char>,
    final_child: Node<T>,
    target: Node<T>,
    final_target: Node<T>,
)
    requires
        node_wf(old_node),
        0 <= position < old_node.slots@.len(),
        slot_matches(old_node.slots@[position], rest),
        final_node.slots@ == old_node.slots@.update(
            position,
            Slot::Child(old_node.slots@[position]->Child_0, final_child),
        ),
        ({
            let edge = old_node.slots@[position]->Child_0@;
            let child = old_node.slots@[position]->Child_1;
            let rest2 = rest.skip(edge.len() as int);
            &&& lookup(child, rest2) is None && node_compact(child) && leaf_pushed(
                target,
                final_target,
            ) ==> entry_keys(node_entries(final_child, path + edge)) == keys_after_insert(
                entry_keys(node_entries(child, path + edge)),
                path + edge,
                (path + edge) + rest2,
            )
            &&& lookup(child, rest2) is Some && entry_keys(
                node_entries(final_target, (path + edge) + rest2),
            ) == entry_keys(node_entries(target, (path + edge) + rest2)) ==> entry_keys(
                node_entries(final_child, path + edge),
            ) == entry_keys(node_entries(child, path + edge))
        }),
    ensures
        lookup(old_node, rest) is None && node_compact(old_node) && leaf_pushed(target, final_target)
            ==> entry_keys(node_entries(final_node, path)) == keys_after_insert(
            entry_keys(node_entries(old_node, path)),
            path,
            path + rest,
        ),
        lookup(old_node, rest) is Some && entry_keys(node_entries(final_target, path + rest))
            == entry_keys(node_entries(target, path + rest)) ==> entry_keys(
            node_entries(final_node, path),
        ) == entry_keys(node_entries(old_node, path)),
{
    let slots = old_node.slots@;
    let edge = slots[position]->Child_0@;
    let child = slots[position]->Child_1;
    let rest2 = rest.skip(edge.len() as int);
    let key = path + rest;
    assert((path + edge) + rest2 =~= key) by {
        assert(rest =~= rest.take(edge.len() as int) + rest2);
    }
    lemma_lookup_at(slots, rest, position);
    assert(lookup(old_node, rest) == lookup(child, rest2));
    assert(forall|j: int| 0 <= j < slots.len() && j != position ==> final_node.slots@[j] == slots[j]);
    if lookup(old_node, rest) is None && node_compact(old_node) && leaf_pushed(target, final_target) {
        assert(holds_enough(child) && node_compact(child));
        assert(node_wf(child));
        let keys = entry_keys(node_entries(old_node, path));
        let c = edge[0];
        assert(c == rest[0]) by {
            assert(edge[0] == rest.take(edge.len() as int)[0]);
        }
        assert(key[path.len() as int] == c);
        let first = path.push(c);
        lemma_group(old_node, path, c);
        let group = keys_under(keys, first);
        assert(group == entry_keys(node_entries(child, path + edge)));
        lemma_shared_prefix(child, path + edge);
        assert(is_prefix(path + edge, key)) by {
            assert(key.take((path + edge).len() as int) =~= path + edge);
        }
        lemma_compact_nonempty(child, path + edge);
        lemma_keys_replace(
            old_node,
            final_node,
            path,
            slots.len() as int,
            position,
            entry_keys(node_entries(final_child, path + edge)),
        );
    }
    if lookup(old_node, rest) is Some && entry_keys(node_entries(final_target, key)) == entry_keys(
        node_entries(target, key),
    ) {
        lemma_keys_same(old_node, final_node, path, slots.len() as int, position);
    }
}

/// A new edge from a node, for a key that no edge of the node starts: the
/// new key is listed first.
proof fn lemma_keys_new_edge<T>(
    old_node: Node<T>,
    final_node: Node<T>,
    path: Seq<char>,
    rest: Seq<char>,
    target: Node<T>,
    final_target: Node<T>,
)
    requires
        node_wf(old_node),
        rest.len() > 0,
        no_edge_starts(old_node.slots@, rest[0]),
        appended_edge(old_node.slots@, final_node.slots@, rest, final_target),
        target.slots@.len() == 0,
    ensures
        leaf_pushed(target, final_target) ==> entry_keys(node_entries(final_node, path))
            == keys_after_insert(entry_keys(node_entries(old_node, path)), path, path + rest),
{
    if leaf_pushed(target, final_target) {
        let n = old_node.slots@.len() as int;
        let key = path + rest;
        lemma_group(old_node, path, rest[0]);
        assert(key[path.len() as int] == rest[0]);
        lemma_slots_entries_prefix(final_node, old_node, path, n);
        assert(final_node.slots@[n] == final_node.slots@.last());
        assert(slots_entries(final_node, path, n + 1) == slot_chunk(final_node, path, n)
            + slots_entries(final_node, path, n));
        lemma_keys_add(slot_chunk(final_node, path, n), slots_entries(old_node, path, n));
        lemma_leaf_pushed_keys(target, final_target, key);
        assert(slots_entries(target, key, 0) =~= Seq::<(Seq<char>, T)>::empty());
        assert(entry_keys(node_entries(target, key)) =~= Seq::<Seq<char>>::empty());
        assert(seq![key] + Seq::<Seq<char>>::empty() =~= seq![key]);
    }
}

/// Splitting the edge at `i`, which `rest` leaves in its middle or ends in:
/// the new key is listed first, then the keys below that edge, then the
/// other keys.
proof fn lemma_keys_split<T>(
    old: Node<T>,
    fin: Node<T>,
    i: int,
    path: Seq<char>,
    rest: Seq<char>,
    common: int,
    mid: Node<T>,
    mid2: Node<T>,
    target: Node<T>,
    final_target: Node<T>,
)
    requires
        node_wf(old),
        0 <= i < old.slots@.len(),
        old.slots@[i] is Child,
        0 < common < old.slots@[i]->Child_0@.len(),
        common <= rest.len(),
        rest.take(common) == old.slots@[i]->Child_0@.take(common),
        common < rest.len() ==> rest[common] != old.slots@[i]->Child_0@[common],
        mid.slots@.len() == 1,
        mid.slots@[0] is Child,
        mid.slots@[0]->Child_0@ == old.slots@[i]->Child_0@.skip(common),
        mid.slots@[0]->Child_1 == old.slots@[i]->Child_1,
        fin.slots@.len() == old.slots@.len(),
        fin.slots@.take(old.slots@.len() - 1) == old.slots@.remove(i),
        fin.slots@.last() is Child,
        fin.slots@.last()->Child_0@ == old.slots@[i]->Child_0@.take(common),
        fin.slots@.last()->Child_1 == mid2,
        common == rest.len() ==> target == mid && final_target == mid2,
        common < rest.len() ==> target.slots@.len() == 0 && appended_edge(
            mid.slots@,
            mid2.slots@,
            rest.skip(common),
            final_target,
        ),
    ensures
        node_compact(old) && leaf_pushed(target, final_target) ==> entry_keys(node_entries(fin, path)) == keys_after_insert(
            entry_keys(node_entries(old, path)),
            path,
            path + rest,
        ),
{
    if node_compact(old) && leaf_pushed(target, final_target) {
        let slots = old.slots@;
        let n = slots.len() as int;
        let e = slots[i]->Child_0@;
        let child = slots[i]->Child_1;
        let head = e.take(common);
        let tail = e.skip(common);
        let key = path + rest;
        let keys = entry_keys(node_entries(old, path));
        let c = e[0];
        assert(rest[0] == c) by {
            assert(rest[0] == rest.take(common)[0]);
            assert(e[0] == e.take(common)[0]);
        }
        assert(key[path.len() as int] == c);
        let first = path.push(c);
        assert(node_wf(child) && holds_enough(child) && node_compact(child));
        lemma_group(old, path, c);
        let group = keys_under(keys, first);
        assert(group == entry_keys(node_entries(child, path + e)));
        lemma_shared_prefix(child, path + e);
        assert(!is_prefix(path + e, key)) by {
            if is_prefix(path + e, key) {
                assert(key.take((path + e).len() as int)[path.len() + common] == e[common]);
                if common < rest.len() {
                    assert(key[path.len() + common] == rest[common]);
                } else {
                    assert(key.len() < (path + e).len());
                }
            }
        }
        // What the split node lists.
        let q = path + head;
        let below = node_entries(child, q + tail);
        assert(q + tail =~= path + e) by {
            assert(e =~= head + tail);
        }
        assert(slots_entries(mid, q, 0) =~= Seq::<(Seq<char>, T)>::empty());
        assert(node_entries(mid, q) =~= below);
        if common == rest.len() {
            assert(q =~= key) by {
                assert(rest =~= rest.take(common));
            }
            lemma_leaf_pushed_keys(mid, mid2, q);
        } else {
            let r2 = rest.skip(common);
            assert(q + r2 =~= key) by {
                assert(rest =~= rest.take(common) + r2);
            }
            assert(mid2.slots@.take(1) =~= mid.slots@.take(1));
            lemma_slots_entries_prefix(mid2, mid, q, 1);
            assert(mid2.slots@[1] == mid2.slots@.last());
            assert(slots_entries(mid2, q, 2) == slot_chunk(mid2, q, 1) + slots_entries(mid2, q, 1));
            lemma_keys_add(slot_chunk(mid2, q, 1), slots_entries(mid, q, 1));
            lemma_leaf_pushed_keys(target, final_target, key);
            assert(slots_entries(target, key, 0) =~= Seq::<(Seq<char>, T)>::empty());
            assert(entry_keys(node_entries(target, key)) =~= Seq::<Seq<char>>::empty());
            assert(seq![key] + Seq::<Seq<char>>::empty() =~= seq![key]);
        }
        assert(entry_keys(node_entries(mid2, q)) == seq![key] + group);
        // The other slots.
        lemma_keys_remove(old, fin, path, n, i);
        assert(slots_entries(fin, path, n) == slot_chunk(fin, path, n - 1) + slots_entries(
            fin,
            path,
            n - 1,
        ));
        assert(fin.slots@[n - 1] == fin.slots@.last());
        assert(slot_chunk(fin, path, n - 1) == node_entries(mid2, q));
        lemma_keys_add(slot_chunk(fin, path, n - 1), slots_entries(fin, path, n - 1));
        assert(seq![key] + group + keys_outside(keys, first) =~= (seq![key] + group) + keys_outside(
            keys,
            first,
        ));
    }
}

/// `keys` without `key`.
pub open spec fn keys_without(keys: Seq<Seq<char>>, key: Seq<char>) -> Seq<Seq<char>> {
    keys.filter(other_than(key))
}

/// Whether a key is other than `key`.
pub open spec fn other_than(key: Seq<char>) -> spec_fn(Seq<char>) -> bool {
    |k: Seq<char>| k != key
}

/// The traversal order of the keys below a node at `path`, listed in
/// `keys`, after `key` is removed. An absent key changes nothing. The key
/// of the node itself is dropped in place. Below an edge, the run of keys
/// that the edge leads to is replaced by what is left of it, in place; but
/// when nothing is left, or what is left all goes on past the node's end
/// the same way (the node is merged into its edge), that run moves to the
/// front.
pub open spec fn keys_after_remove(keys: Seq<Seq<char>>, path: Seq<char>, key: Seq<char>) -> Seq<
    Seq<char>,
>
    decreases key.len() - path.len(),
{
    if !keys.contains(key) {
        keys
    } else if key.len() <= path.len() {
        keys_without(keys, key)
    } else {
        let first = path.push(key[path.len() as int]);
        let group = keys_under(keys, first);
        let node = shared_prefix(group);
        if path.len() < node.len() && is_prefix(node, key) {
            let left = keys_after_remove(group, node, key);
            if left.len() == 0 || node.len() < shared_prefix(left).len() {
                left + keys_outside(keys, first)
            } else {
                replace_block(keys, first, left)
            }
        } else {
            keys
        }
    }
}

/// A key is listed below a node exactly when the node holds it.
proof fn lemma_contains_lookup<T>(node: Node<T>, path: Seq<char>, rest: Seq<char>)
    requires
        node_wf(node),
    ensures
        entry_keys(node_entries(node, path)).contains(path + rest) == lookup(node, rest) is Some,
{
    let slots = node.slots@;
    let e = node_entries(node, path);
    let keys = entry_keys(e);
    lemma_slots_entries(node, path, slots.len() as int);
    if keys.contains(path + rest) {
        let i = choose|i: int| 0 <= i < keys.len() && keys[i] == path + rest;
        assert(keys[i] == e[i].0);
        assert(e[i].0.skip(path.len() as int) =~= rest);
    }
    if lookup(node, rest) is Some {
        if rest.len() == 0 {
            assert(slots[leaf_pos(slots)] is Leaf);
        } else {
            assert(slot_matches(slots[child_for(slots, rest)], rest));
        }
        assert(covered(slots, slots.len() as int, rest));
        let i = choose|i: int| 0 <= i < e.len() && (#[trigger] e[i]).0 == path + rest;
        assert(keys[i] == e[i].0);
    }
}

/// Removing the leaf slot at `l` drops the node's own key and keeps the
/// others in order.
proof fn lemma_keys_remove_leaf<T>(old: Node<T>, new: Node<T>, path: Seq<char>, count: int, l: int)
    requires
        node_wf(old),
        0 <= l < old.slots@.len(),
        old.slots@[l] is Leaf,
        new.slots@ == old.slots@.remove(l),
        0 <= count <= old.slots@.len(),
    ensures
        keys_without(entry_keys(slots_entries(old, path, count)), path) == entry_keys(
            slots_entries(new, path, if count > l { count - 1 } else { count }),
        ),
    decreases count,
{
    let pred = other_than(path);
    if count == 0 {
        assert(entry_keys(slots_entries(old, path, 0)) =~= Seq::<Seq<char>>::empty());
        assert(keys_without(Seq::<Seq<char>>::empty(), path) =~= Seq::<Seq<char>>::empty()) by {
            reveal(Seq::filter);
        }
        assert(entry_keys(slots_entries(new, path, 0)) =~= Seq::<Seq<char>>::empty());
    } else {
        let j = count - 1;
        let chunk = slot_chunk(old, path, j);
        let rest = slots_entries(old, path, j);
        assert(slots_entries(old, path, count) == chunk + rest);
        lemma_keys_add(chunk, rest);
        Seq::filter_distributes_over_add(entry_keys(chunk), entry_keys(rest), pred);
        lemma_keys_remove_leaf(old, new, path, j, l);
        let a = entry_keys(chunk);
        if j == l {
            assert(a =~= seq![path]);
            assert(!pred(a[0]));
            lemma_filter_drops_all(a, pred);
            assert(a.filter(pred) + keys_without(entry_keys(rest), path) =~= keys_without(
                entry_keys(rest),
                path,
            ));
        } else {
            assert(old.slots@[j] is Child) by {
                if old.slots@[j] is Leaf {
                    assert(old.slots@[l] is Leaf);
                }
            }
            lemma_slot_chunk_keys(old, path, j);
            assert forall|x: int| 0 <= x < a.len() implies pred(#[trigger] a[x]) by {
                assert(a[x] == chunk[x].0);
                assert(is_prefix(path + old.slots@[j]->Child_0@, a[x]));
            }
            lemma_filter_keeps_all(a, pred);
            let rj = if j < l { j } else { j - 1 };
            assert(new.slots@[rj] == old.slots@[j]);
            assert(slot_chunk(new, path, rj) == chunk);
            let rc = if count > l { count - 1 } else { count };
            assert(rc == rj + 1);
            assert(slots_entries(new, path, rc) == slot_chunk(new, path, rj) + slots_entries(
                new,
                path,
                rj,
            ));
            lemma_keys_add(slot_chunk(new, path, rj), slots_entries(new, path, rj));
        }
    }
}

/// Removing a key held below the edge at `position`: the order follows
/// what is left below that edge.
proof fn lemma_remove_spec_through<T>(node: Node<T>, path: Seq<char>, rest: Seq<char>, position: int)
    requires
        node_wf(node),
        node_compact(node),
        0 <= position < node.slots@.len(),
        slot_matches(node.slots@[position], rest),
        lookup(node, rest) is Some,
    ensures
        ({
            let e = node.slots@[position]->Child_0@;
            let child = node.slots@[position]->Child_1;
            let keys = entry_keys(node_entries(node, path));
            let first = path.push(e[0]);
            let left = keys_after_remove(
                entry_keys(node_entries(child, path + e)),
                path + e,
                path + rest,
            );
            keys_after_remove(keys, path, path + rest) == if left.len() == 0 || (path + e).len()
                < shared_prefix(left).len() {
                left + keys_outside(keys, first)
            } else {
                replace_block(keys, first, left)
            }
        }),
{
    let slots = node.slots@;
    let e = slots[position]->Child_0@;
    let child = slots[position]->Child_1;
    let keys = entry_keys(node_entries(node, path));
    let key = path + rest;
    lemma_contains_lookup(node, path, rest);
    assert(key.len() > path.len()) by {
        lemma_lookup_at(slots, rest, position);
    }
    let c = e[0];
    assert(c == rest[0]) by {
        assert(e[0] == rest.take(e.len() as int)[0]);
    }
    assert(key[path.len() as int] == c);
    lemma_group(node, path, c);
    assert(node_wf(child) && holds_enough(child) && node_compact(child));
    lemma_shared_prefix(child, path + e);
    assert(is_prefix(path + e, key)) by {
        assert(key.take((path + e).len() as int) =~= path + e);
    }
}

/// What is left below the edge at `position` stays in place when the node
/// there still holds enough.
proof fn lemma_keys_left_in_place<T>(
    old: Node<T>,
    updated: Node<T>,
    path: Seq<char>,
    rest: Seq<char>,
    position: int,
    new_child: Node<T>,
)
    requires
        node_wf(old),
        node_compact(old),
        0 <= position < old.slots@.len(),
        slot_matches(old.slots@[position], rest),
        lookup(old, rest) is Some,
        updated.slots@ == old.slots@.update(
            position,
            Slot::Child(old.slots@[position]->Child_0, new_child),
        ),
        node_wf(new_child),
        holds_enough(new_child),
        node_compact(new_child),
        entry_keys(node_entries(new_child, path + old.slots@[position]->Child_0@))
            == keys_after_remove(
            entry_keys(
                node_entries(
                    old.slots@[position]->Child_1,
                    path + old.slots@[position]->Child_0@,
                ),
            ),
            path + old.slots@[position]->Child_0@,
            path + rest,
        ),
    ensures
        entry_keys(node_entries(updated, path)) == keys_after_remove(
            entry_keys(node_entries(old, path)),
            path,
            path + rest,
        ),
{
    let e = old.slots@[position]->Child_0@;
    let child = old.slots@[position]->Child_1;
    lemma_remove_spec_through(old, path, rest, position);
    lemma_shared_prefix(new_child, path + e);
    assert(node_wf(child) && holds_enough(child) && node_compact(child));
    lemma_compact_nonempty(child, path + e);
    lemma_keys_replace(
        old,
        updated,
        path,
        old.slots@.len() as int,
        position,
        entry_keys(node_entries(new_child, path + e)),
    );
}

/// What is left below the edge at `position` moves to the front when it is
/// empty or goes on past the node's end the same way.
proof fn lemma_keys_left_moved<T>(
    old: Node<T>,
    fin: Node<T>,
    path: Seq<char>,
    rest: Seq<char>,
    position: int,
    left: Seq<Seq<char>>,
)
    requires
        node_wf(old),
        node_compact(old),
        0 <= position < old.slots@.len(),
        slot_matches(old.slots@[position], rest),
        lookup(old, rest) is Some,
        left == keys_after_remove(
            entry_keys(
                node_entries(
                    old.slots@[position]->Child_1,
                    path + old.slots@[position]->Child_0@,
                ),
            ),
            path + old.slots@[position]->Child_0@,
            path + rest,
        ),
        left.len() == 0 || (path + old.slots@[position]->Child_0@).len() < shared_prefix(left).len(),
        fin.slots@.len() >= old.slots@.len() - 1,
        fin.slots@.take(old.slots@.len() - 1) == old.slots@.remove(position),
        entry_keys(node_entries(fin, path)) == left + entry_keys(
            slots_entries(fin, path, old.slots@.len() - 1),
        ),
    ensures
        entry_keys(node_entries(fin, path)) == keys_after_remove(
            entry_keys(node_entries(old, path)),
            path,
            path + rest,
        ),
{
    lemma_remove_spec_through(old, path, rest, position);
    lemma_keys_remove(old, fin, path, old.slots@.len() as int, position);
}

/// The entry `e`, with its value set to `value` if its key is `key`.
pub open spec fn set_value<T>(key: Seq<char>, value: T) -> spec_fn((Seq<char>, T)) -> (
    Seq<char>,
    T,
) {
    |e: (Seq<char>, T)|
        if e.0 == key {
            (key, value)
        } else {
            e
        }
}

/// Changing what one slot lists changes the traversal of the first `count`
/// slots by `f`, when `f` leaves what every other slot lists as it is.
proof fn lemma_slots_entries_replace<T>(
    old: Node<T>,
    new: Node<T>,
    path: Seq<char>,
    count: int,
    i: int,
    f: spec_fn((Seq<char>, T)) -> (Seq<char>, T),
)
    requires
        0 <= count <= old.slots@.len(),
        new.slots@.len() == old.slots@.len(),
        0 <= i < old.slots@.len(),
        forall|j: int| 0 <= j < old.slots@.len() && j != i ==> new.slots@[j] == old.slots@[j],
        forall|j: int|
            0 <= j < old.slots@.len() && j != i ==> (#[trigger] slot_chunk(old, path, j)).map_values(
                f,
            ) == slot_chunk(old, path, j),
        slot_chunk(new, path, i) == slot_chunk(old, path, i).map_values(f),
    ensures
        slots_entries(new, path, count) == slots_entries(old, path, count).map_values(f),
    decreases count,
{
    if count > 0 {
        let j = count - 1;
        lemma_slots_entries_replace(old, new, path, j, i, f);
        let a = slot_chunk(old, path, j);
        let b = slots_entries(old, path, j);
        assert(slots_entries(new, path, count) == slot_chunk(new, path, j) + slots_entries(new, path, j));
        assert(slots_entries(old, path, count) == a + b);
        if j != i {
            assert(slot_chunk(new, path, j) == a);
            assert(a.map_values(f) == a);
        }
        assert((a + b).map_values(f) =~= a.map_values(f) + b.map_values(f));
    } else {
        assert(slots_entries(old, path, count).map_values(f) =~= Seq::<(Seq<char>, T)>::empty());
    }
}

/// Setting the value of a key that no entry has changes nothing.
proof fn lemma_set_value_misses<T>(s: Seq<(Seq<char>, T)>, key: Seq<char>, value: T)
    requires
        forall|x: int| 0 <= x < s.len() ==> (#[trigger] s[x]).0 != key,
    ensures
        s.map_values(set_value(key, value)) == s,
{
    assert(s.map_values(set_value(key, value)) =~= s);
}

/// No slot of `node` but the one at `i` lists the key `path + rest`, when
/// the edge at `i` starts with the first character of `rest`.
proof fn lemma_other_chunks_miss<T>(node: Node<T>, path: Seq<char>, rest: Seq<char>, i: int, value: T)
    requires
        node_wf(node),
        0 <= i < node.slots@.len(),
        rest.len() > 0,
        node.slots@[i] is Child,
        node.slots@[i]->Child_0@[0] == rest[0],
    ensures
        forall|j: int|
            0 <= j < node.slots@.len() && j != i ==> (#[trigger] slot_chunk(node, path, j)).map_values(
                set_value(path + rest, value),
            ) == slot_chunk(node, path, j),
{
    assert forall|j: int| 0 <= j < node.slots@.len() && j != i implies (#[trigger] slot_chunk(
        node,
        path,
        j,
    )).map_values(set_value(path + rest, value)) == slot_chunk(node, path, j) by {
        let c = slot_chunk(node, path, j);
        lemma_slot_chunk_keys(node, path, j);
        assert forall|x: int| 0 <= x < c.len() implies (#[trigger] c[x]).0 != path + rest by {
            if c[x].0 == path + rest {
                match node.slots@[j] {
                    Slot::Leaf(_) => {
                        assert((path + rest).len() > path.len());
                    },
                    Slot::Child(edge, _) => {
                        let k = path + rest;
                        assert(k.take((path + edge@).len() as int) == path + edge@);
                        assert(k[path.len() as int] == rest[0]);
                        assert(k.take((path + edge@).len() as int)[path.len() as int] == edge@[0]);
                    },
                }
            }
        }
        lemma_set_value_misses(c, path + rest, value);
    }
}

/// Walking through the edge at `position` to set the value of `path + rest`
/// sets it in the traversal of the node when it is set in the traversal of
/// the child.
proof fn lemma_through_entries<T>(
    old_node: Node<T>,
    final_node: Node<T>,
    position: int,
    path: Seq<char>,
    rest: Seq<char>,
    final_child: Node<T>,
    target: Node<T>,
    final_target: Node<T>,
    value: T,
)
    requires
        node_wf(old_node),
        0 <= position < old_node.slots@.len(),
        slot_matches(old_node.slots@[position], rest),
        final_node.slots@ == old_node.slots@.update(
            position,
            Slot::Child(old_node.slots@[position]->Child_0, final_child),
        ),
        ({
            let edge = old_node.slots@[position]->Child_0@;
            let old_child = old_node.slots@[position]->Child_1;
            let rest2 = rest.skip(edge.len() as int);
            let full2 = (path + edge) + rest2;
            lookup(old_child, rest2) is Some && node_entries(final_target, full2) == node_entries(
                target,
                full2,
            ).map_values(set_value(full2, value)) ==> node_entries(final_child, path + edge)
                == node_entries(old_child, path + edge).map_values(set_value(full2, value))
        }),
    ensures
        lookup(old_node, rest) is Some && node_entries(final_target, path + rest) == node_entries(
            target,
            path + rest,
        ).map_values(set_value(path + rest, value)) ==> node_entries(final_node, path)
            == node_entries(old_node, path).map_values(set_value(path + rest, value)),
{
    let edge = old_node.slots@[position]->Child_0@;
    let old_child = old_node.slots@[position]->Child_1;
    let rest2 = rest.skip(edge.len() as int);
    let full = path + rest;
    assert((path + edge) + rest2 =~= full) by {
        assert(rest =~= rest.take(edge.len() as int) + rest2);
    }
    if lookup(old_node, rest) is Some && node_entries(final_target, full) == node_entries(
        target,
        full,
    ).map_values(set_value(full, value)) {
        lemma_lookup_at(old_node.slots@, rest, position);
        assert(lookup(old_child, rest2) is Some);
        assert(node_entries(final_child, path + edge) == node_entries(old_child, path + edge).map_values(
            set_value(full, value),
        ));
        assert(edge[0] == rest[0]) by {
            assert(edge[0] == rest.take(edge.len() as int)[0]);
        }
        lemma_other_chunks_miss(old_node, path, rest, position, value);
        lemma_slots_entries_replace(
            old_node,
            final_node,
            path,
            old_node.slots@.len() as int,
            position,
            set_value(full, value),
        );
    }
}

/// Replacing the leaf value of a node sets the value of `path` in its
/// traversal, in place.
proof fn lemma_leaf_entries<T>(old: Node<T>, new: Node<T>, path: Seq<char>, l: int, value: T)
    requires
        node_wf(old),
        0 <= l < old.slots@.len(),
        old.slots@[l] is Leaf,
        new.slots@ == old.slots@.update(l, Slot::Leaf(value)),
    ensures
        node_entries(new, path) == node_entries(old, path).map_values(set_value(path, value)),
{
    let f = set_value(path, value);
    assert forall|j: int| 0 <= j < old.slots@.len() && j != l implies (#[trigger] slot_chunk(
        old,
        path,
        j,
    )).map_values(f) == slot_chunk(old, path, j) by {
        let c = slot_chunk(old, path, j);
        assert(old.slots@[j] is Child) by {
            if old.slots@[j] is Leaf {
                assert(old.slots@[l] is Leaf);
            }
        }
        lemma_slot_chunk_keys(old, path, j);
        assert forall|x: int| 0 <= x < c.len() implies (#[trigger] c[x]).0 != path by {
            assert(is_prefix(path + old.slots@[j]->Child_0@, c[x].0));
        }
        lemma_set_value_misses(c, path, value);
    }
    assert(slot_chunk(new, path, l) =~= slot_chunk(old, path, l).map_values(f));
    lemma_slots_entries_replace(old, new, path, old.slots@.len() as int, l, f);
}

/// The prefix view through the edge at `position`, which starts `rest`, is
/// the prefix view of its child for the rest of `rest`.
proof fn lemma_walk_through<T>(node: Node<T>, position: int, path: Seq<char>, rest: Seq<char>)
    requires
        slots_wf(node.slots@),
        0 <= position < node.slots@.len(),
        slot_matches(node.slots@[position], rest),
    ensures
        prefix_walk(node, path, rest) == prefix_walk(
            node.slots@[position]->Child_1,
            path + node.slots@[position]->Child_0@,
            rest.skip(node.slots@[position]->Child_0@.len() as int),
        ),
{
    lemma_lookup_at(node.slots@, rest, position);
    assert(has_child_for(node.slots@, rest));
    lemma_unique_match(node.slots@, rest, child_for(node.slots@, rest), position);
}

/// The prefix view of a key that leaves the edge at `position` in its
/// middle, or ends inside it, is what the node that a split puts there
/// lists under that key.
proof fn lemma_walk_split<T>(
    node: Node<T>,
    position: int,
    path: Seq<char>,
    rest: Seq<char>,
    common: int,
    mid: Node<T>,
    target: Node<T>,
)
    requires
        node_wf(node),
        0 <= position < node.slots@.len(),
        node.slots@[position] is Child,
        0 < common < node.slots@[position]->Child_0@.len(),
        common <= rest.len(),
        rest.take(common) == node.slots@[position]->Child_0@.take(common),
        common < rest.len() ==> rest[common] != node.slots@[position]->Child_0@[common],
        mid.slots@.len() == 1,
        mid.slots@[0] is Child,
        mid.slots@[0]->Child_0@ == node.slots@[position]->Child_0@.skip(common),
        mid.slots@[0]->Child_1 == node.slots@[position]->Child_1,
        common == rest.len() ==> target == mid,
        common < rest.len() ==> target.slots@.len() == 0,
    ensures
        prefix_walk(node, path, rest) == node_entries(target, path + rest),
{
    let slots = node.slots@;
    let e = slots[position]->Child_0@;
    assert(e[0] == rest[0]) by {
        assert(e[0] == e.take(common)[0]);
        assert(rest[0] == rest.take(common)[0]);
    }
    assert(!has_child_for(slots, rest)) by {
        if has_child_for(slots, rest) {
            let j = child_for(slots, rest);
            let ej = slots[j]->Child_0@;
            assert(ej[0] == rest.take(ej.len() as int)[0]);
            assert(j == position);
            if common < rest.len() {
                assert(rest.take(e.len() as int)[common] == rest[common]);
            }
        }
    }
    if common == rest.len() {
        assert(rest =~= e.take(common)) by {
            assert(rest.take(common) =~= rest);
        }
        assert(slot_extends(slots[position], rest));
        let i = extension_for(slots, rest);
        lemma_unique_extension(slots, rest, i, position);
        let tail = mid.slots@[0]->Child_0@;
        assert(path + e =~= (path + rest) + tail) by {
            assert(e =~= e.take(common) + e.skip(common));
        }
        assert(slots_entries(mid, path + rest, 0) =~= Seq::<(Seq<char>, T)>::empty());
        assert(node_entries(mid, path + rest) =~= node_entries(
            slots[position]->Child_1,
            path + e,
        ));
    } else {
        assert(!has_extension(slots, rest)) by {
            if has_extension(slots, rest) {
                let j = extension_for(slots, rest);
                let ej = slots[j]->Child_0@;
                assert(ej[0] == ej.take(rest.len() as int)[0]);
                assert(j == position);
                assert(e.take(rest.len() as int)[common] == e[common]);
            }
        }
        assert(node_entries(target, path + rest) =~= Seq::<(Seq<char>, T)>::empty());
    }
}

/// Filtering the traversal of the first `count` slots by a key prefix that
/// reaches past `path` keeps only what slot `i` lists, when every other slot
/// holds no key with that prefix.
proof fn lemma_slots_filter<T>(node: Node<T>, path: Seq<char>, rest: Seq<char>, count: int, i: int)
    requires
        node_wf(node),
        0 <= count <= node.slots@.len(),
        rest.len() > 0,
        forall|j: int|
            0 <= j < node.slots@.len() && j != i ==> slot_excludes(#[trigger] node.slots@[j], rest),
    ensures
        slots_entries(node, path, count).filter(keyed_under::<T>(path + rest)) == if 0 <= i
            < count {
            slot_chunk(node, path, i).filter(keyed_under::<T>(path + rest))
        } else {
            Seq::<(Seq<char>, T)>::empty()
        },
    decreases count,
{
    let pred = keyed_under::<T>(path + rest);
    if count > 0 {
        let j = count - 1;
        let chunk = slot_chunk(node, path, j);
        let tail = slots_entries(node, path, j);
        assert(slots_entries(node, path, count) == chunk + tail);
        lemma_slots_filter(node, path, rest, j, i);
        Seq::filter_distributes_over_add(chunk, tail, pred);
        if j != i {
            lemma_slot_chunk_keys(node, path, j);
            assert forall|x: int| 0 <= x < chunk.len() implies !pred(#[trigger] chunk[x]) by {
                let k = chunk[x].0;
                if pred(chunk[x]) {
                    assert(is_prefix(path + rest, k));
                    match node.slots@[j] {
                        Slot::Leaf(_) => {
                            assert(k == path);
                        },
                        Slot::Child(edge, _) => {
                            let e = edge@;
                            assert(is_prefix(path + e, k));
                            let rel = k.skip(path.len() as int);
                            assert(rel.take(e.len() as int) =~= k.take((path + e).len() as int).skip(
                                path.len() as int,
                            ));
                            assert(rel.take(rest.len() as int) =~= k.take(
                                (path + rest).len() as int,
                            ).skip(path.len() as int));
                            assert((path + e).skip(path.len() as int) =~= e);
                            assert((path + rest).skip(path.len() as int) =~= rest);
                            assert(rel.take(e.len() as int) == e);
                            assert(rel.take(rest.len() as int) == rest);
                            if e.len() <= rest.len() {
                                assert(rel.take(rest.len() as int).take(e.len() as int) =~= rel.take(
                                    e.len() as int,
                                ));
                                assert(rest.take(e.len() as int) == e);
                                assert(is_prefix(e, rest));
                            } else {
                                assert(rel.take(e.len() as int).take(rest.len() as int) =~= rel.take(
                                    rest.len() as int,
                                ));
                                assert(e.take(rest.len() as int) == rest);
                                assert(is_prefix(rest, e));
                            }
                        },
                    }
                }
            }
            lemma_filter_drops_all(chunk, pred);
            assert(chunk.filter(pred) + tail.filter(pred) =~= tail.filter(pred));
        } else {
            assert(tail.filter(pred) =~= Seq::<(Seq<char>, T)>::empty());
            assert(chunk.filter(pred) + tail.filter(pred) =~= chunk.filter(pred));
        }
    }
}

/// The prefix view of a well-formed node is its traversal, filtered down to
/// the keys that start with `path + rest`.
proof fn lemma_prefix_walk_filter<T>(node: Node<T>, path: Seq<char>, rest: Seq<char>)
    requires
        node_wf(node),
    ensures
        prefix_walk(node, path, rest) == node_entries(node, path).filter(
            keyed_under::<T>(path + rest),
        ),
    decreases rest.len(),
{
    let slots = node.slots@;
    let all = node_entries(node, path);
    let pred = keyed_under::<T>(path + rest);
    if rest.len() == 0 {
        lemma_slots_entries(node, path, slots.len() as int);
        assert(path + rest =~= path);
        lemma_filter_keeps_all(all, pred);
    } else if has_child_for(slots, rest) {
        let i = child_for(slots, rest);
        let edge = slots[i]->Child_0@;
        let child = slots[i]->Child_1;
        let rest2 = rest.skip(edge.len() as int);
        let path2 = path + edge;
        assert(node_wf(child));
        lemma_prefix_walk_filter(child, path2, rest2);
        assert(path2 + rest2 =~= path + rest) by {
            assert(rest =~= rest.take(edge.len() as int) + rest2);
        }
        assert(edge[0] == rest[0]) by {
            assert(edge[0] == rest.take(edge.len() as int)[0]);
        }
        assert forall|j: int| 0 <= j < slots.len() && j != i implies slot_excludes(
            #[trigger] slots[j],
            rest,
        ) by {
            if slots[j] is Child {
                let ej = slots[j]->Child_0@;
                if is_prefix(ej, rest) {
                    assert(ej[0] == rest.take(ej.len() as int)[0]);
                }
                if is_prefix(rest, ej) {
                    assert(rest[0] == ej.take(rest.len() as int)[0]);
                }
            }
        }
        lemma_slots_filter(node, path, rest, slots.len() as int, i);
    } else if has_extension(slots, rest) {
        let i = extension_for(slots, rest);
        let edge = slots[i]->Child_0@;
        let child = slots[i]->Child_1;
        let path2 = path + edge;
        assert(node_wf(child));
        assert(rest[0] == edge[0]) by {
            assert(rest[0] == edge.take(rest.len() as int)[0]);
        }
        assert forall|j: int| 0 <= j < slots.len() && j != i implies slot_excludes(
            #[trigger] slots[j],
            rest,
        ) by {
            if slots[j] is Child {
                let ej = slots[j]->Child_0@;
                if is_prefix(ej, rest) {
                    assert(slot_matches(slots[j], rest));
                }
                if is_prefix(rest, ej) {
                    assert(rest[0] == ej.take(rest.len() as int)[0]);
                }
            }
        }
        lemma_slots_filter(node, path, rest, slots.len() as int, i);
        let chunk = node_entries(child, path2);
        lemma_slot_chunk_keys(node, path, i);
        assert forall|x: int| 0 <= x < chunk.len() implies pred(#[trigger] chunk[x]) by {
            let k = chunk[x].0;
            assert(slot_chunk(node, path, i)[x] == chunk[x]);
            assert(is_prefix(path2, k));
            assert(k.take((path + rest).len() as int) =~= path + rest) by {
                assert(k.take((path + rest).len() as int) =~= k.take(path2.len() as int).take(
                    (path + rest).len() as int,
                ));
                assert(edge.take(rest.len() as int) =~= rest);
            }
        }
        lemma_filter_keeps_all(chunk, pred);
    } else {
        assert forall|j: int| 0 <= j < slots.len() && j != -1 implies slot_excludes(
            #[trigger] slots[j],
            rest,
        ) by {
            if slots[j] is Child {
                if is_prefix(slots[j]->Child_0@, rest) {
                    assert(slot_matches(slots[j], rest));
                }
                if is_prefix(rest, slots[j]->Child_0@) {
                    assert(slot_extends(slots[j], rest));
                }
            }
        }
        lemma_slots_filter(node, path, rest, slots.len() as int, -1);
    }
}

/// The key `key` (relative to the node with `slots`) is reached through one
/// of the slots from position `start` on.
pub open spec fn covered_from<T>(slots: Seq<Slot<T>>, start: int, key: Seq<char>) -> bool {
    if key.len() == 0 {
        exists|i: int| start <= i < slots.len() && (#[trigger] slots[i]) is Leaf
    } else {
        exists|i: int| start <= i < slots.len() && #[trigger] slot_matches(slots[i], key)
    }
}

/// Fuzzy collection over the slots of a well-formed node from `start` on
/// lists each entry reached through them that is within `max` edits of
/// `query` exactly once, under its full key and with its distance.
#[verifier::spinoff_prover]
#[verifier::rlimit(40)]
proof fn lemma_fuzzy_collect<T>(
    node: Node<T>,
    prefix: Seq<char>,
    start: int,
    query: Seq<char>,
    max: int,
)
    requires
        node_wf(node),
        0 <= start <= node.slots@.len(),
    ensures
        ({
            let e = fuzzy_collect(node, prefix, start, query, max);
            &&& forall|i: int|
                #![trigger e[i]]
                0 <= i < e.len() ==> {
                    &&& is_prefix(prefix, e[i].0)
                    &&& lookup(node, e[i].0.skip(prefix.len() as int)) is Some
                    &&& covered_from(node.slots@, start, e[i].0.skip(prefix.len() as int))
                    &&& e[i].1 == levenshtein(e[i].0, query)
                    &&& e[i].1 <= max
                }
            &&& forall|k: Seq<char>|
                #![trigger lookup(node, k)]
                lookup(node, k) is Some && covered_from(node.slots@, start, k) && levenshtein(
                    prefix + k,
                    query,
                ) <= max ==> exists|i: int| 0 <= i < e.len() && (#[trigger] e[i]).0 == prefix + k
            &&& forall|i: int, j: int|
                0 <= i < e.len() && 0 <= j < e.len() && i != j ==> (#[trigger] e[i]).0 != (
                #[trigger] e[j]).0
        }),
    decreases node, node.slots@.len() - start,
{
    let e = fuzzy_collect(node, prefix, start, query, max);
    let slots = node.slots@;
    if start == slots.len() {
        assert forall|k: Seq<char>| #![trigger lookup(node, k)] !covered_from(slots, start, k) by {}
        return;
    }
    lemma_fuzzy_collect(node, prefix, start + 1, query, max);
    let rest = fuzzy_collect(node, prefix, start + 1, query, max);
    assert(prefix.skip(prefix.len() as int) =~= Seq::<char>::empty());
    assert(prefix.take(prefix.len() as int) =~= prefix);
    assert(prefix + Seq::<char>::empty() =~= prefix);
    match slots[start] {
        Slot::Leaf(value) => {
            let here = if levenshtein(prefix, query) <= max {
                seq![(prefix, levenshtein(prefix, query) as int)]
            } else {
                Seq::<(Seq<char>, int)>::empty()
            };
            assert(e == here + rest);
            lemma_lookup_leaf_at(slots, start);
            assert forall|i: int|
                #![trigger e[i]]
                0 <= i < e.len() implies {
                    &&& is_prefix(prefix, e[i].0)
                    &&& lookup(node, e[i].0.skip(prefix.len() as int)) is Some
                    &&& covered_from(slots, start, e[i].0.skip(prefix.len() as int))
                    &&& e[i].1 == levenshtein(e[i].0, query)
                    &&& e[i].1 <= max
                } by {
                if i < here.len() {
                    assert(e[i] == here[i]);
                    assert(slots[start] is Leaf);
                } else {
                    assert(e[i] == rest[i - here.len()]);
                    let rel = rest[i - here.len()].0.skip(prefix.len() as int);
                    assert(covered_from(slots, start + 1, rel));
                    if rel.len() == 0 {
                        let w = choose|w: int| start + 1 <= w < slots.len() && (#[trigger] slots[w]) is Leaf;
                        assert(slots[w] is Leaf);
                    } else {
                        let w = choose|w: int| start + 1 <= w < slots.len() && #[trigger] slot_matches(slots[w], rel);
                        assert(slot_matches(slots[w], rel));
                    }
                }
            }
            assert forall|k: Seq<char>|
                #![trigger lookup(node, k)]
                lookup(node, k) is Some && covered_from(slots, start, k) && levenshtein(prefix + k, query) <= max
                implies exists|i: int| 0 <= i < e.len() && (#[trigger] e[i]).0 == prefix + k by {
                if k.len() == 0 {
                    assert(prefix + k =~= prefix);
                    assert(e[0] == here[0]);
                } else {
                    let w = choose|w: int| start <= w < slots.len() && #[trigger] slot_matches(slots[w], k);
                    assert(w != start);
                    assert(covered_from(slots, start + 1, k));
                    let j = choose|j: int| 0 <= j < rest.len() && (#[trigger] rest[j]).0 == prefix + k;
                    assert(e[j + here.len()] == rest[j]);
                }
            }
            assert forall|i: int, j: int|
                0 <= i < e.len() && 0 <= j < e.len() && i != j implies (#[trigger] e[i]).0 != (
                #[trigger] e[j]).0 by {
                if i >= here.len() && j >= here.len() {
                    assert(e[i] == rest[i - here.len()] && e[j] == rest[j - here.len()]);
                } else {
                    let other = if i < here.len() { j } else { i };
                    assert(e[other] == rest[other - here.len()]);
                    let rel = rest[other - here.len()].0.skip(prefix.len() as int);
                    if rest[other - here.len()].0 == prefix {
                        assert(rel =~= Seq::<char>::empty());
                        assert(covered_from(slots, start + 1, rel));
                        let w = choose|w: int| start + 1 <= w < slots.len() && (#[trigger] slots[w]) is Leaf;
                        assert(slots[w] is Leaf);
                    }
                }
            }
        },
        Slot::Child(edge, child) => {
            let path = prefix + edge@;
            assert(node_wf(child));
            lemma_fuzzy_collect(child, path, 0, query, max);
            let here = fuzzy_collect(child, path, 0, query, max);
            assert(e == here + rest);
            let ed = edge@;
            assert(ed.len() > 0);
            assert forall|i: int|
                #![trigger here[i]]
                0 <= i < here.len() implies {
                    &&& is_prefix(prefix, here[i].0)
                    &&& lookup(node, here[i].0.skip(prefix.len() as int)) is Some
                    &&& slot_matches(slots[start], here[i].0.skip(prefix.len() as int))
                } by {
                let k = here[i].0;
                let rel2 = k.skip(path.len() as int);
                assert(is_prefix(path, k));
                assert(k =~= path + rel2) by {
                    assert(k.take(path.len() as int) =~= path);
                }
                let rel = k.skip(prefix.len() as int);
                assert(rel =~= ed + rel2);
                assert(k.take(prefix.len() as int) =~= prefix);
                assert(rel.take(ed.len() as int) =~= ed);
                assert(slot_matches(slots[start], rel));
                lemma_lookup_at(slots, rel, start);
                assert(rel.skip(ed.len() as int) =~= rel2);
            }
            assert forall|i: int|
                #![trigger e[i]]
                0 <= i < e.len() implies {
                    &&& is_prefix(prefix, e[i].0)
                    &&& lookup(node, e[i].0.skip(prefix.len() as int)) is Some
                    &&& covered_from(slots, start, e[i].0.skip(prefix.len() as int))
                    &&& e[i].1 == levenshtein(e[i].0, query)
                    &&& e[i].1 <= max
                } by {
                if i < here.len() {
                    assert(e[i] == here[i]);
                    let rel = here[i].0.skip(prefix.len() as int);
                    assert(slot_matches(slots[start], rel));
                } else {
                    assert(e[i] == rest[i - here.len()]);
                    let rel = rest[i - here.len()].0.skip(prefix.len() as int);
                    assert(covered_from(slots, start + 1, rel));
                    if rel.len() == 0 {
                        let w = choose|w: int| start + 1 <= w < slots.len() && (#[trigger] slots[w]) is Leaf;
                        assert(slots[w] is Leaf);
                    } else {
                        let w = choose|w: int| start + 1 <= w < slots.len() && #[trigger] slot_matches(slots[w], rel);
                        assert(slot_matches(slots[w], rel));
                    }
                }
            }
            assert forall|k: Seq<char>|
                #![trigger lookup(node, k)]
                lookup(node, k) is Some && covered_from(slots, start, k) && levenshtein(prefix + k, query) <= max
                implies exists|i: int| 0 <= i < e.len() && (#[trigger] e[i]).0 == prefix + k by {
                if k.len() > 0 && slot_matches(slots[start], k) {
                    lemma_lookup_at(slots, k, start);
                    let k2 = k.skip(ed.len() as int);
                    assert(lookup(child, k2) is Some);
                    if k2.len() == 0 {
                        assert(has_leaf(child.slots@));
                        let w = leaf_pos(child.slots@);
                        assert(child.slots@[w] is Leaf);
                        assert(covered_from(child.slots@, 0, k2));
                    } else {
                        assert(has_child_for(child.slots@, k2));
                        let w = child_for(child.slots@, k2);
                        assert(slot_matches(child.slots@[w], k2));
                        assert(covered_from(child.slots@, 0, k2));
                    }
                    assert(path + k2 =~= prefix + k) by {
                        assert(k =~= ed + k2) by {
                            assert(k.take(ed.len() as int) =~= ed);
                        }
                    }
                    let j = choose|j: int| 0 <= j < here.len() && (#[trigger] here[j]).0 == path + k2;
                    assert(e[j] == here[j]);
                } else {
                    if k.len() == 0 {
                        let w = choose|w: int| start <= w < slots.len() && (#[trigger] slots[w]) is Leaf;
                        assert(slots[w] is Leaf);
                        assert(covered_from(slots, start + 1, k));
                    } else {
                        let w = choose|w: int| start <= w < slots.len() && #[trigger] slot_matches(slots[w], k);
                        assert(w != start);
                        assert(covered_from(slots, start + 1, k));
                    }
                    let j = choose|j: int| 0 <= j < rest.len() && (#[trigger] rest[j]).0 == prefix + k;
                    assert(e[j + here.len()] == rest[j]);
                }
            }
            assert forall|i: int, j: int|
                0 <= i < e.len() && 0 <= j < e.len() && i != j implies (#[trigger] e[i]).0 != (
                #[trigger] e[j]).0 by {
                if i < here.len() && j < here.len() {
                    assert(e[i] == here[i] && e[j] == here[j]);
                } else if i >= here.len() && j >= here.len() {
                    assert(e[i] == rest[i - here.len()] && e[j] == rest[j - here.len()]);
                } else {
                    let a = if i < here.len() { i } else { j };
                    let b = if i < here.len() { j } else { i };
                    assert(e[a] == here[a]);
                    assert(e[b] == rest[b - here.len()]);
                    let rel_a = here[a].0.skip(prefix.len() as int);
                    let rel_b = rest[b - here.len()].0.skip(prefix.len() as int);
                    assert(slot_matches(slots[start], rel_a));
                    assert(covered_from(slots, start + 1, rel_b));
                    if here[a].0 == rest[b - here.len()].0 {
                        assert(rel_a == rel_b);
                        let w = choose|w: int| start + 1 <= w < slots.len() && #[trigger] slot_matches(slots[w], rel_b);
                        lemma_unique_match(slots, rel_b, w, start);
                    }
                }
            }
        },
    }
}

impl<T> RadixTree<T> {
    /// Traversal lists every entry of the map exactly once, under its key and
    /// with its value; the number of entries is the size of the map.
    pub proof fn lemma_entries_are_the_map(&self)
        requires
            self.wf(),
        ensures
            forall|i: int|
                #![trigger self.entries()[i]]
                0 <= i < self.entries().len() ==> self@.contains_key(self.entries()[i].0)
                    && self@[self.entries()[i].0] == self.entries()[i].1,
            forall|k: Seq<char>|
                #![trigger self@.contains_key(k)]
                self@.contains_key(k) ==> exists|i: int|
                    0 <= i < self.entries().len() && (#[trigger] self.entries()[i]).0 == k,
            forall|i: int, j: int|
                0 <= i < self.entries().len() && 0 <= j < self.entries().len() && i != j
                    ==> (#[trigger] self.entries()[i]).0 != (#[trigger] self.entries()[j]).0,
            self.entries().len() == self@.len(),
    {
        let e = self.entries();
        let root = self.root;
        let empty = Seq::<char>::empty();
        lemma_slots_entries(root, empty, root.slots@.len() as int);
        assert forall|i: int| #![trigger e[i]] 0 <= i < e.len() implies self@.contains_key(e[i].0)
            && self@[e[i].0] == e[i].1 by {
            assert(e[i].0.skip(0) =~= e[i].0);
        }
        assert forall|k: Seq<char>| #![trigger self@.contains_key(k)] self@.contains_key(k) implies exists|i: int|
            0 <= i < e.len() && (#[trigger] e[i]).0 == k by {
            assert(lookup(root, k) is Some);
            if k.len() == 0 {
                assert(has_leaf(root.slots@));
                assert(root.slots@[leaf_pos(root.slots@)] is Leaf);
            } else {
                assert(has_child_for(root.slots@, k));
                assert(slot_matches(root.slots@[child_for(root.slots@, k)], k));
            }
            assert(covered(root.slots@, root.slots@.len() as int, k));
            assert(empty + k =~= k);
        }
        let keys = e.map_values(|entry: (Seq<char>, T)| entry.0);
        assert(keys.no_duplicates());
        assert(keys.to_set() =~= self@.dom()) by {
            assert forall|k: Seq<char>| keys.to_set().contains(k) implies self@.dom().contains(k) by {
                let i = choose|i: int| 0 <= i < keys.len() && keys[i] == k;
                assert(e[i].0 == k);
            }
            assert forall|k: Seq<char>| self@.dom().contains(k) implies keys.to_set().contains(k) by {
                assert(self@.contains_key(k));
                let i = choose|i: int| 0 <= i < e.len() && (#[trigger] e[i]).0 == k;
                assert(keys[i] == k);
            }
        }
        keys.unique_seq_to_set();
    }

    /// The prefix view lists every entry whose key starts with `prefix`
    /// exactly once, under its key and with its value, and nothing else.
    pub proof fn lemma_prefix_entries_are_the_prefixed_map(&self, prefix: Seq<char>)
        requires
            self.wf(),
        ensures
            forall|i: int|
                #![trigger self.prefix_entries(prefix)[i]]
                0 <= i < self.prefix_entries(prefix).len() ==> {
                    &&& is_prefix(prefix, self.prefix_entries(prefix)[i].0)
                    &&& self@.contains_key(self.prefix_entries(prefix)[i].0)
                    &&& self@[self.prefix_entries(prefix)[i].0] == self.prefix_entries(prefix)[i].1
                },
            forall|k: Seq<char>|
                #![trigger self@.contains_key(k)]
                self@.contains_key(k) && is_prefix(prefix, k) ==> exists|i: int|
                    0 <= i < self.prefix_entries(prefix).len() && (#[trigger] self.prefix_entries(
                        prefix,
                    )[i]).0 == k,
            forall|i: int, j: int|
                0 <= i < self.prefix_entries(prefix).len() && 0 <= j < self.prefix_entries(
                    prefix,
                ).len() && i != j ==> (#[trigger] self.prefix_entries(prefix)[i]).0 != (
                #[trigger] self.prefix_entries(prefix)[j]).0,
    {
        let e = self.prefix_entries(prefix);
        let empty = Seq::<char>::empty();
        lemma_prefix_walk(self.root, empty, prefix);
        assert(empty + prefix =~= prefix);
        assert forall|i: int| #![trigger e[i]] 0 <= i < e.len() implies self@.contains_key(e[i].0)
            && self@[e[i].0] == e[i].1 by {
            assert(e[i].0.skip(0) =~= e[i].0);
        }
        assert forall|k: Seq<char>| #![trigger self@.contains_key(k)]
            self@.contains_key(k) && is_prefix(prefix, k) implies exists|i: int|
                0 <= i < e.len() && (#[trigger] e[i]).0 == k by {
            assert(lookup(self.root, k) is Some);
            assert(empty + k =~= k);
        }
    }

    /// Prefix traversal visits the entries whose key starts with `prefix` in
    /// the order in which full traversal visits them.
    pub proof fn lemma_prefix_entries_follow_entries(&self, prefix: Seq<char>)
        requires
            self.wf(),
        ensures
            self.prefix_entries(prefix) == self.entries().filter(keyed_under::<T>(prefix)),
    {
        let empty = Seq::<char>::empty();
        lemma_prefix_walk_filter(self.root, empty, prefix);
        assert(empty + prefix =~= prefix);
    }

    /// Fuzzy search lists every key within `max` edits of `query` exactly
    /// once, with its edit distance, and nothing else.
    pub proof fn lemma_fuzzy_entries_are_the_close_keys(&self, query: Seq<char>, max: int)
        requires
            self.wf(),
        ensures
            forall|i: int|
                #![trigger self.fuzzy_entries(query, max)[i]]
                0 <= i < self.fuzzy_entries(query, max).len() ==> {
                    &&& self@.contains_key(self.fuzzy_entries(query, max)[i].0)
                    &&& self.fuzzy_entries(query, max)[i].1 == levenshtein(
                        self.fuzzy_entries(query, max)[i].0,
                        query,
                    )
                    &&& self.fuzzy_entries(query, max)[i].1 <= max
                },
            forall|k: Seq<char>|
                #![trigger self@.contains_key(k)]
                self@.contains_key(k) && levenshtein(k, query) <= max ==> exists|i: int|
                    0 <= i < self.fuzzy_entries(query, max).len() && (#[trigger] self.fuzzy_entries(
                        query,
                        max,
                    )[i]).0 == k,
            forall|i: int, j: int|
                0 <= i < self.fuzzy_entries(query, max).len() && 0 <= j < self.fuzzy_entries(
                    query,
                    max,
                ).len() && i != j ==> (#[trigger] self.fuzzy_entries(query, max)[i]).0 != (
                #[trigger] self.fuzzy_entries(query, max)[j]).0,
    {
        let e = self.fuzzy_entries(query, max);
        let root = self.root;
        let empty = Seq::<char>::empty();
        lemma_fuzzy_collect(root, empty, 0, query, max);
        assert forall|i: int| #![trigger e[i]] 0 <= i < e.len() implies self@.contains_key(e[i].0) by {
            assert(e[i].0.skip(0) =~= e[i].0);
        }
        assert forall|k: Seq<char>| #![trigger self@.contains_key(k)]
            self@.contains_key(k) && levenshtein(k, query) <= max implies exists|i: int|
                0 <= i < e.len() && (#[trigger] e[i]).0 == k by {
            assert(lookup(root, k) is Some);
            if k.len() == 0 {
                assert(root.slots@[leaf_pos(root.slots@)] is Leaf);
            } else {
                assert(slot_matches(root.slots@[child_for(root.slots@, k)], k));
            }
            assert(covered_from(root.slots@, 0, k));
            assert(empty + k =~= k);
        }
    }

    /// `key` is not empty and no edge from the root starts with its first
    /// character, so that inserting it adds an edge from the root, last.
    pub closed spec fn starts_new_edge(&self, key: Seq<char>) -> bool {
        key.len() > 0 && no_edge_starts(self.root.slots@, key[0])
    }

    /// All entries in traversal order: reverse insertion order at every node.
    pub closed spec fn entries(&self) -> Seq<(Seq<char>, T)> {
        node_entries(self.root, Seq::<char>::empty())
    }

    /// The entries whose key starts with `prefix`, in traversal order.
    pub closed spec fn prefix_entries(&self, prefix: Seq<char>) -> Seq<(Seq<char>, T)> {
        prefix_walk(self.root, Seq::<char>::empty(), prefix)
    }

    /// The entries within `max` edits of `query`, with their distances, in
    /// forward insertion order at every node.
    pub closed spec fn fuzzy_entries(&self, query: Seq<char>, max: int) -> Seq<(Seq<char>, int)> {
        fuzzy_collect(self.root, Seq::<char>::empty(), 0, query, max)
    }

    /// No node below the root is a valueless pass-through or a dead end:
    /// every node reached by an edge holds a value or has two edges or more.
    pub closed spec fn compact(&self) -> bool {
        node_compact(self.root)
    }

    /// The tree holds nothing: its root has no slot and its count is zero.
    /// This is the state that `new` makes and that `clear` leaves.
    pub closed spec fn is_fresh(&self) -> bool {
        self.root.slots@.len() == 0 && self.len == 0
    }

    /// Two fresh trees cannot be told apart: they agree on the map, on every
    /// traversal, on every prefix and fuzzy search, and on where a key goes.
    pub proof fn lemma_fresh_trees_agree(a: &Self, b: &Self)
        requires
            a.is_fresh(),
            b.is_fresh(),
        ensures
            a.wf(),
            b.wf(),
            a@ == b@,
            a@ == Map::<Seq<char>, T>::empty(),
            a.entries() == b.entries(),
            forall|p: Seq<char>| #[trigger] a.prefix_entries(p) == b.prefix_entries(p),
            forall|q: Seq<char>, m: int| #[trigger] a.fuzzy_entries(q, m) == b.fuzzy_entries(q, m),
            forall|k: Seq<char>| #[trigger] a.starts_new_edge(k) == b.starts_new_edge(k),
    {
        assert(a.root.slots@ =~= b.root.slots@);
        assert(a.root.slots@ =~= Seq::<Slot<T>>::empty());
        assert forall|key: Seq<char>| lookup(a.root, key) is None by {
            if key.len() > 0 {
                assert(!has_child_for(a.root.slots@, key));
            }
        }
        assert forall|key: Seq<char>| lookup(b.root, key) is None by {
            if key.len() > 0 {
                assert(!has_child_for(b.root.slots@, key));
            }
        }
        assert(a@ =~= Map::<Seq<char>, T>::empty());
        assert(b@ =~= Map::<Seq<char>, T>::empty());
        assert(a.entries() =~= Seq::<(Seq<char>, T)>::empty());
        assert(b.entries() =~= Seq::<(Seq<char>, T)>::empty());
        assert forall|p: Seq<char>| #[trigger] a.prefix_entries(p) == b.prefix_entries(p) by {
            if p.len() > 0 {
                assert(!has_child_for(a.root.slots@, p));
                assert(!has_child_for(b.root.slots@, p));
                assert(!has_extension(a.root.slots@, p));
                assert(!has_extension(b.root.slots@, p));
            }
        }
        assert forall|q: Seq<char>, m: int| #[trigger] a.fuzzy_entries(q, m) == b.fuzzy_entries(q, m) by {
        }
        assert forall|k: Seq<char>| #[trigger] a.starts_new_edge(k) == b.starts_new_edge(k) by {
        }
    }

    /// A well-formed tree holds finitely many entries.
    pub proof fn lemma_finite(&self)
        requires
            self.wf(),
        ensures
            self@.dom().finite(),
    {
    }

    pub closed spec fn wf(&self) -> bool {
        &&& node_wf(self.root)
        &&& node_compact(self.root)
        &&& self@.dom().finite()
        &&& self.len == self@.len()
    }

    pub fn new() -> (tree: Self)
        ensures
            tree.wf(),
            tree@ == Map::<Seq<char>, T>::empty(),
            tree.entries() == Seq::<(Seq<char>, T)>::empty(),
            forall|key: Seq<char>| key.len() > 0 ==> #[trigger] tree.starts_new_edge(key),
            tree.is_fresh(),
            tree.compact(),
    {
        let tree = RadixTree { root: Node { slots: Vec::new() }, len: 0 };
        proof {
            assert forall|key: Seq<char>| lookup(tree.root, key) is None by {
                if key.len() > 0 {
                    assert(!has_child_for(tree.root.slots@, key));
                }
            }
            assert(tree@ =~= Map::<Seq<char>, T>::empty());
            assert(tree.entries() =~= Seq::<(Seq<char>, T)>::empty());
        }
        tree
    }

    /// The node that `key` leads to, if any.
    fn lookup(&self, key: &Vec<char>) -> (found: Option<&Node<T>>)
        requires
            node_wf(self.root),
        ensures
            match found {
                Some(node) => find(self.root.slots@, key@) == Some(node.slots@) && node_wf(*node),
                None => find(self.root.slots@, key@) is None,
            },
    {
        let mut node = &self.root;
        let mut pos: usize = 0;
        while pos < key.len()
            invariant
                node_wf(*node),
                pos <= key@.len(),
                find(self.root.slots@, key@) == find(node.slots@, key@.skip(pos as int)),
            decreases key@.len() - pos,
        {
            let position = match node.child_position(key, pos) {
                Some(position) => position,
                None => {
                    return None;
                },
            };
            match &node.slots[position] {
                Slot::Child(edge, child) => {
                    proof {
                        assert(key@.skip(pos as int).skip(edge@.len() as int) =~= key@.skip(
                            pos + edge@.len(),
                        ));
                    }
                    pos = pos + edge.len();
                    node = child;
                },
                Slot::Leaf(_) => {
                    return None;
                },
            }
        }
        assert(key@.skip(pos as int) =~= Seq::<char>::empty());
        Some(node)
    }

    pub fn get(&self, key: &str) -> (value: Option<&T>)
        requires
            self.wf(),
        ensures
            match value {
                Some(v) => self@.contains_key(key@) && self@[key@] == *v,
                None => !self@.contains_key(key@),
            },
    {
        let chars = chars_of(key);
        match self.lookup(&chars) {
            Some(node) => node.value(),
            None => None,
        }
    }

    pub fn has(&self, key: &str) -> (found: bool)
        requires
            self.wf(),
        ensures
            found == self@.contains_key(key@),
    {
        self.get(key).is_some()
    }

    pub fn get_mut(&mut self, key: &str) -> (value: Option<&mut T>)
        requires
            old(self).wf(),
        ensures
            final(self).wf(),
            match value {
                Some(v) => {
                    &&& old(self)@.contains_key(key@)
                    &&& old(self)@[key@] == *v
                    &&& final(self)@ == old(self)@.insert(key@, *final(v))
                },
                None => !old(self)@.contains_key(key@) && final(self)@ == old(self)@,
            },
            old(self).compact() ==> final(self).compact(),
            entry_keys(final(self).entries()) == entry_keys(old(self).entries()),
    {
        let chars = chars_of(key);
        let ghost old_tree = *self;
        let ghost final_tree = *final(self);
        proof {
            assert(chars@.skip(0) =~= chars@);
        }
        let value = node_get_mut(&mut self.root, &chars, 0);
        proof {
            assert(final_tree@ =~= if value is Some { old_tree@.insert(key@, *final(value->0)) } else { old_tree@ });
        }
        value
    }

    /// Returns a mutable reference to the value at `key`, inserting the value
    /// produced by `default` if the key is absent.
    pub fn fetch_with(&mut self, key: &str, default: impl FnOnce() -> T) -> (value: &mut T)
        requires
            old(self).wf(),
            old(self)@.len() < usize::MAX,
            default.requires(()),
        ensures
            final(self).wf(),
            old(self)@.contains_key(key@) ==> *value == old(self)@[key@],
            !old(self)@.contains_key(key@) ==> default.ensures((), *value),
            final(self)@ == old(self)@.insert(key@, *final(value)),
            old(self).compact() ==> final(self).compact(),
            old(self)@.contains_key(key@) ==> entry_keys(final(self).entries()) == entry_keys(
                old(self).entries(),
            ),
            !old(self)@.contains_key(key@) ==> entry_keys(final(self).entries()) == keys_after_insert(
                entry_keys(old(self).entries()),
                Seq::<char>::empty(),
                key@,
            ),
    {
        let chars = chars_of(key);
        let ghost old_tree = *self;
        let ghost final_tree = *final(self);
        proof {
            assert(chars@.skip(0) =~= chars@);
        }
        let node = create_path(&mut self.root, &chars, 0, Ghost(Seq::<char>::empty()), Ghost(vstd::pervasive::arbitrary()));
        let ghost target = *node;
        proof {
            assert(leaf_value(target) == lookup(target, Seq::<char>::empty()));
            assert(chars@ + Seq::<char>::empty() =~= chars@);
        }
        if node.value().is_none() {
            node.push_leaf(default());
            self.len = self.len + 1;
        }
        let ghost filled = *node;
        let ghost final_target = *final(node);
        proof {
            if node_compact(old_tree.root) {
                lemma_compact_same_edges(target, filled);
            }
        }
        let value = node.value_mut().unwrap();
        let ghost final_value = *final(value);
        proof {
            let l = leaf_pos(filled.slots@);
            assert(filled.slots@[l] is Leaf);
            assert(final_target.slots@[l] is Leaf);
            if node_compact(old_tree.root) {
                lemma_compact_same_edges(filled, final_target);
            }
            let full = Seq::<char>::empty() + chars@.skip(0);
            assert(full =~= chars@);
            if lookup(target, Seq::<char>::empty()) is Some {
                assert(filled == target);
                assert(slot_chunk(final_target, full, l) == seq![(full, final_target.slots@[l]->Leaf_0)]);
                assert(slot_chunk(target, full, l) == seq![(full, target.slots@[l]->Leaf_0)]);
                assert(entry_keys(slot_chunk(final_target, full, l)) =~= seq![full]);
                assert(entry_keys(slot_chunk(target, full, l)) =~= seq![full]);
                lemma_keys_same(target, final_target, full, target.slots@.len() as int, l);
            } else {
                let n = target.slots@.len() as int;
                assert(filled.slots@[n] is Leaf);
                assert(l == n);
                assert(final_target.slots@.take(n) =~= target.slots@);
                assert(final_target.slots@.last() == final_target.slots@[n]);
            }
        }
        proof {
            assert(leaf_value(filled) == lookup(filled, Seq::<char>::empty()));
            assert forall|k: Seq<char>| #![trigger final_tree@.contains_key(k)]
                final_tree@.contains_key(k) == old_tree@.insert(chars@, final_value).contains_key(k)
                && (final_tree@.contains_key(k) ==> final_tree@[k] == old_tree@.insert(chars@, final_value)[k]) by {
                if is_prefix(chars@, k) {
                    let rest = k.skip(chars@.len() as int);
                    if rest.len() == 0 {
                        assert(k =~= chars@);
                        assert(rest =~= Seq::<char>::empty());
                    } else {
                        assert(chars@ + rest =~= k);
                    }
                }
            }
            assert(final_tree@ =~= old_tree@.insert(chars@, final_value));
        }
        value
    }

    /// Sets the value of `key`. Replacing a value keeps every entry where
    /// traversal lists it; a new key goes where `keys_after_insert` puts it
    /// (first among the keys that it starts, and first of all when it starts
    /// a new edge from the root, where fuzzy search lists it last).
    pub fn insert(&mut self, key: &str, value: T)
        requires
            old(self).wf(),
            old(self)@.len() < usize::MAX,
        ensures
            final(self).wf(),
            final(self)@ == old(self)@.insert(key@, value),
            old(self).compact() ==> final(self).compact(),
            old(self)@.contains_key(key@) ==> final(self).entries() == old(self).entries().map_values(
                set_value(key@, value),
            ),
            !old(self)@.contains_key(key@) ==> final(self).prefix_entries(key@) == seq![(key@, value)]
                + old(self).prefix_entries(key@),
            !old(self)@.contains_key(key@) ==> entry_keys(final(self).entries()) == keys_after_insert(
                entry_keys(old(self).entries()),
                Seq::<char>::empty(),
                key@,
            ),
            old(self).starts_new_edge(key@) ==> final(self).entries() == seq![(key@, value)] + old(
                self,
            ).entries(),
            old(self).starts_new_edge(key@) ==> forall|k: Seq<char>| #[trigger]
                final(self).starts_new_edge(k) == (old(self).starts_new_edge(k) && k[0] != key@[0]),
            old(self).starts_new_edge(key@) ==> forall|query: Seq<char>, max: int| #[trigger]
                final(self).fuzzy_entries(query, max) == old(self).fuzzy_entries(query, max) + if levenshtein(
                    key@,
                    query,
                ) <= max {
                    seq![(key@, levenshtein(key@, query) as int)]
                } else {
                    Seq::<(Seq<char>, int)>::empty()
                },
    {
        let chars = chars_of(key);
        let ghost old_tree = *self;
        let ghost final_tree = *final(self);
        proof {
            assert(chars@.skip(0) =~= chars@);
        }
        let node = create_path(&mut self.root, &chars, 0, Ghost(Seq::<char>::empty()), Ghost(value));
        let ghost target = *node;
        proof {
            assert(leaf_value(target) == lookup(target, Seq::<char>::empty()));
            assert(chars@ + Seq::<char>::empty() =~= chars@);
        }
        match node.value_mut() {
            Some(existing) => {
                *existing = value;
                proof {
                    let l = leaf_pos(target.slots@);
                    assert(target.slots@[l] is Leaf);
                    assert(node.slots@[l] is Leaf);
                    lemma_leaf_entries(target, *node, Seq::<char>::empty() + chars@, l, value);
                    if node_compact(old_tree.root) {
                        lemma_compact_same_edges(target, *node);
                    }
                }
            },
            None => {
                node.push_leaf(value);
                self.len = self.len + 1;
                proof {
                    assert(node.slots@.last() is Leaf);
                    let full = Seq::<char>::empty() + chars@.skip(0);
                    let n = target.slots@.len() as int;
                    assert(node.slots@.take(n) =~= target.slots@.take(n));
                    lemma_slots_entries_prefix(*node, target, full, n);
                    assert(node.slots@[n] == Slot::<T>::Leaf(value));
                    assert(node_entries(*node, full) =~= seq![(full, value)] + node_entries(target, full));
                    assert(node.slots@.take(n) =~= target.slots@);
                    assert(node.slots@.last() == node.slots@[n]);
                    assert(leaf_pushed(target, *node));
                    if node_compact(old_tree.root) {
                        lemma_compact_same_edges(target, *node);
                    }
                }
            },
        }
        proof {
            if old_tree.starts_new_edge(chars@) {
                let n = old_tree.root.slots@.len() as int;
                let root = final_tree.root;
                let child = root.slots@[n]->Child_1;
                assert(root.slots@.last() == root.slots@[n]);
                assert(child.slots@ =~= seq![Slot::Leaf(value)]);
                assert(Seq::<char>::empty() + chars@ =~= chars@);
                assert(slots_entries(child, chars@, 0) =~= Seq::<(Seq<char>, T)>::empty());
                assert(slots_entries(child, chars@, 1) =~= seq![(chars@, value)]);
                assert(root.slots@.take(n) == old_tree.root.slots@.take(n)) by {
                    assert(old_tree.root.slots@.take(n) =~= old_tree.root.slots@);
                }
                lemma_slots_entries_prefix(root, old_tree.root, Seq::<char>::empty(), n);
                assert(final_tree.entries() =~= seq![(chars@, value)] + old_tree.entries());
                assert forall|query: Seq<char>, max: int| #[trigger]
                    final_tree.fuzzy_entries(query, max) == old_tree.fuzzy_entries(query, max) + if levenshtein(
                        chars@,
                        query,
                    ) <= max {
                        seq![(chars@, levenshtein(chars@, query) as int)]
                    } else {
                        Seq::<(Seq<char>, int)>::empty()
                    } by {
                    lemma_fuzzy_new_edge(old_tree.root, root, chars@, query, max);
                }
                assert forall|k: Seq<char>| #[trigger] final_tree.starts_new_edge(k) == (
                old_tree.starts_new_edge(k) && k[0] != chars@[0]) by {
                    if k.len() > 0 {
                        if no_edge_starts(root.slots@, k[0]) {
                            assert forall|j: int|
                                0 <= j < n && (#[trigger] old_tree.root.slots@[j]) is Child implies old_tree.root.slots@[j]->Child_0@[0]
                                != k[0] by {
                                assert(root.slots@[j] == root.slots@.take(n)[j]);
                            }
                            assert(root.slots@[n] is Child);
                        }
                        if old_tree.starts_new_edge(k) && k[0] != chars@[0] {
                            assert forall|j: int|
                                0 <= j < root.slots@.len() && (#[trigger] root.slots@[j]) is Child implies root.slots@[j]->Child_0@[0]
                                != k[0] by {
                                if j < n {
                                    assert(root.slots@[j] == root.slots@.take(n)[j]);
                                }
                            }
                        }
                    }
                }
            }
            assert forall|k: Seq<char>| #![trigger final_tree@.contains_key(k)]
                final_tree@.contains_key(k) == old_tree@.insert(chars@, value).contains_key(k)
                && (final_tree@.contains_key(k) ==> final_tree@[k] == old_tree@.insert(chars@, value)[k]) by {
                if is_prefix(chars@, k) {
                    let rest = k.skip(chars@.len() as int);
                    if rest.len() == 0 {
                        assert(k =~= chars@);
                        assert(rest =~= Seq::<char>::empty());
                    } else {
                        assert(chars@ + rest =~= k);
                    }
                }
            }
            assert(final_tree@ =~= old_tree@.insert(chars@, value));
        }
    }

    /// Removes the value at `key`, collapsing now-redundant nodes, and
    /// returns whether a value was removed. Traversal then lists the keys as
    /// `keys_after_remove` says: a collapsed node's keys move to the front
    /// of its parent's.
    pub fn remove(&mut self, key: &str) -> (removed: bool)
        requires
            old(self).wf(),
        ensures
            final(self).wf(),
            removed == old(self)@.contains_key(key@),
            final(self)@ == old(self)@.remove(key@),
            old(self).compact() ==> final(self).compact(),
            entry_keys(final(self).entries()) == keys_after_remove(
                entry_keys(old(self).entries()),
                Seq::<char>::empty(),
                key@,
            ),
    {
        let chars = chars_of(key);
        let ghost old_tree = *self;
        proof {
            assert(chars@.skip(0) =~= chars@);
        }
        let removed = remove_rec(&mut self.root, &chars, 0, Ghost(Seq::<char>::empty()));
        proof {
            assert(Seq::<char>::empty() + chars@.skip(0) =~= key@);
            assert(self@ =~= old_tree@.remove(chars@));
            if removed {
                assert(old_tree@.dom().contains(chars@));
                assert(old_tree@.len() > 0) by {
                    vstd::set_lib::lemma_set_empty_equivalency_len(old_tree@.dom());
                }
            }
        }
        if removed {
            self.len = self.len - 1;
        }
        removed
    }

    /// All entries, in reverse insertion order at every node.
    pub fn for_each(&self) -> (entries: Vec<(String, &T)>)
        requires
            self.wf(),
        ensures
            entry_view(entries@) == self.entries(),
    {
        let mut entries: Vec<(String, &T)> = Vec::new();
        let mut key: Vec<char> = Vec::new();
        dfs(&self.root, &mut key, &mut entries);
        assert(entry_view(entries@) =~= node_entries(self.root, Seq::<char>::empty()));
        entries
    }

    /// All entries whose key starts with `prefix`, in the order of
    /// `for_each`.
    pub fn for_each_prefix(&self, prefix: &str) -> (entries: Vec<(String, &T)>)
        requires
            self.wf(),
        ensures
            entry_view(entries@) == self.prefix_entries(prefix@),
    {
        let chars = chars_of(prefix);
        let mut entries: Vec<(String, &T)> = Vec::new();
        let mut node = &self.root;
        let mut pos: usize = 0;
        proof {
            assert(chars@.skip(0) =~= chars@);
            assert(chars@.take(0) =~= Seq::<char>::empty());
        }
        while pos < chars.len()
            invariant
                node_wf(*node),
                chars@ == prefix@,
                pos <= chars@.len(),
                entries@.len() == 0,
                prefix_walk(self.root, Seq::<char>::empty(), chars@) == prefix_walk(
                    *node,
                    chars@.take(pos as int),
                    chars@.skip(pos as int),
                ),
            decreases chars@.len() - pos,
        {
            let ghost rest = chars@.skip(pos as int);
            match node.child_position(&chars, pos) {
                Some(i) => {
                    match &node.slots[i] {
                        Slot::Child(edge, child) => {
                            proof {
                                assert(slot_matches(node.slots@[i as int], rest));
                                assert(rest.skip(edge@.len() as int) =~= chars@.skip(pos + edge@.len()));
                                assert(chars@.take(pos + edge@.len()) =~= chars@.take(pos as int) + edge@);
                            }
                            pos = pos + edge.len();
                            node = child;
                        },
                        Slot::Leaf(_) => {
                            return entries;
                        },
                    }
                },
                None => {
                    match node.extension_position(&chars, pos) {
                        Some(i) => {
                            match &node.slots[i] {
                                Slot::Child(edge, child) => {
                                    let mut key = slice_chars(&chars, 0, pos);
                                    let mut j: usize = 0;
                                    while j < edge.len()
                                        invariant
                                            j <= edge@.len(),
                                            key@ == chars@.take(pos as int) + edge@.take(j as int),
                                        decreases edge@.len() - j,
                                    {
                                        assert(edge@.take(j + 1) =~= edge@.take(j as int).push(edge@[j as int]));
                                        key.push(edge[j]);
                                        j = j + 1;
                                    }
                                    proof {
                                        assert(edge@.take(edge@.len() as int) =~= edge@);
                                        assert(node_wf(*child));
                                    }
                                    dfs(child, &mut key, &mut entries);
                                    proof {
                                        assert(entry_view(entries@) =~= node_entries(
                                            *child,
                                            chars@.take(pos as int) + edge@,
                                        ));
                                        assert(rest.len() > 0);
                                        assert(prefix_walk(*node, chars@.take(pos as int), rest)
                                            == node_entries(*child, chars@.take(pos as int) + edge@));
                                    }
                                    return entries;
                                },
                                Slot::Leaf(_) => {
                                    return entries;
                                },
                            }
                        },
                        None => {
                            proof {
                                assert(entry_view(entries@) =~= Seq::<(Seq<char>, T)>::empty());
                                assert(rest.len() > 0);
                                assert(prefix_walk(*node, chars@.take(pos as int), rest)
                                    == Seq::<(Seq<char>, T)>::empty());
                            }
                            return entries;
                        },
                    }
                },
            }
        }
        let mut key = slice_chars(&chars, 0, pos);
        proof {
            assert(chars@.subrange(0, pos as int) =~= chars@.take(pos as int));
            assert(chars@.skip(pos as int) =~= Seq::<char>::empty());
        }
        dfs(node, &mut key, &mut entries);
        assert(entry_view(entries@) =~= node_entries(*node, chars@.take(pos as int)));
        entries
    }

    /// Returns all `(key, edit distance)` pairs within `max_distance`
    /// (Levenshtein) of `query`, in forward insertion order at every node.
    /// A single Levenshtein matrix, banded around the diagonal, is maintained
    /// across the traversal, and subtrees are pruned as soon as no key below
    /// them can be close enough. Distances count Unicode scalar values.
    pub fn fuzzy_get(&self, query: &str, max_distance: usize) -> (results: Vec<(String, usize)>)
        requires
            self.wf(),
            query@.len() + max_distance + 1 <= 65535,
        ensures
            fuzzy_view(results@) == self.fuzzy_entries(query@, max_distance as int),
    {
        let query = chars_of(query);
        // Number of columns in the Levenshtein matrix.
        let n = query.len() + 1;
        // Matching terms can never be longer than the query plus max_distance.
        let m = n + max_distance;
        let ghost max = max_distance as int;
        proof {
            assert(m * n <= 65535 * 65535) by (nonlinear_arith)
                requires
                    m <= 65535,
                    n <= 65535,
            ;
        }
        let total = m * n;
        let mut matrix: Vec<u32> = Vec::new();
        let mut x: usize = 0;
        while x < total
            invariant
                x <= total,
                matrix@.len() == x,
                max_distance < 65535,
                forall|y: int| 0 <= y < x ==> matrix@[y] == max_distance + 1,
            decreases total - x,
        {
            matrix.push((max_distance + 1) as u32);
            x = x + 1;
        }
        proof {
            assert(n <= m * n) by (nonlinear_arith)
                requires
                    m >= 1,
                    n >= 1,
            ;
        }
        let mut j: usize = 0;
        while j < n
            invariant
                j <= n,
                n <= total,
                n <= m,
                matrix@.len() == total,
                total == m * n,
                m == n + max_distance,
                n <= 65535,
                forall|c: int| 0 <= c < j ==> matrix@[c] == c,
                forall|y: int| j <= y < total ==> matrix@[y] == max_distance + 1,
            decreases n - j,
        {
            matrix.set(j, j as u32);
            j = j + 1;
        }
        proof {
            assert forall|r: int, c: int|
                #![trigger cell(matrix@, n as int, r, c)]
                0 <= r < m && 0 <= c < n implies cell(matrix@, n as int, r, c) == if r == 0 {
                    c
                } else {
                    max + 1
                } by {
                lemma_cell_index(r, c, n as int, m as int);
                if r > 0 {
                    assert(r * n >= n) by (nonlinear_arith)
                        requires
                            r >= 1,
                            n >= 1,
                    ;
                } else {
                    assert(r * n == 0) by (nonlinear_arith)
                        requires
                            r == 0,
                    ;
                }
            }
        }
        let mut i: usize = 1;
        while i < m
            invariant
                1 <= i <= m,
                n >= 1,
                matrix@.len() == total,
                total == m * n,
                m == n + max_distance,
                m <= 65535,
                max == max_distance,
                forall|r: int, c: int|
                    #![trigger cell(matrix@, n as int, r, c)]
                    0 <= r < m && 0 <= c < n ==> cell(matrix@, n as int, r, c) == if r == 0 {
                        c
                    } else if c == 0 && r < i {
                        r
                    } else {
                        max + 1
                    },
            decreases m - i,
        {
            proof {
                lemma_cell_index(i as int, 0, n as int, m as int);
            }
            let ghost before = matrix@;
            matrix.set(i * n, i as u32);
            proof {
                assert forall|r: int, c: int|
                    0 <= r < m && 0 <= c < n && (r != i || c != 0) implies cell(matrix@, n as int, r, c)
                    == cell(before, n as int, r, c) by {
                    lemma_cell_distinct(r, c, i as int, 0, n as int);
                    lemma_cell_index(r, c, n as int, m as int);
                }
                assert(cell(matrix@, n as int, i as int, 0) == i);
                assert forall|r: int, c: int|
                    #![trigger cell(matrix@, n as int, r, c)]
                    0 <= r < m && 0 <= c < n implies cell(matrix@, n as int, r, c) == if r == 0 {
                        c
                    } else if c == 0 && r < i + 1 {
                        r
                    } else {
                        max + 1
                    } by {
                    if r != i || c != 0 {
                        assert(cell(matrix@, n as int, r, c) == cell(before, n as int, r, c));
                    }
                }
            }
            i = i + 1;
        }
        proof {
            assert forall|r: int, c: int|
                #![trigger cell(matrix@, n as int, r, c)]
                0 <= r < 1 && 0 <= c < n implies clip(cell(matrix@, n as int, r, c), max) == clip(
                levenshtein(Seq::<char>::empty().take(r), query@.take(c)) as int,
                max,
            ) by {
                assert(Seq::<char>::empty().take(r) =~= Seq::<char>::empty());
                lemma_empty(query@.take(c));
            }
        }
        let mut results = Vec::new();
        let mut prefix: Vec<char> = Vec::new();
        fuzzy_rec(&self.root, &query, max_distance, &mut results, &mut matrix, 1, n, &mut prefix);
        results
    }

    pub fn len(&self) -> (len: usize)
        requires
            self.wf(),
        ensures
            len == self@.len(),
    {
        self.len
    }

    pub fn clear(&mut self)
        ensures
            final(self).wf(),
            final(self)@ == Map::<Seq<char>, T>::empty(),
            final(self).entries() == Seq::<(Seq<char>, T)>::empty(),
            forall|key: Seq<char>| key.len() > 0 ==> #[trigger] final(self).starts_new_edge(key),
            final(self).is_fresh(),
            final(self).compact(),
    {
        *self = RadixTree::new();
    }
}


} // verus!
