//! Leaves: sorted keys, each paired with its value.

use crate::key::find;
use crate::key::holds;
use crate::key::Key;
use crate::key::key_le;
use crate::key::key_lt;
use crate::key::lemma_key_order;
use crate::key::lemma_rank_at;
use crate::key::lemma_rank_range;
use crate::key::lemma_sorted_distinct;
use crate::key::lemma_sorted_insert;
use crate::key::Offset;
use crate::key::rank;
use crate::key::sorted;
use crate::key::Value;
use crate::key::views;
use crate::node::underflows;
use crate::pager::Pager;
use vstd::prelude::*;

verus! {

/// A leaf: `keys[i]` is paired with `values[i]`.
#[derive(Clone, Debug)]
pub struct LeafNode {
    pub keys: Vec<Key>,
    pub values: Vec<Value>,
    pub offset: Option<Offset>,
}

/// The mathematical content of a leaf.
pub struct LeafModel {
    pub keys: Seq<Seq<u8>>,
    pub values: Seq<Seq<u8>>,
    pub offset: Option<usize>,
}

impl View for LeafNode {
    type V = LeafModel;

    open spec fn view(&self) -> LeafModel {
        LeafModel { keys: views(self.keys@), values: views(self.values@), offset: self.offset }
    }
}

/// The separator and the new right leaf that a split hands up, as
/// mathematical values.
pub open spec fn leaf_split_view(out: Option<(Vec<u8>, LeafNode)>) -> Option<(Seq<u8>, LeafModel)> {
    match out {
        Some((mid, right)) => Some((mid@, right@)),
        None => None,
    }
}

/// The byte string of an optional value.
pub open spec fn opt_view(v: Option<Vec<u8>>) -> Option<Seq<u8>> {
    match v {
        Some(bytes) => Some(bytes@),
        None => None,
    }
}

impl LeafModel {
    /// Every key has its value, and the keys are strictly increasing.
    pub open spec fn wf(self) -> bool {
        self.keys.len() == self.values.len() && sorted(self.keys)
    }

    /// The value paired with `key`, if the leaf holds the key.
    pub open spec fn get(self, key: Seq<u8>) -> Option<Seq<u8>> {
        if holds(self.keys, key) {
            Some(self.values[rank(self.keys, key)])
        } else {
            None
        }
    }

    /// The leaf with `key` paired with `value`: in place of the old value
    /// where the leaf holds the key, and at the key's rank where it does not.
    pub open spec fn put(self, key: Seq<u8>, value: Seq<u8>) -> LeafModel {
        let p = rank(self.keys, key);
        if holds(self.keys, key) {
            LeafModel { keys: self.keys, values: self.values.update(p, value), offset: self.offset }
        } else {
            LeafModel {
                keys: self.keys.insert(p, key),
                values: self.values.insert(p, value),
                offset: self.offset,
            }
        }
    }

    /// What an insertion makes of the leaf: the leaf that stays and, where
    /// the leaf then holds more than `degree - 1` keys, the separator and the
    /// new right leaf, which records `cursor` as its offset. A key that the
    /// leaf holds already takes the new value, and nothing is split.
    pub open spec fn insert_result(
        self,
        key: Seq<u8>,
        value: Seq<u8>,
        degree: int,
        cursor: usize,
    ) -> (LeafModel, Option<(Seq<u8>, LeafModel)>) {
        let full = self.put(key, value);
        if holds(self.keys, key) || full.keys.len() <= degree - 1 {
            (full, None)
        } else {
            (full.left_half(), Some((full.split_key(), full.right_half(Some(cursor)))))
        }
    }

    /// What a deletion makes of the leaf, and what it reports: nothing where
    /// the leaf does not hold the key, and otherwise whether the leaf is left
    /// with fewer keys than half the degree.
    pub open spec fn remove_result(self, key: Seq<u8>, degree: int) -> (LeafModel, Option<bool>) {
        if holds(self.keys, key) {
            (self.del(key), Some(underflows(self.keys.len() - 1, degree)))
        } else {
            (self, None)
        }
    }

    /// The leaf without `key` and its value.
    pub open spec fn del(self, key: Seq<u8>) -> LeafModel {
        let p = rank(self.keys, key);
        if holds(self.keys, key) {
            LeafModel { keys: self.keys.remove(p), values: self.values.remove(p), offset: self.offset }
        } else {
            self
        }
    }

    /// The position at which a leaf is split: half its length, rounded down.
    pub open spec fn split_at(self) -> int {
        self.keys.len() as int / 2
    }

    /// The entries of the leaf before position `q`.
    pub open spec fn left_part(self, q: int) -> LeafModel {
        LeafModel {
            keys: self.keys.subrange(0, q),
            values: self.values.subrange(0, q),
            offset: self.offset,
        }
    }

    /// The entries of the leaf from position `q` on, as a leaf of their own.
    pub open spec fn right_part(self, q: int, offset: Option<usize>) -> LeafModel {
        LeafModel {
            keys: self.keys.subrange(q, self.keys.len() as int),
            values: self.values.subrange(q, self.values.len() as int),
            offset,
        }
    }

    /// What stays in a leaf that is split: the entries before the split
    /// position.
    pub open spec fn left_half(self) -> LeafModel {
        self.left_part(self.split_at())
    }

    /// What moves to the new right leaf: the entries from the split position
    /// on.
    pub open spec fn right_half(self, offset: Option<usize>) -> LeafModel {
        self.right_part(self.split_at(), offset)
    }

    /// The separator that a split hands up: the last key that stays.
    pub open spec fn split_key(self) -> Seq<u8> {
        self.keys[self.split_at() - 1]
    }
}

/// A leaf pairs each of its keys with the value at the same position.
pub proof fn lemma_get_at(leaf: LeafModel, i: int)
    requires
        leaf.wf(),
        0 <= i < leaf.keys.len(),
    ensures
        leaf.get(leaf.keys[i]) == Some(leaf.values[i]),
{
    lemma_rank_at(leaf.keys, i);
}

/// What a leaf holds after `put`: the new value for `key`, and for every
/// other key what it held before. The leaf stays in order, and each of its
/// keys is `key` or was there before.
pub proof fn lemma_put(leaf: LeafModel, key: Seq<u8>, value: Seq<u8>)
    requires
        leaf.wf(),
    ensures
        leaf.put(key, value).wf(),
        forall|k: Seq<u8>| #[trigger]
            leaf.put(key, value).get(k) == if k == key {
                Some(value)
            } else {
                leaf.get(k)
            },
        forall|i: int|
            0 <= i < leaf.put(key, value).keys.len() ==> #[trigger] leaf.put(key, value).keys[i]
                == key || leaf.keys.contains(leaf.put(key, value).keys[i]),
        leaf.put(key, value).keys.len() == leaf.keys.len() + if holds(leaf.keys, key) {
            0int
        } else {
            1int
        },
{
    let out = leaf.put(key, value);
    let p = rank(leaf.keys, key);
    lemma_rank_range(leaf.keys, key);
    if holds(leaf.keys, key) {
        assert forall|k: Seq<u8>| #[trigger] out.get(k) == if k == key {
            Some(value)
        } else {
            leaf.get(k)
        } by {}
    } else {
        lemma_sorted_insert(leaf.keys, key);
        assert forall|k: Seq<u8>| #[trigger] out.get(k) == if k == key {
            Some(value)
        } else {
            leaf.get(k)
        } by {
            if k == key {
                lemma_get_at(out, p);
            } else if leaf.keys.contains(k) {
                let q = choose|q: int| 0 <= q < leaf.keys.len() && leaf.keys[q] == k;
                let q2 = if q < p { q } else { q + 1 };
                lemma_get_at(out, q2);
                lemma_get_at(leaf, q);
            } else {
                if out.keys.contains(k) {
                    let q = choose|q: int| 0 <= q < out.keys.len() && out.keys[q] == k;
                }
            }
        }
    }
}

/// What a leaf holds after `del`: nothing for `key`, and for every other key
/// what it held before. The leaf stays in order, and each of its keys was
/// there before.
pub proof fn lemma_del(leaf: LeafModel, key: Seq<u8>)
    requires
        leaf.wf(),
    ensures
        leaf.del(key).wf(),
        forall|k: Seq<u8>| #[trigger]
            leaf.del(key).get(k) == if k == key {
                None
            } else {
                leaf.get(k)
            },
        forall|i: int|
            0 <= i < leaf.del(key).keys.len() ==> leaf.keys.contains(
                #[trigger] leaf.del(key).keys[i],
            ),
        holds(leaf.keys, key) <==> leaf.get(key) is Some,
{
    let out = leaf.del(key);
    let p = rank(leaf.keys, key);
    if holds(leaf.keys, key) {
        assert forall|k: Seq<u8>| #[trigger] out.get(k) == if k == key {
            None
        } else {
            leaf.get(k)
        } by {
            if out.keys.contains(k) {
                let q = choose|q: int| 0 <= q < out.keys.len() && out.keys[q] == k;
                let q0 = if q < p { q } else { q + 1 };
                lemma_get_at(out, q);
                lemma_get_at(leaf, q0);
                if k == key {
                    lemma_sorted_distinct(leaf.keys, q0, p);
                }
            } else {
                if k != key && leaf.keys.contains(k) {
                    let q = choose|q: int| 0 <= q < leaf.keys.len() && leaf.keys[q] == k;
                    let q2 = if q < p { q } else { q - 1 };
                    assert(out.keys[q2] == k);
                }
            }
        }
    }
}

/// What the two parts of a leaf cut at position `q` hold: the left part
/// answers for the keys up to the last key on the left, the right part for
/// the keys above it. Both parts are in order.
pub proof fn lemma_leaf_split(leaf: LeafModel, q: int, offset: Option<usize>)
    requires
        leaf.wf(),
        1 <= q <= leaf.keys.len(),
    ensures
        leaf.left_part(q).wf(),
        leaf.right_part(q, offset).wf(),
        leaf.left_part(q).keys.len() == q,
        leaf.right_part(q, offset).keys.len() == leaf.keys.len() - q,
        forall|i: int|
            0 <= i < q ==> #[trigger] leaf.left_part(q).keys[i] == leaf.keys[i] && key_le(
                leaf.keys[i],
                leaf.keys[q - 1],
            ),
        forall|i: int|
            0 <= i < leaf.keys.len() - q ==> #[trigger] leaf.right_part(q, offset).keys[i]
                == leaf.keys[q + i] && key_lt(leaf.keys[q - 1], leaf.keys[q + i]),
        forall|k: Seq<u8>|
            leaf.get(k) == if key_le(k, leaf.keys[q - 1]) {
                #[trigger] leaf.left_part(q).get(k)
            } else {
                leaf.right_part(q, offset).get(k)
            },
        forall|k: Seq<u8>|
            leaf.get(k) == if key_le(k, leaf.keys[q - 1]) {
                leaf.left_part(q).get(k)
            } else {
                #[trigger] leaf.right_part(q, offset).get(k)
            },
{
    let left = leaf.left_part(q);
    let right = leaf.right_part(q, offset);
    let mid = leaf.keys[q - 1];
    assert forall|i: int| 0 <= i < q implies #[trigger] left.keys[i] == leaf.keys[i] && key_le(
        leaf.keys[i],
        mid,
    ) by {
        lemma_key_order(leaf.keys[i], mid, mid);
    }
    assert forall|k: Seq<u8>|
        leaf.get(k) == if key_le(k, mid) {
            left.get(k)
        } else {
            right.get(k)
        } by {
        if leaf.keys.contains(k) {
            let i = choose|i: int| 0 <= i < leaf.keys.len() && leaf.keys[i] == k;
            lemma_get_at(leaf, i);
            if i < q {
                lemma_get_at(left, i);
            } else {
                lemma_get_at(right, i - q);
            }
        } else {
            if left.keys.contains(k) {
                let i = choose|i: int| 0 <= i < left.keys.len() && left.keys[i] == k;
            }
            if right.keys.contains(k) {
                let i = choose|i: int| 0 <= i < right.keys.len() && right.keys[i] == k;
            }
        }
    }
}

/// A copy of a byte string.
pub fn copy_bytes(v: &Vec<u8>) -> (r: Vec<u8>)
    ensures
        r@ == v@,
{
    let r = v.clone();
    r
}

impl LeafNode {
    /// Pairs `key` with `value`. Where the leaf holds the key already, the
    /// value replaces the old one. Where the leaf then has more than
    /// `degree - 1` keys it is split: the upper half moves to a new leaf,
    /// which is returned with the last key that stays behind.
    pub fn insert(&mut self, pager: &Pager, key: Key, value: Value, degree: usize) -> (r: Option<
        (Key, LeafNode),
    >)
        requires
            old(self)@.wf(),
            pager.wf(),
            degree >= 3,
        ensures
            (final(self)@, leaf_split_view(r)) == old(self)@.insert_result(
                key@,
                value@,
                degree as int,
                pager.cursor() as usize,
            ),
    {
        let (position, found) = find(&self.keys, &key);
        proof {
            lemma_rank_range(old(self)@.keys, key@);
        }
        if found {
            self.values.set(position, value);
            assert(views(self.values@) =~= views(old(self).values@).update(
                position as int,
                value@,
            ));
            return None;
        }
        self.keys.insert(position, key);
        self.values.insert(position, value);
        assert(views(self.keys@) =~= views(old(self).keys@).insert(position as int, key@));
        assert(views(self.values@) =~= views(old(self).values@).insert(position as int, value@));
        if self.keys.len() > degree - 1 {
            Some(self.split(pager))
        } else {
            None
        }
    }

    /// Splits the leaf at half its length: the entries from there on move to
    /// a new leaf, which is returned with the last key that stays behind.
    pub fn split(&mut self, pager: &Pager) -> (r: (Key, LeafNode))
        requires
            old(self)@.keys.len() == old(self)@.values.len(),
            old(self)@.keys.len() >= 2,
            pager.wf(),
        ensures
            r.0@ == old(self)@.split_key(),
            final(self)@ == old(self)@.left_half(),
            r.1@ == old(self)@.right_half(Some(pager.cursor() as usize)),
    {
        let split_index: usize = self.keys.len() / 2;
        let mid_key = copy_bytes(&self.keys[split_index - 1]);
        let new_leaf_node = LeafNode {
            keys: self.keys.split_off(split_index),
            values: self.values.split_off(split_index),
            offset: Some(pager.next_offset()),
        };
        assert(self@.keys =~= old(self)@.left_half().keys);
        assert(self@.values =~= old(self)@.left_half().values);
        assert(new_leaf_node@.keys =~= old(self)@.right_half(None).keys);
        assert(new_leaf_node@.values =~= old(self)@.right_half(None).values);
        (mid_key, new_leaf_node)
    }

    /// Removes `key` and its value. Returns `None` where the leaf does not
    /// hold the key, and otherwise whether the leaf has underflowed.
    pub fn remove(&mut self, key: Key, degree: usize) -> (r: Option<bool>)
        requires
            old(self)@.wf(),
        ensures
            (final(self)@, r) == old(self)@.remove_result(key@, degree as int),
    {
        let (position, found) = find(&self.keys, &key);
        if !found {
            return None;
        }
        self.keys.remove(position);
        self.values.remove(position);
        assert(views(self.keys@) =~= views(old(self).keys@).remove(position as int));
        assert(views(self.values@) =~= views(old(self).values@).remove(position as int));
        Some(self.keys.len() < degree / 2)
    }

    /// The value paired with `key`, if the leaf holds the key.
    pub fn search(&self, key: Key) -> (r: Option<Value>)
        requires
            self@.wf(),
        ensures
            opt_view(r) == self@.get(key@),
    {
        let (position, found) = find(&self.keys, &key);
        if found {
            Some(copy_bytes(&self.values[position]))
        } else {
            None
        }
    }
}

} // verus!
