//! Keys, their order, and searching a sorted run of keys.

use vstd::prelude::*;

verus! {

/// A key: an opaque byte string, ordered lexicographically by byte value.
pub type Key = Vec<u8>;

/// A value: an opaque byte string.
pub type Value = Vec<u8>;

/// The position of a page.
pub type Offset = usize;

/// The outcome of comparing two keys.
#[derive(Clone, Copy, Debug, PartialEq, Eq)]
pub enum KeyOrder {
    Less,
    Equal,
    Greater,
}

/// The byte strings held by a run of keys or values.
pub open spec fn views(v: Seq<Vec<u8>>) -> Seq<Seq<u8>> {
    v.map_values(|x: Vec<u8>| x@)
}

/// `a` is below `b` lexicographically, given that they agree before index `i`.
pub open spec fn lt_from(a: Seq<u8>, b: Seq<u8>, i: int) -> bool
    decreases b.len() - i,
{
    if i < 0 || i >= b.len() {
        false
    } else if i >= a.len() {
        true
    } else if a[i] != b[i] {
        a[i] < b[i]
    } else {
        lt_from(a, b, i + 1)
    }
}

/// The strict lexicographic order on byte strings.
pub open spec fn key_lt(a: Seq<u8>, b: Seq<u8>) -> bool {
    lt_from(a, b, 0)
}

/// The lexicographic order on byte strings.
pub open spec fn key_le(a: Seq<u8>, b: Seq<u8>) -> bool {
    !key_lt(b, a)
}

/// Each key is strictly below the next.
pub open spec fn sorted(keys: Seq<Seq<u8>>) -> bool {
    forall|i: int, j: int| 0 <= i < j < keys.len() ==> key_lt(#[trigger] keys[i], #[trigger] keys[j])
}

/// The number of keys in `keys` that are strictly below `key`. In a sorted run
/// this is the position of `key` if it is present, and the position at which
/// it would be inserted if it is not.
pub open spec fn rank(keys: Seq<Seq<u8>>, key: Seq<u8>) -> int
    decreases keys.len(),
{
    if keys.len() == 0 {
        0
    } else {
        rank(keys.drop_last(), key) + if key_lt(keys.last(), key) {
            1int
        } else {
            0int
        }
    }
}

/// `key` stands in the sorted run `keys`, at its rank.
pub open spec fn holds(keys: Seq<Seq<u8>>, key: Seq<u8>) -> bool {
    let p = rank(keys, key);
    0 <= p < keys.len() && keys[p] == key
}

proof fn lemma_from_irreflexive(a: Seq<u8>, i: int)
    ensures
        !lt_from(a, a, i),
    decreases a.len() - i,
{
    if 0 <= i < a.len() {
        lemma_from_irreflexive(a, i + 1);
    }
}

proof fn lemma_from_transitive(a: Seq<u8>, b: Seq<u8>, c: Seq<u8>, i: int)
    requires
        lt_from(a, b, i),
        lt_from(b, c, i),
    ensures
        lt_from(a, c, i),
    decreases c.len() - i,
{
    if i < a.len() && a[i] == b[i] && b[i] == c[i] {
        lemma_from_transitive(a, b, c, i + 1);
    }
}

proof fn lemma_from_connected(a: Seq<u8>, b: Seq<u8>, i: int)
    requires
        0 <= i <= a.len(),
        i <= b.len(),
        forall|j: int| 0 <= j < i ==> a[j] == b[j],
        !lt_from(a, b, i),
        !lt_from(b, a, i),
    ensures
        a == b,
    decreases a.len() - i,
{
    if i < a.len() && i < b.len() {
        lemma_from_connected(a, b, i + 1);
    }
}

/// The order on keys is a strict total order: irreflexive, transitive, and any
/// two distinct keys are ordered one way or the other.
pub proof fn lemma_key_order(a: Seq<u8>, b: Seq<u8>, c: Seq<u8>)
    ensures
        !key_lt(a, a),
        key_lt(a, b) && key_lt(b, c) ==> key_lt(a, c),
        key_lt(a, b) || a == b || key_lt(b, a),
        key_lt(a, b) ==> !key_lt(b, a),
{
    lemma_from_irreflexive(a, 0);
    if key_lt(a, b) && key_lt(b, c) {
        lemma_from_transitive(a, b, c, 0);
    }
    if !key_lt(a, b) && !key_lt(b, a) {
        lemma_from_connected(a, b, 0);
    }
    if key_lt(a, b) && key_lt(b, a) {
        lemma_from_transitive(a, b, a, 0);
    }
}

/// Facts about the order that follow from its being total: how `key_le` and
/// `key_lt` chain.
pub proof fn lemma_key_chain(a: Seq<u8>, b: Seq<u8>, c: Seq<u8>)
    ensures
        key_le(a, b) && key_lt(b, c) ==> key_lt(a, c),
        key_lt(a, b) && key_le(b, c) ==> key_lt(a, c),
        key_le(a, b) && key_le(b, c) ==> key_le(a, c),
        key_le(a, b) <==> key_lt(a, b) || a == b,
        key_le(a, a),
{
    lemma_key_order(a, b, c);
    lemma_key_order(b, c, a);
}

/// The rank of a key lies between zero and the number of keys.
pub proof fn lemma_rank_range(keys: Seq<Seq<u8>>, key: Seq<u8>)
    ensures
        0 <= rank(keys, key) <= keys.len(),
    decreases keys.len(),
{
    if keys.len() > 0 {
        lemma_rank_range(keys.drop_last(), key);
    }
}

/// In a sorted run, the rank of `key` splits the run: the keys before it are
/// below `key`, the keys from it on are not.
pub proof fn lemma_rank_splits(keys: Seq<Seq<u8>>, key: Seq<u8>)
    requires
        sorted(keys),
    ensures
        0 <= rank(keys, key) <= keys.len(),
        forall|i: int| 0 <= i < rank(keys, key) ==> key_lt(#[trigger] keys[i], key),
        forall|i: int| rank(keys, key) <= i < keys.len() ==> key_le(key, #[trigger] keys[i]),
    decreases keys.len(),
{
    if keys.len() > 0 {
        let front = keys.drop_last();
        lemma_rank_splits(front, key);
        if key_lt(keys.last(), key) {
            assert forall|i: int| 0 <= i < keys.len() - 1 implies key_lt(#[trigger] keys[i], key) by {
                lemma_key_order(keys[i], keys.last(), key);
            }
        } else {
            assert forall|i: int| rank(keys, key) <= i < keys.len() implies key_le(
                key,
                #[trigger] keys[i],
            ) by {
                if i < keys.len() - 1 {
                    assert(front[i] == keys[i]);
                }
            }
            assert forall|i: int| 0 <= i < rank(keys, key) implies key_lt(#[trigger] keys[i], key) by {
                assert(front[i] == keys[i]);
            }
        }
    }
}

/// A position that splits the run as the rank does is the rank.
pub proof fn lemma_rank_is(keys: Seq<Seq<u8>>, key: Seq<u8>, p: int)
    requires
        0 <= p <= keys.len(),
        forall|i: int| 0 <= i < p ==> key_lt(#[trigger] keys[i], key),
        forall|i: int| p <= i < keys.len() ==> key_le(key, #[trigger] keys[i]),
    ensures
        rank(keys, key) == p,
    decreases keys.len(),
{
    if keys.len() > 0 {
        let front = keys.drop_last();
        if p == keys.len() {
            lemma_rank_is(front, key, p - 1);
        } else {
            lemma_rank_is(front, key, p);
        }
    }
}

/// In a sorted run a key occurs exactly when it stands at its rank.
pub proof fn lemma_holds_iff_contains(keys: Seq<Seq<u8>>, key: Seq<u8>)
    requires
        sorted(keys),
    ensures
        holds(keys, key) <==> keys.contains(key),
{
    lemma_rank_splits(keys, key);
    if keys.contains(key) {
        let i = choose|i: int| 0 <= i < keys.len() && keys[i] == key;
        lemma_key_order(key, key, key);
    }
}

/// In a sorted run each key stands at its own rank.
pub proof fn lemma_rank_at(keys: Seq<Seq<u8>>, i: int)
    requires
        sorted(keys),
        0 <= i < keys.len(),
    ensures
        rank(keys, keys[i]) == i,
        holds(keys, keys[i]),
{
    assert forall|j: int| i <= j < keys.len() implies key_le(keys[i], #[trigger] keys[j]) by {
        lemma_key_order(keys[i], keys[j], keys[i]);
    }
    lemma_rank_is(keys, keys[i], i);
}

/// A sorted run holds no key twice.
pub proof fn lemma_sorted_distinct(keys: Seq<Seq<u8>>, i: int, j: int)
    requires
        sorted(keys),
        0 <= i < keys.len(),
        0 <= j < keys.len(),
        keys[i] == keys[j],
    ensures
        i == j,
{
    lemma_key_order(keys[i], keys[j], keys[i]);
}

/// A key put into a sorted run at its rank, where the run does not hold it,
/// leaves the run sorted.
pub proof fn lemma_sorted_insert(keys: Seq<Seq<u8>>, key: Seq<u8>)
    requires
        sorted(keys),
        !holds(keys, key),
    ensures
        sorted(keys.insert(rank(keys, key), key)),
{
    let p = rank(keys, key);
    let out = keys.insert(p, key);
    lemma_rank_splits(keys, key);
    assert forall|i: int, j: int| 0 <= i < j < out.len() implies key_lt(
        #[trigger] out[i],
        #[trigger] out[j],
    ) by {
        if i == p && p < j {
            lemma_key_order(key, keys[p], keys[j - 1]);
        }
    }
}

/// In a sorted run a key is routed by the keys around its place: the
/// position whose left neighbour is below the key and whose own key is not
/// is the key's rank.
pub proof fn lemma_route(keys: Seq<Seq<u8>>, key: Seq<u8>, i: int)
    requires
        sorted(keys),
        0 <= i <= keys.len(),
        i > 0 ==> key_lt(keys[i - 1], key),
        i < keys.len() ==> key_le(key, keys[i]),
    ensures
        rank(keys, key) == i,
{
    assert forall|j: int| 0 <= j < i implies key_lt(#[trigger] keys[j], key) by {
        lemma_key_order(keys[j], keys[i - 1], key);
    }
    assert forall|j: int| i <= j < keys.len() implies key_le(key, #[trigger] keys[j]) by {
        lemma_key_chain(key, keys[i], keys[j]);
        lemma_key_chain(keys[i], keys[j], keys[j]);
    }
    lemma_rank_is(keys, key, i);
}

/// A key of a sorted run replaced by one that lies between its neighbours
/// leaves the run sorted.
pub proof fn lemma_sorted_update(keys: Seq<Seq<u8>>, a: int, key: Seq<u8>)
    requires
        sorted(keys),
        0 <= a < keys.len(),
        a > 0 ==> key_lt(keys[a - 1], key),
        a + 1 < keys.len() ==> key_lt(key, keys[a + 1]),
    ensures
        sorted(keys.update(a, key)),
{
    let out = keys.update(a, key);
    assert forall|i: int, j: int| 0 <= i < j < out.len() implies key_lt(
        #[trigger] out[i],
        #[trigger] out[j],
    ) by {
        if j == a {
            lemma_key_order(keys[i], keys[a - 1], key);
        } else if i == a {
            lemma_key_order(key, keys[a + 1], keys[j]);
        }
    }
}

/// Compares two keys lexicographically by byte value.
pub fn compare(a: &Key, b: &Key) -> (r: KeyOrder)
    ensures
        match r {
            KeyOrder::Less => key_lt(a@, b@),
            KeyOrder::Equal => a@ == b@,
            KeyOrder::Greater => key_lt(b@, a@),
        },
{
    let mut i: usize = 0;
    while i < a.len() && i < b.len()
        invariant
            0 <= i <= a.len(),
            i <= b.len(),
            key_lt(a@, b@) == lt_from(a@, b@, i as int),
            key_lt(b@, a@) == lt_from(b@, a@, i as int),
            forall|j: int| 0 <= j < i ==> a@[j] == b@[j],
        decreases a.len() - i,
    {
        if a[i] < b[i] {
            return KeyOrder::Less;
        }
        if a[i] > b[i] {
            return KeyOrder::Greater;
        }
        i += 1;
    }
    if a.len() < b.len() {
        KeyOrder::Less
    } else if a.len() > b.len() {
        KeyOrder::Greater
    } else {
        KeyOrder::Equal
    }
}

/// Binary search in a sorted run of keys. Returns the rank of `key` and whether
/// `key` stands there.
pub fn find(keys: &Vec<Key>, key: &Key) -> (r: (usize, bool))
    requires
        sorted(views(keys@)),
    ensures
        r.0 == rank(views(keys@), key@),
        r.1 == holds(views(keys@), key@),
{
    let ghost run = views(keys@);
    let mut lo: usize = 0;
    let mut hi: usize = keys.len();
    while lo < hi
        invariant
            run == views(keys@),
            sorted(run),
            0 <= lo <= hi <= keys.len(),
            forall|i: int| 0 <= i < lo ==> key_lt(#[trigger] run[i], key@),
            forall|i: int| hi <= i < run.len() ==> key_le(key@, #[trigger] run[i]),
        decreases hi - lo,
    {
        let mid: usize = lo + (hi - lo) / 2;
        match compare(&keys[mid], key) {
            KeyOrder::Less => {
                assert forall|i: int| 0 <= i < mid + 1 implies key_lt(#[trigger] run[i], key@) by {
                    lemma_key_order(run[i], run[mid as int], key@);
                }
                lo = mid + 1;
            },
            _ => {
                assert forall|i: int| mid <= i < run.len() implies key_le(key@, #[trigger] run[i]) by {
                    lemma_key_chain(key@, run[mid as int], run[i]);
                    lemma_key_order(run[i], key@, run[mid as int]);
                }
                hi = mid;
            },
        }
    }
    proof {
        lemma_rank_is(run, key@, lo as int);
    }
    if lo < keys.len() {
        match compare(&keys[lo], key) {
            KeyOrder::Equal => (lo, true),
            _ => {
                (lo, false)
            },
        }
    } else {
        (lo, false)
    }
}

} // verus!
