//! Laws of the tree: what holds of every tree that the operations can
//! produce, and of every history of insertions and deletions.

use crate::key::key_le;
use crate::key::key_lt;
use crate::key::lemma_holds_iff_contains;
use crate::key::lemma_key_chain;
use crate::key::lemma_key_order;
use crate::key::lemma_rank_splits;
use crate::key::rank;
use crate::key::sorted;
use crate::node::max_keys;
use crate::node::NodeModel;
use crate::structure::above;
use crate::structure::below;
use crate::structure::Bound;
use crate::structure::filled;
use crate::structure::hi_of;
use crate::structure::kid_ok;
use crate::structure::lemma_below_elim;
use crate::structure::lo_of;
use crate::structure::lookup;
use crate::structure::reaches;
use crate::structure::shape;
use crate::structure::Store;
use crate::structure::tree_map;
use crate::structure::tree_ok;
use crate::structure::upto;
use vstd::prelude::*;

verus! {

/// Every node of a subtree but its root is filled.
proof fn lemma_reach_filled(
    s: Store,
    off: usize,
    h: nat,
    degree: int,
    lo: Bound,
    hi: Bound,
    x: usize,
)
    requires
        kid_ok(s, off, h, degree, lo, hi),
        reaches(s, off, h, x),
        x != off,
    ensures
        s.dom().contains(x),
        filled(s[x], degree),
    decreases h,
{
    let node = s[off];
    let i = lemma_below_elim(s, node, h, x);
    let inner = node->Internal_0;
    let c = inner.children[i];
    assert(c == node.children()[i]);
    if x != c {
        lemma_reach_filled(
            s,
            c,
            (h - 1) as nat,
            degree,
            lo_of(inner.keys, lo, i),
            hi_of(inner.keys, hi, i),
            x,
        );
    }
}

/// Fill bounds: in a tree, every node holds at most `degree - 1` keys, and
/// every node but the root holds at least the minimum.
pub proof fn law_fill_bounds(s: Store, root: usize, degree: int, height: nat, x: usize)
    requires
        tree_ok(s, root, degree, height),
        reaches(s, root, height, x),
    ensures
        s.dom().contains(x),
        s[x].keys().len() <= max_keys(degree),
        x != root ==> filled(s[x], degree),
{
    if x != root {
        lemma_reach_filled(s, root, height, degree, None, None, x);
    }
}

/// The page at `x` belongs to the subtree of height `h` at `off`, `depth`
/// levels below its root.
pub open spec fn reaches_at(s: Store, off: usize, h: nat, x: usize, depth: nat) -> bool
    decreases h,
{
    if depth == 0 {
        x == off
    } else {
        h > 0 && s.dom().contains(off) && exists|i: int|
            0 <= i < s[off].children().len() && reaches_at(
                s,
                #[trigger] s[off].children()[i],
                (h - 1) as nat,
                x,
                (depth - 1) as nat,
            )
    }
}

/// In a subtree of height `h` the leaves, and only they, are `h` levels below
/// the root.
proof fn lemma_depth(
    s: Store,
    off: usize,
    h: nat,
    degree: int,
    lo: Bound,
    hi: Bound,
    x: usize,
    depth: nat,
)
    requires
        kid_ok(s, off, h, degree, lo, hi),
        reaches_at(s, off, h, x, depth),
    ensures
        depth <= h,
        s.dom().contains(x),
        s[x] is Leaf <==> depth == h,
    decreases h,
{
    if depth > 0 {
        let node = s[off];
        let i = choose|i: int|
            0 <= i < node.children().len() && reaches_at(
                s,
                #[trigger] node.children()[i],
                (h - 1) as nat,
                x,
                (depth - 1) as nat,
            );
        let inner = node->Internal_0;
        let c = inner.children[i];
        lemma_depth(
            s,
            c,
            (h - 1) as nat,
            degree,
            lo_of(inner.keys, lo, i),
            hi_of(inner.keys, hi, i),
            x,
            (depth - 1) as nat,
        );
    }
}

/// Balance: in a tree of height `height`, a node is a leaf exactly when it is
/// `height` levels below the root. So all leaves are at the same depth.
pub proof fn law_balance(s: Store, root: usize, degree: int, height: nat, x: usize, depth: nat)
    requires
        tree_ok(s, root, degree, height),
        reaches_at(s, root, height, x, depth),
    ensures
        depth <= height,
        s[x] is Leaf <==> depth == height,
{
    lemma_depth(s, root, height, degree, None, None, x, depth);
}

/// The keys of the leaves below `node`, from left to right.
pub open spec fn in_order(s: Store, node: NodeModel, h: nat) -> Seq<Seq<u8>>
    decreases h, 0nat,
{
    match node {
        NodeModel::Leaf(leaf) => leaf.keys,
        NodeModel::Internal(inner) => if h == 0 {
            Seq::empty()
        } else {
            kids_in_order(s, inner.children, (h - 1) as nat, inner.children.len())
        },
    }
}

/// The keys of the leaves below the first `n` of the children `kids`, from
/// left to right.
pub open spec fn kids_in_order(s: Store, kids: Seq<usize>, g: nat, n: nat) -> Seq<Seq<u8>>
    decreases g, n + 1,
{
    if n == 0 {
        Seq::empty()
    } else {
        kids_in_order(s, kids, g, (n - 1) as nat) + in_order(s, s[kids[n - 1]], g)
    }
}

/// Every key of `keys` lies above `lo` and does not exceed `hi`.
pub open spec fn all_within(keys: Seq<Seq<u8>>, lo: Bound, hi: Bound) -> bool {
    forall|i: int| 0 <= i < keys.len() ==> above(lo, #[trigger] keys[i]) && upto(keys[i], hi)
}

/// Two sorted runs, the first up to a bound and the second above it, make a
/// sorted run.
proof fn lemma_sorted_concat(a: Seq<Seq<u8>>, b: Seq<Seq<u8>>, mid: Seq<u8>)
    requires
        sorted(a),
        sorted(b),
        forall|i: int| 0 <= i < a.len() ==> key_le(#[trigger] a[i], mid),
        forall|i: int| 0 <= i < b.len() ==> key_lt(mid, #[trigger] b[i]),
    ensures
        sorted(a + b),
{
    let c = a + b;
    assert forall|i: int, j: int| 0 <= i < j < c.len() implies key_lt(
        #[trigger] c[i],
        #[trigger] c[j],
    ) by {
        if i < a.len() && a.len() <= j {
            lemma_key_chain(a[i], mid, b[j - a.len()]);
        }
    }
}

/// The keys below a well shaped node, from left to right, are strictly
/// increasing and lie within the bounds of the node.
proof fn lemma_in_order(s: Store, node: NodeModel, h: nat, degree: int, lo: Bound, hi: Bound)
    requires
        shape(s, node, h, degree, lo, hi),
    ensures
        sorted(in_order(s, node, h)),
        all_within(in_order(s, node, h), lo, hi),
    decreases h, node.children().len() + 2,
{
    match node {
        NodeModel::Leaf(leaf) => {},
        NodeModel::Internal(inner) => {
            lemma_kids_in_order(s, node, h, degree, lo, hi, inner.children.len());
        },
    }
}

/// The keys below the first `n` children of a well shaped node, from left to
/// right, are strictly increasing and lie above the lower bound of the node
/// and within the upper bound of child `n - 1`.
proof fn lemma_kids_in_order(
    s: Store,
    node: NodeModel,
    h: nat,
    degree: int,
    lo: Bound,
    hi: Bound,
    n: nat,
)
    requires
        h > 0,
        node is Internal,
        shape(s, node, h, degree, lo, hi),
        n <= node.children().len(),
    ensures
        sorted(kids_in_order(s, node.children(), (h - 1) as nat, n)),
        all_within(
            kids_in_order(s, node.children(), (h - 1) as nat, n),
            lo,
            if n == 0 {
                hi
            } else {
                hi_of(node.keys(), hi, n - 1)
            },
        ),
        all_within(kids_in_order(s, node.children(), (h - 1) as nat, n), lo, hi),
    decreases h, n + 1,
{
    let inner = node->Internal_0;
    let kids = inner.children;
    let keys = inner.keys;
    let g = (h - 1) as nat;
    if n > 0 {
        let i = n - 1;
        let c = kids[i];
        let front = kids_in_order(s, kids, g, i as nat);
        let last = in_order(s, s[c], g);
        let all = kids_in_order(s, kids, g, n);
        lemma_kids_in_order(s, node, h, degree, lo, hi, i as nat);
        lemma_in_order(s, s[c], g, degree, lo_of(keys, lo, i), hi_of(keys, hi, i));
        let top = hi_of(keys, hi, i);
        if i > 0 {
            let mid = keys[i - 1];
            lemma_sorted_concat(front, last, mid);
            assert forall|j: int| 0 <= j < all.len() implies above(lo, #[trigger] all[j]) && upto(
                all[j],
                top,
            ) && upto(all[j], hi) by {
                if j < front.len() {
                    if i < keys.len() {
                        lemma_key_chain(front[j], mid, keys[i]);
                        lemma_key_chain(front[j], keys[i], keys[i]);
                    }
                } else {
                    let e = last[j - front.len()];
                    if lo is Some {
                        lemma_key_order(lo->0, mid, e);
                    }
                    if i < keys.len() && hi is Some {
                        lemma_key_chain(e, keys[i], hi->0);
                        lemma_key_chain(e, hi->0, hi->0);
                    }
                }
            }
        } else {
            assert forall|j: int| 0 <= j < all.len() implies upto(#[trigger] all[j], hi) by {
                if i < keys.len() && hi is Some {
                    lemma_key_chain(all[j], keys[i], hi->0);
                    lemma_key_chain(all[j], hi->0, hi->0);
                }
            }
        }
    }
}

/// Key order: the keys of a tree, read from its leaves left to right, are
/// strictly increasing.
pub proof fn law_key_order(s: Store, root: usize, degree: int, height: nat)
    requires
        tree_ok(s, root, degree, height),
    ensures
        sorted(in_order(s, s[root], height)),
{
    lemma_in_order(s, s[root], height, degree, None, None);
}

/// A key is among the keys below the first `n` children exactly when it is
/// among the keys below one of them.
proof fn lemma_kids_contain(s: Store, kids: Seq<usize>, g: nat, n: nat, key: Seq<u8>)
    requires
        n <= kids.len(),
    ensures
        kids_in_order(s, kids, g, n).contains(key) <==> exists|j: int|
            0 <= j < n && in_order(s, s[#[trigger] kids[j]], g).contains(key),
    decreases n,
{
    if n > 0 {
        let front = kids_in_order(s, kids, g, (n - 1) as nat);
        let last = in_order(s, s[kids[n - 1]], g);
        let all = kids_in_order(s, kids, g, n);
        lemma_kids_contain(s, kids, g, (n - 1) as nat, key);
        if all.contains(key) {
            let i = choose|i: int| 0 <= i < all.len() && all[i] == key;
            if i < front.len() {
                let j = choose|j: int|
                    0 <= j < n - 1 && in_order(s, s[#[trigger] kids[j]], g).contains(key);
            }
        }
        if exists|j: int| 0 <= j < n && in_order(s, s[#[trigger] kids[j]], g).contains(key) {
            let j = choose|j: int|
                0 <= j < n && in_order(s, s[#[trigger] kids[j]], g).contains(key);
            if j < n - 1 {
                let i = choose|i: int| 0 <= i < front.len() && front[i] == key;
                assert(all[i] == key);
            } else {
                let i = choose|i: int| 0 <= i < last.len() && last[i] == key;
                assert(all[front.len() + i] == key);
            }
        }
    }
}

/// A search below a well shaped node finds a key exactly when the key
/// stands in one of the leaves below the node.
proof fn lemma_found_iff_stored(
    s: Store,
    node: NodeModel,
    h: nat,
    degree: int,
    lo: Bound,
    hi: Bound,
    key: Seq<u8>,
)
    requires
        shape(s, node, h, degree, lo, hi),
    ensures
        lookup(s, node, h, key) is Some <==> in_order(s, node, h).contains(key),
    decreases h,
{
    match node {
        NodeModel::Leaf(leaf) => {
            lemma_holds_iff_contains(leaf.keys, key);
        },
        NodeModel::Internal(inner) => {
            let g = (h - 1) as nat;
            let kids = inner.children;
            let keys = inner.keys;
            lemma_rank_splits(keys, key);
            let r = rank(keys, key);
            lemma_found_iff_stored(s, s[kids[r]], g, degree, lo_of(keys, lo, r), hi_of(keys, hi, r), key);
            lemma_kids_contain(s, kids, g, kids.len(), key);
            if in_order(s, node, h).contains(key) {
                let j = choose|j: int|
                    0 <= j < kids.len() && in_order(s, s[#[trigger] kids[j]], g).contains(key);
                lemma_in_order(s, s[kids[j]], g, degree, lo_of(keys, lo, j), hi_of(keys, hi, j));
                let run = in_order(s, s[kids[j]], g);
                let i = choose|i: int| 0 <= i < run.len() && run[i] == key;
            }
        },
    }
}

/// What a tree holds is what stands in its leaves: a search finds a key
/// exactly when the key is among the keys of the leaves.
pub proof fn law_map_is_leaves(s: Store, root: usize, degree: int, height: nat, key: Seq<u8>)
    requires
        tree_ok(s, root, degree, height),
    ensures
        tree_map(s, root, height).dom().contains(key) <==> in_order(s, s[root], height).contains(
            key,
        ),
{
    lemma_found_iff_stored(s, s[root], height, degree, None, None, key);
}

/// One step of a history: an insertion or a deletion.
pub enum Op {
    Insert { key: Seq<u8>, value: Seq<u8> },
    Delete { key: Seq<u8> },
}

/// What a map holds after one step.
pub open spec fn step(m: Map<Seq<u8>, Seq<u8>>, op: Op) -> Map<Seq<u8>, Seq<u8>> {
    match op {
        Op::Insert { key, value } => m.insert(key, value),
        Op::Delete { key } => m.remove(key),
    }
}

/// What a map that was empty holds after the steps of a history.
pub open spec fn replay(ops: Seq<Op>) -> Map<Seq<u8>, Seq<u8>>
    decreases ops.len(),
{
    if ops.len() == 0 {
        Map::empty()
    } else {
        step(replay(ops.drop_last()), ops.last())
    }
}

/// The value that the last step of a history which names `key` has left for
/// it: the value inserted, or none where the step was a deletion or no step
/// names the key.
pub open spec fn latest(ops: Seq<Op>, key: Seq<u8>) -> Option<Seq<u8>>
    decreases ops.len(),
{
    if ops.len() == 0 {
        None
    } else {
        match ops.last() {
            Op::Insert { key: k, value } => if k == key {
                Some(value)
            } else {
                latest(ops.drop_last(), key)
            },
            Op::Delete { key: k } => if k == key {
                None
            } else {
                latest(ops.drop_last(), key)
            },
        }
    }
}

/// Model equivalence: a map that follows a history step by step, as the
/// tree does by what its insertions and deletions ensure, holds after every
/// step what the history leaves.
pub proof fn law_follows_history(m: Map<Seq<u8>, Seq<u8>>, ops: Seq<Op>, op: Op)
    requires
        m == replay(ops),
    ensures
        step(m, op) == replay(ops.push(op)),
{
    assert(ops.push(op).drop_last() =~= ops);
}

/// Round trip: after any history of insertions and deletions, a key that was
/// inserted and not deleted since has the value that was inserted last, and
/// any other key has none.
pub proof fn law_latest_value(ops: Seq<Op>, key: Seq<u8>)
    ensures
        replay(ops).dom().contains(key) <==> latest(ops, key) is Some,
        latest(ops, key) matches Some(value) ==> replay(ops)[key] == value,
    decreases ops.len(),
{
    if ops.len() > 0 {
        law_latest_value(ops.drop_last(), key);
    }
}

/// Empty state: a history that deletes every key it has inserted leaves
/// nothing.
pub proof fn law_all_deleted(ops: Seq<Op>)
    requires
        forall|key: Seq<u8>| latest(ops, key) is None,
    ensures
        replay(ops) == Map::<Seq<u8>, Seq<u8>>::empty(),
{
    assert forall|key: Seq<u8>| !replay(ops).dom().contains(key) by {
        law_latest_value(ops, key);
    }
}

} // verus!
