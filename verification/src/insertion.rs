//! What an insertion leaves behind, and why the tree is still a tree.

use crate::error::Error;
use crate::key::holds;
use crate::key::key_le;
use crate::key::lemma_key_chain;
use crate::key::lemma_key_order;
use crate::key::lemma_rank_range;
use crate::key::lemma_rank_splits;
use crate::key::lemma_route;
use crate::key::lemma_sorted_insert;
use crate::key::rank;
use crate::key::sorted;
use crate::node::as_node;
use crate::node::internal::InternalModel;
use crate::node::leaf::LeafModel;
use crate::node::leaf::lemma_get_at;
use crate::node::leaf::lemma_leaf_split;
use crate::node::leaf::lemma_put;
use crate::node::max_keys;
use crate::node::NodeModel;
use crate::pager::Shelf;
use crate::structure::above;
use crate::structure::below;
use crate::structure::Bound;
use crate::structure::built_from;
use crate::structure::filled;
use crate::structure::grown;
use crate::structure::hi_of;
use crate::structure::inner_ok;
use crate::structure::kid_ok;
use crate::structure::leaf_ok;
use crate::structure::lemma_below_in_dom;
use crate::structure::lemma_others_kept;
use crate::structure::lemma_reaches;
use crate::structure::lemma_settle;
use crate::structure::lo_of;
use crate::structure::lookup;
use crate::structure::node_ok;
use crate::structure::Place;
use crate::structure::place_of;
use crate::structure::reaches;
use crate::structure::root_place;
use crate::structure::same_but;
use crate::structure::same_outside;
use crate::structure::shape;
use crate::structure::Store;
use crate::structure::tree_map;
use crate::structure::tree_ok;
use crate::structure::under;
use crate::structure::upto;
use vstd::prelude::*;

verus! {

/// The place `at` with the upper bound `mid`.
pub open spec fn left_of(at: Place, mid: Seq<u8>) -> Place {
    Place { degree: at.degree, height: at.height, lo: at.lo, hi: Some(mid) }
}

/// The place `at` with the lower bound `mid`.
pub open spec fn right_of(at: Place, mid: Seq<u8>) -> Place {
    Place { degree: at.degree, height: at.height, lo: Some(mid), hi: at.hi }
}

/// What an insertion below `node`, which stands `h` levels above the leaves,
/// does step by step, and what it leaves: the pages, the node, and what the
/// insertion hands up or the error that stopped it.
///
/// A leaf takes the pair in and splits where it holds more than `d - 1`
/// keys. An internal node hands the pair to the child that the key is
/// routed to. Where the child did not split it is written back to its page.
/// Where it did, its new sibling is written to a fresh page, the child is
/// written back, and the node takes in the separator and the offset of the
/// sibling; where it then holds more than `d - 1` keys it is split in turn.
/// The first write that is refused stops the insertion, with the node as it
/// was.
pub open spec fn grow(w: Shelf, node: NodeModel, h: nat, key: Seq<u8>, value: Seq<u8>, d: int) -> (
    Shelf,
    NodeModel,
    Result<Option<(Seq<u8>, NodeModel)>, Error>,
)
    decreases h,
{
    match node {
        NodeModel::Leaf(leaf) => {
            let made = leaf.insert_result(key, value, d, w.cursor() as usize);
            (w, NodeModel::Leaf(made.0), Ok(as_node(made.1)))
        },
        NodeModel::Internal(inner) => if h == 0 {
            (w, node, Ok(None))
        } else {
            let p = inner.route(key);
            let c = inner.children[p];
            let (w1, child, r1) = grow(w, w.nodes[c], (h - 1) as nat, key, value, d);
            match r1 {
                Err(e) => (w1, node, Err(e)),
                Ok(None) => {
                    let (w2, r2) = w1.write_at(child, c);
                    match r2 {
                        Err(e) => (w2, node, Err(e)),
                        Ok(_) => (w2, node, Ok(None)),
                    }
                },
                Ok(Some((mid, right))) => {
                    let (w2, r2) = w1.write(right);
                    match r2 {
                        Err(e) => (w2, node, Err(e)),
                        Ok(sib) => {
                            let (w3, r3) = w2.write_at(child, c);
                            match r3 {
                                Err(e) => (w3, node, Err(e)),
                                Ok(_) => {
                                    let full = inner.with_child(p, mid, sib);
                                    if full.keys.len() > d - 1 {
                                        (
                                            w3,
                                            NodeModel::Internal(full.left_half()),
                                            Ok(
                                                Some(
                                                    (
                                                        full.split_key(),
                                                        NodeModel::Internal(
                                                            full.right_half(
                                                                Some(w3.cursor() as usize),
                                                            ),
                                                        ),
                                                    ),
                                                ),
                                            ),
                                        )
                                    } else {
                                        (w3, NodeModel::Internal(full), Ok(None))
                                    }
                                },
                            }
                        },
                    }
                },
            }
        },
    }
}

/// What the subtree of `before` holds once `key` is paired with `value`.
pub open spec fn with_entry(
    s: Store,
    before: NodeModel,
    h: nat,
    key: Seq<u8>,
    value: Seq<u8>,
    k: Seq<u8>,
) -> Option<Seq<u8>> {
    if k == key {
        Some(value)
    } else {
        lookup(s, before, h, k)
    }
}

/// What an insertion into the subtree of `before`, which stands at `at`,
/// leaves behind. The node has become `after`, the store `t`.
///
/// Without a split, `after` roots a well shaped subtree in the same place.
/// With a split, `after` and the new right node root well shaped subtrees to
/// the left and right of the separator `mid`, both filled, with no page in
/// common. Either way they hold what `before` held and `value` for `key`,
/// pages outside the subtree are as they were, and the subtree is made of
/// pages that belonged to it or are new.
pub open spec fn inserted(
    s: Store,
    t: Store,
    before: NodeModel,
    after: NodeModel,
    split: Option<(Seq<u8>, NodeModel)>,
    at: Place,
    key: Seq<u8>,
    value: Seq<u8>,
) -> bool {
    &&& grown(s, t)
    &&& same_outside(s, t, before, at.height)
    &&& built_from(s, t, before, after, at.height)
    &&& match split {
        None => {
            &&& node_ok(t, after, at)
            &&& before.keys().len() <= after.keys().len() <= max_keys(at.degree)
            &&& forall|k: Seq<u8>| #[trigger]
                lookup(t, after, at.height, k) == with_entry(s, before, at.height, key, value, k)
        },
        Some((mid, right)) => {
            &&& above(at.lo, mid)
            &&& under(mid, at.hi)
            &&& node_ok(t, after, left_of(at, mid))
            &&& node_ok(t, right, right_of(at, mid))
            &&& filled(after, at.degree)
            &&& filled(right, at.degree)
            &&& built_from(s, t, before, right, at.height)
            &&& forall|x: usize| !(#[trigger] below(t, after, at.height, x) && below(t, right, at.height, x))
            &&& forall|k: Seq<u8>|
                (if key_le(k, mid) {
                    lookup(t, after, at.height, k)
                } else {
                    lookup(t, right, at.height, k)
                }) == #[trigger] with_entry(s, before, at.height, key, value, k)
        },
    }
}

/// A leaf cut at position `q`: the two parts are well shaped leaves to the
/// left and right of the last key on the left, and between them hold what
/// the leaf held.
pub(crate) proof fn lemma_leaf_cut(s: Store, leaf: LeafModel, at: Place, q: int, offset: Option<usize>)
    requires
        node_ok(s, NodeModel::Leaf(leaf), at),
        1 <= q < leaf.keys.len(),
    ensures
        ({
            let mid = leaf.keys[q - 1];
            let left = NodeModel::Leaf(leaf.left_part(q));
            let right = NodeModel::Leaf(leaf.right_part(q, offset));
            &&& above(at.lo, mid)
            &&& under(mid, at.hi)
            &&& node_ok(s, left, left_of(at, mid))
            &&& node_ok(s, right, right_of(at, mid))
            &&& left.keys().len() == q
            &&& right.keys().len() == leaf.keys.len() - q
            &&& forall|k: Seq<u8>| #[trigger]
                lookup(s, NodeModel::Leaf(leaf), at.height, k) == if key_le(k, mid) {
                    lookup(s, left, at.height, k)
                } else {
                    lookup(s, right, at.height, k)
                }
        }),
{
    let left = leaf.left_part(q);
    let right = leaf.right_part(q, offset);
    let mid = leaf.keys[q - 1];
    lemma_leaf_split(leaf, q, offset);
    assert(under(mid, at.hi)) by {
        if at.hi is Some {
            lemma_key_chain(mid, leaf.keys[q], at.hi->0);
        }
    }
    assert forall|k: Seq<u8>| #[trigger]
        lookup(s, NodeModel::Leaf(leaf), at.height, k) == if key_le(k, mid) {
            lookup(s, NodeModel::Leaf(left), at.height, k)
        } else {
            lookup(s, NodeModel::Leaf(right), at.height, k)
        } by {}
}

/// An insertion into a leaf leaves what [`inserted`] says.
pub(crate) proof fn lemma_leaf_inserted(
    s: Store,
    leaf: LeafModel,
    key: Seq<u8>,
    value: Seq<u8>,
    at: Place,
    offset: Option<usize>,
)
    requires
        at.degree >= 3,
        node_ok(s, NodeModel::Leaf(leaf), at),
        leaf.keys.len() <= max_keys(at.degree),
        above(at.lo, key),
        upto(key, at.hi),
    ensures
        ({
            let full = leaf.put(key, value);
            if holds(leaf.keys, key) || full.keys.len() <= at.degree - 1 {
                inserted(s, s, NodeModel::Leaf(leaf), NodeModel::Leaf(full), None, at, key, value)
            } else {
                inserted(
                    s,
                    s,
                    NodeModel::Leaf(leaf),
                    NodeModel::Leaf(full.left_half()),
                    Some((full.split_key(), NodeModel::Leaf(full.right_half(offset)))),
                    at,
                    key,
                    value,
                )
            }
        }),
{
    let full = leaf.put(key, value);
    let before = NodeModel::Leaf(leaf);
    lemma_put(leaf, key, value);
    if holds(leaf.keys, key) || full.keys.len() <= at.degree - 1 {
        let after = NodeModel::Leaf(full);
    } else {
        let left = full.left_half();
        let right = full.right_half(offset);
        let mid = full.split_key();
        lemma_leaf_cut(s, full, at, full.split_at(), offset);
        assert forall|k: Seq<u8>|
            (if key_le(k, mid) {
                lookup(s, NodeModel::Leaf(left), at.height, k)
            } else {
                lookup(s, NodeModel::Leaf(right), at.height, k)
            }) == #[trigger] with_entry(s, before, at.height, key, value, k) by {
            assert(lookup(s, NodeModel::Leaf(full), at.height, k) == if key_le(k, mid) {
                lookup(s, NodeModel::Leaf(left), at.height, k)
            } else {
                lookup(s, NodeModel::Leaf(right), at.height, k)
            });
        }
    }
}

/// A child that was changed in place: where the subtree of child `p` of
/// `node` has become that of `n1` in `sb`, built from its own and from new
/// pages, and `n1` is then written to the child's page, `node` is well
/// shaped as before. It holds for a key routed to child `p` what `n1` holds,
/// and for any other key what it held before.
pub(crate) proof fn lemma_child_updated(
    sa: Store,
    sb: Store,
    node: NodeModel,
    p: int,
    n1: NodeModel,
    at: Place,
)
    requires
        at.height > 0,
        node is Internal,
        shape(sa, node, at.height, at.degree, at.lo, at.hi),
        0 <= p < node.children().len(),
        grown(sa, sb),
        same_outside(sa, sb, sa[node.children()[p]], (at.height - 1) as nat),
        built_from(sa, sb, sa[node.children()[p]], n1, (at.height - 1) as nat),
        node_ok(sb, n1, place_of(node.keys(), at, p)),
    ensures
        ({
            let t = sb.insert(node.children()[p], n1);
            &&& shape(t, node, at.height, at.degree, at.lo, at.hi)
            &&& forall|i: int|
                0 <= i < node.children().len() && i != p ==> t[#[trigger] node.children()[i]]
                    == sa[node.children()[i]]
            &&& t[node.children()[p]] == n1
            &&& grown(sa, t)
            &&& same_outside(sa, t, node, at.height)
            &&& built_from(sa, t, node, node, at.height)
            &&& forall|k: Seq<u8>| #[trigger]
                lookup(t, node, at.height, k) == if rank(node.keys(), k) == p {
                    lookup(sb, n1, (at.height - 1) as nat, k)
                } else {
                    lookup(sa, node, at.height, k)
                }
        }),
{
    let inner = node->Internal_0;
    let kids = inner.children;
    let keys = inner.keys;
    let h = at.height;
    let g = (h - 1) as nat;
    let d = at.degree;
    let c = kids[p];
    let t = sb.insert(c, n1);
    let spot = place_of(keys, at, p);
    lemma_below_in_dom(sb, n1, g, d, spot.lo, spot.hi);
    lemma_settle(sb, t, c, n1, spot);
    assert(same_but(sa, t, node, h, p, p)) by {
        assert forall|x: usize|
            #![trigger t[x]]
            #![trigger t.dom().contains(x)]
            sa.dom().contains(x) && !reaches(sa, c, g, x) implies t.dom().contains(x) && t[x]
                == sa[x] by {
            lemma_reaches(sa, c, g, x);
        }
    }
    lemma_others_kept(sa, t, node, at, p, p);
    // every page of the child's new subtree was a page of its old one, or is new
    assert forall|x: usize| #[trigger] reaches(t, c, g, x) implies reaches(sa, c, g, x)
        || !sa.dom().contains(x) by {}
    assert forall|k: Seq<u8>| #[trigger]
        lookup(t, node, h, k) == if rank(keys, k) == p {
            lookup(sb, n1, g, k)
        } else {
            lookup(sa, node, h, k)
        } by {
        lemma_rank_range(keys, k);
        let r = rank(keys, k);
        assert(lookup(t, node, h, k) == lookup(t, t[kids[r]], g, k));
    }
}

/// A child that has split: where the subtree of child `p` of `node` has
/// become those of `n1` and `right` in `sb`, to the left and right of `mid`,
/// and the two are written, `right` to the new page `sib` and `n1` to the
/// child's page, the node that takes `mid` and `sib` in is well shaped (it
/// may hold one key too many). It holds for a key routed to child `p` what
/// `n1` or `right` holds, and for any other key what `node` held before.
pub(crate) proof fn lemma_child_split(
    sa: Store,
    sb: Store,
    node: NodeModel,
    p: int,
    n1: NodeModel,
    mid: Seq<u8>,
    right: NodeModel,
    sib: usize,
    at: Place,
)
    requires
        at.height > 0,
        node is Internal,
        node_ok(sa, node, at),
        0 <= p < node.children().len(),
        grown(sa, sb),
        same_outside(sa, sb, sa[node.children()[p]], (at.height - 1) as nat),
        built_from(sa, sb, sa[node.children()[p]], n1, (at.height - 1) as nat),
        built_from(sa, sb, sa[node.children()[p]], right, (at.height - 1) as nat),
        above(place_of(node.keys(), at, p).lo, mid),
        under(mid, place_of(node.keys(), at, p).hi),
        node_ok(sb, n1, left_of(place_of(node.keys(), at, p), mid)),
        node_ok(sb, right, right_of(place_of(node.keys(), at, p), mid)),
        filled(n1, at.degree),
        filled(right, at.degree),
        forall|x: usize|
            !(#[trigger] below(sb, n1, (at.height - 1) as nat, x) && below(
                sb,
                right,
                (at.height - 1) as nat,
                x,
            )),
        !sb.dom().contains(sib),
    ensures
        ({
            let t = sb.insert(sib, right).insert(node.children()[p], n1);
            let out = NodeModel::Internal(node->Internal_0.with_child(p, mid, sib));
            &&& node_ok(t, out, at)
            &&& grown(sa, t)
            &&& same_outside(sa, t, node, at.height)
            &&& built_from(sa, t, node, out, at.height)
            &&& forall|k: Seq<u8>| #[trigger]
                lookup(t, out, at.height, k) == if rank(node.keys(), k) == p {
                    if key_le(k, mid) {
                        lookup(sb, n1, (at.height - 1) as nat, k)
                    } else {
                        lookup(sb, right, (at.height - 1) as nat, k)
                    }
                } else {
                    lookup(sa, node, at.height, k)
                }
        }),
{
    let inner = node->Internal_0;
    let kids = inner.children;
    let keys = inner.keys;
    let h = at.height;
    let g = (h - 1) as nat;
    let d = at.degree;
    let c = kids[p];
    let t = sb.insert(sib, right).insert(c, n1);
    let spot = place_of(keys, at, p);
    let grown_node = inner.with_child(p, mid, sib);
    let out = NodeModel::Internal(grown_node);
    let okeys = grown_node.keys;
    let okids = grown_node.children;
    lemma_below_in_dom(sb, n1, g, d, spot.lo, Some(mid));
    lemma_below_in_dom(sb, right, g, d, Some(mid), spot.hi);
    lemma_settle(sb, t, c, n1, left_of(spot, mid));
    lemma_settle(sb, t, sib, right, right_of(spot, mid));
    assert(same_but(sa, t, node, h, p, p)) by {
        assert forall|x: usize|
            #![trigger t[x]]
            #![trigger t.dom().contains(x)]
            sa.dom().contains(x) && !reaches(sa, c, g, x) implies t.dom().contains(x) && t[x]
                == sa[x] by {
            lemma_reaches(sa, c, g, x);
        }
    }
    lemma_others_kept(sa, t, node, at, p, p);
    // the keys of the grown node
    assert(sorted(okeys)) by {
        if p < keys.len() {
            lemma_key_chain(mid, keys[p], keys[p]);
        }
        lemma_route(keys, mid, p);
        lemma_sorted_insert(keys, mid);
    }
    assert(inner_ok(grown_node, at.lo, at.hi)) by {
        assert forall|i: int| 0 <= i < okeys.len() implies above(at.lo, #[trigger] okeys[i])
            && under(okeys[i], at.hi) by {
            if i == p {
                if p > 0 && at.lo is Some {
                    lemma_key_order(at.lo->0, keys[p - 1], mid);
                }
                if p < keys.len() && at.hi is Some {
                    lemma_key_order(mid, keys[p], at.hi->0);
                }
            }
        }
    }
    // where each child of the grown node comes from
    assert forall|x: usize| #[trigger] reaches(t, c, g, x) implies (reaches(sa, c, g, x)
        || !sa.dom().contains(x)) && !reaches(t, sib, g, x) by {}
    assert forall|x: usize| #[trigger] reaches(t, sib, g, x) implies reaches(sa, c, g, x)
        || !sa.dom().contains(x) by {}
    assert forall|j: int|
        0 <= j < okids.len() implies kid_ok(
            t,
            #[trigger] okids[j],
            g,
            d,
            lo_of(okeys, at.lo, j),
            hi_of(okeys, at.hi, j),
        ) && filled(t[okids[j]], d) by {}
    assert forall|k: Seq<u8>| #[trigger]
        lookup(t, out, h, k) == if rank(keys, k) == p {
            if key_le(k, mid) {
                lookup(sb, n1, g, k)
            } else {
                lookup(sb, right, g, k)
            }
        } else {
            lookup(sa, node, h, k)
        } by {
        lemma_rank_splits(okeys, k);
        let j = rank(okeys, k);
        let j0 = if j <= p { j } else { j - 1 };
        assert(lookup(t, out, h, k) == lookup(t, t[okids[j]], g, k));
        if j == p {
            if p < keys.len() {
                lemma_key_chain(k, mid, keys[p]);
                lemma_key_chain(k, keys[p], keys[p]);
            }
        } else if j == p + 1 {
            if p > 0 {
                lemma_key_order(keys[p - 1], mid, k);
            }
        }
        lemma_route(keys, k, j0);
    }
}

/// An internal node cut at key `q`: the two parts root well shaped subtrees
/// to the left and right of that key, share no page, take their pages from
/// the node, and between them hold what the node held.
pub(crate) proof fn lemma_inner_split(
    t: Store,
    node: NodeModel,
    at: Place,
    q: int,
    offset: Option<usize>,
)
    requires
        at.height > 0,
        node is Internal,
        node_ok(t, node, at),
        0 <= q < node.keys().len(),
    ensures
        ({
            let inner = node->Internal_0;
            let mid = inner.keys[q];
            let left = NodeModel::Internal(inner.left_part(q));
            let right = NodeModel::Internal(inner.right_part(q, offset));
            &&& above(at.lo, mid)
            &&& under(mid, at.hi)
            &&& node_ok(t, left, left_of(at, mid))
            &&& node_ok(t, right, right_of(at, mid))
            &&& left.keys().len() == q
            &&& right.keys().len() == inner.keys.len() - q - 1
            &&& forall|x: usize| #[trigger] below(t, left, at.height, x) ==> below(t, node, at.height, x)
            &&& forall|x: usize| #[trigger] below(t, right, at.height, x) ==> below(t, node, at.height, x)
            &&& forall|x: usize| !(#[trigger] below(t, left, at.height, x) && below(t, right, at.height, x))
            &&& forall|k: Seq<u8>| #[trigger]
                lookup(t, node, at.height, k) == if key_le(k, mid) {
                    lookup(t, left, at.height, k)
                } else {
                    lookup(t, right, at.height, k)
                }
        }),
{
    let inner = node->Internal_0;
    let kids = inner.children;
    let keys = inner.keys;
    let h = at.height;
    let g = (h - 1) as nat;
    let d = at.degree;
    let m = q;
    let mid = inner.keys[q];
    let lhalf = inner.left_part(q);
    let rhalf = inner.right_part(q, offset);
    let left = NodeModel::Internal(lhalf);
    let right = NodeModel::Internal(rhalf);
    assert forall|j: int|
        0 <= j < lhalf.children.len() implies kid_ok(
            t,
            #[trigger] lhalf.children[j],
            g,
            d,
            lo_of(lhalf.keys, at.lo, j),
            hi_of(lhalf.keys, Some(mid), j),
        ) && filled(t[lhalf.children[j]], d) by {
        assert(kids[j] == node.children()[j]);
    }
    assert forall|k: Seq<u8>| #[trigger]
        lookup(t, node, h, k) == if key_le(k, mid) {
            lookup(t, left, h, k)
        } else {
            lookup(t, right, h, k)
        } by {
        lemma_rank_splits(keys, k);
        let r = rank(keys, k);
        if key_le(k, mid) {
            lemma_route(lhalf.keys, k, r);
        } else {
            let r2 = r - m - 1;
            lemma_route(rhalf.keys, k, r2);
        }
    }
}

/// The first entry of a tree: a leaf that holds one key, written to a new
/// page, is a tree that holds the one pair.
pub(crate) proof fn lemma_first_entry(s: Store, root: usize, leaf: LeafModel, degree: int)
    requires
        degree >= 3,
        leaf.keys.len() == 1,
        leaf.values.len() == 1,
    ensures
        tree_ok(s.insert(root, NodeModel::Leaf(leaf)), root, degree, 0),
        tree_map(s.insert(root, NodeModel::Leaf(leaf)), root, 0) == Map::<
            Seq<u8>,
            Seq<u8>,
        >::empty().insert(leaf.keys[0], leaf.values[0]),
{
    lemma_get_at(leaf, 0);
}

/// An insertion below the root that did not split it: with the root written
/// back, the tree holds what it held and `value` for `key`.
pub(crate) proof fn lemma_root_kept(
    sa: Store,
    sb: Store,
    root: usize,
    n1: NodeModel,
    degree: int,
    height: nat,
    key: Seq<u8>,
    value: Seq<u8>,
)
    requires
        tree_ok(sa, root, degree, height),
        inserted(sa, sb, sa[root], n1, None, root_place(degree, height), key, value),
    ensures
        tree_ok(sb.insert(root, n1), root, degree, height),
        tree_map(sb.insert(root, n1), root, height) == tree_map(sa, root, height).insert(key, value),
{
    let t = sb.insert(root, n1);
    let at = root_place(degree, height);
    lemma_below_in_dom(sb, n1, height, degree, None, None);
    lemma_settle(sb, t, root, n1, at);
    assert forall|k: Seq<u8>| lookup(t, t[root], height, k) == with_entry(
        sa,
        sa[root],
        height,
        key,
        value,
        k,
    ) by {
        assert(lookup(sb, n1, height, k) == with_entry(sa, sa[root], height, key, value, k));
    }
}

/// An insertion that split the root: with the old root written back, its new
/// sibling written to the new page `sib` and a root over the two written to
/// the new page `top`, the tree is one level higher and holds what it held
/// and `value` for `key`.
pub(crate) proof fn lemma_root_split(
    sa: Store,
    sb: Store,
    root: usize,
    n1: NodeModel,
    mid: Seq<u8>,
    right: NodeModel,
    sib: usize,
    top: usize,
    top_offset: Option<usize>,
    degree: int,
    height: nat,
    key: Seq<u8>,
    value: Seq<u8>,
)
    requires
        tree_ok(sa, root, degree, height),
        inserted(sa, sb, sa[root], n1, Some((mid, right)), root_place(degree, height), key, value),
        !sb.dom().contains(sib),
        !sb.dom().contains(top),
        sib != top,
    ensures
        ({
            let over = NodeModel::Internal(
                InternalModel { keys: seq![mid], children: seq![root, sib], offset: top_offset },
            );
            let t = sb.insert(root, n1).insert(sib, right).insert(top, over);
            &&& tree_ok(t, top, degree, height + 1)
            &&& tree_map(t, top, height + 1) == tree_map(sa, root, height).insert(key, value)
        }),
{
    let inner = InternalModel { keys: seq![mid], children: seq![root, sib], offset: top_offset };
    let over = NodeModel::Internal(inner);
    let t = sb.insert(root, n1).insert(sib, right).insert(top, over);
    let at = root_place(degree, height);
    let h = height;
    lemma_below_in_dom(sb, n1, h, degree, None, Some(mid));
    lemma_below_in_dom(sb, right, h, degree, Some(mid), None);
    lemma_settle(sb, t, root, n1, left_of(at, mid));
    lemma_settle(sb, t, sib, right, right_of(at, mid));
    let up = (h + 1) as nat;
    assert forall|k: Seq<u8>| #[trigger] lookup(t, t[top], up, k) == with_entry(
        sa,
        sa[root],
        h,
        key,
        value,
        k,
    ) by {
        lemma_rank_splits(inner.keys, k);
        let r = rank(inner.keys, k);
    }
    let got = tree_map(t, top, up);
    let want = tree_map(sa, root, h).insert(key, value);
}

} // verus!
