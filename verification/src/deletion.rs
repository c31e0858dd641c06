//! What a deletion leaves behind, how an underfull child is mended, and why
//! the tree is still a tree.

use crate::error::Error;
use crate::insertion::left_of;
use crate::insertion::lemma_inner_split;
use crate::insertion::lemma_leaf_cut;
use crate::insertion::right_of;
use crate::key::holds;
use crate::key::key_le;
use crate::key::key_lt;
use crate::key::lemma_key_chain;
use crate::key::lemma_key_order;
use crate::key::lemma_rank_splits;
use crate::key::lemma_route;
use crate::key::lemma_sorted_update;
use crate::key::rank;
use crate::key::sorted;
use crate::node::can_lend;
use crate::node::internal::drained;
use crate::node::internal::fused;
use crate::node::internal::InternalModel;
use crate::node::internal::lent_first;
use crate::node::internal::lent_last;
use crate::node::internal::same_kind;
use crate::node::internal::sep_after_left;
use crate::node::internal::spare;
use crate::node::internal::spare_first;
use crate::node::internal::took_from_left;
use crate::node::internal::took_from_right;
use crate::node::leaf::LeafModel;
use crate::node::leaf::lemma_del;
use crate::node::leaf::lemma_get_at;
use crate::node::min_keys;
use crate::node::NodeModel;
use crate::node::underflows;
use crate::pager::Shelf;
use crate::pager::write_both;
use crate::structure::above;
use crate::structure::below;
use crate::structure::built_from;
use crate::structure::filled;
use crate::structure::grown;
use crate::structure::hi_of;
use crate::structure::inner_ok;
use crate::structure::kid_ok;
use crate::structure::lemma_below_elim;
use crate::structure::lemma_below_in_dom;
use crate::structure::lemma_below_intro;
use crate::structure::lemma_others_kept;
use crate::structure::lemma_reaches;
use crate::structure::lemma_settle;
use crate::structure::lo_of;
use crate::structure::lookup;
use crate::structure::node_ok;
use crate::structure::Place;
use crate::structure::place_of;
use crate::structure::reaches;
use crate::structure::root_place;
use crate::structure::same_outside;
use crate::structure::shape;
use crate::structure::Store;
use crate::structure::tree_map;
use crate::structure::tree_ok;
use crate::structure::under;
use crate::structure::upto;
use vstd::prelude::*;

verus! {

/// What the subtree of `before` holds once `key` is gone.
pub open spec fn without_entry(
    s: Store,
    before: NodeModel,
    h: nat,
    key: Seq<u8>,
    k: Seq<u8>,
) -> Option<Seq<u8>> {
    if k == key {
        None
    } else {
        lookup(s, before, h, k)
    }
}

/// What a deletion from the subtree of `before`, which stands at `at`,
/// leaves behind. The node has become `after`, the store `t`.
///
/// Where the subtree did not hold the key (`flag` is `None`), nothing has
/// changed. Where it did, `after` roots a well shaped subtree in the same
/// place, which holds what `before` held but for `key`; the node has lost at
/// most one key; a flag that is set says that it holds fewer than half the
/// degree, and one that is not that it holds the minimum or as many as
/// before.
pub open spec fn removed(
    s: Store,
    t: Store,
    before: NodeModel,
    after: NodeModel,
    flag: Option<bool>,
    at: Place,
    key: Seq<u8>,
) -> bool {
    match flag {
        None => t == s && after == before && lookup(s, before, at.height, key) is None,
        Some(low) => {
            &&& lookup(s, before, at.height, key) is Some
            &&& grown(s, t)
            &&& same_outside(s, t, before, at.height)
            &&& built_from(s, t, before, after, at.height)
            &&& node_ok(t, after, at)
            &&& before.keys().len() - 1 <= after.keys().len() <= before.keys().len()
            &&& low ==> underflows(after.keys().len() as int, at.degree)
            &&& !low ==> after.keys().len() >= min_keys(at.degree) || after.keys().len()
                == before.keys().len()
            &&& forall|k: Seq<u8>| #[trigger]
                lookup(t, after, at.height, k) == without_entry(s, before, at.height, key, k)
        },
    }
}

/// A deletion from a leaf leaves what [`removed`] says.
pub(crate) proof fn lemma_leaf_removed(s: Store, leaf: LeafModel, key: Seq<u8>, at: Place)
    requires
        at.degree >= 3,
        node_ok(s, NodeModel::Leaf(leaf), at),
    ensures
        removed(
            s,
            s,
            NodeModel::Leaf(leaf),
            NodeModel::Leaf(leaf.del(key)),
            if holds(leaf.keys, key) {
                Some(underflows(leaf.keys.len() - 1, at.degree))
            } else {
                None
            },
            at,
            key,
        ),
{
    lemma_del(leaf, key);
}

/// The left part of a node cut at `q`: a leaf keeps its first `q` entries, an
/// internal node the keys before key `q` and the children around them.
pub open spec fn cut_left(node: NodeModel, q: int) -> NodeModel {
    match node {
        NodeModel::Leaf(leaf) => NodeModel::Leaf(leaf.left_part(q)),
        NodeModel::Internal(inner) => NodeModel::Internal(inner.left_part(q)),
    }
}

/// The right part of a node cut at `q`, as a node with the given offset: of a
/// leaf the entries from `q` on, of an internal node the keys behind key `q`
/// and the children around them.
pub open spec fn cut_right(node: NodeModel, q: int, offset: Option<usize>) -> NodeModel {
    match node {
        NodeModel::Leaf(leaf) => NodeModel::Leaf(leaf.right_part(q, offset)),
        NodeModel::Internal(inner) => NodeModel::Internal(inner.right_part(q, offset)),
    }
}

/// The separator between the two parts of a node cut at `q`: of a leaf the
/// last key on the left, of an internal node key `q`, which stays in neither
/// part.
pub open spec fn cut_key(node: NodeModel, q: int) -> Seq<u8> {
    match node {
        NodeModel::Leaf(leaf) => leaf.keys[q - 1],
        NodeModel::Internal(inner) => inner.keys[q],
    }
}

/// A node can be cut at `q` into two parts with a separator between them.
pub open spec fn cuts(node: NodeModel, q: int) -> bool {
    match node {
        NodeModel::Leaf(leaf) => 1 <= q < leaf.keys.len(),
        NodeModel::Internal(inner) => 0 <= q < inner.keys.len(),
    }
}

/// The number of keys left of a cut at `q`, and right of it.
pub open spec fn cut_sizes(node: NodeModel, q: int) -> (int, int) {
    match node {
        NodeModel::Leaf(leaf) => (q, leaf.keys.len() - q),
        NodeModel::Internal(inner) => (q, inner.keys.len() - q - 1),
    }
}

/// A node cut in two: the parts root well shaped subtrees to the left and
/// right of the separator, share no page, take their pages from the node,
/// and between them hold what the node held.
pub(crate) proof fn lemma_cut(s: Store, node: NodeModel, at: Place, q: int, offset: Option<usize>)
    requires
        node_ok(s, node, at),
        cuts(node, q),
    ensures
        ({
            let mid = cut_key(node, q);
            let left = cut_left(node, q);
            let right = cut_right(node, q, offset);
            &&& above(at.lo, mid)
            &&& under(mid, at.hi)
            &&& node_ok(s, left, left_of(at, mid))
            &&& node_ok(s, right, right_of(at, mid))
            &&& left.keys().len() == cut_sizes(node, q).0
            &&& right.keys().len() == cut_sizes(node, q).1
            &&& forall|x: usize| #[trigger] below(s, left, at.height, x) ==> below(s, node, at.height, x)
            &&& forall|x: usize| #[trigger] below(s, right, at.height, x) ==> below(s, node, at.height, x)
            &&& forall|x: usize| !(#[trigger] below(s, left, at.height, x) && below(s, right, at.height, x))
            &&& forall|k: Seq<u8>| #[trigger]
                lookup(s, node, at.height, k) == if key_le(k, mid) {
                    lookup(s, left, at.height, k)
                } else {
                    lookup(s, right, at.height, k)
                }
        }),
{
    match node {
        NodeModel::Leaf(leaf) => {
            lemma_leaf_cut(s, leaf, at, q, offset);
        },
        NodeModel::Internal(inner) => {
            lemma_inner_split(s, node, at, q, offset);
        },
    }
}

/// Two neighbours fused: where `left` and `right` root well shaped subtrees
/// to the left and right of `sep` and share no page, the fused node roots a
/// well shaped subtree that spans both, is made of their pages, and holds
/// what the two held.
pub(crate) proof fn lemma_fuse(s: Store, left: NodeModel, right: NodeModel, sep: Seq<u8>, at: Place)
    requires
        same_kind(left, right),
        above(at.lo, sep),
        under(sep, at.hi),
        node_ok(s, left, left_of(at, sep)),
        node_ok(s, right, right_of(at, sep)),
        forall|x: usize| !(#[trigger] below(s, left, at.height, x) && below(s, right, at.height, x)),
    ensures
        ({
            let whole = fused(left, right, sep);
            &&& node_ok(s, whole, at)
            &&& same_kind(whole, left)
            &&& whole.keys().len() == left.keys().len() + right.keys().len() + if left is Leaf {
                0int
            } else {
                1int
            }
            &&& forall|x: usize| #[trigger]
                below(s, whole, at.height, x) <==> below(s, left, at.height, x) || below(
                    s,
                    right,
                    at.height,
                    x,
                )
            &&& forall|k: Seq<u8>| #[trigger]
                lookup(s, whole, at.height, k) == if key_le(k, sep) {
                    lookup(s, left, at.height, k)
                } else {
                    lookup(s, right, at.height, k)
                }
        }),
{
    let whole = fused(left, right, sep);
    let h = at.height;
    let d = at.degree;
    match (left, right) {
        (NodeModel::Leaf(l), NodeModel::Leaf(r)) => {
            let m = whole->Leaf_0;
            let n = l.keys.len() as int;
            assert forall|i: int, j: int| 0 <= i < j < m.keys.len() implies key_lt(
                #[trigger] m.keys[i],
                #[trigger] m.keys[j],
            ) by {
                if i < n && n <= j {
                    lemma_key_chain(l.keys[i], sep, r.keys[j - n]);
                }
            }
            assert forall|i: int| 0 <= i < m.keys.len() implies above(at.lo, #[trigger] m.keys[i])
                && upto(m.keys[i], at.hi) by {
                if i < n {
                    if at.hi is Some {
                        lemma_key_chain(l.keys[i], sep, at.hi->0);
                        lemma_key_chain(l.keys[i], at.hi->0, at.hi->0);
                    }
                } else {
                    if at.lo is Some {
                        lemma_key_order(at.lo->0, sep, r.keys[i - n]);
                    }
                }
            }
            assert forall|k: Seq<u8>| #[trigger]
                lookup(s, whole, h, k) == if key_le(k, sep) {
                    lookup(s, left, h, k)
                } else {
                    lookup(s, right, h, k)
                } by {
                if l.keys.contains(k) {
                    let i = choose|i: int| 0 <= i < l.keys.len() && l.keys[i] == k;
                    lemma_get_at(m, i);
                    lemma_get_at(l, i);
                } else if r.keys.contains(k) {
                    let i = choose|i: int| 0 <= i < r.keys.len() && r.keys[i] == k;
                    lemma_get_at(m, n + i);
                    lemma_get_at(r, i);
                } else {
                    if m.keys.contains(k) {
                        let i = choose|i: int| 0 <= i < m.keys.len() && m.keys[i] == k;
                    }
                }
            }
        },
        (NodeModel::Internal(l), NodeModel::Internal(r)) => {
            let m = whole->Internal_0;
            let g = (h - 1) as nat;
            let n = l.keys.len() as int;
            let c = l.children.len() as int;
            assert forall|i: int| 0 <= i < m.keys.len() implies #[trigger] m.keys[i] == if i < n {
                l.keys[i]
            } else if i == n {
                sep
            } else {
                r.keys[i - n - 1]
            } by {}
            assert forall|i: int| 0 <= i < m.children.len() implies #[trigger] m.children[i]
                == if i < c {
                l.children[i]
            } else {
                r.children[i - c]
            } by {}
            assert forall|i: int, j: int| 0 <= i < j < m.keys.len() implies key_lt(
                #[trigger] m.keys[i],
                #[trigger] m.keys[j],
            ) by {
                if i < n && j > n {
                    lemma_key_order(l.keys[i], sep, r.keys[j - n - 1]);
                }
            }
            assert forall|i: int| 0 <= i < m.keys.len() implies above(at.lo, #[trigger] m.keys[i])
                && under(m.keys[i], at.hi) by {
                if i < n {
                    if at.hi is Some {
                        lemma_key_order(l.keys[i], sep, at.hi->0);
                    }
                } else if i > n {
                    if at.lo is Some {
                        lemma_key_order(at.lo->0, sep, r.keys[i - n - 1]);
                    }
                }
            }
            assert forall|j: int|
                0 <= j < m.children.len() implies kid_ok(
                    s,
                    #[trigger] m.children[j],
                    g,
                    d,
                    lo_of(m.keys, at.lo, j),
                    hi_of(m.keys, at.hi, j),
                ) && filled(s[m.children[j]], d) by {
                if j < c {
                    assert(l.children[j] == left.children()[j]);
                } else {
                    assert(r.children[j - c] == right.children()[j - c]);
                }
            }
            assert forall|x: usize| #[trigger]
                below(s, whole, h, x) <==> below(s, left, h, x) || below(s, right, h, x) by {
                if below(s, whole, h, x) {
                    let j = lemma_below_elim(s, whole, h, x);
                }
                if below(s, left, h, x) {
                    let j = lemma_below_elim(s, left, h, x);
                    lemma_below_intro(s, whole, h, j, x);
                }
                if below(s, right, h, x) {
                    let j = lemma_below_elim(s, right, h, x);
                    lemma_below_intro(s, whole, h, c + j, x);
                }
            }
            assert forall|i: int, j: int, x: usize|
                0 <= i < j < m.children.len() && #[trigger] reaches(
                    s,
                    m.children[i],
                    g,
                    x,
                ) implies !#[trigger] reaches(s, m.children[j], g, x) by {
                if reaches(s, m.children[j], g, x) {
                    if i < c && c <= j {
                        lemma_below_intro(s, left, h, i, x);
                    }
                }
            }
            assert forall|k: Seq<u8>| #[trigger]
                lookup(s, whole, h, k) == if key_le(k, sep) {
                    lookup(s, left, h, k)
                } else {
                    lookup(s, right, h, k)
                } by {
                lemma_rank_splits(m.keys, k);
                let j = rank(m.keys, k);
                if j <= n {
                    if j < n {
                        lemma_key_chain(k, l.keys[j], sep);
                        lemma_key_chain(k, sep, sep);
                    }
                    lemma_route(l.keys, k, j);
                } else {
                    let j2 = j - n - 1;
                    if j - 1 > n {
                        lemma_key_order(sep, r.keys[j - n - 2], k);
                    }
                    lemma_route(r.keys, k, j2);
                }
            }
        },
        _ => {},
    }
}

/// Two neighbours rewritten: children `a` and `a + 1` of `node` have become
/// `left` and `right`, with `sep` between them, and are written to the pages
/// of the two children. Where the two root well shaped and filled subtrees
/// made of the pages of the old two, and between them hold what the old two
/// held, the node with `sep` as key `a` is well shaped as before and holds
/// what it held.
pub(crate) proof fn lemma_pair_rewritten(
    s: Store,
    node: NodeModel,
    a: int,
    left: NodeModel,
    right: NodeModel,
    sep: Seq<u8>,
    at: Place,
)
    requires
        at.height > 0,
        node is Internal,
        shape(s, node, at.height, at.degree, at.lo, at.hi),
        0 <= a < node.keys().len(),
        forall|i: int|
            0 <= i < node.children().len() && i != a && i != a + 1 ==> filled(
                s[#[trigger] node.children()[i]],
                at.degree,
            ),
        above(place_of(node.keys(), at, a).lo, sep),
        under(sep, place_of(node.keys(), at, a + 1).hi),
        node_ok(s, left, left_of(place_of(node.keys(), at, a), sep)),
        node_ok(s, right, right_of(place_of(node.keys(), at, a + 1), sep)),
        filled(left, at.degree),
        filled(right, at.degree),
        forall|x: usize| #[trigger]
            below(s, left, (at.height - 1) as nat, x) ==> below(
                s,
                s[node.children()[a]],
                (at.height - 1) as nat,
                x,
            ) || below(s, s[node.children()[a + 1]], (at.height - 1) as nat, x),
        forall|x: usize| #[trigger]
            below(s, right, (at.height - 1) as nat, x) ==> below(
                s,
                s[node.children()[a]],
                (at.height - 1) as nat,
                x,
            ) || below(s, s[node.children()[a + 1]], (at.height - 1) as nat, x),
        forall|x: usize|
            !(#[trigger] below(s, left, (at.height - 1) as nat, x) && below(
                s,
                right,
                (at.height - 1) as nat,
                x,
            )),
        forall|k: Seq<u8>|
            (if key_le(k, sep) {
                lookup(s, left, (at.height - 1) as nat, k)
            } else {
                lookup(s, right, (at.height - 1) as nat, k)
            }) == if key_le(k, #[trigger] node.keys()[a]) {
                lookup(s, s[node.children()[a]], (at.height - 1) as nat, k)
            } else {
                lookup(s, s[node.children()[a + 1]], (at.height - 1) as nat, k)
            },
    ensures
        ({
            let inner = node->Internal_0;
            let t = s.insert(inner.children[a], left).insert(inner.children[a + 1], right);
            let out = NodeModel::Internal(inner.with_key(a, sep));
            &&& node_ok(t, out, at)
            &&& grown(s, t)
            &&& same_outside(s, t, node, at.height)
            &&& built_from(s, t, node, out, at.height)
            &&& forall|k: Seq<u8>| #[trigger]
                lookup(t, out, at.height, k) == lookup(s, node, at.height, k)
        }),
{
    let inner = node->Internal_0;
    let kids = inner.children;
    let keys = inner.keys;
    let h = at.height;
    let g = (h - 1) as nat;
    let d = at.degree;
    let b = a + 1;
    let ca = kids[a];
    let cb = kids[b];
    let t = s.insert(ca, left).insert(cb, right);
    let new_inner = inner.with_key(a, sep);
    let out = NodeModel::Internal(new_inner);
    let okeys = new_inner.keys;
    let spot_a = place_of(keys, at, a);
    let spot_b = place_of(keys, at, b);
    assert(reaches(s, ca, g, ca) && reaches(s, cb, g, cb));
    // no page below the new nodes is one of the two pages written
    assert forall|x: usize| below(s, s[ca], g, x) || below(s, s[cb], g, x) implies x != ca && x
        != cb && s.dom().contains(x) && (reaches(s, ca, g, x) || reaches(s, cb, g, x)) by {
        lemma_reaches(s, cb, g, x);
        lemma_below_in_dom(s, s[ca], g, d, spot_a.lo, spot_a.hi);
        lemma_below_in_dom(s, s[cb], g, d, spot_b.lo, spot_b.hi);
    }
    lemma_settle(s, t, ca, left, left_of(spot_a, sep));
    lemma_settle(s, t, cb, right, right_of(spot_b, sep));
    lemma_others_kept(s, t, node, at, a, b);
    // the keys of the new node
    assert(sorted(okeys)) by {
        lemma_sorted_update(keys, a, sep);
    }
    assert(inner_ok(new_inner, at.lo, at.hi)) by {
        assert forall|i: int| 0 <= i < okeys.len() implies above(at.lo, #[trigger] okeys[i])
            && under(okeys[i], at.hi) by {
            if i == a {
                if a > 0 && at.lo is Some {
                    lemma_key_order(at.lo->0, keys[a - 1], sep);
                }
                if a + 1 < keys.len() && at.hi is Some {
                    lemma_key_order(sep, keys[a + 1], at.hi->0);
                }
            }
        }
    }
    assert forall|x: usize| #[trigger] reaches(t, ca, g, x) implies (reaches(s, ca, g, x)
        || reaches(s, cb, g, x)) && !reaches(t, cb, g, x) by {}
    assert forall|x: usize| #[trigger] reaches(t, cb, g, x) implies reaches(s, ca, g, x)
        || reaches(s, cb, g, x) by {}
    assert forall|j: int|
        0 <= j < kids.len() implies kid_ok(
            t,
            #[trigger] kids[j],
            g,
            d,
            lo_of(okeys, at.lo, j),
            hi_of(okeys, at.hi, j),
        ) && filled(t[kids[j]], d) by {}
    assert forall|k: Seq<u8>| #[trigger] lookup(t, out, h, k) == lookup(s, node, h, k) by {
        lemma_rank_splits(okeys, k);
        let j = rank(okeys, k);
        assert(lookup(t, out, h, k) == lookup(t, t[kids[j]], g, k));
        let old_sep = node.keys()[a];
        assert((if key_le(k, sep) {
            lookup(s, left, g, k)
        } else {
            lookup(s, right, g, k)
        }) == if key_le(k, old_sep) {
            lookup(s, s[ca], g, k)
        } else {
            lookup(s, s[cb], g, k)
        });
        if j != a && j != b {
            lemma_route(keys, k, j);
        } else {
            // the key was routed to one of the two children
            if key_le(k, old_sep) {
                lemma_route(keys, k, a);
            } else {
                lemma_route(keys, k, b);
            }
        }
    }
}

/// Two neighbours fused: children `a` and `a + 1` of `node` have become
/// `whole`, which is written to the page of child `a`, while the page of
/// child `a + 1` is given up and holds `rest`. Where `whole` roots a well
/// shaped and filled subtree made of the pages of the two, and holds what
/// the two held, the node without key `a` and child `a + 1` is well shaped
/// as before and holds what it held.
pub(crate) proof fn lemma_pair_fused(
    s: Store,
    node: NodeModel,
    a: int,
    whole: NodeModel,
    rest: NodeModel,
    at: Place,
)
    requires
        at.height > 0,
        node is Internal,
        shape(s, node, at.height, at.degree, at.lo, at.hi),
        0 <= a < node.keys().len(),
        forall|i: int|
            0 <= i < node.children().len() && i != a && i != a + 1 ==> filled(
                s[#[trigger] node.children()[i]],
                at.degree,
            ),
        node_ok(
            s,
            whole,
            Place {
                degree: at.degree,
                height: (at.height - 1) as nat,
                lo: place_of(node.keys(), at, a).lo,
                hi: place_of(node.keys(), at, a + 1).hi,
            },
        ),
        filled(whole, at.degree),
        forall|x: usize| #[trigger]
            below(s, whole, (at.height - 1) as nat, x) ==> below(
                s,
                s[node.children()[a]],
                (at.height - 1) as nat,
                x,
            ) || below(s, s[node.children()[a + 1]], (at.height - 1) as nat, x),
        forall|k: Seq<u8>|
            lookup(s, whole, (at.height - 1) as nat, k) == if key_le(k, #[trigger] node.keys()[a]) {
                lookup(s, s[node.children()[a]], (at.height - 1) as nat, k)
            } else {
                lookup(s, s[node.children()[a + 1]], (at.height - 1) as nat, k)
            },
    ensures
        ({
            let inner = node->Internal_0;
            let t = s.insert(inner.children[a], whole).insert(inner.children[a + 1], rest);
            let out = NodeModel::Internal(inner.without(a, a + 1));
            &&& node_ok(t, out, at)
            &&& grown(s, t)
            &&& same_outside(s, t, node, at.height)
            &&& built_from(s, t, node, out, at.height)
            &&& forall|k: Seq<u8>| #[trigger]
                lookup(t, out, at.height, k) == lookup(s, node, at.height, k)
        }),
{
    let inner = node->Internal_0;
    let kids = inner.children;
    let keys = inner.keys;
    let h = at.height;
    let g = (h - 1) as nat;
    let d = at.degree;
    let b = a + 1;
    let ca = kids[a];
    let cb = kids[b];
    let t = s.insert(ca, whole).insert(cb, rest);
    let new_inner = inner.without(a, b);
    let out = NodeModel::Internal(new_inner);
    let okeys = new_inner.keys;
    let okids = new_inner.children;
    let spot_a = place_of(keys, at, a);
    let spot_b = place_of(keys, at, b);
    let span = Place { degree: d, height: g, lo: spot_a.lo, hi: spot_b.hi };
    assert(reaches(s, ca, g, ca) && reaches(s, cb, g, cb));
    assert forall|x: usize| below(s, s[ca], g, x) || below(s, s[cb], g, x) implies x != ca && x
        != cb && s.dom().contains(x) && (reaches(s, ca, g, x) || reaches(s, cb, g, x)) by {
        lemma_reaches(s, cb, g, x);
        lemma_below_in_dom(s, s[ca], g, d, spot_a.lo, spot_a.hi);
        lemma_below_in_dom(s, s[cb], g, d, spot_b.lo, spot_b.hi);
    }
    lemma_settle(s, t, ca, whole, span);
    lemma_others_kept(s, t, node, at, a, b);
    assert forall|x: usize| #[trigger] reaches(t, ca, g, x) implies reaches(s, ca, g, x) || reaches(
        s,
        cb,
        g,
        x,
    ) by {}
    assert forall|j: int|
        0 <= j < okids.len() implies kid_ok(
            t,
            #[trigger] okids[j],
            g,
            d,
            lo_of(okeys, at.lo, j),
            hi_of(okeys, at.hi, j),
        ) && filled(t[okids[j]], d) by {}
    assert(built_from(s, t, node, out, h)) by {}
    assert forall|k: Seq<u8>| #[trigger] lookup(t, out, h, k) == lookup(s, node, h, k) by {
        lemma_rank_splits(okeys, k);
        let j = rank(okeys, k);
        assert(lookup(t, out, h, k) == lookup(t, t[okids[j]], g, k));
        let old_sep = node.keys()[a];
        if j < a {
            lemma_route(keys, k, j);
        } else if j > a {
            lemma_route(keys, k, j + 1);
        } else {
            if key_le(k, old_sep) {
                lemma_route(keys, k, a);
            } else {
                lemma_route(keys, k, b);
            }
        }
    }
}

/// To take the last entry of the left neighbour is to fuse the two and cut
/// the whole one entry earlier.
pub(crate) proof fn lemma_borrow_left_is_cut(left: NodeModel, child: NodeModel, sep: Seq<u8>)
    requires
        same_kind(left, child),
        spare(left),
        left matches NodeModel::Internal(l) ==> l.children.len() == l.keys.len() + 1,
        child matches NodeModel::Leaf(c) ==> c.values.len() == c.keys.len(),
    ensures
        ({
            let whole = fused(left, child, sep);
            let q = left.keys().len() as int - 1;
            &&& cuts(whole, q)
            &&& lent_last(left) == cut_left(whole, q)
            &&& took_from_left(left, child, sep) == cut_right(whole, q, child.offset())
            &&& sep_after_left(left) == cut_key(whole, q)
        }),
{
    let whole = fused(left, child, sep);
    let q = left.keys().len() as int - 1;
    match (left, child) {
        (NodeModel::Leaf(l), NodeModel::Leaf(c)) => {
            let m = whole->Leaf_0;
            assert(m.left_part(q).keys =~= l.keys.drop_last());
            assert(m.left_part(q).values =~= l.values.drop_last());
            assert(m.right_part(q, c.offset).keys =~= c.keys.insert(0, l.keys.last()));
            assert(m.right_part(q, c.offset).values =~= c.values.insert(0, l.values.last()));
        },
        (NodeModel::Internal(l), NodeModel::Internal(c)) => {
            let m = whole->Internal_0;
            assert(m.left_part(q).keys =~= l.keys.drop_last());
            assert(m.left_part(q).children =~= l.children.drop_last());
            assert(m.right_part(q, c.offset).keys =~= c.keys.insert(0, sep));
            assert(m.right_part(q, c.offset).children =~= c.children.insert(0, l.children.last()));
        },
        _ => {},
    }
}

/// To take the first entry of the right neighbour is to fuse the two and cut
/// the whole one entry later.
pub(crate) proof fn lemma_borrow_right_is_cut(child: NodeModel, right: NodeModel, sep: Seq<u8>)
    requires
        same_kind(child, right),
        spare_first(right),
        right matches NodeModel::Leaf(r) ==> r.keys.len() >= 2,
        child matches NodeModel::Internal(c) ==> c.children.len() == c.keys.len() + 1,
        child matches NodeModel::Leaf(c) ==> c.values.len() == c.keys.len(),
    ensures
        ({
            let whole = fused(child, right, sep);
            let q = child.keys().len() as int + 1;
            &&& cuts(whole, q)
            &&& took_from_right(right, child, sep) == cut_left(whole, q)
            &&& lent_first(right) == cut_right(whole, q, right.offset())
            &&& right.keys()[0] == cut_key(whole, q)
        }),
{
    let whole = fused(child, right, sep);
    let q = child.keys().len() as int + 1;
    match (child, right) {
        (NodeModel::Leaf(c), NodeModel::Leaf(r)) => {
            let m = whole->Leaf_0;
            assert(m.left_part(q).keys =~= c.keys.push(r.keys[0]));
            assert(m.left_part(q).values =~= c.values.push(r.values[0]));
            assert(m.right_part(q, r.offset).keys =~= r.keys.remove(0));
            assert(m.right_part(q, r.offset).values =~= r.values.remove(0));
        },
        (NodeModel::Internal(c), NodeModel::Internal(r)) => {
            let m = whole->Internal_0;
            assert(m.left_part(q).keys =~= c.keys.push(sep));
            assert(m.left_part(q).children =~= c.children.push(r.children[0]));
            assert(m.right_part(q, r.offset).keys =~= r.keys.remove(0));
            assert(m.right_part(q, r.offset).children =~= r.children.remove(0));
        },
        _ => {},
    }
}

/// How an underfull child is mended.
pub enum Mend {
    /// The child takes the last entry of its left sibling.
    BorrowLeft,
    /// The child takes the first entry of its right sibling.
    BorrowRight,
    /// The child is fused into its left sibling.
    MergeLeft,
    /// The right sibling is fused into the child.
    MergeRight,
}

/// The way in which child `index` of `inner` is mended: by a key of the left
/// sibling where there is one that can lend, else by a key of the right
/// sibling where there is one that can lend, else by fusing it with the left
/// sibling where there is one, else with the right sibling.
pub open spec fn mend_for(s: Store, inner: InternalModel, index: int, degree: int) -> Mend {
    if index > 0 && can_lend(s[inner.children[index - 1]].keys().len() as int, degree) {
        Mend::BorrowLeft
    } else if index < inner.children.len() - 1 && can_lend(
        s[inner.children[index + 1]].keys().len() as int,
        degree,
    ) {
        Mend::BorrowRight
    } else if index > 0 {
        Mend::MergeLeft
    } else {
        Mend::MergeRight
    }
}

/// The node after its child `index` has been mended.
pub open spec fn mended_node(s: Store, inner: InternalModel, index: int, degree: int) -> InternalModel {
    match mend_for(s, inner, index, degree) {
        Mend::BorrowLeft => inner.with_key(index - 1, sep_after_left(s[inner.children[index - 1]])),
        Mend::BorrowRight => inner.with_key(index, s[inner.children[index + 1]].keys()[0]),
        Mend::MergeLeft => inner.without(index - 1, index),
        Mend::MergeRight => inner.without(index, index + 1),
    }
}

/// The two writes that mend child `index` of `inner`, in the order in which
/// they are made: first the sibling that took part, then the child, each to
/// its own page.
pub open spec fn mend_writes(s: Store, inner: InternalModel, index: int, degree: int) -> (
    (usize, NodeModel),
    (usize, NodeModel),
) {
    let at_child = inner.children[index];
    let child = s[at_child];
    match mend_for(s, inner, index, degree) {
        Mend::BorrowLeft => {
            let left = s[inner.children[index - 1]];
            (
                (inner.children[index - 1], lent_last(left)),
                (at_child, took_from_left(left, child, inner.keys[index - 1])),
            )
        },
        Mend::BorrowRight => {
            let right = s[inner.children[index + 1]];
            (
                (inner.children[index + 1], lent_first(right)),
                (at_child, took_from_right(right, child, inner.keys[index])),
            )
        },
        Mend::MergeLeft => {
            let left = s[inner.children[index - 1]];
            (
                (inner.children[index - 1], fused(left, child, inner.keys[index - 1])),
                (at_child, drained(child)),
            )
        },
        Mend::MergeRight => {
            let right = s[inner.children[index + 1]];
            (
                (inner.children[index + 1], drained(right)),
                (at_child, fused(child, right, inner.keys[index])),
            )
        },
    }
}

/// The store after child `index` of `inner` has been mended.
pub open spec fn mended_store(s: Store, inner: InternalModel, index: int, degree: int) -> Store {
    let w = mend_writes(s, inner, index, degree);
    s.insert(w.0.0, w.0.1).insert(w.1.0, w.1.1)
}

/// What mending child `index` of `inner` does, and what it leaves: the
/// pages, the node, and whether the node now holds fewer keys than half the
/// degree, or the error of the write that was refused. The node is changed
/// before the sibling and the child are written, so it is changed even
/// where a write is refused.
pub open spec fn mend(w: Shelf, inner: InternalModel, index: int, d: int) -> (
    Shelf,
    InternalModel,
    Result<bool, Error>,
) {
    let after = mended_node(w.nodes, inner, index, d);
    let ws = mend_writes(w.nodes, inner, index, d);
    let (w1, r1) = write_both(w, ws.0.1, ws.0.0, ws.1.1, ws.1.0);
    (
        w1,
        after,
        match r1 {
            Ok(_) => Ok(underflows(after.keys.len() as int, d)),
            Err(e) => Err(e),
        },
    )
}

/// What a deletion below `node`, which stands `h` levels above the leaves,
/// does step by step, and what it leaves: the pages, the node, and what the
/// deletion reports or the error that stopped it.
///
/// A leaf gives up the key where it holds it. An internal node hands the key
/// to the child that it is routed to. Where the child held the key it is
/// written back to its page, and mended where it reports that it holds
/// fewer keys than half the degree.
pub open spec fn shrink(w: Shelf, node: NodeModel, h: nat, key: Seq<u8>, d: int) -> (
    Shelf,
    NodeModel,
    Result<Option<bool>, Error>,
)
    decreases h,
{
    match node {
        NodeModel::Leaf(leaf) => {
            let made = leaf.remove_result(key, d);
            (w, NodeModel::Leaf(made.0), Ok(made.1))
        },
        NodeModel::Internal(inner) => if h == 0 {
            (w, node, Ok(None))
        } else {
            let p = inner.route(key);
            let c = inner.children[p];
            let (w1, child, r1) = shrink(w, w.nodes[c], (h - 1) as nat, key, d);
            match r1 {
                Err(e) => (w1, node, Err(e)),
                Ok(None) => (w1, node, Ok(None)),
                Ok(Some(low)) => {
                    let (w2, r2) = w1.write_at(child, c);
                    match r2 {
                        Err(e) => (w2, node, Err(e)),
                        Ok(_) => if low {
                            let (w3, after, r3) = mend(w2, inner, p, d);
                            (
                                w3,
                                NodeModel::Internal(after),
                                match r3 {
                                    Ok(l) => Ok(Some(l)),
                                    Err(e) => Err(e),
                                },
                            )
                        } else {
                            (w2, node, Ok(Some(false)))
                        },
                    }
                },
            }
        },
    }
}

/// What mending a child leaves behind: `after` roots a well shaped subtree
/// in the place of `before` and holds what `before` held; the node has lost
/// at most one key, and `low` says whether it now holds fewer than half the
/// degree.
pub open spec fn mended(
    s: Store,
    t: Store,
    before: NodeModel,
    after: NodeModel,
    low: bool,
    at: Place,
) -> bool {
    &&& grown(s, t)
    &&& same_outside(s, t, before, at.height)
    &&& built_from(s, t, before, after, at.height)
    &&& node_ok(t, after, at)
    &&& before.keys().len() - 1 <= after.keys().len() <= before.keys().len()
    &&& low == underflows(after.keys().len() as int, at.degree)
    &&& forall|k: Seq<u8>| #[trigger]
        lookup(t, after, at.height, k) == lookup(s, before, at.height, k)
}

/// A node is ready to have its child `index` mended: it is well shaped and
/// has a key, the child holds fewer than half the degree but no less than
/// one below the minimum, and every other child is filled.
pub open spec fn mendable(s: Store, node: NodeModel, index: int, at: Place) -> bool {
    &&& at.degree >= 3
    &&& at.height > 0
    &&& node is Internal
    &&& shape(s, node, at.height, at.degree, at.lo, at.hi)
    &&& node.keys().len() >= 1
    &&& 0 <= index < node.children().len()
    &&& forall|i: int|
        0 <= i < node.children().len() && i != index ==> filled(
            s[#[trigger] node.children()[i]],
            at.degree,
        )
    &&& underflows(s[node.children()[index]].keys().len() as int, at.degree)
    &&& s[node.children()[index]].keys().len() >= min_keys(at.degree) - 1
}

/// The place that spans children `a` and `a + 1` of a node.
pub open spec fn span_of(keys: Seq<Seq<u8>>, at: Place, a: int) -> Place {
    Place {
        degree: at.degree,
        height: (at.height - 1) as nat,
        lo: place_of(keys, at, a).lo,
        hi: place_of(keys, at, a + 1).hi,
    }
}

/// Children `a` and `a + 1` of a well shaped node can be fused: they are of
/// one kind, root well shaped subtrees to the left and right of key `a`, and
/// share no page.
pub(crate) proof fn lemma_neighbours(s: Store, node: NodeModel, a: int, at: Place)
    requires
        at.height > 0,
        node is Internal,
        shape(s, node, at.height, at.degree, at.lo, at.hi),
        0 <= a < node.keys().len(),
    ensures
        ({
            let left = s[node.children()[a]];
            let right = s[node.children()[a + 1]];
            let sep = node.keys()[a];
            let span = span_of(node.keys(), at, a);
            &&& node.children()[a] != node.children()[a + 1]
            &&& same_kind(left, right)
            &&& above(span.lo, sep)
            &&& under(sep, span.hi)
            &&& node_ok(s, left, left_of(span, sep))
            &&& node_ok(s, right, right_of(span, sep))
            &&& forall|x: usize|
                !(#[trigger] below(s, left, span.height, x) && below(s, right, span.height, x))
        }),
{
    let inner = node->Internal_0;
    let kids = inner.children;
    let keys = inner.keys;
    let g = (at.height - 1) as nat;
    let ca = kids[a];
    let cb = kids[a + 1];
    assert(kid_ok(s, ca, g, at.degree, lo_of(keys, at.lo, a), hi_of(keys, at.hi, a)));
    assert(kid_ok(s, cb, g, at.degree, lo_of(keys, at.lo, a + 1), hi_of(keys, at.hi, a + 1)));
    assert(reaches(s, ca, g, ca) && reaches(s, cb, g, cb));
    assert forall|x: usize| !(#[trigger] below(s, s[ca], g, x) && below(s, s[cb], g, x)) by {
        lemma_reaches(s, ca, g, x);
        lemma_reaches(s, cb, g, x);
    }
}

/// A child mended by a key of its left sibling: the tree is as [`mended`]
/// says.
pub(crate) proof fn lemma_borrowed_left(s: Store, node: NodeModel, index: int, at: Place)
    requires
        mendable(s, node, index, at),
        mend_for(s, node->Internal_0, index, at.degree) is BorrowLeft,
    ensures
        ({
            let inner = node->Internal_0;
            let after = mended_node(s, inner, index, at.degree);
            mended(
                s,
                mended_store(s, inner, index, at.degree),
                node,
                NodeModel::Internal(after),
                underflows(after.keys.len() as int, at.degree),
                at,
            )
        }),
{
    let inner = node->Internal_0;
    let a = index - 1;
    let left = s[inner.children[a]];
    let child = s[inner.children[index]];
    let sep = inner.keys[a];
    let span = span_of(inner.keys, at, a);
    let h = at.height;
    let g = (h - 1) as nat;
    lemma_neighbours(s, node, a, at);
    lemma_fuse(s, left, child, sep, span);
    lemma_borrow_left_is_cut(left, child, sep);
    let whole = fused(left, child, sep);
    let q = left.keys().len() as int - 1;
    lemma_cut(s, whole, span, q, child.offset());
    let left2 = lent_last(left);
    let child2 = took_from_left(left, child, sep);
    let sep2 = sep_after_left(left);
    assert forall|k: Seq<u8>|
        (if key_le(k, sep2) {
            lookup(s, left2, g, k)
        } else {
            lookup(s, child2, g, k)
        }) == if key_le(k, #[trigger] node.keys()[a]) {
            lookup(s, s[node.children()[a]], g, k)
        } else {
            lookup(s, s[node.children()[a + 1]], g, k)
        } by {
        assert(lookup(s, whole, g, k) == if key_le(k, sep2) {
            lookup(s, left2, g, k)
        } else {
            lookup(s, child2, g, k)
        });
    }
    lemma_pair_rewritten(s, node, a, left2, child2, sep2, at);
}

/// A child mended by a key of its right sibling: the tree is as [`mended`]
/// says.
pub(crate) proof fn lemma_borrowed_right(s: Store, node: NodeModel, index: int, at: Place)
    requires
        mendable(s, node, index, at),
        mend_for(s, node->Internal_0, index, at.degree) is BorrowRight,
    ensures
        ({
            let inner = node->Internal_0;
            let after = mended_node(s, inner, index, at.degree);
            mended(
                s,
                mended_store(s, inner, index, at.degree),
                node,
                NodeModel::Internal(after),
                underflows(after.keys.len() as int, at.degree),
                at,
            )
        }),
{
    let inner = node->Internal_0;
    let a = index;
    let child = s[inner.children[a]];
    let right = s[inner.children[a + 1]];
    let sep = inner.keys[a];
    let span = span_of(inner.keys, at, a);
    let h = at.height;
    let g = (h - 1) as nat;
    lemma_neighbours(s, node, a, at);
    lemma_fuse(s, child, right, sep, span);
    lemma_borrow_right_is_cut(child, right, sep);
    let whole = fused(child, right, sep);
    let q = child.keys().len() as int + 1;
    lemma_cut(s, whole, span, q, right.offset());
    let child2 = took_from_right(right, child, sep);
    let right2 = lent_first(right);
    let sep2 = right.keys()[0];
    assert forall|k: Seq<u8>|
        (if key_le(k, sep2) {
            lookup(s, child2, g, k)
        } else {
            lookup(s, right2, g, k)
        }) == if key_le(k, #[trigger] node.keys()[a]) {
            lookup(s, s[node.children()[a]], g, k)
        } else {
            lookup(s, s[node.children()[a + 1]], g, k)
        } by {
        assert(lookup(s, whole, g, k) == if key_le(k, sep2) {
            lookup(s, child2, g, k)
        } else {
            lookup(s, right2, g, k)
        });
    }
    lemma_pair_rewritten(s, node, a, child2, right2, sep2, at);
    let t1 = s.insert(inner.children[a], child2).insert(inner.children[a + 1], right2);
    let t2 = s.insert(inner.children[a + 1], right2).insert(inner.children[a], child2);
    assert(t1 =~= t2);
}

/// A child mended by fusing it with a sibling that cannot lend: the tree is
/// as [`mended`] says.
pub(crate) proof fn lemma_merged(s: Store, node: NodeModel, index: int, at: Place)
    requires
        mendable(s, node, index, at),
        mend_for(s, node->Internal_0, index, at.degree) is MergeLeft || mend_for(
            s,
            node->Internal_0,
            index,
            at.degree,
        ) is MergeRight,
    ensures
        ({
            let inner = node->Internal_0;
            let after = mended_node(s, inner, index, at.degree);
            mended(
                s,
                mended_store(s, inner, index, at.degree),
                node,
                NodeModel::Internal(after),
                underflows(after.keys.len() as int, at.degree),
                at,
            )
        }),
{
    let inner = node->Internal_0;
    let a = if index > 0 {
        index - 1
    } else {
        index
    };
    let left = s[inner.children[a]];
    let right = s[inner.children[a + 1]];
    let sep = inner.keys[a];
    let span = span_of(inner.keys, at, a);
    let h = at.height;
    lemma_neighbours(s, node, a, at);
    lemma_fuse(s, left, right, sep, span);
    let whole = fused(left, right, sep);
    if index > 0 {
        lemma_pair_fused(s, node, a, whole, drained(right), at);
    } else {
        lemma_pair_fused(s, node, a, whole, drained(right), at);
        let t1 = s.insert(inner.children[a], whole).insert(inner.children[a + 1], drained(right));
        let t2 = s.insert(inner.children[a + 1], drained(right)).insert(inner.children[a], whole);
        assert(t1 =~= t2);
    }
}

/// A deletion below the root, with the root written back: where the root is
/// an internal node left without keys, its only child is the new root, one
/// level lower; else the root stays. Either way the tree holds what it held
/// but for `key`.
pub(crate) proof fn lemma_root_removed(
    sa: Store,
    sb: Store,
    root: usize,
    n1: NodeModel,
    flag: Option<bool>,
    degree: int,
    height: nat,
    key: Seq<u8>,
)
    requires
        tree_ok(sa, root, degree, height),
        removed(sa, sb, sa[root], n1, flag, root_place(degree, height), key),
    ensures
        ({
            let t = sb.insert(root, n1);
            let gone = tree_map(sa, root, height).remove(key);
            if n1 is Internal && n1.keys().len() == 0 {
                &&& height > 0
                &&& n1.children().len() > 0
                &&& tree_ok(t, n1.children()[0], degree, (height - 1) as nat)
                &&& tree_map(t, n1.children()[0], (height - 1) as nat) == gone
            } else {
                &&& tree_ok(t, root, degree, height)
                &&& tree_map(t, root, height) == gone
            }
        }),
{
    let t = sb.insert(root, n1);
    let at = root_place(degree, height);
    let gone = tree_map(sa, root, height).remove(key);
    match flag {
        None => {
            assert(t =~= sa);
        },
        Some(low) => {
            lemma_below_in_dom(sb, n1, height, degree, None, None);
            lemma_settle(sb, t, root, n1, at);
            assert forall|k: Seq<u8>| #[trigger] lookup(t, t[root], height, k) == without_entry(
                sa,
                sa[root],
                height,
                key,
                k,
            ) by {
                assert(lookup(sb, n1, height, k) == without_entry(sa, sa[root], height, key, k));
            }
            if n1 is Internal && n1.keys().len() == 0 {
                let inner = n1->Internal_0;
                let c = inner.children[0];
                let g = (height - 1) as nat;
                let got = tree_map(t, c, g);
                assert forall|k: Seq<u8>| lookup(t, t[c], g, k) == without_entry(
                    sa,
                    sa[root],
                    height,
                    key,
                    k,
                ) by {
                    assert(lookup(t, n1, height, k) == lookup(t, t[c], g, k));
                }
            } else {
                let got = tree_map(t, root, height);
            }
        },
    }
}

} // verus!
