//! What makes a set of pages a B+Tree: key order, separation, fill bounds,
//! balance, and that no page belongs to two nodes. Also what a subtree
//! holds, as a function from keys to values.

use crate::key::key_le;
use crate::key::key_lt;
use crate::key::lemma_key_chain;
use crate::key::lemma_key_order;
use crate::key::lemma_rank_range;
use crate::key::lemma_rank_splits;
use crate::key::lemma_route;
use crate::key::rank;
use crate::node::internal::InternalModel;
use crate::node::leaf::LeafModel;
use crate::node::leaf::lemma_get_at;
use crate::node::max_keys;
use crate::node::min_keys;
use crate::node::NodeModel;
use vstd::prelude::*;

verus! {

/// The nodes on the pages, by offset.
pub type Store = Map<usize, NodeModel>;

/// A bound on keys; `None` is no bound.
pub type Bound = Option<Seq<u8>>;

/// Where a node stands in a tree of branching degree `degree`: its height
/// above the leaves, and the bounds that its ancestors put on its keys. The
/// keys of the node and of all below it lie above `lo` and do not exceed
/// `hi`.
pub struct Place {
    pub degree: int,
    pub height: nat,
    pub lo: Bound,
    pub hi: Bound,
}

/// `key` lies above the bound `lo`.
pub open spec fn above(lo: Bound, key: Seq<u8>) -> bool {
    lo matches Some(l) ==> key_lt(l, key)
}

/// `key` does not exceed the bound `hi`.
pub open spec fn upto(key: Seq<u8>, hi: Bound) -> bool {
    hi matches Some(h) ==> key_le(key, h)
}

/// `key` lies strictly below the bound `hi`.
pub open spec fn under(key: Seq<u8>, hi: Bound) -> bool {
    hi matches Some(h) ==> key_lt(key, h)
}

/// The lower bound of child `i` of a node with keys `keys` and lower bound
/// `lo`.
pub open spec fn lo_of(keys: Seq<Seq<u8>>, lo: Bound, i: int) -> Bound {
    if i <= 0 {
        lo
    } else {
        Some(keys[i - 1])
    }
}

/// The upper bound of child `i` of a node with keys `keys` and upper bound
/// `hi`.
pub open spec fn hi_of(keys: Seq<Seq<u8>>, hi: Bound, i: int) -> Bound {
    if i >= keys.len() {
        hi
    } else {
        Some(keys[i])
    }
}

/// The place of child `i` of a node with keys `keys` that stands at `at`.
pub open spec fn place_of(keys: Seq<Seq<u8>>, at: Place, i: int) -> Place {
    Place {
        degree: at.degree,
        height: (at.height - 1) as nat,
        lo: lo_of(keys, at.lo, i),
        hi: hi_of(keys, at.hi, i),
    }
}

/// The node holds no fewer keys than a node other than the root must, and no
/// more than any node may.
pub open spec fn filled(node: NodeModel, degree: int) -> bool {
    min_keys(degree) <= node.keys().len() <= max_keys(degree)
}

/// A leaf is in order and its keys lie within the bounds.
pub open spec fn leaf_ok(leaf: LeafModel, lo: Bound, hi: Bound) -> bool {
    &&& leaf.wf()
    &&& forall|i: int|
        0 <= i < leaf.keys.len() ==> above(lo, #[trigger] leaf.keys[i]) && upto(leaf.keys[i], hi)
}

/// An internal node is in order and its keys lie strictly within the bounds.
pub open spec fn inner_ok(inner: InternalModel, lo: Bound, hi: Bound) -> bool {
    &&& inner.wf()
    &&& forall|i: int|
        0 <= i < inner.keys.len() ==> above(lo, #[trigger] inner.keys[i]) && under(
            inner.keys[i],
            hi,
        )
}

/// The page at `x` belongs to the subtree of height `h` whose root is on the
/// page at `off`.
pub open spec fn reaches(s: Store, off: usize, h: nat, x: usize) -> bool
    decreases h,
{
    x == off || (h > 0 && s.dom().contains(off) && exists|i: int|
        0 <= i < s[off].children().len() && reaches(
            s,
            #[trigger] s[off].children()[i],
            (h - 1) as nat,
            x,
        ))
}

/// The page at `x` belongs to the subtree of one of the children of `node`,
/// which has height `h`.
pub open spec fn below(s: Store, node: NodeModel, h: nat, x: usize) -> bool {
    h > 0 && exists|i: int|
        0 <= i < node.children().len() && reaches(
            s,
            #[trigger] node.children()[i],
            (h - 1) as nat,
            x,
        )
}

/// A page of the subtree of child `i` is below the node.
pub(crate) proof fn lemma_below_intro(s: Store, node: NodeModel, h: nat, i: int, x: usize)
    requires
        h > 0,
        0 <= i < node.children().len(),
        reaches(s, node.children()[i], (h - 1) as nat, x),
    ensures
        below(s, node, h, x),
{
}

/// A page below the node belongs to the subtree of one of its children.
pub(crate) proof fn lemma_below_elim(s: Store, node: NodeModel, h: nat, x: usize) -> (i: int)
    requires
        below(s, node, h, x),
    ensures
        h > 0,
        0 <= i < node.children().len(),
        reaches(s, node.children()[i], (h - 1) as nat, x),
{
    choose|i: int|
        0 <= i < node.children().len() && reaches(
            s,
            #[trigger] node.children()[i],
            (h - 1) as nat,
            x,
        )
}

/// The pages of a subtree are its root and the pages below the root.
pub(crate) proof fn lemma_reaches(s: Store, off: usize, h: nat, x: usize)
    ensures
        reaches(s, off, h, x) <==> x == off || (s.dom().contains(off) && below(s, s[off], h, x)),
{
}

/// Every child of `node` is filled.
pub open spec fn kids_filled(s: Store, node: NodeModel, degree: int) -> bool {
    forall|i: int|
        0 <= i < node.children().len() ==> filled(s[#[trigger] node.children()[i]], degree)
}

/// The subtree on the page at `off` is well shaped (see [`shape`]), its
/// children are filled, and its own page is not below it.
pub open spec fn kid_ok(s: Store, off: usize, h: nat, degree: int, lo: Bound, hi: Bound) -> bool
    decreases h, 1nat,
{
    &&& s.dom().contains(off)
    &&& shape(s, s[off], h, degree, lo, hi)
    &&& kids_filled(s, s[off], degree)
    &&& !below(s, s[off], h, off)
}

/// `node`, held in memory, is the root of a well shaped subtree of height
/// `h` whose keys lie within `lo` and `hi`:
/// - a leaf stands at height 0 and an internal node above;
/// - the keys of each node are strictly increasing;
/// - the keys below child `i` lie above key `i - 1` and do not exceed key `i`;
/// - every node below the children of `node` is filled;
/// - no page belongs to two subtrees.
/// Nothing is said of how many keys `node` or its children hold.
pub open spec fn shape(s: Store, node: NodeModel, h: nat, degree: int, lo: Bound, hi: Bound) -> bool
    decreases h, 0nat,
{
    match node {
        NodeModel::Leaf(leaf) => h == 0 && leaf_ok(leaf, lo, hi),
        NodeModel::Internal(inner) => {
            &&& h > 0
            &&& inner_ok(inner, lo, hi)
            &&& forall|i: int|
                0 <= i < inner.children.len() ==> kid_ok(
                    s,
                    #[trigger] inner.children[i],
                    (h - 1) as nat,
                    degree,
                    lo_of(inner.keys, lo, i),
                    hi_of(inner.keys, hi, i),
                )
            &&& forall|i: int, j: int, x: usize|
                0 <= i < j < inner.children.len() && #[trigger] reaches(
                    s,
                    inner.children[i],
                    (h - 1) as nat,
                    x,
                ) ==> !#[trigger] reaches(s, inner.children[j], (h - 1) as nat, x)
        },
    }
}

/// `node` is the root of a well shaped subtree and its children are filled.
pub open spec fn node_ok(s: Store, node: NodeModel, at: Place) -> bool {
    shape(s, node, at.height, at.degree, at.lo, at.hi) && kids_filled(s, node, at.degree)
}

/// The place of the root of a tree of the given degree and height.
pub open spec fn root_place(degree: int, height: nat) -> Place {
    Place { degree, height, lo: None, hi: None }
}

/// The value that a search for `key` finds in the subtree of `node`: a leaf
/// answers from its own entries, an internal node hands the key to the child
/// that it routes to.
pub open spec fn lookup(s: Store, node: NodeModel, h: nat, key: Seq<u8>) -> Option<Seq<u8>>
    decreases h,
{
    match node {
        NodeModel::Leaf(leaf) => leaf.get(key),
        NodeModel::Internal(inner) => {
            let c = inner.children[inner.route(key)];
            if h > 0 && s.dom().contains(c) {
                lookup(s, s[c], (h - 1) as nat, key)
            } else {
                None
            }
        },
    }
}

/// The store `t` holds what `s` holds on every page below `node`.
pub open spec fn agrees_below(s: Store, t: Store, node: NodeModel, h: nat) -> bool {
    forall|x: usize| #[trigger] below(s, node, h, x) ==> t.dom().contains(x) && t[x] == s[x]
}

/// The store `t` holds what `s` holds on every page of the subtree at `off`.
pub open spec fn agrees_on(s: Store, t: Store, off: usize, h: nat) -> bool {
    forall|x: usize| #[trigger] reaches(s, off, h, x) ==> t.dom().contains(x) && t[x] == s[x]
}

/// Every page that `s` holds and that is not below `node` is the same in
/// `t`.
pub open spec fn same_outside(s: Store, t: Store, node: NodeModel, h: nat) -> bool {
    forall|x: usize|
        s.dom().contains(x) && !#[trigger] below(s, node, h, x) ==> t.dom().contains(x) && t[x]
            == s[x]
}

/// Every page below `after` in `t` was below `before` in `s`, or is new.
pub open spec fn built_from(s: Store, t: Store, before: NodeModel, after: NodeModel, h: nat) -> bool {
    forall|x: usize| #[trigger] below(t, after, h, x) ==> below(s, before, h, x) || !s.dom().contains(x)
}

/// Every page of `s` is a page of `t`.
pub open spec fn grown(s: Store, t: Store) -> bool {
    forall|x: usize| s.dom().contains(x) ==> t.dom().contains(x)
}

/// The pages of a well shaped subtree are pages of the store.
pub(crate) proof fn lemma_below_in_dom(s: Store, node: NodeModel, h: nat, degree: int, lo: Bound, hi: Bound)
    requires
        shape(s, node, h, degree, lo, hi),
    ensures
        forall|x: usize| below(s, node, h, x) ==> s.dom().contains(x),
    decreases h,
{
    assert forall|x: usize| below(s, node, h, x) implies s.dom().contains(x) by {
        let i = lemma_below_elim(s, node, h, x);
        let inner = node->Internal_0;
        let c = inner.children[i];
        if x != c {
            lemma_below_in_dom(
                s,
                s[c],
                (h - 1) as nat,
                degree,
                lo_of(inner.keys, lo, i),
                hi_of(inner.keys, hi, i),
            );
        }
    }
}

/// A well shaped subtree does not depend on pages outside it: in a store that
/// agrees on the pages below `node`, the subtree is well shaped as before,
/// has the same pages, and holds the same values.
pub(crate) proof fn lemma_frame(
    s: Store,
    t: Store,
    node: NodeModel,
    h: nat,
    degree: int,
    lo: Bound,
    hi: Bound,
)
    requires
        shape(s, node, h, degree, lo, hi),
        agrees_below(s, t, node, h),
    ensures
        shape(t, node, h, degree, lo, hi),
        forall|x: usize| below(t, node, h, x) == below(s, node, h, x),
        forall|key: Seq<u8>| lookup(t, node, h, key) == lookup(s, node, h, key),
        kids_filled(t, node, degree) == kids_filled(s, node, degree),
    decreases h, 0nat,
{
    match node {
        NodeModel::Leaf(leaf) => {},
        NodeModel::Internal(inner) => {
            let g = (h - 1) as nat;
            assert forall|i: int| 0 <= i < inner.children.len() implies {
                let c = #[trigger] inner.children[i];
                &&& t.dom().contains(c)
                &&& t[c] == s[c]
                &&& kid_ok(t, c, g, degree, lo_of(inner.keys, lo, i), hi_of(inner.keys, hi, i))
                &&& forall|x: usize| reaches(t, c, g, x) == reaches(s, c, g, x)
                &&& forall|key: Seq<u8>| lookup(t, t[c], g, key) == lookup(s, s[c], g, key)
            } by {
                let c = inner.children[i];
                assert forall|x: usize| #[trigger] reaches(s, c, g, x) implies t.dom().contains(x)
                    && t[x] == s[x] by {
                    lemma_below_intro(s, node, h, i, x);
                }
                lemma_kid_frame(
                    s,
                    t,
                    c,
                    g,
                    degree,
                    lo_of(inner.keys, lo, i),
                    hi_of(inner.keys, hi, i),
                );
            }
            assert forall|key: Seq<u8>| lookup(t, node, h, key) == lookup(s, node, h, key) by {
                lemma_rank_range(inner.keys, key);
                let c = inner.children[inner.route(key)];
                assert(lookup(t, t[c], g, key) == lookup(s, s[c], g, key));
            }
        },
    }
}

/// A subtree on a page does not depend on pages outside it.
pub(crate) proof fn lemma_kid_frame(
    s: Store,
    t: Store,
    off: usize,
    h: nat,
    degree: int,
    lo: Bound,
    hi: Bound,
)
    requires
        kid_ok(s, off, h, degree, lo, hi),
        agrees_on(s, t, off, h),
    ensures
        kid_ok(t, off, h, degree, lo, hi),
        t[off] == s[off],
        forall|x: usize| reaches(t, off, h, x) == reaches(s, off, h, x),
        forall|key: Seq<u8>| lookup(t, t[off], h, key) == lookup(s, s[off], h, key),
    decreases h, 1nat,
{
    assert(reaches(s, off, h, off));
    assert forall|x: usize| #[trigger] below(s, s[off], h, x) implies t.dom().contains(x) && t[x]
        == s[x] by {
        lemma_reaches(s, off, h, x);
    }
    lemma_frame(s, t, s[off], h, degree, lo, hi);
    assert forall|x: usize| reaches(t, off, h, x) == reaches(s, off, h, x) by {
        lemma_reaches(s, off, h, x);
    }
}

/// The pages of a subtree on a page are pages of the store.
pub(crate) proof fn lemma_reach_in_dom(
    s: Store,
    off: usize,
    h: nat,
    degree: int,
    lo: Bound,
    hi: Bound,
)
    requires
        kid_ok(s, off, h, degree, lo, hi),
    ensures
        forall|x: usize| reaches(s, off, h, x) ==> s.dom().contains(x),
{
    lemma_below_in_dom(s, s[off], h, degree, lo, hi);
}

/// A node put on a page: where `t` agrees with `s` on the pages below
/// `node` and holds `node` on the page at `off`, which is not among them,
/// the subtree at `off` in `t` is that of `node` in `s`.
pub(crate) proof fn lemma_settle(s: Store, t: Store, off: usize, node: NodeModel, at: Place)
    requires
        node_ok(s, node, at),
        agrees_below(s, t, node, at.height),
        t.dom().contains(off),
        t[off] == node,
        !below(s, node, at.height, off),
    ensures
        kid_ok(t, off, at.height, at.degree, at.lo, at.hi),
        forall|x: usize| reaches(t, off, at.height, x) <==> x == off || below(s, node, at.height, x),
        forall|key: Seq<u8>| lookup(t, t[off], at.height, key) == lookup(s, node, at.height, key),
{
    lemma_frame(s, t, node, at.height, at.degree, at.lo, at.hi);
}

/// The pages outside the subtrees of children `a` and `b` are the same in
/// `t` as in `s`.
pub open spec fn same_but(s: Store, t: Store, node: NodeModel, h: nat, a: int, b: int) -> bool {
    forall|x: usize|
        #![trigger t[x]]
        #![trigger t.dom().contains(x)]
        s.dom().contains(x) && !reaches(s, node.children()[a], (h - 1) as nat, x) && !reaches(
            s,
            node.children()[b],
            (h - 1) as nat,
            x,
        ) ==> t.dom().contains(x) && t[x] == s[x]
}

/// Where only the subtrees of children `a` and `b` were written, every
/// other child roots the same subtree as before.
pub(crate) proof fn lemma_others_kept(s: Store, t: Store, node: NodeModel, at: Place, a: int, b: int)
    requires
        at.height > 0,
        node is Internal,
        shape(s, node, at.height, at.degree, at.lo, at.hi),
        0 <= a < node.children().len(),
        0 <= b < node.children().len(),
        same_but(s, t, node, at.height, a, b),
    ensures
        forall|i: int, x: usize|
            0 <= i < node.children().len() && reaches(
                s,
                #[trigger] node.children()[i],
                (at.height - 1) as nat,
                x,
            ) ==> #[trigger] s.dom().contains(x),
        forall|i: int|
            0 <= i < node.children().len() && i != a && i != b ==> kid_ok(
                t,
                #[trigger] node.children()[i],
                (at.height - 1) as nat,
                at.degree,
                lo_of(node.keys(), at.lo, i),
                hi_of(node.keys(), at.hi, i),
            ) && t[node.children()[i]] == s[node.children()[i]],
        forall|i: int, x: usize|
            0 <= i < node.children().len() && i != a && i != b ==> #[trigger] reaches(
                t,
                node.children()[i],
                (at.height - 1) as nat,
                x,
            ) == reaches(s, node.children()[i], (at.height - 1) as nat, x),
        forall|i: int, key: Seq<u8>|
            0 <= i < node.children().len() && i != a && i != b ==> #[trigger] lookup(
                t,
                t[node.children()[i]],
                (at.height - 1) as nat,
                key,
            ) == lookup(s, s[node.children()[i]], (at.height - 1) as nat, key),
{
    let inner = node->Internal_0;
    let g = (at.height - 1) as nat;
    assert forall|i: int, x: usize|
        0 <= i < node.children().len() && reaches(
            s,
            #[trigger] node.children()[i],
            g,
            x,
        ) implies #[trigger] s.dom().contains(x) by {
        let c = inner.children[i];
        lemma_reach_in_dom(s, c, g, at.degree, lo_of(inner.keys, at.lo, i), hi_of(inner.keys, at.hi, i));
    }
    assert forall|i: int| 0 <= i < node.children().len() && i != a && i != b implies {
        &&& kid_ok(
            t,
            #[trigger] node.children()[i],
            g,
            at.degree,
            lo_of(node.keys(), at.lo, i),
            hi_of(node.keys(), at.hi, i),
        )
        &&& t[node.children()[i]] == s[node.children()[i]]
        &&& forall|x: usize| #[trigger]
            reaches(t, node.children()[i], g, x) == reaches(s, node.children()[i], g, x)
        &&& forall|key: Seq<u8>| #[trigger]
            lookup(t, t[node.children()[i]], g, key) == lookup(s, s[node.children()[i]], g, key)
    } by {
        let c = inner.children[i];
        lemma_kid_frame(
            s,
            t,
            c,
            g,
            at.degree,
            lo_of(inner.keys, at.lo, i),
            hi_of(inner.keys, at.hi, i),
        );
    }
}

/// The page at `root` holds the root of a tree of the given degree and
/// height: a well shaped subtree without bounds, whose root may hold fewer
/// keys than other nodes, but at least one where it is internal.
pub open spec fn tree_ok(s: Store, root: usize, degree: int, height: nat) -> bool {
    &&& degree >= 3
    &&& kid_ok(s, root, height, degree, None, None)
    &&& s[root].keys().len() <= max_keys(degree)
    &&& s[root] is Internal ==> s[root].keys().len() >= 1
}

/// What a tree holds: each key that a search finds, with the value found.
pub open spec fn tree_map(s: Store, root: usize, height: nat) -> Map<Seq<u8>, Seq<u8>> {
    Map::new(
        |k: Seq<u8>| lookup(s, s[root], height, k) is Some,
        |k: Seq<u8>| lookup(s, s[root], height, k)->0,
    )
}

/// A key that a subtree holds lies within the bounds of the subtree.
pub(crate) proof fn lemma_found_in_bounds(
    s: Store,
    node: NodeModel,
    h: nat,
    degree: int,
    lo: Bound,
    hi: Bound,
    key: Seq<u8>,
)
    requires
        shape(s, node, h, degree, lo, hi),
        lookup(s, node, h, key) is Some,
    ensures
        above(lo, key),
        upto(key, hi),
    decreases h,
{
    match node {
        NodeModel::Leaf(leaf) => {
        },
        NodeModel::Internal(inner) => {
            lemma_rank_splits(inner.keys, key);
            let r = rank(inner.keys, key);
            let c = inner.children[r];
            lemma_found_in_bounds(
                s,
                s[c],
                (h - 1) as nat,
                degree,
                lo_of(inner.keys, lo, r),
                hi_of(inner.keys, hi, r),
                key,
            );
            if r > 0 && lo is Some {
                lemma_key_order(lo->0, inner.keys[r - 1], key);
            }
            if r < inner.keys.len() && hi is Some {
                lemma_key_chain(key, inner.keys[r], hi->0);
                lemma_key_chain(key, hi->0, hi->0);
            }
        },
    }
}

/// A subtree whose root holds a key holds a value for some key.
pub(crate) proof fn lemma_holds_something(s: Store, node: NodeModel, at: Place) -> (key: Seq<u8>)
    requires
        at.degree >= 3,
        node_ok(s, node, at),
        node.keys().len() >= 1,
    ensures
        lookup(s, node, at.height, key) is Some,
    decreases at.height,
{
    match node {
        NodeModel::Leaf(leaf) => {
            lemma_get_at(leaf, 0);
            leaf.keys[0]
        },
        NodeModel::Internal(inner) => {
            let c = inner.children[0];
            let spot = place_of(inner.keys, at, 0);
            assert(c == node.children()[0]);
            let key = lemma_holds_something(s, s[c], spot);
            lemma_found_in_bounds(s, s[c], spot.height, at.degree, spot.lo, spot.hi, key);
            lemma_route(inner.keys, key, 0);
            key
        },
    }
}

/// A tree holds nothing exactly when its root holds nothing.
pub(crate) proof fn lemma_empty_root(s: Store, root: usize, degree: int, height: nat)
    requires
        tree_ok(s, root, degree, height),
    ensures
        s[root].is_empty() <==> tree_map(s, root, height) == Map::<Seq<u8>, Seq<u8>>::empty(),
{
    let node = s[root];
    let at = root_place(degree, height);
    if node.keys().len() >= 1 {
        let key = lemma_holds_something(s, node, at);
        assert(tree_map(s, root, height).dom().contains(key));
    } else {
        assert forall|k: Seq<u8>| lookup(s, node, height, k) is None by {}
        assert(tree_map(s, root, height) =~= Map::<Seq<u8>, Seq<u8>>::empty());
    }
}

} // verus!
