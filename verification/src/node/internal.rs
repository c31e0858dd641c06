//! Internal nodes: sorted separator keys and the offsets of the children
//! that they separate.

use crate::deletion::lemma_borrowed_left;
use crate::deletion::lemma_borrowed_right;
use crate::deletion::lemma_merged;
use crate::deletion::mend;
use crate::deletion::mendable;
use crate::deletion::mended;
use crate::deletion::removed;
use crate::deletion::shrink;
use crate::error::Error;
use crate::insertion::grow;
use crate::insertion::inserted;
use crate::insertion::lemma_child_split;
use crate::insertion::lemma_child_updated;
use crate::insertion::lemma_inner_split;
use crate::insertion::with_entry;
use crate::key::find;
use crate::key::Key;
use crate::key::key_le;
use crate::key::lemma_rank_range;
use crate::key::lemma_rank_splits;
use crate::key::Offset;
use crate::key::rank;
use crate::key::sorted;
use crate::key::Value;
use crate::key::views;
use crate::node::handed_up;
use crate::node::leaf::copy_bytes;
use crate::node::leaf::LeafModel;
use crate::node::leaf::opt_view;
use crate::node::Node;
use crate::node::NodeModel;
use crate::node::rewrite_error;
use crate::node::split_view;
use crate::node::write_error;
use crate::pager::Pager;
use crate::pager::write_pair;
use crate::pager::wrote_pair;
use crate::structure::above;
use crate::structure::below;
use crate::structure::filled;
use crate::structure::lookup;
use crate::structure::node_ok;
use crate::structure::Place;
use crate::structure::place_of;
use crate::structure::shape;
use crate::structure::upto;
use vstd::prelude::*;

verus! {

/// An internal node: the keys of `children[i]` lie above `keys[i - 1]` and
/// do not exceed `keys[i]`.
#[derive(Clone, Debug)]
pub struct InternalNode {
    pub keys: Vec<Key>,
    pub children: Vec<Offset>,
    pub offset: Option<Offset>,
}

/// The mathematical content of an internal node.
pub struct InternalModel {
    pub keys: Seq<Seq<u8>>,
    pub children: Seq<usize>,
    pub offset: Option<usize>,
}

impl View for InternalNode {
    type V = InternalModel;

    open spec fn view(&self) -> InternalModel {
        InternalModel { keys: views(self.keys@), children: self.children@, offset: self.offset }
    }
}

impl InternalModel {
    /// There is one child more than there are keys, and the keys are strictly
    /// increasing.
    pub open spec fn wf(self) -> bool {
        self.children.len() == self.keys.len() + 1 && sorted(self.keys)
    }

    /// The index of the child that `key` is routed to: the number of keys
    /// strictly below it.
    pub open spec fn route(self, key: Seq<u8>) -> int {
        rank(self.keys, key)
    }

    /// The position at which the node is split: half the number of its keys,
    /// rounded down.
    pub open spec fn split_at(self) -> int {
        self.keys.len() as int / 2
    }

    /// The key that a split hands up: the median, which stays in neither half.
    pub open spec fn split_key(self) -> Seq<u8> {
        self.keys[self.split_at()]
    }

    /// The keys before key `q` and the children around them.
    pub open spec fn left_part(self, q: int) -> InternalModel {
        InternalModel {
            keys: self.keys.subrange(0, q),
            children: self.children.subrange(0, q + 1),
            offset: self.offset,
        }
    }

    /// The keys behind key `q` and the children around them, as a node of
    /// their own.
    pub open spec fn right_part(self, q: int, offset: Option<usize>) -> InternalModel {
        InternalModel {
            keys: self.keys.subrange(q + 1, self.keys.len() as int),
            children: self.children.subrange(q + 1, self.children.len() as int),
            offset,
        }
    }

    /// What stays in a node that is split: the keys before the median and the
    /// children around them.
    pub open spec fn left_half(self) -> InternalModel {
        self.left_part(self.split_at())
    }

    /// What moves to the new right node: the keys behind the median and the
    /// children around them.
    pub open spec fn right_half(self, offset: Option<usize>) -> InternalModel {
        self.right_part(self.split_at(), offset)
    }

    /// The node after child `p` has split: the separator `mid` becomes key
    /// `p`, and the offset of the new right sibling follows that of the
    /// child.
    pub open spec fn with_child(self, p: int, mid: Seq<u8>, sibling: usize) -> InternalModel {
        InternalModel {
            keys: self.keys.insert(p, mid),
            children: self.children.insert(p + 1, sibling),
            offset: self.offset,
        }
    }

    /// The node with `key` as its key `i`.
    pub open spec fn with_key(self, i: int, key: Seq<u8>) -> InternalModel {
        InternalModel { keys: self.keys.update(i, key), children: self.children, offset: self.offset }
    }

    /// The node without its key `i` and without its child `j`.
    pub open spec fn without(self, i: int, j: int) -> InternalModel {
        InternalModel {
            keys: self.keys.remove(i),
            children: self.children.remove(j),
            offset: self.offset,
        }
    }
}

/// Two nodes are of one kind: both leaves or both internal.
pub open spec fn same_kind(a: NodeModel, b: NodeModel) -> bool {
    (a is Leaf) == (b is Leaf)
}

/// A node has an entry to give away at its end: a leaf two keys, so that one
/// stays to separate, and an internal node a key and a child.
pub open spec fn spare(node: NodeModel) -> bool {
    match node {
        NodeModel::Leaf(leaf) => leaf.keys.len() >= 2 && leaf.values.len() == leaf.keys.len(),
        NodeModel::Internal(inner) => inner.keys.len() >= 1 && inner.children.len() >= 1,
    }
}

/// The left sibling after its last entry has moved to its right neighbour.
pub open spec fn lent_last(left: NodeModel) -> NodeModel {
    match left {
        NodeModel::Leaf(l) => NodeModel::Leaf(
            LeafModel { keys: l.keys.drop_last(), values: l.values.drop_last(), offset: l.offset },
        ),
        NodeModel::Internal(l) => NodeModel::Internal(
            InternalModel {
                keys: l.keys.drop_last(),
                children: l.children.drop_last(),
                offset: l.offset,
            },
        ),
    }
}

/// The child after it has taken the last entry of its left sibling. A leaf
/// takes the sibling's last key and value; an internal node takes the
/// separator `sep` as its first key and the sibling's last child.
pub open spec fn took_from_left(left: NodeModel, child: NodeModel, sep: Seq<u8>) -> NodeModel {
    match (left, child) {
        (NodeModel::Leaf(l), NodeModel::Leaf(c)) => NodeModel::Leaf(
            LeafModel {
                keys: c.keys.insert(0, l.keys.last()),
                values: c.values.insert(0, l.values.last()),
                offset: c.offset,
            },
        ),
        (NodeModel::Internal(l), NodeModel::Internal(c)) => NodeModel::Internal(
            InternalModel {
                keys: c.keys.insert(0, sep),
                children: c.children.insert(0, l.children.last()),
                offset: c.offset,
            },
        ),
        _ => child,
    }
}

/// The separator between a left sibling and the child that took its last
/// entry: for leaves the key that is now last in the sibling, for internal
/// nodes the key that the sibling gave up.
pub open spec fn sep_after_left(left: NodeModel) -> Seq<u8> {
    match left {
        NodeModel::Leaf(l) => l.keys[l.keys.len() - 2],
        NodeModel::Internal(l) => l.keys.last(),
    }
}

/// A node has an entry to give away at its front.
pub open spec fn spare_first(node: NodeModel) -> bool {
    match node {
        NodeModel::Leaf(leaf) => leaf.keys.len() >= 1 && leaf.values.len() == leaf.keys.len(),
        NodeModel::Internal(inner) => inner.keys.len() >= 1 && inner.children.len() >= 1,
    }
}

/// The right sibling after its first entry has moved to its left neighbour.
pub open spec fn lent_first(right: NodeModel) -> NodeModel {
    match right {
        NodeModel::Leaf(r) => NodeModel::Leaf(
            LeafModel { keys: r.keys.remove(0), values: r.values.remove(0), offset: r.offset },
        ),
        NodeModel::Internal(r) => NodeModel::Internal(
            InternalModel { keys: r.keys.remove(0), children: r.children.remove(0), offset: r.offset },
        ),
    }
}

/// The child after it has taken the first entry of its right sibling. A leaf
/// takes the sibling's first key and value; an internal node takes the
/// separator `sep` as its last key and the sibling's first child.
pub open spec fn took_from_right(right: NodeModel, child: NodeModel, sep: Seq<u8>) -> NodeModel {
    match (right, child) {
        (NodeModel::Leaf(r), NodeModel::Leaf(c)) => NodeModel::Leaf(
            LeafModel {
                keys: c.keys.push(r.keys[0]),
                values: c.values.push(r.values[0]),
                offset: c.offset,
            },
        ),
        (NodeModel::Internal(r), NodeModel::Internal(c)) => NodeModel::Internal(
            InternalModel {
                keys: c.keys.push(sep),
                children: c.children.push(r.children[0]),
                offset: c.offset,
            },
        ),
        _ => child,
    }
}

/// Two neighbours fused into the left one. Leaves are joined end to end;
/// between the keys of internal nodes stands the separator `sep`.
pub open spec fn fused(left: NodeModel, right: NodeModel, sep: Seq<u8>) -> NodeModel {
    match (left, right) {
        (NodeModel::Leaf(l), NodeModel::Leaf(r)) => NodeModel::Leaf(
            LeafModel { keys: l.keys + r.keys, values: l.values + r.values, offset: l.offset },
        ),
        (NodeModel::Internal(l), NodeModel::Internal(r)) => NodeModel::Internal(
            InternalModel {
                keys: l.keys.push(sep) + r.keys,
                children: l.children + r.children,
                offset: l.offset,
            },
        ),
        _ => left,
    }
}

/// A node after all it held has moved to a neighbour.
pub open spec fn drained(node: NodeModel) -> NodeModel {
    match node {
        NodeModel::Leaf(n) => NodeModel::Leaf(
            LeafModel { keys: Seq::empty(), values: Seq::empty(), offset: n.offset },
        ),
        NodeModel::Internal(n) => NodeModel::Internal(
            InternalModel { keys: Seq::empty(), children: Seq::empty(), offset: n.offset },
        ),
    }
}

impl InternalNode {
    /// Splits the node at its median key: the keys behind the median and
    /// the children around them move to a new node, which is returned with
    /// the median.
    pub fn split(&mut self, pager: &Pager) -> (r: (Key, Node))
        requires
            old(self)@.children.len() == old(self)@.keys.len() + 1,
            old(self)@.keys.len() >= 1,
            pager.wf(),
        ensures
            r.0@ == old(self)@.split_key(),
            final(self)@ == old(self)@.left_half(),
            r.1@ == NodeModel::Internal(old(self)@.right_half(Some(pager.cursor() as usize))),
    {
        let split_index: usize = self.keys.len() / 2;
        let mut sibling_keys = self.keys.split_off(split_index);
        let median_key = sibling_keys.remove(0);
        let new_internal_node = InternalNode {
            keys: sibling_keys,
            children: self.children.split_off(split_index + 1),
            offset: Some(pager.next_offset()),
        };
        assert(self@.keys =~= old(self)@.left_half().keys);
        assert(new_internal_node@.keys =~= old(self)@.right_half(None).keys);
        (median_key, Node::Internal(new_internal_node))
    }

    /// Moves the last entry of the left sibling of child `index` into the
    /// child, sets the separator between the two and writes both back.
    pub fn borrow_left(
        &mut self,
        pager: &mut Pager,
        index: usize,
        left_sibling: &mut Node,
        left_sibling_offset: Offset,
        child_node: &mut Node,
        child_offset: Offset,
    ) -> (r: Result<(), Error>)
        requires
            old(pager).wf(),
            1 <= index <= old(self)@.keys.len(),
            same_kind(old(left_sibling)@, old(child_node)@),
            spare(old(left_sibling)@),
        ensures
            final(self)@ == old(self)@.with_key(index - 1, sep_after_left(old(left_sibling)@)),
            final(left_sibling)@ == lent_last(old(left_sibling)@),
            final(child_node)@ == took_from_left(
                old(left_sibling)@,
                old(child_node)@,
                old(self)@.keys[index - 1],
            ),
            wrote_pair(
                *old(pager),
                *final(pager),
                r,
                final(left_sibling)@,
                left_sibling_offset,
                final(child_node)@,
                child_offset,
            ),
    {
        match (&mut *left_sibling, &mut *child_node) {
            (Node::Internal(sibling), Node::Internal(current)) => {
                let borrowed_key = sibling.keys.pop().unwrap();
                current.keys.insert(0, copy_bytes(&self.keys[index - 1]));
                self.keys.set(index - 1, borrowed_key);
                let borrowed_child = sibling.children.pop().unwrap();
                current.children.insert(0, borrowed_child);
                assert(views(sibling.keys@) =~= old(left_sibling)@.keys().drop_last());
                assert(views(current.keys@) =~= old(child_node)@.keys().insert(
                    0,
                    old(self)@.keys[index - 1],
                ));
                assert(views(self.keys@) =~= old(self)@.keys.update(
                    index - 1,
                    sep_after_left(old(left_sibling)@),
                ));
            },
            (Node::Leaf(sibling), Node::Leaf(current)) => {
                let borrowed_key = sibling.keys.pop().unwrap();
                let borrowed_value = sibling.values.pop().unwrap();
                current.keys.insert(0, borrowed_key);
                current.values.insert(0, borrowed_value);
                self.keys.set(index - 1, copy_bytes(&sibling.keys[sibling.keys.len() - 1]));
                assert(views(sibling.keys@) =~= old(left_sibling)@.keys().drop_last());
                assert(views(sibling.values@) =~= views(old(left_sibling)->Leaf_0.values@).drop_last());
                assert(views(current.keys@) =~= old(child_node)@.keys().insert(
                    0,
                    old(left_sibling)@.keys().last(),
                ));
                assert(views(current.values@) =~= views(old(child_node)->Leaf_0.values@).insert(
                    0,
                    views(old(left_sibling)->Leaf_0.values@).last(),
                ));
                assert(views(self.keys@) =~= old(self)@.keys.update(
                    index - 1,
                    sep_after_left(old(left_sibling)@),
                ));
            },
            _ => {},
        }
        write_pair(pager, left_sibling, left_sibling_offset, child_node, child_offset)
    }
    /// Moves the first entry of the right sibling of child `index` into the
    /// child, sets the separator between the two and writes both back.
    pub fn borrow_right(
        &mut self,
        pager: &mut Pager,
        index: usize,
        right_sibling: &mut Node,
        right_sibling_offset: Offset,
        child_node: &mut Node,
        child_offset: Offset,
    ) -> (r: Result<(), Error>)
        requires
            old(pager).wf(),
            index < old(self)@.keys.len(),
            same_kind(old(right_sibling)@, old(child_node)@),
            spare_first(old(right_sibling)@),
        ensures
            final(self)@ == old(self)@.with_key(index as int, old(right_sibling)@.keys()[0]),
            final(right_sibling)@ == lent_first(old(right_sibling)@),
            final(child_node)@ == took_from_right(
                old(right_sibling)@,
                old(child_node)@,
                old(self)@.keys[index as int],
            ),
            wrote_pair(
                *old(pager),
                *final(pager),
                r,
                final(right_sibling)@,
                right_sibling_offset,
                final(child_node)@,
                child_offset,
            ),
    {
        match (&mut *right_sibling, &mut *child_node) {
            (Node::Internal(sibling), Node::Internal(current)) => {
                let borrowed_key = sibling.keys.remove(0);
                current.keys.push(copy_bytes(&self.keys[index]));
                self.keys.set(index, borrowed_key);
                let borrowed_child = sibling.children.remove(0);
                current.children.push(borrowed_child);
                assert(views(sibling.keys@) =~= old(right_sibling)@.keys().remove(0));
                assert(views(current.keys@) =~= old(child_node)@.keys().push(
                    old(self)@.keys[index as int],
                ));
                assert(views(self.keys@) =~= old(self)@.keys.update(
                    index as int,
                    old(right_sibling)@.keys()[0],
                ));
            },
            (Node::Leaf(sibling), Node::Leaf(current)) => {
                let borrowed_key = sibling.keys.remove(0);
                let borrowed_value = sibling.values.remove(0);
                self.keys.set(index, copy_bytes(&borrowed_key));
                current.keys.push(borrowed_key);
                current.values.push(borrowed_value);
                assert(views(sibling.keys@) =~= old(right_sibling)@.keys().remove(0));
                assert(views(sibling.values@) =~= views(old(right_sibling)->Leaf_0.values@).remove(
                    0,
                ));
                assert(views(current.keys@) =~= old(child_node)@.keys().push(
                    old(right_sibling)@.keys()[0],
                ));
                assert(views(current.values@) =~= views(old(child_node)->Leaf_0.values@).push(
                    views(old(right_sibling)->Leaf_0.values@)[0],
                ));
                assert(views(self.keys@) =~= old(self)@.keys.update(
                    index as int,
                    old(right_sibling)@.keys()[0],
                ));
            },
            _ => {},
        }
        write_pair(pager, right_sibling, right_sibling_offset, child_node, child_offset)
    }

    /// Fuses child `index` into its left sibling, takes the separator between
    /// the two and the child's offset out of this node, and writes both nodes
    /// back. The child's page stays where it is, holding an empty node.
    pub fn merge_left(
        &mut self,
        pager: &mut Pager,
        index: usize,
        left_sibling: &mut Node,
        left_sibling_offset: Offset,
        child_node: &mut Node,
        child_offset: Offset,
    ) -> (r: Result<(), Error>)
        requires
            old(pager).wf(),
            1 <= index <= old(self)@.keys.len(),
            index < old(self)@.children.len(),
            same_kind(old(left_sibling)@, old(child_node)@),
        ensures
            final(self)@ == old(self)@.without(index - 1, index as int),
            final(left_sibling)@ == fused(
                old(left_sibling)@,
                old(child_node)@,
                old(self)@.keys[index - 1],
            ),
            final(child_node)@ == drained(old(child_node)@),
            wrote_pair(
                *old(pager),
                *final(pager),
                r,
                final(left_sibling)@,
                left_sibling_offset,
                final(child_node)@,
                child_offset,
            ),
    {
        match (&mut *left_sibling, &mut *child_node) {
            (Node::Internal(sibling), Node::Internal(current)) => {
                sibling.keys.push(self.keys.remove(index - 1));
                sibling.keys.append(&mut current.keys);
                sibling.children.append(&mut current.children);
                self.children.remove(index);
                assert(views(sibling.keys@) =~= old(left_sibling)@.keys().push(
                    old(self)@.keys[index - 1],
                ) + old(child_node)@.keys());
                assert(views(current.keys@) =~= Seq::<Seq<u8>>::empty());
            },
            (Node::Leaf(sibling), Node::Leaf(current)) => {
                sibling.keys.append(&mut current.keys);
                sibling.values.append(&mut current.values);
                self.keys.remove(index - 1);
                self.children.remove(index);
                assert(views(sibling.keys@) =~= old(left_sibling)@.keys() + old(child_node)@.keys());
                assert(views(sibling.values@) =~= views(old(left_sibling)->Leaf_0.values@) + views(
                    old(child_node)->Leaf_0.values@,
                ));
                assert(views(current.keys@) =~= Seq::<Seq<u8>>::empty());
            },
            _ => {},
        }
        assert(views(self.keys@) =~= old(self)@.keys.remove(index - 1));
        write_pair(pager, left_sibling, left_sibling_offset, child_node, child_offset)
    }

    /// Fuses the right sibling of child `index` into the child, takes the
    /// separator between the two and the sibling's offset out of this node,
    /// and writes both nodes back. The sibling's page stays where it is,
    /// holding an empty node.
    pub fn merge_right(
        &mut self,
        pager: &mut Pager,
        index: usize,
        right_sibling: &mut Node,
        right_sibling_offset: Offset,
        child_node: &mut Node,
        child_offset: Offset,
    ) -> (r: Result<(), Error>)
        requires
            old(pager).wf(),
            index < old(self)@.keys.len(),
            index + 1 < old(self).children.len(),
            same_kind(old(right_sibling)@, old(child_node)@),
        ensures
            final(self)@ == old(self)@.without(index as int, index + 1),
            final(child_node)@ == fused(
                old(child_node)@,
                old(right_sibling)@,
                old(self)@.keys[index as int],
            ),
            final(right_sibling)@ == drained(old(right_sibling)@),
            wrote_pair(
                *old(pager),
                *final(pager),
                r,
                final(right_sibling)@,
                right_sibling_offset,
                final(child_node)@,
                child_offset,
            ),
    {
        match (&mut *child_node, &mut *right_sibling) {
            (Node::Internal(current), Node::Internal(sibling)) => {
                current.keys.push(self.keys.remove(index));
                current.keys.append(&mut sibling.keys);
                current.children.append(&mut sibling.children);
                self.children.remove(index + 1);
                assert(views(current.keys@) =~= old(child_node)@.keys().push(
                    old(self)@.keys[index as int],
                ) + old(right_sibling)@.keys());
                assert(views(sibling.keys@) =~= Seq::<Seq<u8>>::empty());
            },
            (Node::Leaf(current), Node::Leaf(sibling)) => {
                current.keys.append(&mut sibling.keys);
                current.values.append(&mut sibling.values);
                self.keys.remove(index);
                self.children.remove(index + 1);
                assert(views(current.keys@) =~= old(child_node)@.keys() + old(right_sibling)@.keys());
                assert(views(current.values@) =~= views(old(child_node)->Leaf_0.values@) + views(
                    old(right_sibling)->Leaf_0.values@,
                ));
                assert(views(sibling.keys@) =~= Seq::<Seq<u8>>::empty());
            },
            _ => {},
        }
        assert(views(self.keys@) =~= old(self)@.keys.remove(index as int));
        write_pair(pager, right_sibling, right_sibling_offset, child_node, child_offset)
    }

    /// Searches the subtree below this node for `key`: hands the key to the
    /// child that it is routed to.
    pub fn search(&self, pager: &Pager, key: Key, Ghost(at): Ghost<Place>) -> (r: Result<
        Option<Value>,
        Error,
    >)
        requires
            pager.wf(),
            shape(pager@, NodeModel::Internal(self@), at.height, at.degree, at.lo, at.hi),
        ensures
            r matches Ok(v) && opt_view(v) == lookup(
                pager@,
                NodeModel::Internal(self@),
                at.height,
                key@,
            ),
        decreases at.height, 0nat,
    {
        let (position, _) = find(&self.keys, &key);
        proof {
            lemma_rank_range(self@.keys, key@);
        }
        let child_offset = self.children[position];
        let child_node = pager.read(child_offset)?;
        child_node.search(pager, key, Ghost(place_of(self@.keys, at, position as int)))
    }

    /// Pairs `key` with `value` in the subtree below this node: hands the
    /// pair to the child that the key is routed to and writes the child back.
    /// Where the child has split, its new sibling goes to a fresh page and
    /// the separator and the sibling's offset are taken in; where this node
    /// then has more than `degree - 1` keys, it is split in turn and the
    /// median and the new right node are returned.
    pub fn insert(
        &mut self,
        pager: &mut Pager,
        key: Key,
        value: Value,
        degree: usize,
        Ghost(at): Ghost<Place>,
    ) -> (r: Result<Option<(Key, Node)>, Error>)
        requires
            old(pager).wf(),
            degree >= 3,
            at.degree == degree,
            node_ok(old(pager)@, NodeModel::Internal(old(self)@), at),
            old(self)@.keys.len() <= degree - 1,
            above(at.lo, key@),
            upto(key@, at.hi),
        ensures
            final(pager).wf(),
            match r {
                Ok(out) => {
                    &&& inserted(
                        old(pager)@,
                        final(pager)@,
                        NodeModel::Internal(old(self)@),
                        NodeModel::Internal(final(self)@),
                        split_view(out),
                        at,
                        key@,
                        value@,
                    )
                },
                Err(e) => write_error(e),
            },
            (final(pager).shelf(), NodeModel::Internal(final(self)@), handed_up(r)) == grow(
                old(pager).shelf(),
                NodeModel::Internal(old(self)@),
                at.height,
                key@,
                value@,
                degree as int,
            ),
        decreases at.height, 0nat,
    {
        let ghost sa = pager@;
        let ghost node = NodeModel::Internal(self@);
        let ghost h = at.height;
        let ghost g = (at.height - 1) as nat;
        let ghost k0 = key@;
        let ghost v0 = value@;
        let (position, _) = find(&self.keys, &key);
        let ghost p = position as int;
        let ghost spot = place_of(self@.keys, at, p);
        proof {
            lemma_rank_splits(self@.keys, key@);
        }
        let child_offset = self.children[position];
        let mut child_node = match pager.read(child_offset) {
            Ok(child) => child,
            Err(e) => {
                return Err(e);
            },
        };
        let ghost n = child_node@;
        let split = match child_node.insert(pager, key, value, degree, Ghost(spot)) {
            Ok(split) => split,
            Err(e) => {
                return Err(e);
            },
        };
        let ghost sb = pager@;
        let ghost n1 = child_node@;
        match split {
            None => {
                match pager.write_at(&child_node, child_offset) {
                    Ok(()) => {},
                    Err(e) => {
                        return Err(e);
                    },
                }
                proof {
                    lemma_child_updated(sa, sb, node, p, n1, at);
                    let t = pager@;
                    assert forall|i: int| 0 <= i < node.children().len() implies filled(
                        t[#[trigger] node.children()[i]],
                        at.degree,
                    ) by {}
                }
                Ok(None)
            },
            Some((mid_key, sibling)) => {
                let ghost mid = mid_key@;
                let ghost right = sibling@;
                let sibling_offset = match pager.write(&sibling) {
                    Ok(offset) => offset,
                    Err(e) => {
                        return Err(e);
                    },
                };
                match pager.write_at(&child_node, child_offset) {
                    Ok(()) => {},
                    Err(e) => {
                        return Err(e);
                    },
                }
                self.keys.insert(position, mid_key);
                self.children.insert(position + 1, sibling_offset);
                let ghost t = pager@;
                let ghost grown_node = NodeModel::Internal(self@);
                proof {
                    assert(views(self.keys@) =~= old(self)@.keys.insert(p, mid));
                    lemma_child_split(sa, sb, node, p, n1, mid, right, sibling_offset, at);
                    assert forall|k: Seq<u8>| #[trigger]
                        lookup(t, grown_node, h, k) == with_entry(sa, node, h, k0, v0, k) by {
                        if rank(old(self)@.keys, k) == p {
                            assert((if key_le(k, mid) {
                                lookup(sb, n1, g, k)
                            } else {
                                lookup(sb, right, g, k)
                            }) == with_entry(sa, n, g, k0, v0, k));
                        }
                    }
                }
                if self.keys.len() > degree - 1 {
                    proof {
                        lemma_inner_split(
                            t,
                            grown_node,
                            at,
                            self@.split_at(),
                            Some(pager.cursor() as usize),
                        );
                    }
                    let (median, new_right) = self.split(pager);
                    proof {
                        let left = NodeModel::Internal(self@);
                        let m = median@;
                        assert forall|k: Seq<u8>|
                            (if key_le(k, m) {
                                lookup(t, left, h, k)
                            } else {
                                lookup(t, new_right@, h, k)
                            }) == #[trigger] with_entry(sa, node, h, k0, v0, k) by {
                            assert(lookup(t, grown_node, h, k) == with_entry(sa, node, h, k0, v0, k));
                        }
                    }
                    Ok(Some((median, new_right)))
                } else {
                    Ok(None)
                }
            },
        }
    }

    /// Removes `key` from the subtree below this node: hands the key to the
    /// child that it is routed to. Where the child held the key it is
    /// written back, and mended where it has underflowed. Returns `None`
    /// where the subtree does not hold the key, and otherwise whether this
    /// node is left with fewer keys than half the degree.
    pub fn remove(&mut self, pager: &mut Pager, key: Key, degree: usize, Ghost(at): Ghost<Place>) -> (r:
        Result<Option<bool>, Error>)
        requires
            old(pager).wf(),
            degree >= 3,
            at.degree == degree,
            node_ok(old(pager)@, NodeModel::Internal(old(self)@), at),
            old(self)@.keys.len() >= 1,
        ensures
            final(pager).wf(),
            match r {
                Ok(flag) => {
                    &&& removed(
                        old(pager)@,
                        final(pager)@,
                        NodeModel::Internal(old(self)@),
                        NodeModel::Internal(final(self)@),
                        flag,
                        at,
                        key@,
                    )
                },
                Err(e) => rewrite_error(e),
            },
            (final(pager).shelf(), NodeModel::Internal(final(self)@), r) == shrink(
                old(pager).shelf(),
                NodeModel::Internal(old(self)@),
                at.height,
                key@,
                degree as int,
            ),
        decreases at.height, 0nat,
    {
        let ghost sa = pager@;
        let ghost node = NodeModel::Internal(self@);
        let (position, _) = find(&self.keys, &key);
        let ghost p = position as int;
        let ghost spot = place_of(self@.keys, at, p);
        proof {
            lemma_rank_range(self@.keys, key@);
        }
        let child_offset = self.children[position];
        let mut child_node = match pager.read(child_offset) {
            Ok(child) => child,
            Err(e) => {
                return Err(e);
            },
        };
        let ghost n = child_node@;
        let flag = match child_node.remove(pager, key, degree, Ghost(spot)) {
            Ok(flag) => flag,
            Err(e) => {
                return Err(e);
            },
        };
        let ghost sb = pager@;
        let ghost n1 = child_node@;
        match flag {
            None => Ok(None),
            Some(need_rebalance) => {
                match pager.write_at(&child_node, child_offset) {
                    Ok(()) => {},
                    Err(e) => {
                        return Err(e);
                    },
                }
                let ghost t = pager@;
                proof {
                    lemma_child_updated(sa, sb, node, p, n1, at);
                    assert forall|i: int|
                        0 <= i < node.children().len() && i != p implies filled(
                            t[#[trigger] node.children()[i]],
                            at.degree,
                        ) by {}
                }
                if need_rebalance {
                    let low = match self.rebalance(pager, position, degree, Ghost(at)) {
                        Ok(low) => low,
                        Err(e) => {
                            return Err(e);
                        },
                    };
                    proof {
                        let after = NodeModel::Internal(self@);
                    }
                    Ok(Some(low))
                } else {
                    Ok(Some(false))
                }
            },
        }
    }

    /// Mends child `index`, which has underflowed: by a key of the left
    /// sibling where there is one that can lend, else by a key of the right
    /// sibling where there is one that can lend, else by fusing the child
    /// with the left sibling where there is one, else with the right
    /// sibling. Returns whether this node is left with fewer keys than half
    /// the degree.
    pub fn rebalance(&mut self, pager: &mut Pager, index: usize, degree: usize, Ghost(at): Ghost<Place>) -> (r:
        Result<bool, Error>)
        requires
            old(pager).wf(),
            at.degree == degree,
            mendable(old(pager)@, NodeModel::Internal(old(self)@), index as int, at),
        ensures
            final(pager).wf(),
            (final(pager).shelf(), final(self)@, r) == mend(
                old(pager).shelf(),
                old(self)@,
                index as int,
                at.degree,
            ),
            r matches Ok(low) ==> mended(
                old(pager)@,
                final(pager)@,
                NodeModel::Internal(old(self)@),
                NodeModel::Internal(final(self)@),
                low,
                at,
            ),
    {
        let ghost s = pager@;
        let ghost node = NodeModel::Internal(self@);
        let ghost inner = self@;
        let ghost x = index as int;
        proof {
            if x > 0 {
                crate::deletion::lemma_neighbours(s, node, x - 1, at);
            }
            if x < inner.children.len() - 1 {
                crate::deletion::lemma_neighbours(s, node, x, at);
            }
        }
        let child_offset = self.children[index];
        let mut child_node = match pager.read(child_offset) {
            Ok(child) => child,
            Err(e) => {
                return Err(e);
            },
        };
        if index > 0 {
            let left_sibling_offset = self.children[index - 1];
            let mut left_sibling = match pager.read(left_sibling_offset) {
                Ok(sibling) => sibling,
                Err(e) => {
                    return Err(e);
                },
            };
            if left_sibling.can_borrow(degree) {
                proof {
                    lemma_borrowed_left(s, node, x, at);
                }
                match self.borrow_left(
                    pager,
                    index,
                    &mut left_sibling,
                    left_sibling_offset,
                    &mut child_node,
                    child_offset,
                ) {
                    Ok(()) => {},
                    Err(e) => {
                        return Err(e);
                    },
                }
                return Ok(self.keys.len() < degree / 2);
            }
        }
        if index < self.children.len() - 1 {
            let right_sibling_offset = self.children[index + 1];
            let mut right_sibling = match pager.read(right_sibling_offset) {
                Ok(sibling) => sibling,
                Err(e) => {
                    return Err(e);
                },
            };
            if right_sibling.can_borrow(degree) {
                proof {
                    lemma_borrowed_right(s, node, x, at);
                }
                match self.borrow_right(
                    pager,
                    index,
                    &mut right_sibling,
                    right_sibling_offset,
                    &mut child_node,
                    child_offset,
                ) {
                    Ok(()) => {},
                    Err(e) => {
                        return Err(e);
                    },
                }
                return Ok(self.keys.len() < degree / 2);
            }
        }
        proof {
            lemma_merged(s, node, x, at);
        }
        if index > 0 {
            let left_sibling_offset = self.children[index - 1];
            let mut left_sibling = match pager.read(left_sibling_offset) {
                Ok(sibling) => sibling,
                Err(e) => {
                    return Err(e);
                },
            };
            match self.merge_left(
                pager,
                index,
                &mut left_sibling,
                left_sibling_offset,
                &mut child_node,
                child_offset,
            ) {
                Ok(()) => {},
                Err(e) => {
                    return Err(e);
                },
            }
        } else {
            let right_sibling_offset = self.children[index + 1];
            let mut right_sibling = match pager.read(right_sibling_offset) {
                Ok(sibling) => sibling,
                Err(e) => {
                    return Err(e);
                },
            };
            match self.merge_right(
                pager,
                index,
                &mut right_sibling,
                right_sibling_offset,
                &mut child_node,
                child_offset,
            ) {
                Ok(()) => {},
                Err(e) => {
                    return Err(e);
                },
            }
        }
        Ok(self.keys.len() < degree / 2)
    }
}

} // verus!
