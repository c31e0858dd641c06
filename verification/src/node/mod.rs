//! Nodes of the tree: leaves, which pair keys with values, and internal nodes,
//! which route a key to one of their children.

pub mod internal;
pub mod leaf;

use crate::deletion::lemma_leaf_removed;
use crate::deletion::removed;
use crate::deletion::shrink;
use crate::error::Error;
use crate::insertion::grow;
use crate::insertion::inserted;
use crate::insertion::lemma_leaf_inserted;
use crate::key::Key;
use crate::key::Value;
use crate::node::internal::InternalModel;
use crate::node::internal::InternalNode;
use crate::node::leaf::LeafModel;
use crate::node::leaf::LeafNode;
use crate::node::leaf::opt_view;
use crate::pager::Pager;
use crate::structure::above;
use crate::structure::lookup;
use crate::structure::node_ok;
use crate::structure::Place;
use crate::structure::shape;
use crate::structure::upto;
use vstd::prelude::*;

verus! {

/// A node as it is held in memory or on a page.
#[derive(Clone, Debug)]
pub enum Node {
    Leaf(LeafNode),
    Internal(InternalNode),
}

/// The mathematical content of a node.
pub enum NodeModel {
    Leaf(LeafModel),
    Internal(InternalModel),
}

impl NodeModel {
    /// The keys of the node.
    pub open spec fn keys(self) -> Seq<Seq<u8>> {
        match self {
            NodeModel::Leaf(leaf) => leaf.keys,
            NodeModel::Internal(inner) => inner.keys,
        }
    }

    /// The child offsets of the node; a leaf has none.
    pub open spec fn children(self) -> Seq<usize> {
        match self {
            NodeModel::Leaf(_) => Seq::empty(),
            NodeModel::Internal(inner) => inner.children,
        }
    }

    /// The offset that the node records as its own.
    pub open spec fn offset(self) -> Option<usize> {
        match self {
            NodeModel::Leaf(leaf) => leaf.offset,
            NodeModel::Internal(inner) => inner.offset,
        }
    }

    /// The node holds nothing: no keys, and no values or children.
    pub open spec fn is_empty(self) -> bool {
        match self {
            NodeModel::Leaf(leaf) => leaf.keys.len() == 0 && leaf.values.len() == 0,
            NodeModel::Internal(inner) => inner.keys.len() == 0 && inner.children.len() == 0,
        }
    }
}

impl View for Node {
    type V = NodeModel;

    open spec fn view(&self) -> NodeModel {
        match self {
            Node::Leaf(leaf) => NodeModel::Leaf(leaf@),
            Node::Internal(inner) => NodeModel::Internal(inner@),
        }
    }
}

/// The fewest keys that a node other than the root may hold.
pub open spec fn min_keys(degree: int) -> int {
    (degree + 1) / 2 - 1
}

/// The most keys that any node may hold.
pub open spec fn max_keys(degree: int) -> int {
    degree - 1
}

/// A node with `len` keys can give one to a sibling and keep the minimum.
pub open spec fn can_lend(len: int, degree: int) -> bool {
    len >= (degree + 1) / 2
}

/// A node left with `len` keys by a deletion has underflowed.
pub open spec fn underflows(len: int, degree: int) -> bool {
    len < degree / 2
}

/// The separator and the new right node that a split hands up, as
/// mathematical values.
pub open spec fn split_view(out: Option<(Vec<u8>, Node)>) -> Option<(Seq<u8>, NodeModel)> {
    match out {
        Some((mid, right)) => Some((mid@, right@)),
        None => None,
    }
}

/// What an insertion into a leaf hands up, as a node.
pub open spec fn as_node(out: Option<(Seq<u8>, LeafModel)>) -> Option<(Seq<u8>, NodeModel)> {
    match out {
        Some((mid, right)) => Some((mid, NodeModel::Leaf(right))),
        None => None,
    }
}

/// What an insertion handed up, or the error that stopped it, as
/// mathematical values.
pub open spec fn handed_up(r: Result<Option<(Vec<u8>, Node)>, Error>) -> Result<
    Option<(Seq<u8>, NodeModel)>,
    Error,
> {
    match r {
        Ok(out) => Ok(split_view(out)),
        Err(e) => Err(e),
    }
}

/// An error that writing a node can give: never one of reading.
pub open spec fn write_error(e: Error) -> bool {
    e == Error::Encode || e == Error::OversizedNode || e == Error::Full
}

/// An error that writing a node back to its page can give.
pub open spec fn rewrite_error(e: Error) -> bool {
    e == Error::Encode || e == Error::OversizedNode
}

impl Node {
    /// Whether the node holds nothing.
    pub fn is_empty(&self) -> (r: bool)
        ensures
            r == self@.is_empty(),
    {
        match self {
            Node::Internal(payload) => payload.keys.is_empty() && payload.children.is_empty(),
            Node::Leaf(payload) => payload.keys.is_empty() && payload.values.is_empty(),
        }
    }

    /// Whether the node has a key to spare for a sibling.
    pub fn can_borrow(&self, degree: usize) -> (r: bool)
        ensures
            r == can_lend(self@.keys().len() as int, degree as int),
    {
        let need: usize = degree - degree / 2;
        match self {
            Node::Leaf(leaf_node) => leaf_node.keys.len() >= need,
            Node::Internal(internal_node) => internal_node.keys.len() >= need,
        }
    }

    /// Searches the subtree of this node for `key`.
    pub fn search(&self, pager: &Pager, key: Key, Ghost(at): Ghost<Place>) -> (r: Result<
        Option<Value>,
        Error,
    >)
        requires
            pager.wf(),
            shape(pager@, self@, at.height, at.degree, at.lo, at.hi),
        ensures
            r matches Ok(v) && opt_view(v) == lookup(pager@, self@, at.height, key@),
        decreases at.height, 1nat,
    {
        match self {
            Node::Leaf(leaf_node) => Ok(leaf_node.search(key)),
            Node::Internal(internal_node) => internal_node.search(pager, key, Ghost(at)),
        }
    }

    /// Pairs `key` with `value` in the subtree of this node. Where the node
    /// splits, returns the separator and the new right node, which the
    /// caller has to write to a page of its own.
    pub fn insert(
        &mut self,
        pager: &mut Pager,
        key: Key,
        value: Value,
        degree: usize,
        Ghost(at): Ghost<Place>,
    ) -> (r: Result<Option<(Key, Node)>, Error>)
        requires
            old(pager).wf(),
            degree >= 3,
            at.degree == degree,
            node_ok(old(pager)@, old(self)@, at),
            old(self)@.keys().len() <= degree - 1,
            above(at.lo, key@),
            upto(key@, at.hi),
        ensures
            final(pager).wf(),
            match r {
                Ok(out) => inserted(
                    old(pager)@,
                    final(pager)@,
                    old(self)@,
                    final(self)@,
                    split_view(out),
                    at,
                    key@,
                    value@,
                ),
                Err(e) => write_error(e),
            },
            (final(pager).shelf(), final(self)@, handed_up(r)) == grow(
                old(pager).shelf(),
                old(self)@,
                at.height,
                key@,
                value@,
                degree as int,
            ),
        decreases at.height, 1nat,
    {
        match self {
            Node::Leaf(leaf_node) => {
                proof {
                    lemma_leaf_inserted(
                        pager@,
                        leaf_node@,
                        key@,
                        value@,
                        at,
                        Some(pager.cursor() as usize),
                    );
                }
                match leaf_node.insert(pager, key, value, degree) {
                    None => Ok(None),
                    Some(new_item) => Ok(Some((new_item.0, Node::Leaf(new_item.1)))),
                }
            },
            Node::Internal(internal_node) => internal_node.insert(
                pager,
                key,
                value,
                degree,
                Ghost(at),
            ),
        }
    }

    /// Removes `key` from the subtree of this node. Returns `None` where the
    /// subtree does not hold the key, and otherwise whether this node is
    /// left with fewer keys than half the degree.
    pub fn remove(&mut self, pager: &mut Pager, key: Key, degree: usize, Ghost(at): Ghost<Place>) -> (r:
        Result<Option<bool>, Error>)
        requires
            old(pager).wf(),
            degree >= 3,
            at.degree == degree,
            node_ok(old(pager)@, old(self)@, at),
            old(self)@ is Internal ==> old(self)@.keys().len() >= 1,
        ensures
            final(pager).wf(),
            match r {
                Ok(flag) => removed(
                    old(pager)@,
                    final(pager)@,
                    old(self)@,
                    final(self)@,
                    flag,
                    at,
                    key@,
                ),
                Err(e) => rewrite_error(e),
            },
            (final(pager).shelf(), final(self)@, r) == shrink(
                old(pager).shelf(),
                old(self)@,
                at.height,
                key@,
                degree as int,
            ),
        decreases at.height, 1nat,
    {
        match self {
            Node::Leaf(leaf_node) => {
                proof {
                    lemma_leaf_removed(pager@, leaf_node@, key@, at);
                }
                Ok(leaf_node.remove(key, degree))
            },
            Node::Internal(internal_node) => internal_node.remove(pager, key, degree, Ghost(at)),
        }
    }
}

} // verus!
