//! The page codec. A page holds one record: a kind tag, the keys, the values
//! (of a leaf), the child offsets (of an internal node) and the node's own
//! offset. The bytes of a record are produced and read back by `bincode`;
//! this module decides which records are nodes.

use crate::error::Error;
use crate::key::Key;
use crate::key::Offset;
use crate::key::Value;
use crate::key::views;
use crate::node::internal::InternalModel;
use crate::node::internal::InternalNode;
use crate::node::leaf::LeafModel;
use crate::node::leaf::LeafNode;
use crate::node::Node;
use crate::node::NodeModel;
use vstd::prelude::*;

verus! {

/// The size of a page in bytes.
pub const PAGE_SIZE: usize = 4096;

/// The kind tag of a leaf record.
pub const LEAF_KIND: u32 = 0;

/// The kind tag of an internal record.
pub const INTERNAL_KIND: u32 = 1;

/// `bincode::error::EncodeError`, carried through from the encoder and never
/// inspected.
#[verifier::external_type_specification]
#[verifier::external_body]
pub struct ExEncodeError(bincode::error::EncodeError);

/// `bincode::error::DecodeError`, carried through from the decoder and never
/// inspected.
#[verifier::external_type_specification]
#[verifier::external_body]
pub struct ExDecodeError(bincode::error::DecodeError);

/// The bytes that `bincode::encode_to_vec` gives for a record under its
/// standard configuration, or `None` where it reports an error.
pub uninterp spec fn record_bytes(
    kind: u32,
    keys: Seq<Seq<u8>>,
    values: Seq<Seq<u8>>,
    children: Seq<usize>,
    offset: Option<usize>,
) -> Option<Seq<u8>>;

/// The record that `bincode::decode_from_slice` reads from the front of
/// `bytes`, or `None` where it reports an error.
pub uninterp spec fn parsed_record(bytes: Seq<u8>) -> Option<
    (u32, Seq<Seq<u8>>, Seq<Seq<u8>>, Seq<usize>, Option<usize>),
>;

/// Calls `bincode::encode_to_vec` on the five fields of a record, as a tuple,
/// with `bincode::config::standard()`.
///
/// Trusted: the result is a function of the fields alone, named
/// [`record_bytes`]; and an encoding of at most a page, followed by any bytes
/// whatever, is read back by [`decode_record`] as the same five fields. The
/// decoder's allocation limit does not stand in the way of that: it counts at
/// most 24 bytes for each of the fewer than 4096 items that such an encoding
/// can hold, 8 for each length, and the payload bytes, far below the limit.
#[verifier::external_body]
fn encode_record(
    kind: u32,
    keys: &Vec<Key>,
    values: &Vec<Value>,
    children: &Vec<Offset>,
    offset: Option<Offset>,
) -> (r: Result<Vec<u8>, bincode::error::EncodeError>)
    ensures
        match r {
            Ok(bytes) => {
                &&& record_bytes(kind, views(keys@), views(values@), children@, offset) == Some(
                    bytes@,
                )
                &&& bytes@.len() <= PAGE_SIZE ==> forall|tail: Seq<u8>| #[trigger]
                    parsed_record(bytes@ + tail) == Some(
                        (kind, views(keys@), views(values@), children@, offset),
                    )
            },
            Err(_) => record_bytes(kind, views(keys@), views(values@), children@, offset) is None,
        },
{
    bincode::encode_to_vec((kind, keys, values, children, offset), bincode::config::standard())
}

/// Calls `bincode::decode_from_slice` for the five fields of a record, with
/// `bincode::config::standard()` and an allocation limit of one mebibyte, so
/// that no length read from a damaged page can make the decoder allocate
/// without bound. The count of bytes consumed is dropped.
///
/// Trusted: the result is a function of the bytes alone, named
/// [`parsed_record`].
#[verifier::external_body]
fn decode_record(page: &[u8]) -> (r: Result<
    (u32, Vec<Key>, Vec<Value>, Vec<Offset>, Option<Offset>),
    bincode::error::DecodeError,
>)
    ensures
        match r {
            Ok(rec) => parsed_record(page@) == Some(
                (rec.0, views(rec.1@), views(rec.2@), rec.3@, rec.4),
            ),
            Err(_) => parsed_record(page@) is None,
        },
{
    let config = bincode::config::standard().with_limit::<1048576>();
    match bincode::decode_from_slice(page, config) {
        Ok((rec, _)) => Ok(rec),
        Err(e) => Err(e),
    }
}

/// The encoding of a node: that of its record.
pub open spec fn node_bytes(node: NodeModel) -> Option<Seq<u8>> {
    match node {
        NodeModel::Leaf(leaf) => record_bytes(
            LEAF_KIND,
            leaf.keys,
            leaf.values,
            Seq::empty(),
            leaf.offset,
        ),
        NodeModel::Internal(inner) => record_bytes(
            INTERNAL_KIND,
            inner.keys,
            Seq::empty(),
            inner.children,
            inner.offset,
        ),
    }
}

/// The node that a record stands for: a leaf record has no children, an
/// internal record no values, and no other kind of record is a node.
pub open spec fn record_node(
    rec: (u32, Seq<Seq<u8>>, Seq<Seq<u8>>, Seq<usize>, Option<usize>),
) -> Option<NodeModel> {
    if rec.0 == LEAF_KIND && rec.3.len() == 0 {
        Some(NodeModel::Leaf(LeafModel { keys: rec.1, values: rec.2, offset: rec.4 }))
    } else if rec.0 == INTERNAL_KIND && rec.2.len() == 0 {
        Some(NodeModel::Internal(InternalModel { keys: rec.1, children: rec.3, offset: rec.4 }))
    } else {
        None
    }
}

/// The node at the front of `bytes`, if a node stands there.
pub open spec fn parsed_node(bytes: Seq<u8>) -> Option<NodeModel> {
    match parsed_record(bytes) {
        Some(rec) => record_node(rec),
        None => None,
    }
}

/// A node fits a page: it can be encoded, in at most `PAGE_SIZE` bytes.
pub open spec fn fits(node: NodeModel) -> bool {
    node_bytes(node) matches Some(bytes) && bytes.len() <= PAGE_SIZE
}

/// Lays out the bytes of a node from its encoding as handed back by the
/// encoder.
pub fn node_encoding(encoded: Result<Vec<u8>, bincode::error::EncodeError>) -> (r: Result<
    Vec<u8>,
    Error,
>)
    ensures
        match encoded {
            Ok(bytes) => r == Ok::<Vec<u8>, Error>(bytes),
            Err(_) => r == Err::<Vec<u8>, Error>(Error::Encode),
        },
{
    match encoded {
        Ok(bytes) => Ok(bytes),
        Err(_) => Err(Error::Encode),
    }
}

/// Encodes a node. Fails with `Error::Encode` exactly where the encoder does.
/// An encoding that fits a page is read back by [`decode_node`] as the same
/// node, whatever follows it on the page.
pub fn encode_node(node: &Node) -> (r: Result<Vec<u8>, Error>)
    ensures
        match node_bytes(node@) {
            Some(bytes) => r matches Ok(v) && v@ == bytes,
            None => r == Err::<Vec<u8>, Error>(Error::Encode),
        },
        r matches Ok(v) ==> v@.len() <= PAGE_SIZE ==> forall|tail: Seq<u8>| #[trigger]
            parsed_node(v@ + tail) == Some(node@),
{
    let none: Vec<Offset> = Vec::new();
    let empty: Vec<Value> = Vec::new();
    assert(views(empty@) =~= Seq::<Seq<u8>>::empty());
    let encoded = match node {
        Node::Leaf(leaf) => encode_record(LEAF_KIND, &leaf.keys, &leaf.values, &none, leaf.offset),
        Node::Internal(inner) => encode_record(
            INTERNAL_KIND,
            &inner.keys,
            &empty,
            &inner.children,
            inner.offset,
        ),
    };
    node_encoding(encoded)
}

/// Builds the node that a decoded record stands for.
pub fn node_from_record(
    kind: u32,
    keys: Vec<Key>,
    values: Vec<Value>,
    children: Vec<Offset>,
    offset: Option<Offset>,
) -> (r: Result<Node, Error>)
    ensures
        match record_node((kind, views(keys@), views(values@), children@, offset)) {
            Some(node) => r matches Ok(n) && n@ == node,
            None => r matches Err(Error::Decode),
        },
{
    if kind == LEAF_KIND && children.len() == 0 {
        Ok(Node::Leaf(LeafNode { keys, values, offset }))
    } else if kind == INTERNAL_KIND && values.len() == 0 {
        Ok(Node::Internal(InternalNode { keys, children, offset }))
    } else {
        Err(Error::Decode)
    }
}

/// Decodes the node at the front of a page. Fails with `Error::Decode` where
/// the decoder rejects the bytes or the record is not a node.
pub fn decode_node(page: &[u8]) -> (r: Result<Node, Error>)
    ensures
        match parsed_node(page@) {
            Some(node) => r matches Ok(n) && n@ == node,
            None => r matches Err(Error::Decode),
        },
{
    match decode_record(page) {
        Ok(rec) => node_from_record(rec.0, rec.1, rec.2, rec.3, rec.4),
        Err(_) => Err(Error::Decode),
    }
}

} // verus!
