//! The ways in which an operation of the store can fail.

use vstd::prelude::*;

verus! {

/// A failure of the paging layer, handed up unchanged by the tree.
#[derive(Clone, Copy, Debug, PartialEq, Eq)]
pub enum Error {
    /// The codec could not encode a node.
    Encode,
    /// A page does not hold a node.
    Decode,
    /// The encoding of a node is longer than a page.
    OversizedNode,
    /// An offset does not name a page that the pager has handed out.
    BadOffset,
    /// No further page can be addressed.
    Full,
}

} // verus!
