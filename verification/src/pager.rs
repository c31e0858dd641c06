//! The pager: a run of fixed-size pages, each holding one encoded node.
//!
//! Pages are handed out at a cursor that only moves forward, starting at the
//! offset the pager was made with. The pager keeps the page bytes in memory
//! and records which pages were written, so that a caller can carry them to a
//! file.

use crate::codec::PAGE_SIZE;
use crate::codec::decode_node;
use crate::codec::encode_node;
use crate::codec::fits;
use crate::codec::node_bytes;
use crate::codec::parsed_node;
use crate::error::Error;
use crate::key::Offset;
use crate::node::Node;
use crate::node::NodeModel;
use vstd::prelude::*;

verus! {

/// The pages of one store.
pub struct Pager {
    start: usize,
    cursor: usize,
    pages: Vec<Vec<u8>>,
    dirty: Vec<Offset>,
    saved: Ghost<Seq<Seq<u8>>>,
}

impl View for Pager {
    type V = Map<usize, NodeModel>;

    /// The nodes on the pages, by offset.
    open spec fn view(&self) -> Map<usize, NodeModel> {
        Map::new(|o: usize| self.node_at(o) is Some, |o: usize| self.node_at(o).unwrap())
    }
}

/// What a pager holds, without the bytes of its pages: the nodes on the
/// pages by offset, the offset of the first page, the number of pages, the
/// offsets noted as written, and the bytes that the pages held when the
/// offsets noted were last taken. What the operations of a pager return, and
/// the nodes that they leave, depend on this much alone.
pub struct Shelf {
    pub nodes: Map<usize, NodeModel>,
    pub start: usize,
    pub count: nat,
    pub noted: Seq<usize>,
    pub saved: Seq<Seq<u8>>,
}

impl Shelf {
    /// The offset at which the next page will be handed out.
    pub open spec fn cursor(self) -> int {
        self.start + self.count * PAGE_SIZE
    }

    /// `offset` is the offset of a page that was handed out.
    pub open spec fn is_page(self, offset: usize) -> bool {
        &&& self.start <= offset < self.cursor()
        &&& (offset - self.start) % (PAGE_SIZE as int) == 0
    }

    /// What reading the page at `offset` gives.
    pub open spec fn read(self, offset: usize) -> Result<NodeModel, Error> {
        if self.nodes.dom().contains(offset) {
            Ok(self.nodes[offset])
        } else if self.is_page(offset) {
            Err(Error::Decode)
        } else {
            Err(Error::BadOffset)
        }
    }

    /// Why a write of `node` at `offset` is refused, if it is.
    pub open spec fn refusal(self, node: NodeModel, offset: usize) -> Option<Error> {
        if !self.is_page(offset) {
            Some(Error::BadOffset)
        } else if node_bytes(node) is None {
            Some(Error::Encode)
        } else if !fits(node) {
            Some(Error::OversizedNode)
        } else {
            None
        }
    }

    /// What writing `node` to the page at `offset` leaves and gives: the node
    /// on the page and the offset noted, or nothing changed and the reason
    /// for the refusal.
    pub open spec fn write_at(self, node: NodeModel, offset: usize) -> (Shelf, Result<(), Error>) {
        match self.refusal(node, offset) {
            Some(e) => (self, Err(e)),
            None => (
                Shelf {
                    nodes: self.nodes.insert(offset, node),
                    start: self.start,
                    count: self.count,
                    noted: self.noted.push(offset),
                    saved: self.saved,
                },
                Ok(()),
            ),
        }
    }

    /// What writing `node` to a fresh page leaves and gives: the node on the
    /// page at the cursor, one page more and the offset noted, or nothing
    /// changed and the reason for the refusal.
    pub open spec fn write(self, node: NodeModel) -> (Shelf, Result<usize, Error>) {
        if node_bytes(node) is None {
            (self, Err(Error::Encode))
        } else if !fits(node) {
            (self, Err(Error::OversizedNode))
        } else if self.cursor() + PAGE_SIZE > usize::MAX {
            (self, Err(Error::Full))
        } else {
            (
                Shelf {
                    nodes: self.nodes.insert(self.cursor() as usize, node),
                    start: self.start,
                    count: self.count + 1,
                    noted: self.noted.push(self.cursor() as usize),
                    saved: self.saved,
                },
                Ok(self.cursor() as usize),
            )
        }
    }
}

/// What two writes in a row leave and give: `first` to the page at
/// `first_offset`, then `second` to the page at `second_offset`, stopping at
/// the first write that is refused.
pub open spec fn write_both(
    w: Shelf,
    first: NodeModel,
    first_offset: usize,
    second: NodeModel,
    second_offset: usize,
) -> (Shelf, Result<(), Error>) {
    let (w1, r1) = w.write_at(first, first_offset);
    match r1 {
        Err(e) => (w1, Err(e)),
        Ok(_) => w1.write_at(second, second_offset),
    }
}

/// What reading a node gave, as a mathematical value.
pub open spec fn read_view(r: Result<Node, Error>) -> Result<NodeModel, Error> {
    match r {
        Ok(node) => Ok(node@),
        Err(e) => Err(e),
    }
}

/// What a page holds once `bytes` is written at its front.
pub open spec fn overlaid(bytes: Seq<u8>, page: Seq<u8>) -> Seq<u8> {
    bytes + page.subrange(bytes.len() as int, page.len() as int)
}

/// A page of zeros.
pub open spec fn blank() -> Seq<u8> {
    Seq::new(PAGE_SIZE as nat, |i: int| 0u8)
}

/// Writes `bytes` over the front of a copy of `page`.
fn overlay(bytes: Vec<u8>, page: &Vec<u8>) -> (r: Vec<u8>)
    requires
        bytes@.len() <= page@.len(),
    ensures
        r@ == overlaid(bytes@, page@),
{
    let ghost front = bytes@;
    let mut out: Vec<u8> = bytes;
    let mut j: usize = out.len();
    while j < page.len()
        invariant
            front.len() <= j <= page@.len(),
            out@ == front + page@.subrange(front.len() as int, j as int),
        decreases page@.len() - j,
    {
        out.push(page[j]);
        j += 1;
    }
    out
}

/// A page that holds `bytes` at its front and zeros behind.
fn padded(bytes: Vec<u8>) -> (r: Vec<u8>)
    requires
        bytes@.len() <= PAGE_SIZE,
    ensures
        r@ == overlaid(bytes@, blank()),
{
    let ghost front = bytes@;
    let mut out: Vec<u8> = bytes;
    while out.len() < PAGE_SIZE
        invariant
            front.len() <= out@.len() <= PAGE_SIZE,
            out@.subrange(0, front.len() as int) == front,
            forall|j: int| front.len() <= j < out@.len() ==> out@[j] == 0,
        decreases PAGE_SIZE - out@.len(),
    {
        out.push(0u8);
    }
    out
}

impl Pager {
    /// The offset of the first page.
    pub closed spec fn start(&self) -> usize {
        self.start
    }

    /// The number of pages handed out.
    pub closed spec fn page_count(&self) -> nat {
        self.pages@.len()
    }

    /// The offset at which the next page will be handed out.
    pub open spec fn cursor(&self) -> int {
        self.start() + self.page_count() * PAGE_SIZE
    }

    /// The pager is consistent: every page has the page size, the cursor is
    /// addressable, and every page that is new or holds other bytes than when
    /// the offsets written were last taken is among the offsets written
    /// since.
    pub closed spec fn wf(&self) -> bool {
        &&& self.cursor == self.start + self.pages@.len() * PAGE_SIZE
        &&& forall|k: int|
            0 <= k < self.pages@.len() ==> (#[trigger] self.pages@[k])@.len() == PAGE_SIZE
        &&& forall|o: usize| #[trigger] self.stale(o) ==> self.dirty@.contains(o)
    }

    /// The page at `offset` is new or holds other bytes than when the
    /// offsets written were last taken.
    pub open spec fn stale(&self, offset: usize) -> bool {
        self.is_page(offset) && self.saved_page(offset) != Some(self.page(offset))
    }

    /// The bytes that the pages held when the offsets written were last
    /// taken, page by page.
    pub closed spec fn saved(&self) -> Seq<Seq<u8>> {
        self.saved@
    }

    /// The bytes that the page at `offset` held when the offsets written
    /// were last taken; `None` where the page did not exist then.
    pub open spec fn saved_page(&self, offset: usize) -> Option<Seq<u8>> {
        let k = (offset - self.start()) / (PAGE_SIZE as int);
        if self.is_page(offset) && k < self.saved().len() {
            Some(self.saved()[k])
        } else {
            None
        }
    }

    /// `offset` is the offset of a page that was handed out.
    pub open spec fn is_page(&self, offset: usize) -> bool {
        &&& self.start() <= offset < self.cursor()
        &&& (offset - self.start()) % (PAGE_SIZE as int) == 0
    }

    /// The bytes of the page at `offset`.
    pub closed spec fn page(&self, offset: usize) -> Seq<u8> {
        self.pages@[(offset - self.start) / (PAGE_SIZE as int)]@
    }

    /// The node on the page at `offset`, if `offset` names a page and the
    /// page holds a node.
    pub open spec fn node_at(&self, offset: usize) -> Option<NodeModel> {
        if self.is_page(offset) {
            parsed_node(self.page(offset))
        } else {
            None
        }
    }

    /// What the pager holds, without the bytes of its pages.
    pub open spec fn shelf(&self) -> Shelf {
        Shelf {
            nodes: self@,
            start: self.start(),
            count: self.page_count(),
            noted: self.pending(),
            saved: self.saved(),
        }
    }

    /// The offsets written since they were last taken, oldest first.
    pub closed spec fn pending(&self) -> Seq<usize> {
        self.dirty@
    }

    /// A pager without pages, which will hand out its first page at
    /// `startup_offset`.
    pub fn new(startup_offset: usize) -> (r: Pager)
        ensures
            r.wf(),
            r.start() == startup_offset,
            r.page_count() == 0,
            r.pending() == Seq::<usize>::empty(),
            r.saved() == Seq::<Seq<u8>>::empty(),
            r@ == Map::<usize, NodeModel>::empty(),
    {
        let r = Pager {
            start: startup_offset,
            cursor: startup_offset,
            pages: Vec::new(),
            dirty: Vec::new(),
            saved: Ghost(Seq::empty()),
        };
        r
    }

    /// The offset at which the next page will be handed out.
    pub fn next_offset(&self) -> (r: usize)
        requires
            self.wf(),
        ensures
            r == self.cursor(),
    {
        self.cursor
    }

    /// The index of the page at `offset`, if `offset` names a page.
    fn locate(&self, offset: usize) -> (r: Option<usize>)
        requires
            self.wf(),
        ensures
            match r {
                Some(k) => self.is_page(offset) && k == (offset - self.start) / (PAGE_SIZE as int)
                    && k < self.pages@.len(),
                None => !self.is_page(offset),
            },
    {
        if offset < self.start || offset >= self.cursor {
            return None;
        }
        let rel: usize = offset - self.start;
        if rel % PAGE_SIZE != 0 {
            None
        } else {
            Some(rel / PAGE_SIZE)
        }
    }

    /// Reads the node on the page at `offset`.
    ///
    /// Fails with `Error::BadOffset` where `offset` names no page, and with
    /// `Error::Decode` where the page holds no node.
    pub fn read(&self, offset: usize) -> (r: Result<Node, Error>)
        requires
            self.wf(),
        ensures
            read_view(r) == self.shelf().read(offset),
            match r {
                Ok(node) => self.node_at(offset) == Some(node@),
                Err(e) => self.node_at(offset) is None && e == if self.is_page(offset) {
                    Error::Decode
                } else {
                    Error::BadOffset
                },
            },
    {
        match self.locate(offset) {
            None => Err(Error::BadOffset),
            Some(k) => decode_node(self.pages[k].as_slice()),
        }
    }

    /// The bytes of the page at `offset`, for a caller that stores them
    /// elsewhere; `None` where `offset` names no page.
    pub fn page_bytes(&self, offset: usize) -> (r: Option<&Vec<u8>>)
        requires
            self.wf(),
        ensures
            match r {
                Some(bytes) => self.is_page(offset) && bytes@ == self.page(offset) && bytes@.len()
                    == PAGE_SIZE,
                None => !self.is_page(offset),
            },
    {
        match self.locate(offset) {
            None => None,
            Some(k) => Some(&self.pages[k]),
        }
    }

    /// Hands out the offsets written since the last call, oldest first, and
    /// forgets them. The pages stay as they are. Every page that is new or
    /// holds other bytes than at the last call is among the offsets handed
    /// out.
    pub fn take_pending(&mut self) -> (r: Vec<Offset>)
        requires
            old(self).wf(),
        ensures
            final(self).wf(),
            r@ == old(self).pending(),
            forall|o: usize| #[trigger] old(self).stale(o) ==> r@.contains(o),
            forall|o: usize| !#[trigger] final(self).stale(o),
            final(self).pending() == Seq::<usize>::empty(),
            final(self).start() == old(self).start(),
            final(self).page_count() == old(self).page_count(),
            forall|o: usize| final(self).page(o) == old(self).page(o),
            final(self)@ == old(self)@,
    {
        let mut out: Vec<Offset> = Vec::new();
        out.append(&mut self.dirty);
        self.saved = Ghost(self.pages@.map_values(|p: Vec<u8>| p@));
        out
    }

    /// Encodes `node` and writes it to a fresh page at the cursor, which then
    /// moves on by one page. Returns the offset of the page.
    ///
    /// Fails, leaving the pager as it was, with `Error::Encode` where the node
    /// cannot be encoded, with `Error::OversizedNode` where its encoding is
    /// longer than a page, and with `Error::Full` where the cursor cannot move
    /// on.
    pub fn write(&mut self, node: &Node) -> (r: Result<usize, Error>)
        requires
            old(self).wf(),
        ensures
            (final(self).shelf(), r) == old(self).shelf().write(node@),
            final(self).wf(),
            final(self).start() == old(self).start(),
            match r {
                Ok(offset) => {
                    &&& fits(node@)
                    &&& offset == old(self).cursor()
                    &&& old(self).cursor() + PAGE_SIZE <= usize::MAX
                    &&& final(self).page_count() == old(self).page_count() + 1
                    &&& !old(self).is_page(offset)
                    &&& final(self).is_page(offset)
                    &&& final(self)@ == old(self)@.insert(offset, node@)
                    &&& final(self).page(offset) == overlaid(node_bytes(node@)->0, blank())
                    &&& forall|o: usize|
                        old(self).is_page(o) ==> #[trigger] final(self).page(o) == old(self).page(o)
                    &&& final(self).pending() == old(self).pending().push(offset)
                },
                Err(e) => {
                    &&& *final(self) == *old(self)
                    &&& e == if node_bytes(node@) is None {
                        Error::Encode
                    } else if !fits(node@) {
                        Error::OversizedNode
                    } else {
                        Error::Full
                    }
                    &&& e == Error::Full ==> old(self).cursor() + PAGE_SIZE > usize::MAX
                },
            },
    {
        let bytes = match encode_node(node) {
            Ok(bytes) => bytes,
            Err(e) => {
                return Err(e);
            },
        };
        if bytes.len() > PAGE_SIZE {
            return Err(Error::OversizedNode);
        }
        if self.cursor > usize::MAX - PAGE_SIZE {
            return Err(Error::Full);
        }
        let ghost front = bytes@;
        let page = padded(bytes);
        let offset: usize = self.cursor;
        self.pages.push(page);
        self.cursor = offset + PAGE_SIZE;
        self.dirty.push(offset);
        proof {
            assert(self@ =~= old(self)@.insert(offset, node@));
            assert forall|o: usize| #[trigger] self.stale(o) implies self.dirty@.contains(o) by {
                if o != offset {
                    let j = (o - self.start) / (PAGE_SIZE as int);
                    assert(old(self).stale(o));
                    let i = choose|i: int| 0 <= i < old(self).dirty@.len() && old(self).dirty@[i] == o;
                    assert(self.dirty@[i] == o);
                } else {
                    assert(self.dirty@[old(self).dirty@.len() as int] == offset);
                }
            }
        }
        Ok(offset)
    }

    /// Encodes `node` and writes it over the front of the page at `offset`.
    ///
    /// Fails, leaving the pager as it was, with `Error::BadOffset` where
    /// `offset` names no page, with `Error::Encode` where the node cannot be
    /// encoded, and with `Error::OversizedNode` where its encoding is longer
    /// than a page.
    pub fn write_at(&mut self, node: &Node, offset: usize) -> (r: Result<(), Error>)
        requires
            old(self).wf(),
        ensures
            (final(self).shelf(), r) == old(self).shelf().write_at(node@, offset),
            final(self).wf(),
            final(self).start() == old(self).start(),
            final(self).page_count() == old(self).page_count(),
            match r {
                Ok(()) => {
                    &&& final(self)@ == old(self)@.insert(offset, node@)
                    &&& final(self).page(offset) == overlaid(
                        node_bytes(node@)->0,
                        old(self).page(offset),
                    )
                    &&& forall|o: usize|
                        old(self).is_page(o) && o != offset ==> #[trigger] final(self).page(o)
                            == old(self).page(o)
                    &&& final(self).pending() == old(self).pending().push(offset)
                },
                Err(e) => *final(self) == *old(self),
            },
    {
        let k = match self.locate(offset) {
            Some(k) => k,
            None => {
                return Err(Error::BadOffset);
            },
        };
        let bytes = match encode_node(node) {
            Ok(bytes) => bytes,
            Err(e) => {
                return Err(e);
            },
        };
        if bytes.len() > PAGE_SIZE {
            return Err(Error::OversizedNode);
        }
        let page = overlay(bytes, &self.pages[k]);
        self.pages.set(k, page);
        self.dirty.push(offset);
        proof {
            assert(self@ =~= old(self)@.insert(offset, node@));
            assert forall|o: usize| #[trigger] self.stale(o) implies self.dirty@.contains(o) by {
                if o != offset {
                    let j = (o - self.start) / (PAGE_SIZE as int);
                    assert(old(self).stale(o));
                    let i = choose|i: int| 0 <= i < old(self).dirty@.len() && old(self).dirty@[i] == o;
                    assert(self.dirty@[i] == o);
                } else {
                    assert(self.dirty@[old(self).dirty@.len() as int] == offset);
                }
            }
        }
        Ok(())
    }
}


/// Page size: every page of a pager holds exactly `PAGE_SIZE` bytes.
pub proof fn law_page_size(pager: Pager, offset: usize)
    requires
        pager.wf(),
        pager.is_page(offset),
    ensures
        pager.page(offset).len() == PAGE_SIZE,
{
}

/// What two writes in a row do to a pager: `first` at `first_offset`, then
/// `second` at `second_offset`, stopping at the first write that is refused.
pub open spec fn wrote_pair(
    before: Pager,
    after: Pager,
    r: Result<(), Error>,
    first: NodeModel,
    first_offset: usize,
    second: NodeModel,
    second_offset: usize,
) -> bool {
    &&& after.wf()
    &&& (after.shelf(), r) == write_both(
        before.shelf(),
        first,
        first_offset,
        second,
        second_offset,
    )
}

/// Writes `first` at `first_offset` and then `second` at `second_offset`,
/// stopping at the first write that is refused.
pub fn write_pair(
    pager: &mut Pager,
    first: &Node,
    first_offset: Offset,
    second: &Node,
    second_offset: Offset,
) -> (r: Result<(), Error>)
    requires
        old(pager).wf(),
    ensures
        wrote_pair(
            *old(pager),
            *final(pager),
            r,
            first@,
            first_offset,
            second@,
            second_offset,
        ),
{
    match pager.write_at(first, first_offset) {
        Ok(()) => {},
        Err(e) => {
            return Err(e);
        },
    }
    pager.write_at(second, second_offset)
}

} // verus!
