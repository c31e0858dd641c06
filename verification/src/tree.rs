//! The tree: a map from keys to values, kept as a B+Tree on the pages of a
//! pager.

use crate::codec::PAGE_SIZE;
use crate::deletion::lemma_root_removed;
use crate::deletion::shrink;
use crate::error::Error;
use crate::insertion::grow;
use crate::insertion::lemma_first_entry;
use crate::insertion::lemma_root_kept;
use crate::insertion::lemma_root_split;
use crate::key::Key;
use crate::key::Offset;
use crate::key::Value;
use crate::node::internal::InternalModel;
use crate::node::internal::InternalNode;
use crate::node::leaf::LeafModel;
use crate::node::leaf::LeafNode;
use crate::node::leaf::opt_view;
use crate::node::Node;
use crate::node::NodeModel;
use crate::node::rewrite_error;
use crate::node::write_error;
use crate::pager::Pager;
use crate::pager::Shelf;
use crate::structure::kid_ok;
use crate::structure::lemma_empty_root;
use crate::structure::Place;
use crate::structure::place_of;
use crate::structure::root_place;
use crate::structure::Store;
use crate::structure::tree_map;
use crate::structure::tree_ok;
use vstd::prelude::*;

verus! {

/// The leaf that is the root of a tree with one entry.
pub open spec fn first_leaf(key: Seq<u8>, value: Seq<u8>, offset: usize) -> NodeModel {
    NodeModel::Leaf(LeafModel { keys: seq![key], values: seq![value], offset: Some(offset) })
}

/// The root that is put over a root that has split: the separator between
/// the old root and its new sibling.
pub open spec fn root_over(mid: Seq<u8>, root: usize, sibling: usize, offset: usize) -> NodeModel {
    NodeModel::Internal(
        InternalModel { keys: seq![mid], children: seq![root, sibling], offset: Some(offset) },
    )
}

/// What an insertion into the tree with the given root and height does step
/// by step, and what it leaves: the pages, the root, and whether it went
/// through.
///
/// Without a root, a leaf with the one pair is written to a fresh page and
/// is the root. Else the pair is inserted below the root and the root is
/// written back; where the root has split, its new sibling is written to a
/// fresh page, and then a root over the two, which is the root from then on.
/// The first write that is refused stops the insertion, with the root as it
/// was.
pub open spec fn planted(
    w: Shelf,
    root: Option<usize>,
    h: nat,
    key: Seq<u8>,
    value: Seq<u8>,
    d: int,
) -> (Shelf, Option<usize>, Result<(), Error>) {
    match root {
        None => {
            let (w1, r1) = w.write(first_leaf(key, value, w.cursor() as usize));
            match r1 {
                Err(e) => (w1, root, Err(e)),
                Ok(at) => (w1, Some(at), Ok(())),
            }
        },
        Some(top) => {
            let (w1, n1, r1) = grow(w, w.nodes[top], h, key, value, d);
            match r1 {
                Err(e) => (w1, root, Err(e)),
                Ok(split) => {
                    let (w2, r2) = w1.write_at(n1, top);
                    match (r2, split) {
                        (Err(e), _) => (w2, root, Err(e)),
                        (Ok(_), None) => (w2, root, Ok(())),
                        (Ok(_), Some((mid, right))) => {
                            let (w3, r3) = w2.write(right);
                            match r3 {
                                Err(e) => (w3, root, Err(e)),
                                Ok(sib) => {
                                    let (w4, r4) = w3.write(
                                        root_over(mid, top, sib, w3.cursor() as usize),
                                    );
                                    match r4 {
                                        Err(e) => (w4, root, Err(e)),
                                        Ok(at) => (w4, Some(at), Ok(())),
                                    }
                                },
                            }
                        },
                    }
                },
            }
        },
    }
}

/// What a deletion from the tree with the given root and height does step by
/// step, and what it leaves: the pages, the root, and whether it went
/// through.
///
/// Without a root nothing is done. Else the key is deleted below the root
/// and the root is written back; a root that is an internal node left
/// without keys gives way to its only child. A write that is refused stops
/// the deletion, with the root as it was.
pub open spec fn uprooted(w: Shelf, root: Option<usize>, h: nat, key: Seq<u8>, d: int) -> (
    Shelf,
    Option<usize>,
    Result<(), Error>,
) {
    match root {
        None => (w, root, Ok(())),
        Some(top) => {
            let (w1, n1, r1) = shrink(w, w.nodes[top], h, key, d);
            match r1 {
                Err(e) => (w1, root, Err(e)),
                Ok(_) => {
                    let (w2, r2) = w1.write_at(n1, top);
                    match r2 {
                        Err(e) => (w2, root, Err(e)),
                        Ok(_) => (
                            w2,
                            if n1 is Internal && n1.keys().len() == 0 {
                                Some(n1.children()[0])
                            } else {
                                root
                            },
                            Ok(()),
                        ),
                    }
                },
            }
        },
    }
}

/// The level below `level`; the count stops at the largest number.
pub open spec fn level_below(level: usize) -> usize {
    if level < usize::MAX {
        (level + 1) as usize
    } else {
        level
    }
}

/// The nodes of the subtree of height `h` at `off`, each with its level: the
/// root of the subtree first, at `level`, then the subtrees of its children
/// from left to right, one level below.
pub open spec fn outline(s: Store, off: usize, h: nat, level: usize) -> Seq<(usize, NodeModel)>
    decreases h, 0nat,
{
    if h == 0 {
        seq![(level, s[off])]
    } else {
        seq![(level, s[off])] + kids_outline(
            s,
            s[off].children(),
            (h - 1) as nat,
            level_below(level),
            s[off].children().len(),
        )
    }
}

/// The nodes of the subtrees of the first `n` of the children `kids`, from
/// left to right, each subtree as [`outline`] lists it.
pub open spec fn kids_outline(s: Store, kids: Seq<usize>, g: nat, level: usize, n: nat) -> Seq<
    (usize, NodeModel),
>
    decreases g, n + 1,
{
    if n == 0 {
        Seq::empty()
    } else {
        kids_outline(s, kids, g, level, (n - 1) as nat) + outline(s, kids[n - 1], g, level)
    }
}

/// The levels and nodes of a listing, as mathematical values.
pub open spec fn listed(out: Seq<(usize, Node)>) -> Seq<(usize, NodeModel)> {
    out.map_values(|e: (usize, Node)| (e.0, e.1@))
}

/// A copy of a run of offsets.
fn copy_offsets(v: &Vec<Offset>) -> (r: Vec<Offset>)
    ensures
        r@ == v@,
{
    let r = v.clone();
    r
}

/// Appends the nodes of the subtree at `offset` to `out`, each with its
/// level, as [`outline`] lists them.
pub fn list_subtree(
    pager: &Pager,
    offset: Offset,
    level: usize,
    out: &mut Vec<(usize, Node)>,
    Ghost(at): Ghost<Place>,
) -> (r: Result<(), Error>)
    requires
        pager.wf(),
        kid_ok(pager@, offset, at.height, at.degree, at.lo, at.hi),
    ensures
        r is Ok,
        listed(final(out)@) == listed(old(out)@) + outline(pager@, offset, at.height, level),
    decreases at.height,
{
    let ghost s = pager@;
    let ghost start = listed(out@);
    let node = pager.read(offset)?;
    let ghost model = node@;
    let kids = match &node {
        Node::Leaf(_) => Vec::new(),
        Node::Internal(inner) => copy_offsets(&inner.children),
    };
    out.push((level, node));
    if kids.len() == 0 {
        return Ok(());
    }
    let below: usize = if level < usize::MAX {
        level + 1
    } else {
        level
    };
    let ghost g = (at.height - 1) as nat;
    let mut i: usize = 0;
    while i < kids.len()
        invariant
            pager.wf(),
            pager@ == s,
            at.height > 0,
            g == (at.height - 1) as nat,
            kid_ok(s, offset, at.height, at.degree, at.lo, at.hi),
            model == s[offset],
            kids@ == model.children(),
            below == level_below(level),
            0 <= i <= kids.len(),
            listed(out@) == start + seq![(level, model)] + kids_outline(s, kids@, g, below, i as nat),
        decreases kids.len() - i,
    {
        proof {
            let inner = model->Internal_0;
        }
        list_subtree(
            pager,
            kids[i],
            below,
            out,
            Ghost(place_of(model.keys(), at, i as int)),
        )?;
        i += 1;
    }
    Ok(())
}

/// A B+Tree of byte-string keys and values.
pub struct BPTree {
    degree: usize,
    pager: Pager,
    root_node: Option<Offset>,
    height: Ghost<nat>,
}

impl View for BPTree {
    type V = Map<Seq<u8>, Seq<u8>>;

    /// What the tree holds.
    open spec fn view(&self) -> Map<Seq<u8>, Seq<u8>> {
        match self.root() {
            None => Map::empty(),
            Some(root) => tree_map(self.store(), root, self.height()),
        }
    }
}

impl BPTree {
    /// The branching degree: the most children that a node may have.
    pub closed spec fn degree(&self) -> usize {
        self.degree
    }

    /// The pager that holds the pages of the tree.
    pub closed spec fn pages(&self) -> Pager {
        self.pager
    }

    /// The nodes on the pages of the tree, by offset.
    pub open spec fn store(&self) -> Store {
        self.pages()@
    }

    /// The offset of the root, once there is one.
    pub closed spec fn root(&self) -> Option<usize> {
        self.root_node
    }

    /// The number of levels between the root and the leaves.
    pub closed spec fn height(&self) -> nat {
        self.height@
    }

    /// The tree is a B+Tree: see [`tree_ok`].
    pub open spec fn wf(&self) -> bool {
        &&& self.degree() >= 3
        &&& self.pages().wf()
        &&& match self.root() {
            None => true,
            Some(root) => tree_ok(self.store(), root, self.degree() as int, self.height()),
        }
    }

    /// A tree without entries, whose pager hands out its first page at
    /// `startup_offset`.
    pub fn new(degree: usize, startup_offset: usize) -> (r: BPTree)
        requires
            degree >= 3,
        ensures
            r.wf(),
            r.degree() == degree,
            r.root() is None,
            r@ == Map::<Seq<u8>, Seq<u8>>::empty(),
    {
        BPTree { degree, pager: Pager::new(startup_offset), root_node: None, height: Ghost(0) }
    }

    /// The offset of the root, once there is one.
    pub fn root_offset(&self) -> (r: Option<Offset>)
        ensures
            r == self.root(),
    {
        self.root_node
    }

    /// The branching degree.
    pub fn branching(&self) -> (r: usize)
        ensures
            r == self.degree(),
    {
        self.degree
    }

    /// Reads the node on the page at `offset`, as [`Pager::read`] does.
    pub fn read_node(&self, offset: Offset) -> (r: Result<Node, Error>)
        requires
            self.wf(),
        ensures
            match r {
                Ok(node) => self.store().dom().contains(offset) && self.store()[offset] == node@,
                Err(e) => !self.store().dom().contains(offset) && (e == Error::Decode || e
                    == Error::BadOffset),
            },
    {
        self.pager.read(offset)
    }

    /// The nodes of the tree, each with its level below the root: the root
    /// first, and every node before its children from left to right. An
    /// empty list where the tree has no root.
    pub fn outline(&self) -> (r: Result<Vec<(usize, Node)>, Error>)
        requires
            self.wf(),
        ensures
            r matches Ok(out) && listed(out@) == match self.root() {
                None => Seq::<(usize, NodeModel)>::empty(),
                Some(root) => outline(self.store(), root, self.height(), 0),
            },
    {
        let mut out: Vec<(usize, Node)> = Vec::new();
        match self.root_node {
            None => {},
            Some(root_offset) => {
                list_subtree(
                    &self.pager,
                    root_offset,
                    0,
                    &mut out,
                    Ghost(root_place(self.degree as int, self.height@)),
                )?;
            },
        }
        Ok(out)
    }

    /// The offsets of the pages written since the last call, oldest first. A
    /// caller that keeps the pages in a file writes these pages out: every
    /// page that is new or holds other bytes than at the last call is among
    /// them. This can be done after a failed operation too.
    pub fn take_pending(&mut self) -> (r: Vec<Offset>)
        requires
            old(self).pages().wf(),
        ensures
            final(self).pages().wf(),
            r@ == old(self).pages().pending(),
            forall|o: usize| #[trigger] old(self).pages().stale(o) ==> r@.contains(o),
            forall|o: usize| !#[trigger] final(self).pages().stale(o),
            final(self).pages().pending() == Seq::<usize>::empty(),
            final(self).pages().start() == old(self).pages().start(),
            final(self).pages().page_count() == old(self).pages().page_count(),
            forall|o: usize| final(self).pages().page(o) == old(self).pages().page(o),
            final(self)@ == old(self)@,
            final(self).degree() == old(self).degree(),
            final(self).root() == old(self).root(),
            final(self).height() == old(self).height(),
            final(self).store() == old(self).store(),
    {
        self.pager.take_pending()
    }

    /// The bytes of the page at `offset`; `None` where the tree has no such
    /// page.
    pub fn page_bytes(&self, offset: usize) -> (r: Option<&Vec<u8>>)
        requires
            self.pages().wf(),
        ensures
            match r {
                Some(bytes) => self.pages().is_page(offset) && bytes@ == self.pages().page(offset)
                    && bytes@.len() == PAGE_SIZE,
                None => !self.pages().is_page(offset),
            },
    {
        self.pager.page_bytes(offset)
    }

    /// Whether the tree holds nothing: it has no root, or its root holds
    /// neither keys nor values or children.
    pub fn is_empty(&self) -> (r: Result<bool, Error>)
        requires
            self.wf(),
        ensures
            r matches Ok(b) && b == (self@ == Map::<Seq<u8>, Seq<u8>>::empty()) && b == match self.root() {
                None => true,
                Some(root) => self.store()[root].is_empty(),
            },
    {
        match self.root_node {
            None => Ok(true),
            Some(root_offset) => {
                proof {
                    lemma_empty_root(self.pager@, root_offset, self.degree as int, self.height@);
                }
                let node = self.pager.read(root_offset)?;
                Ok(node.is_empty())
            },
        }
    }

    /// Pairs `key` with `value`. A value that the key had before is replaced.
    pub fn insert(&mut self, key: Key, value: Value) -> (r: Result<(), Error>)
        requires
            old(self).wf(),
        ensures
            final(self).degree() == old(self).degree(),
            final(self).pages().wf(),
            match r {
                Ok(()) => final(self).wf() && final(self)@ == old(self)@.insert(key@, value@),
                Err(e) => write_error(e),
            },
            (final(self).pages().shelf(), final(self).root(), r) == planted(
                old(self).pages().shelf(),
                old(self).root(),
                old(self).height(),
                key@,
                value@,
                old(self).degree() as int,
            ),
            final(self).height() == if final(self).root() == old(self).root() {
                old(self).height()
            } else if old(self).root() is None {
                0
            } else {
                old(self).height() + 1
            },
    {
        let ghost sa = self.pager@;
        let ghost h = self.height@;
        let ghost d = self.degree as int;
        match self.root_node {
            None => {
                let mut keys: Vec<Key> = Vec::new();
                let mut values: Vec<Value> = Vec::new();
                keys.push(key);
                values.push(value);
                let root_node = Node::Leaf(
                    LeafNode { keys, values, offset: Some(self.pager.next_offset()) },
                );
                proof {
                    let leaf = root_node@->Leaf_0;
                    assert(leaf.keys =~= seq![key@]);
                    assert(leaf.values =~= seq![value@]);
                }
                let root_offset = self.pager.write(&root_node)?;
                proof {
                    lemma_first_entry(sa, root_offset, root_node@->Leaf_0, d);
                }
                self.root_node = Some(root_offset);
                self.height = Ghost(0);
            },
            Some(root_offset) => {
                let mut root_node = self.pager.read(root_offset)?;
                let split = root_node.insert(
                    &mut self.pager,
                    key,
                    value,
                    self.degree,
                    Ghost(root_place(d, h)),
                )?;
                let ghost sb = self.pager@;
                self.pager.write_at(&root_node, root_offset)?;
                match split {
                    None => {
                        proof {
                            lemma_root_kept(sa, sb, root_offset, root_node@, d, h, key@, value@);
                        }
                    },
                    Some((mid_key, sibling)) => {
                        let ghost mid = mid_key@;
                        let sibling_offset = self.pager.write(&sibling)?;
                        let mut keys: Vec<Key> = Vec::new();
                        let mut children: Vec<Offset> = Vec::new();
                        keys.push(mid_key);
                        children.push(root_offset);
                        children.push(sibling_offset);
                        let new_root = Node::Internal(
                            InternalNode { keys, children, offset: Some(self.pager.next_offset()) },
                        );
                        proof {
                            let over = new_root@->Internal_0;
                            assert(over.keys =~= seq![mid]);
                            assert(over.children =~= seq![root_offset, sibling_offset]);
                        }
                        let new_root_offset = self.pager.write(&new_root)?;
                        proof {
                            let over = new_root@->Internal_0;
                            lemma_root_split(
                                sa,
                                sb,
                                root_offset,
                                root_node@,
                                mid,
                                sibling@,
                                sibling_offset,
                                new_root_offset,
                                over.offset,
                                d,
                                h,
                                key@,
                                value@,
                            );
                        }
                        self.root_node = Some(new_root_offset);
                        self.height = Ghost((h + 1) as nat);
                    },
                }
            },
        }
        Ok(())
    }

    /// Removes `key` and its value. A key that the tree does not hold is
    /// passed over. A root that is an internal node left without keys gives
    /// way to its only child.
    pub fn delete(&mut self, key: Key) -> (r: Result<(), Error>)
        requires
            old(self).wf(),
        ensures
            final(self).degree() == old(self).degree(),
            final(self).pages().wf(),
            match r {
                Ok(()) => final(self).wf() && final(self)@ == old(self)@.remove(key@),
                Err(e) => rewrite_error(e),
            },
            (final(self).pages().shelf(), final(self).root(), r) == uprooted(
                old(self).pages().shelf(),
                old(self).root(),
                old(self).height(),
                key@,
                old(self).degree() as int,
            ),
            final(self).height() == if final(self).root() == old(self).root() {
                old(self).height()
            } else {
                (old(self).height() - 1) as nat
            },
    {
        let ghost sa = self.pager@;
        let ghost h = self.height@;
        let ghost d = self.degree as int;
        match self.root_node {
            None => {
            },
            Some(root_offset) => {
                let mut root_node = self.pager.read(root_offset)?;
                let flag = root_node.remove(
                    &mut self.pager,
                    key,
                    self.degree,
                    Ghost(root_place(d, h)),
                )?;
                let ghost sb = self.pager@;
                self.pager.write_at(&root_node, root_offset)?;
                proof {
                    lemma_root_removed(sa, sb, root_offset, root_node@, flag, d, h, key@);
                }
                match root_node {
                    Node::Leaf(_) => {},
                    Node::Internal(payload) => {
                        if payload.keys.is_empty() {
                            self.root_node = Some(payload.children[0]);
                            self.height = Ghost((h - 1) as nat);
                        }
                    },
                }
            },
        }
        Ok(())
    }

    /// The value paired with `key`, if the tree holds the key.
    pub fn search(&self, key: Key) -> (r: Result<Option<Value>, Error>)
        requires
            self.wf(),
        ensures
            r matches Ok(found) && opt_view(found) == if self@.dom().contains(key@) {
                Some(self@[key@])
            } else {
                None
            },
    {
        match self.root_node {
            None => Ok(None),
            Some(root_offset) => {
                let root_node = self.pager.read(root_offset)?;
                root_node.search(
                    &self.pager,
                    key,
                    Ghost(root_place(self.degree as int, self.height@)),
                )
            },
        }
    }
}

} // verus!
