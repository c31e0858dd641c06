use bptree::error::Error;
use bptree::node::internal::InternalNode;
use bptree::node::leaf::copy_bytes;
use bptree::node::leaf::LeafNode;
use bptree::node::Node;
use bptree::pager::Pager;

fn bytes(text: &str) -> Vec<u8> {
    text.as_bytes().to_vec()
}

fn run(texts: &[&str]) -> Vec<Vec<u8>> {
    texts.iter().map(|t| bytes(t)).collect()
}

fn leaf(keys: &[&str], values: &[&str]) -> LeafNode {
    LeafNode { keys: run(keys), values: run(values), offset: None }
}

fn inner(keys: &[&str], children: &[usize]) -> InternalNode {
    InternalNode { keys: run(keys), children: children.to_vec(), offset: None }
}

/// A pager with `count` pages, each holding an empty leaf.
fn pages(count: usize) -> Pager {
    let mut pager = Pager::new(0);
    for _ in 0..count {
        pager.write(&Node::Leaf(leaf(&[], &[]))).unwrap();
    }
    pager
}

fn leaf_at(pager: &Pager, offset: usize) -> LeafNode {
    match pager.read(offset).unwrap() {
        Node::Leaf(leaf) => leaf,
        Node::Internal(_) => panic!("a leaf was written"),
    }
}

fn inner_at(pager: &Pager, offset: usize) -> InternalNode {
    match pager.read(offset).unwrap() {
        Node::Internal(inner) => inner,
        Node::Leaf(_) => panic!("an internal node was written"),
    }
}

#[test]
fn copy_of_bytes_is_equal() {
    assert_eq!(copy_bytes(&vec![1, 2, 3]), vec![1, 2, 3]);
    assert_eq!(copy_bytes(&vec![]), Vec::<u8>::new());
}

#[test]
fn emptiness_and_lending() {
    assert!(Node::Leaf(leaf(&[], &[])).is_empty());
    assert!(!Node::Leaf(leaf(&["a"], &["1"])).is_empty());
    assert!(Node::Internal(inner(&[], &[])).is_empty());
    assert!(!Node::Internal(inner(&[], &[0])).is_empty());
    assert!(!Node::Internal(inner(&["a"], &[0, 1])).is_empty());
    // a node lends when it holds at least half the degree, rounded up
    let two = Node::Leaf(leaf(&["a", "b"], &["1", "2"]));
    assert!(two.can_borrow(3));
    assert!(two.can_borrow(4));
    assert!(!two.can_borrow(5));
    assert!(!two.can_borrow(6));
    let three = Node::Internal(inner(&["a", "b", "c"], &[0, 1, 2, 3]));
    assert!(three.can_borrow(5));
    assert!(three.can_borrow(6));
    assert!(!three.can_borrow(7));
    let one = Node::Leaf(leaf(&["a"], &["1"]));
    assert!(!one.can_borrow(3));
}

#[test]
fn leaf_insert_keeps_order_and_replaces() {
    let pager = pages(1);
    let mut node = leaf(&[], &[]);
    assert!(node.insert(&pager, bytes("m"), bytes("1"), 4).is_none());
    assert!(node.insert(&pager, bytes("c"), bytes("2"), 4).is_none());
    assert!(node.insert(&pager, bytes("x"), bytes("3"), 4).is_none());
    assert_eq!(node.keys, run(&["c", "m", "x"]));
    assert_eq!(node.values, run(&["2", "1", "3"]));
    // a key that is there keeps its place and takes the new value
    assert!(node.insert(&pager, bytes("m"), bytes("9"), 4).is_none());
    assert_eq!(node.keys, run(&["c", "m", "x"]));
    assert_eq!(node.values, run(&["2", "9", "3"]));
    assert_eq!(node.search(bytes("m")), Some(bytes("9")));
    assert_eq!(node.search(bytes("d")), None);
}

#[test]
fn leaf_splits_at_half_and_hands_up_the_last_left_key() {
    let pager = pages(3);
    let mut node = leaf(&["a", "c", "e"], &["1", "3", "5"]);
    let (mid, right) = node.insert(&pager, bytes("d"), bytes("4"), 4).unwrap();
    assert_eq!(mid, bytes("c"));
    assert_eq!(node.keys, run(&["a", "c"]));
    assert_eq!(node.values, run(&["1", "3"]));
    assert_eq!(right.keys, run(&["d", "e"]));
    assert_eq!(right.values, run(&["4", "5"]));
    assert_eq!(right.offset, Some(3 * 4096));
    // an odd number of entries: the smaller half stays
    let mut odd = leaf(&["a", "b"], &["1", "2"]);
    let (mid, right) = odd.insert(&pager, bytes("c"), bytes("3"), 3).unwrap();
    assert_eq!(mid, bytes("a"));
    assert_eq!(odd.keys, run(&["a"]));
    assert_eq!(right.keys, run(&["b", "c"]));
    assert_eq!(right.values, run(&["2", "3"]));
    let mut five = leaf(&["a", "b", "c", "d", "e"], &["1", "2", "3", "4", "5"]);
    let (mid, right) = five.split(&pager);
    assert_eq!(mid, bytes("b"));
    assert_eq!(five.keys, run(&["a", "b"]));
    assert_eq!(right.keys, run(&["c", "d", "e"]));
    assert_eq!(right.values, run(&["3", "4", "5"]));
}

#[test]
fn leaf_remove_reports_underflow_below_half_the_degree() {
    let mut node = leaf(&["a", "b", "c"], &["1", "2", "3"]);
    assert_eq!(node.remove(bytes("x"), 4), None);
    assert_eq!(node.keys, run(&["a", "b", "c"]));
    assert_eq!(node.remove(bytes("b"), 4), Some(false));
    assert_eq!(node.keys, run(&["a", "c"]));
    assert_eq!(node.values, run(&["1", "3"]));
    assert_eq!(node.remove(bytes("a"), 4), Some(true));
    assert_eq!(node.remove(bytes("c"), 4), Some(true));
    assert!(node.keys.is_empty() && node.values.is_empty());
    let mut odd = leaf(&["a", "b"], &["1", "2"]);
    assert_eq!(odd.remove(bytes("a"), 3), Some(false));
    assert_eq!(odd.remove(bytes("b"), 3), Some(true));
    let mut wide = leaf(&["a", "b", "c"], &["1", "2", "3"]);
    assert_eq!(wide.remove(bytes("c"), 7), Some(true));
    assert_eq!(wide.remove(bytes("a"), 5), Some(true));
}

#[test]
fn internal_split_hands_up_the_median() {
    let pager = pages(2);
    let mut node = inner(&["b", "d", "f", "h"], &[10, 20, 30, 40, 50]);
    let (mid, right) = node.split(&pager);
    assert_eq!(mid, bytes("f"));
    assert_eq!(node.keys, run(&["b", "d"]));
    assert_eq!(node.children, vec![10, 20, 30]);
    match right {
        Node::Internal(right) => {
            assert_eq!(right.keys, run(&["h"]));
            assert_eq!(right.children, vec![40, 50]);
            assert_eq!(right.offset, Some(8192));
        }
        Node::Leaf(_) => panic!("the right part is internal"),
    }
    let mut odd = inner(&["b", "d", "f"], &[10, 20, 30, 40]);
    let (mid, right) = odd.split(&pager);
    assert_eq!(mid, bytes("d"));
    assert_eq!(odd.keys, run(&["b"]));
    assert_eq!(odd.children, vec![10, 20]);
    match right {
        Node::Internal(right) => {
            assert_eq!(right.keys, run(&["f"]));
            assert_eq!(right.children, vec![30, 40]);
        }
        Node::Leaf(_) => panic!("the right part is internal"),
    }
}

#[test]
fn borrow_left_between_leaves() {
    let mut pager = pages(3);
    let mut parent = inner(&["c", "m"], &[0, 4096, 8192]);
    let mut left = Node::Leaf(leaf(&["a", "b", "c"], &["1", "2", "3"]));
    let mut child = Node::Leaf(leaf(&["e"], &["5"]));
    parent.borrow_left(&mut pager, 1, &mut left, 0, &mut child, 4096).unwrap();
    // the separator is the key that is now last on the left
    assert_eq!(parent.keys, run(&["b", "m"]));
    assert_eq!(parent.children, vec![0, 4096, 8192]);
    let left = leaf_at(&pager, 0);
    assert_eq!(left.keys, run(&["a", "b"]));
    assert_eq!(left.values, run(&["1", "2"]));
    let child = leaf_at(&pager, 4096);
    assert_eq!(child.keys, run(&["c", "e"]));
    assert_eq!(child.values, run(&["3", "5"]));
}

#[test]
fn borrow_left_between_internal_nodes() {
    let mut pager = pages(2);
    let mut parent = inner(&["k"], &[0, 4096]);
    let mut left = Node::Internal(inner(&["c", "f"], &[11, 12, 13]));
    let mut child = Node::Internal(inner(&["p"], &[21, 22]));
    parent.borrow_left(&mut pager, 1, &mut left, 0, &mut child, 4096).unwrap();
    assert_eq!(parent.keys, run(&["f"]));
    let left = inner_at(&pager, 0);
    assert_eq!(left.keys, run(&["c"]));
    assert_eq!(left.children, vec![11, 12]);
    let child = inner_at(&pager, 4096);
    assert_eq!(child.keys, run(&["k", "p"]));
    assert_eq!(child.children, vec![13, 21, 22]);
}

#[test]
fn borrow_right_between_leaves() {
    let mut pager = pages(3);
    let mut parent = inner(&["c", "m"], &[0, 4096, 8192]);
    let mut child = Node::Leaf(leaf(&["a"], &["1"]));
    let mut right = Node::Leaf(leaf(&["e", "g", "k"], &["5", "7", "11"]));
    parent.borrow_right(&mut pager, 0, &mut right, 4096, &mut child, 0).unwrap();
    // the separator is the key that has moved
    assert_eq!(parent.keys, run(&["e", "m"]));
    let child = leaf_at(&pager, 0);
    assert_eq!(child.keys, run(&["a", "e"]));
    assert_eq!(child.values, run(&["1", "5"]));
    let right = leaf_at(&pager, 4096);
    assert_eq!(right.keys, run(&["g", "k"]));
    assert_eq!(right.values, run(&["7", "11"]));
}

#[test]
fn borrow_right_between_internal_nodes() {
    let mut pager = pages(2);
    let mut parent = inner(&["k"], &[0, 4096]);
    let mut child = Node::Internal(inner(&["c"], &[11, 12]));
    let mut right = Node::Internal(inner(&["p", "s"], &[21, 22, 23]));
    parent.borrow_right(&mut pager, 0, &mut right, 4096, &mut child, 0).unwrap();
    assert_eq!(parent.keys, run(&["p"]));
    let child = inner_at(&pager, 0);
    assert_eq!(child.keys, run(&["c", "k"]));
    assert_eq!(child.children, vec![11, 12, 21]);
    let right = inner_at(&pager, 4096);
    assert_eq!(right.keys, run(&["s"]));
    assert_eq!(right.children, vec![22, 23]);
}

#[test]
fn merge_left_fuses_into_the_left_sibling() {
    let mut pager = pages(3);
    let mut parent = inner(&["c", "m"], &[0, 4096, 8192]);
    let mut left = Node::Leaf(leaf(&["a"], &["1"]));
    let mut child = Node::Leaf(leaf(&["e"], &["5"]));
    parent.merge_left(&mut pager, 1, &mut left, 0, &mut child, 4096).unwrap();
    assert_eq!(parent.keys, run(&["m"]));
    assert_eq!(parent.children, vec![0, 8192]);
    let left = leaf_at(&pager, 0);
    assert_eq!(left.keys, run(&["a", "e"]));
    assert_eq!(left.values, run(&["1", "5"]));
    // the page that was given up holds an empty leaf
    let rest = leaf_at(&pager, 4096);
    assert!(rest.keys.is_empty() && rest.values.is_empty());

    let mut parent = inner(&["k", "t"], &[0, 4096, 8192]);
    let mut left = Node::Internal(inner(&["c"], &[11, 12]));
    let mut child = Node::Internal(inner(&[], &[21]));
    parent.merge_left(&mut pager, 1, &mut left, 0, &mut child, 4096).unwrap();
    assert_eq!(parent.keys, run(&["t"]));
    assert_eq!(parent.children, vec![0, 8192]);
    let left = inner_at(&pager, 0);
    assert_eq!(left.keys, run(&["c", "k"]));
    assert_eq!(left.children, vec![11, 12, 21]);
    let rest = inner_at(&pager, 4096);
    assert!(rest.keys.is_empty() && rest.children.is_empty());
}

#[test]
fn merge_right_fuses_into_the_child() {
    let mut pager = pages(3);
    let mut parent = inner(&["c", "m"], &[0, 4096, 8192]);
    let mut child = Node::Leaf(leaf(&[], &[]));
    let mut right = Node::Leaf(leaf(&["e"], &["5"]));
    parent.merge_right(&mut pager, 0, &mut right, 4096, &mut child, 0).unwrap();
    assert_eq!(parent.keys, run(&["m"]));
    assert_eq!(parent.children, vec![0, 8192]);
    let child = leaf_at(&pager, 0);
    assert_eq!(child.keys, run(&["e"]));
    assert_eq!(child.values, run(&["5"]));
    let rest = leaf_at(&pager, 4096);
    assert!(rest.keys.is_empty());

    let mut parent = inner(&["k"], &[0, 4096]);
    let mut child = Node::Internal(inner(&["c"], &[11, 12]));
    let mut right = Node::Internal(inner(&["p"], &[21, 22]));
    parent.merge_right(&mut pager, 0, &mut right, 4096, &mut child, 0).unwrap();
    assert!(parent.keys.is_empty());
    assert_eq!(parent.children, vec![0]);
    let child = inner_at(&pager, 0);
    assert_eq!(child.keys, run(&["c", "k", "p"]));
    assert_eq!(child.children, vec![11, 12, 21, 22]);
}

#[test]
fn a_refused_write_stops_a_borrow() {
    let mut pager = pages(1);
    let mut parent = inner(&["c"], &[0, 4096]);
    let mut left = Node::Leaf(leaf(&["a", "b"], &["1", "2"]));
    let mut child = Node::Leaf(leaf(&[], &[]));
    // the child's page was never handed out
    let outcome = parent.borrow_left(&mut pager, 1, &mut left, 0, &mut child, 4096);
    assert_eq!(outcome, Err(Error::BadOffset));
    // the sibling had been written before the child was refused
    assert_eq!(leaf_at(&pager, 0).keys, run(&["a"]));
}
