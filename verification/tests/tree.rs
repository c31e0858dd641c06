use bptree::codec::decode_node;
use bptree::error::Error;
use bptree::node::Node;
use bptree::tree::BPTree;
use std::collections::BTreeMap;
use std::collections::HashSet;

const STARTUP_OFFSET: usize = 4096 + 20;

fn key(text: &str) -> Vec<u8> {
    text.as_bytes().to_vec()
}

fn value(text: &str) -> Vec<u8> {
    text.as_bytes().to_vec()
}

/// Walks the subtree at `offset` and checks order, bounds, fill and balance.
/// Returns the depth of its leaves. The keys are appended to `seen` in order.
fn walk(
    tree: &BPTree,
    offset: usize,
    is_root: bool,
    lo: Option<Vec<u8>>,
    hi: Option<Vec<u8>>,
    seen: &mut Vec<Vec<u8>>,
    pages: &mut HashSet<usize>,
) -> usize {
    assert!(pages.insert(offset), "a page belongs to two nodes");
    let degree = tree.branching();
    let node = tree.read_node(offset).unwrap();
    let keys = match &node {
        Node::Leaf(leaf) => leaf.keys.clone(),
        Node::Internal(inner) => inner.keys.clone(),
    };
    assert!(keys.len() <= degree - 1);
    if !is_root {
        assert!(keys.len() >= (degree + 1) / 2 - 1);
    }
    for pair in keys.windows(2) {
        assert!(pair[0] < pair[1]);
    }
    match node {
        Node::Leaf(leaf) => {
            assert_eq!(leaf.keys.len(), leaf.values.len());
            for k in &leaf.keys {
                if let Some(lo) = &lo {
                    assert!(lo < k);
                }
                if let Some(hi) = &hi {
                    assert!(k <= hi);
                }
                seen.push(k.clone());
            }
            0
        }
        Node::Internal(inner) => {
            assert_eq!(inner.children.len(), inner.keys.len() + 1);
            assert!(!inner.keys.is_empty());
            let mut depth = None;
            for (i, child) in inner.children.iter().enumerate() {
                let child_lo = if i == 0 { lo.clone() } else { Some(inner.keys[i - 1].clone()) };
                let child_hi =
                    if i == inner.keys.len() { hi.clone() } else { Some(inner.keys[i].clone()) };
                let below = walk(tree, *child, false, child_lo, child_hi, seen, pages);
                match depth {
                    None => depth = Some(below),
                    Some(d) => assert_eq!(d, below),
                }
            }
            depth.unwrap() + 1
        }
    }
}

/// Checks the whole tree against the reference map.
fn check(tree: &BPTree, model: &BTreeMap<Vec<u8>, Vec<u8>>) {
    let mut seen = Vec::new();
    let mut pages = HashSet::new();
    if let Some(root) = tree.root_offset() {
        walk(tree, root, true, None, None, &mut seen, &mut pages);
    }
    let expected: Vec<Vec<u8>> = model.keys().cloned().collect();
    assert_eq!(seen, expected);
    for (k, v) in model {
        assert_eq!(tree.search(k.clone()).unwrap(), Some(v.clone()));
    }
    assert_eq!(tree.is_empty().unwrap(), model.is_empty());
}

#[test]
fn tree_test_tree_structure() {
    let mut tree = BPTree::new(4, STARTUP_OFFSET);

    tree.insert(key("0010"), "ten".as_bytes().to_vec()).unwrap();
    tree.insert(key("0020"), "twenty".as_bytes().to_vec()).unwrap();
    tree.insert(key("0005"), "five".as_bytes().to_vec()).unwrap();
    tree.insert(key("0006"), "six".as_bytes().to_vec()).unwrap();
    tree.insert(key("0012"), "twelve".as_bytes().to_vec()).unwrap();
    tree.insert(key("0030"), "thirty".as_bytes().to_vec()).unwrap();
    tree.insert(key("0007"), "seven".as_bytes().to_vec()).unwrap();
    tree.insert(key("0017"), "seventeen".as_bytes().to_vec()).unwrap();

    assert_eq!(tree.search(key("0010")).unwrap(), Some("ten".as_bytes().to_vec()));
    assert_eq!(tree.search(key("0020")).unwrap(), Some("twenty".as_bytes().to_vec()));
    assert_eq!(tree.search(key("0005")).unwrap(), Some("five".as_bytes().to_vec()));
    assert_eq!(tree.search(key("0006")).unwrap(), Some("six".as_bytes().to_vec()));
    assert_eq!(tree.search(key("0012")).unwrap(), Some("twelve".as_bytes().to_vec()));
    assert_eq!(tree.search(key("0030")).unwrap(), Some("thirty".as_bytes().to_vec()));
    assert_eq!(tree.search(key("0007")).unwrap(), Some("seven".as_bytes().to_vec()));
    assert_eq!(
        tree.search(key("0017")).unwrap(),
        Some("seventeen".as_bytes().to_vec())
    );

    assert_eq!(tree.search(key("2000")).unwrap(), None);
    assert_eq!(tree.search(key("3000")).unwrap(), None);
}

#[test]
fn bptree_test_tree_structure() {
    let mut tree = BPTree::new(4, STARTUP_OFFSET);

    tree.insert(key("0010"), value("ten")).unwrap();
    tree.insert(key("0020"), value("twenty")).unwrap();
    tree.insert(key("0005"), value("five")).unwrap();
    tree.insert(key("0006"), value("six")).unwrap();
    tree.insert(key("0012"), value("twelve")).unwrap();
    tree.insert(key("0030"), value("thirty")).unwrap();
    tree.insert(key("0007"), value("seven")).unwrap();
    tree.insert(key("0017"), value("seventeen")).unwrap();

    assert_eq!(tree.search(key("0010")).unwrap(), Some(value("ten")));
    assert_eq!(tree.search(key("0020")).unwrap(), Some(value("twenty")));
    assert_eq!(tree.search(key("0005")).unwrap(), Some(value("five")));
    assert_eq!(tree.search(key("0006")).unwrap(), Some(value("six")));
    assert_eq!(tree.search(key("0012")).unwrap(), Some(value("twelve")));
    assert_eq!(tree.search(key("0030")).unwrap(), Some(value("thirty")));
    assert_eq!(tree.search(key("0007")).unwrap(), Some(value("seven")));
    assert_eq!(tree.search(key("0017")).unwrap(), Some(value("seventeen")));

    assert_eq!(tree.search(key("2000")).unwrap(), None);
    assert_eq!(tree.search(key("3000")).unwrap(), None);
}

#[test]
fn bptree_test_large_insertions() {
    let mut tree = BPTree::new(4, STARTUP_OFFSET);

    for i in 1..=10000 {
        tree.insert(key(&i.to_string()), value(&i.to_string())).unwrap();
    }

    for i in 1..=10000 {
        assert_eq!(tree.search(key(&i.to_string())).unwrap(), Some(value(&i.to_string())));
    }
}

#[test]
fn tree_test_large_insertions() {
    let mut tree = BPTree::new(300, STARTUP_OFFSET);

    for i in 1..=100000 {
        tree.insert(key(&i.to_string()), i.to_string().as_bytes().to_vec()).unwrap();
    }

    for i in 1..=100000 {
        assert_eq!(
            tree.search(key(&i.to_string())).unwrap(),
            Some(i.to_string().as_bytes().to_vec())
        );
    }
}

#[test]
fn assemble_disassemble() {
    let mut tree = BPTree::new(4, 0);

    let key_value_pairs = BTreeMap::from([
        (key("001"), value("derby")),
        (key("002"), value("elephant")),
        (key("003"), value("four")),
        (key("004"), value("avengers")),
        (key("005"), value("bing")),
        (key("006"), value("center")),
        (key("007"), value("center")),
        (key("008"), value("bing")),
        (key("009"), value("center")),
        (key("010"), value("center")),
        (key("011"), value("derby")),
        (key("012"), value("elephant")),
        (key("013"), value("four")),
        (key("014"), value("avengers")),
        (key("015"), value("bing")),
        (key("016"), value("center")),
        (key("017"), value("center")),
        (key("018"), value("bing")),
        (key("019"), value("center")),
        (key("020"), value("center")),
    ]);

    for (key, value) in &key_value_pairs {
        tree.insert(key.clone(), value.clone()).unwrap();
    }

    for (key, value) in &key_value_pairs {
        assert_eq!(tree.search(key.clone()).unwrap(), Some(value.clone()));
    }

    assert!(!tree.is_empty().unwrap());

    tree.delete(key("006")).unwrap();
    tree.delete(key("012")).unwrap();
    tree.delete(key("002")).unwrap();
    tree.delete(key("005")).unwrap();
    tree.delete(key("001")).unwrap();
    tree.delete(key("003")).unwrap();
    tree.delete(key("004")).unwrap();
    tree.delete(key("007")).unwrap();
    tree.delete(key("008")).unwrap();
    tree.delete(key("009")).unwrap();
    tree.delete(key("010")).unwrap();
    tree.delete(key("011")).unwrap();
    tree.delete(key("018")).unwrap();
    tree.delete(key("019")).unwrap();
    tree.delete(key("017")).unwrap();
    tree.delete(key("020")).unwrap();
    tree.delete(key("014")).unwrap();
    tree.delete(key("015")).unwrap();
    tree.delete(key("016")).unwrap();
    tree.delete(key("013")).unwrap();

    assert!(tree.is_empty().unwrap());
}

fn delete_in_turn(mut tree: BPTree) {
    let key_value_pairs = BTreeMap::from([
        (key("d"), value("derby")),
        (key("e"), value("elephant")),
        (key("f"), value("four")),
        (key("a"), value("avengers")),
        (key("b"), value("bing")),
        (key("c"), value("center")),
        (key("g"), value("gover")),
    ]);

    for (key, value) in &key_value_pairs {
        tree.insert(key.clone(), value.clone()).unwrap();
    }

    for (key, value) in &key_value_pairs {
        assert_eq!(tree.search(key.clone()).unwrap(), Some(value.clone()));
    }

    let keys_for_delete = vec![key("f"), key("e"), key("c"), key("a"), key("b"), key("d"), key("g")];

    let mut deleted_keys = HashSet::new();

    for key in &keys_for_delete {
        tree.delete(key.clone()).unwrap();
        assert_eq!(tree.search(key.clone()).unwrap(), None);
        deleted_keys.insert(key.clone());

        for (initial_key, value) in &key_value_pairs {
            if !deleted_keys.contains(initial_key) {
                assert_eq!(tree.search(initial_key.clone()).unwrap(), Some(value.clone()));
            }
        }
    }

    assert!(tree.is_empty().unwrap());
}

#[test]
fn tree_delete_works() {
    delete_in_turn(BPTree::new(4, STARTUP_OFFSET));
}

#[test]
fn bptree_delete_works() {
    let tree = BPTree::new(4, STARTUP_OFFSET);
    delete_in_turn(tree);
    let empty = BPTree::new(4, STARTUP_OFFSET);
    assert_eq!(empty.is_empty().unwrap(), true);
}

#[test]
fn new_tree_is_empty() {
    let mut tree = BPTree::new(3, 0);
    assert!(tree.is_empty().unwrap());
    assert_eq!(tree.root_offset(), None);
    assert_eq!(tree.search(key("a")).unwrap(), None);
    tree.delete(key("a")).unwrap();
    assert!(tree.is_empty().unwrap());
    assert_eq!(tree.branching(), 3);
}

#[test]
fn second_insert_of_a_key_replaces_the_value() {
    let mut tree = BPTree::new(4, STARTUP_OFFSET);
    tree.insert(key("k"), value("first")).unwrap();
    tree.insert(key("k"), value("second")).unwrap();
    assert_eq!(tree.search(key("k")).unwrap(), Some(value("second")));
    let root = tree.read_node(tree.root_offset().unwrap()).unwrap();
    match root {
        Node::Leaf(leaf) => {
            assert_eq!(leaf.keys, vec![key("k")]);
            assert_eq!(leaf.values, vec![value("second")]);
        }
        Node::Internal(_) => panic!("the root is a leaf"),
    }
    tree.delete(key("k")).unwrap();
    assert_eq!(tree.search(key("k")).unwrap(), None);
    assert!(tree.is_empty().unwrap());
}

#[test]
fn empty_leaf_root_is_kept_and_used_again() {
    let mut tree = BPTree::new(4, STARTUP_OFFSET);
    tree.insert(key("a"), value("1")).unwrap();
    let root = tree.root_offset();
    assert_eq!(root, Some(STARTUP_OFFSET));
    tree.delete(key("a")).unwrap();
    assert!(tree.is_empty().unwrap());
    assert_eq!(tree.root_offset(), root);
    tree.insert(key("b"), value("2")).unwrap();
    assert_eq!(tree.root_offset(), root);
    assert_eq!(tree.search(key("b")).unwrap(), Some(value("2")));
}

#[test]
fn first_split_puts_the_last_left_key_in_the_root() {
    let mut tree = BPTree::new(4, 0);
    for k in ["a", "b", "c", "d"] {
        tree.insert(key(k), value(k)).unwrap();
    }
    // the leaf at 0 has split; its sibling is at 4096 and the new root at 8192
    assert_eq!(tree.root_offset(), Some(8192));
    match tree.read_node(8192).unwrap() {
        Node::Internal(root) => {
            assert_eq!(root.keys, vec![key("b")]);
            assert_eq!(root.children, vec![0, 4096]);
        }
        Node::Leaf(_) => panic!("the root is internal"),
    }
    match tree.read_node(0).unwrap() {
        Node::Leaf(left) => {
            assert_eq!(left.keys, vec![key("a"), key("b")]);
            assert_eq!(left.values, vec![value("a"), value("b")]);
        }
        Node::Internal(_) => panic!("a leaf"),
    }
    match tree.read_node(4096).unwrap() {
        Node::Leaf(right) => {
            assert_eq!(right.keys, vec![key("c"), key("d")]);
            assert_eq!(right.offset, Some(4096));
        }
        Node::Internal(_) => panic!("a leaf"),
    }
    assert_eq!(tree.take_pending(), vec![0, 0, 0, 0, 4096, 8192]);
    assert_eq!(tree.take_pending(), Vec::<usize>::new());
    assert_eq!(tree.page_bytes(4096).map(|p| p.len()), Some(4096));
    assert!(tree.page_bytes(4097).is_none());
    assert_eq!(tree.read_node(5).unwrap_err(), Error::BadOffset);
}

#[test]
fn root_collapses_when_its_last_key_goes() {
    let mut tree = BPTree::new(4, 0);
    for k in ["a", "b", "c", "d"] {
        tree.insert(key(k), value(k)).unwrap();
    }
    assert_eq!(tree.root_offset(), Some(8192));
    // [a b] | [c d]: taking c and d leaves the right leaf underfull twice
    tree.delete(key("d")).unwrap();
    assert_eq!(tree.root_offset(), Some(8192));
    tree.delete(key("c")).unwrap();
    // the right leaf was fused into the left one, which is the root now
    assert_eq!(tree.root_offset(), Some(0));
    match tree.read_node(0).unwrap() {
        Node::Leaf(leaf) => assert_eq!(leaf.keys, vec![key("a"), key("b")]),
        Node::Internal(_) => panic!("a leaf"),
    }
}

#[test]
fn oversized_entry_is_refused() {
    let mut tree = BPTree::new(4, 0);
    let big = vec![7u8; 5000];
    assert_eq!(tree.insert(key("k"), big), Err(Error::OversizedNode));
}

#[test]
fn tree_follows_a_map_through_a_mixed_workload() {
    for degree in [3usize, 4, 5, 6, 7, 16] {
        let mut tree = BPTree::new(degree, STARTUP_OFFSET);
        let mut model: BTreeMap<Vec<u8>, Vec<u8>> = BTreeMap::new();
        let mut state: u64 = 0x2545F4914F6CDD1D ^ degree as u64;
        for step in 0..1500u32 {
            state ^= state << 13;
            state ^= state >> 7;
            state ^= state << 17;
            let k = key(&format!("{:03}", state % 200));
            if (state >> 20) % 3 == 0 {
                tree.delete(k.clone()).unwrap();
                model.remove(&k);
                assert_eq!(tree.search(k).unwrap(), None);
            } else {
                let v = value(&format!("v{}", step));
                tree.insert(k.clone(), v.clone()).unwrap();
                model.insert(k.clone(), v.clone());
                assert_eq!(tree.search(k).unwrap(), Some(v));
            }
            if step % 50 == 0 {
                check(&tree, &model);
            }
        }
        check(&tree, &model);
        let keys: Vec<Vec<u8>> = model.keys().cloned().collect();
        for k in keys {
            tree.delete(k.clone()).unwrap();
            model.remove(&k);
            check(&tree, &model);
        }
        assert!(tree.is_empty().unwrap());
    }
}

#[test]
fn outline_lists_every_node_before_its_children() {
    let mut tree = BPTree::new(4, 0);
    assert!(tree.outline().unwrap().is_empty());
    for k in ["a", "b", "c", "d", "e", "f"] {
        tree.insert(key(k), value(k)).unwrap();
    }
    // root [b d] over the leaves [a b] [c d] [e f]
    let listing: Vec<(usize, Vec<Vec<u8>>)> = tree
        .outline()
        .unwrap()
        .into_iter()
        .map(|(level, node)| match node {
            Node::Leaf(leaf) => (level, leaf.keys),
            Node::Internal(inner) => (level, inner.keys),
        })
        .collect();
    assert_eq!(
        listing,
        vec![
            (0, vec![key("b"), key("d")]),
            (1, vec![key("a"), key("b")]),
            (1, vec![key("c"), key("d")]),
            (1, vec![key("e"), key("f")]),
        ]
    );
    let mut tall = BPTree::new(3, 0);
    for i in 0..40 {
        tall.insert(key(&format!("{:02}", i)), value("v")).unwrap();
    }
    let listing = tall.outline().unwrap();
    assert_eq!(listing[0].0, 0);
    let deepest = listing.iter().map(|(level, _)| *level).max().unwrap();
    for (level, node) in &listing {
        assert_eq!(matches!(node, Node::Leaf(_)), *level == deepest);
    }
    let leaves: Vec<Vec<u8>> = listing
        .into_iter()
        .filter_map(|(_, node)| match node {
            Node::Leaf(leaf) => Some(leaf.keys),
            Node::Internal(_) => None,
        })
        .flatten()
        .collect();
    let expected: Vec<Vec<u8>> = (0..40).map(|i| key(&format!("{:02}", i))).collect();
    assert_eq!(leaves, expected);
}

/// Carries the pages that the last operation wrote to `file`.
fn flush(tree: &mut BPTree, file: &mut BTreeMap<usize, Vec<u8>>) {
    for offset in tree.take_pending() {
        file.insert(offset, tree.page_bytes(offset).unwrap().clone());
    }
}

/// Searches the pages in `file`, which the tree is not asked for.
fn search_file(file: &BTreeMap<usize, Vec<u8>>, root: usize, key: &[u8]) -> Option<Vec<u8>> {
    let mut offset = root;
    loop {
        match decode_node(&file[&offset]).unwrap() {
            Node::Leaf(leaf) => {
                let at = leaf.keys.iter().position(|k| k.as_slice() == key)?;
                return Some(leaf.values[at].clone());
            }
            Node::Internal(inner) => {
                let rank = inner.keys.iter().filter(|k| k.as_slice() < key).count();
                offset = inner.children[rank];
            }
        }
    }
}

#[test]
fn pages_written_out_after_each_operation_hold_the_tree() {
    let mut tree = BPTree::new(5, 2 * 4096);
    let mut file: BTreeMap<usize, Vec<u8>> = BTreeMap::new();
    let mut model: BTreeMap<Vec<u8>, Vec<u8>> = BTreeMap::new();
    let mut state: u64 = 0x9E3779B97F4A7C15;
    for step in 0..600u32 {
        state ^= state << 13;
        state ^= state >> 7;
        state ^= state << 17;
        let k = key(&format!("{:03}", state % 120));
        if (state >> 24) % 4 == 0 {
            tree.delete(k.clone()).unwrap();
            model.remove(&k);
        } else {
            let v = value(&format!("v{}", step));
            tree.insert(k.clone(), v.clone()).unwrap();
            model.insert(k, v);
        }
        flush(&mut tree, &mut file);
        assert!(tree.take_pending().is_empty());
        if step % 25 == 0 {
            let root = tree.root_offset().unwrap();
            for i in 0..120 {
                let k = key(&format!("{:03}", i));
                assert_eq!(search_file(&file, root, &k), model.get(&k).cloned());
            }
        }
    }
    // every page of the file is a page of the tree, byte for byte
    for (offset, page) in &file {
        assert!(*offset >= 2 * 4096 && (*offset - 2 * 4096) % 4096 == 0);
        assert_eq!(page.len(), 4096);
        assert_eq!(tree.page_bytes(*offset).unwrap(), page);
    }
}

#[test]
fn a_failed_insert_stops_at_the_write_that_is_refused() {
    let mut tree = BPTree::new(4, 0);
    for k in ["a", "b", "c"] {
        tree.insert(key(k), value(k)).unwrap();
    }
    tree.take_pending();
    // the leaf splits, and its new sibling cannot take an entry of this size
    assert_eq!(tree.insert(key("d"), vec![0u8; 4090]), Err(Error::OversizedNode));
    // the root had been written back before its sibling was refused
    assert_eq!(tree.take_pending(), vec![0]);
    assert_eq!(tree.root_offset(), Some(0));
    match tree.read_node(0).unwrap() {
        Node::Leaf(leaf) => assert_eq!(leaf.keys, vec![key("a"), key("b")]),
        Node::Internal(_) => panic!("a leaf"),
    }
    assert!(tree.read_node(4096).is_err());
}
