use bptree::codec::decode_node;
use bptree::codec::encode_node;
use bptree::codec::node_encoding;
use bptree::codec::node_from_record;
use bptree::codec::PAGE_SIZE;
use bptree::error::Error;
use bptree::node::internal::InternalNode;
use bptree::node::leaf::LeafNode;
use bptree::node::Node;
use bptree::pager::write_pair;
use bptree::pager::Pager;

fn bytes(text: &str) -> Vec<u8> {
    text.as_bytes().to_vec()
}

fn leaf(keys: &[&str], values: &[&str], offset: Option<usize>) -> Node {
    Node::Leaf(LeafNode {
        keys: keys.iter().map(|k| bytes(k)).collect(),
        values: values.iter().map(|v| bytes(v)).collect(),
        offset,
    })
}

fn inner(keys: &[&str], children: &[usize], offset: Option<usize>) -> Node {
    Node::Internal(InternalNode {
        keys: keys.iter().map(|k| bytes(k)).collect(),
        children: children.to_vec(),
        offset,
    })
}

fn same(a: &Node, b: &Node) -> bool {
    match (a, b) {
        (Node::Leaf(x), Node::Leaf(y)) => {
            x.keys == y.keys && x.values == y.values && x.offset == y.offset
        }
        (Node::Internal(x), Node::Internal(y)) => {
            x.keys == y.keys && x.children == y.children && x.offset == y.offset
        }
        _ => false,
    }
}

#[test]
fn encoding_of_a_leaf_is_the_record_in_field_order() {
    let node = leaf(&["ab", "c"], &["x", ""], Some(300));
    let encoded = encode_node(&node).unwrap();
    assert_eq!(
        encoded,
        vec![
            0, // kind: leaf
            2, 2, b'a', b'b', 1, b'c', // keys
            2, 1, b'x', 0, // values
            0, // no children
            1, 251, 44, 1, // offset 300
        ]
    );
    assert!(same(&decode_node(&encoded).unwrap(), &node));
}

#[test]
fn encoding_of_an_internal_node_is_the_record_in_field_order() {
    let node = inner(&["m"], &[0, 4096], None);
    let encoded = encode_node(&node).unwrap();
    assert_eq!(encoded, vec![1, 1, 1, b'm', 0, 2, 0, 251, 0, 16, 0]);
    assert!(same(&decode_node(&encoded).unwrap(), &node));
}

#[test]
fn decoding_ignores_what_follows_the_node() {
    let node = leaf(&["k"], &["v"], None);
    let mut page = encode_node(&node).unwrap();
    page.extend_from_slice(&[0xAB; 100]);
    assert!(same(&decode_node(&page).unwrap(), &node));
}

#[test]
fn decoding_refuses_what_is_no_node() {
    assert_eq!(decode_node(&[]).unwrap_err(), Error::Decode);
    // a kind that is neither leaf nor internal
    assert_eq!(decode_node(&[2, 0, 0, 0, 0]).unwrap_err(), Error::Decode);
    // a leaf record with a child
    assert_eq!(decode_node(&[0, 0, 0, 1, 7, 0]).unwrap_err(), Error::Decode);
    // an internal record with a value
    assert_eq!(decode_node(&[1, 0, 1, 0, 0, 0]).unwrap_err(), Error::Decode);
    // a length that runs past the end
    assert_eq!(decode_node(&[0, 200, 1]).unwrap_err(), Error::Decode);
    // a length beyond the decoder's limit
    assert_eq!(
        decode_node(&[0, 253, 255, 255, 255, 255, 255, 255, 255, 127]).unwrap_err(),
        Error::Decode
    );
    // a page of zeros is an empty leaf
    assert!(same(&decode_node(&[0u8; 4096]).unwrap(), &leaf(&[], &[], None)));
}

#[test]
fn records_become_nodes_by_their_kind() {
    let node = node_from_record(0, vec![bytes("a")], vec![bytes("1")], vec![], Some(4)).unwrap();
    assert!(same(&node, &leaf(&["a"], &["1"], Some(4))));
    let node = node_from_record(1, vec![bytes("a")], vec![], vec![8, 9], None).unwrap();
    assert!(same(&node, &inner(&["a"], &[8, 9], None)));
    assert_eq!(node_from_record(2, vec![], vec![], vec![], None).unwrap_err(), Error::Decode);
    assert_eq!(node_from_record(0, vec![], vec![], vec![1], None).unwrap_err(), Error::Decode);
    assert_eq!(
        node_from_record(1, vec![], vec![bytes("v")], vec![1], None).unwrap_err(),
        Error::Decode
    );
}

#[test]
fn a_failed_encoding_is_an_encode_error() {
    assert_eq!(node_encoding(Ok(vec![1, 2, 3])), Ok(vec![1, 2, 3]));
    assert_eq!(
        node_encoding(Err(bincode::error::EncodeError::UnexpectedEnd)),
        Err(Error::Encode)
    );
}

#[test]
fn pages_are_handed_out_one_after_the_other() {
    let mut pager = Pager::new(4116);
    assert_eq!(pager.next_offset(), 4116);
    let a = leaf(&["a"], &["1"], Some(4116));
    let b = inner(&["m"], &[4116, 9000], None);
    assert_eq!(pager.write(&a), Ok(4116));
    assert_eq!(pager.next_offset(), 4116 + PAGE_SIZE);
    assert_eq!(pager.write(&b), Ok(4116 + 4096));
    assert_eq!(pager.next_offset(), 4116 + 2 * 4096);
    assert!(same(&pager.read(4116).unwrap(), &a));
    assert!(same(&pager.read(4116 + 4096).unwrap(), &b));
    assert_eq!(pager.take_pending(), vec![4116, 8212]);
    assert_eq!(pager.take_pending(), Vec::<usize>::new());
}

#[test]
fn write_at_replaces_one_page_and_leaves_the_rest() {
    let mut pager = Pager::new(0);
    let long = leaf(&["aaaaaaaa", "bbbbbbbb"], &["11111111", "22222222"], None);
    let other = leaf(&["z"], &["26"], None);
    pager.write(&long).unwrap();
    pager.write(&other).unwrap();
    let short = leaf(&["c"], &["3"], Some(0));
    assert_eq!(pager.write_at(&short, 0), Ok(()));
    // the tail of the old, longer encoding stays behind the new node and is ignored
    assert!(same(&pager.read(0).unwrap(), &short));
    assert!(same(&pager.read(4096).unwrap(), &other));
    let page = pager.page_bytes(0).unwrap();
    assert_eq!(page.len(), PAGE_SIZE);
    let encoded = encode_node(&short).unwrap();
    assert_eq!(&page[..encoded.len()], &encoded[..]);
    assert_eq!(page[encoded.len()], encode_node(&long).unwrap()[encoded.len()]);
    assert_eq!(pager.next_offset(), 8192);
}

#[test]
fn offsets_that_name_no_page_are_refused() {
    let mut pager = Pager::new(100);
    let node = leaf(&["a"], &["1"], None);
    assert_eq!(pager.read(100).unwrap_err(), Error::BadOffset);
    assert_eq!(pager.write_at(&node, 100), Err(Error::BadOffset));
    pager.write(&node).unwrap();
    assert!(pager.read(100).is_ok());
    assert_eq!(pager.read(99).unwrap_err(), Error::BadOffset);
    assert_eq!(pager.read(101).unwrap_err(), Error::BadOffset);
    assert_eq!(pager.read(0).unwrap_err(), Error::BadOffset);
    assert_eq!(pager.read(100 + 4096).unwrap_err(), Error::BadOffset);
    assert_eq!(pager.write_at(&node, 101), Err(Error::BadOffset));
    assert!(pager.page_bytes(101).is_none());
    assert!(pager.page_bytes(100).is_some());
}

#[test]
fn a_node_longer_than_a_page_is_refused() {
    let mut pager = Pager::new(0);
    let small = leaf(&["a"], &["1"], None);
    pager.write(&small).unwrap();
    let big = Node::Leaf(LeafNode { keys: vec![vec![1u8; 4096]], values: vec![vec![]], offset: None });
    assert_eq!(pager.write(&big), Err(Error::OversizedNode));
    assert_eq!(pager.write_at(&big, 0), Err(Error::OversizedNode));
    // nothing was written
    assert_eq!(pager.next_offset(), 4096);
    assert!(same(&pager.read(0).unwrap(), &small));
    // the largest key that still fits: 4096 bytes less the 9 of the rest of the record
    let fitting = Node::Leaf(LeafNode { keys: vec![vec![1u8; 4087]], values: vec![vec![]], offset: None });
    assert_eq!(encode_node(&fitting).unwrap().len(), 4096);
    assert_eq!(pager.write_at(&fitting, 0), Ok(()));
    assert!(same(&pager.read(0).unwrap(), &fitting));
    let over = Node::Leaf(LeafNode { keys: vec![vec![1u8; 4088]], values: vec![vec![]], offset: None });
    assert_eq!(pager.write_at(&over, 0), Err(Error::OversizedNode));
}

#[test]
fn the_cursor_stops_at_the_end_of_the_address_space() {
    let mut pager = Pager::new(usize::MAX - 5000);
    let node = leaf(&["a"], &["1"], None);
    assert_eq!(pager.write(&node), Ok(usize::MAX - 5000));
    assert_eq!(pager.write(&node), Err(Error::Full));
    assert_eq!(pager.next_offset(), usize::MAX - 5000 + 4096);
}

#[test]
fn a_pair_of_writes_stops_at_the_first_refusal() {
    let mut pager = Pager::new(0);
    let a = leaf(&["a"], &["1"], None);
    let b = leaf(&["b"], &["2"], None);
    pager.write(&a).unwrap();
    pager.write(&a).unwrap();
    assert_eq!(write_pair(&mut pager, &b, 0, &b, 4096), Ok(()));
    assert!(same(&pager.read(0).unwrap(), &b));
    assert!(same(&pager.read(4096).unwrap(), &b));
    assert_eq!(write_pair(&mut pager, &a, 0, &a, 5), Err(Error::BadOffset));
    assert!(same(&pager.read(0).unwrap(), &a));
    assert!(same(&pager.read(4096).unwrap(), &b));
    assert_eq!(write_pair(&mut pager, &b, 7, &a, 4096), Err(Error::BadOffset));
    assert!(same(&pager.read(0).unwrap(), &a));
    assert!(same(&pager.read(4096).unwrap(), &b));
}
