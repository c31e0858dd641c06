use bptree::key::compare;
use bptree::key::find;
use bptree::key::KeyOrder;

fn bytes(text: &str) -> Vec<u8> {
    text.as_bytes().to_vec()
}

#[test]
fn keys_compare_byte_by_byte() {
    assert_eq!(compare(&bytes("a"), &bytes("b")), KeyOrder::Less);
    assert_eq!(compare(&bytes("b"), &bytes("a")), KeyOrder::Greater);
    assert_eq!(compare(&bytes("abc"), &bytes("abc")), KeyOrder::Equal);
    assert_eq!(compare(&bytes(""), &bytes("")), KeyOrder::Equal);
    // a prefix comes first
    assert_eq!(compare(&bytes(""), &bytes("a")), KeyOrder::Less);
    assert_eq!(compare(&bytes("ab"), &bytes("abc")), KeyOrder::Less);
    assert_eq!(compare(&bytes("abc"), &bytes("ab")), KeyOrder::Greater);
    // the first difference decides, whatever the lengths
    assert_eq!(compare(&bytes("b"), &bytes("abc")), KeyOrder::Greater);
    assert_eq!(compare(&bytes("10"), &bytes("9")), KeyOrder::Less);
    // bytes compare unsigned
    assert_eq!(compare(&vec![0x7f], &vec![0x80]), KeyOrder::Less);
    assert_eq!(compare(&vec![0xff], &vec![0x00, 0xff]), KeyOrder::Greater);
}

#[test]
fn keys_order_as_byte_slices_do() {
    let samples: Vec<Vec<u8>> = vec![
        vec![],
        vec![0],
        vec![0, 0],
        vec![0, 1],
        vec![1],
        vec![1, 0],
        vec![127],
        vec![128],
        vec![255],
        vec![255, 255],
        bytes("0005"),
        bytes("0010"),
        bytes("2000"),
    ];
    for a in &samples {
        for b in &samples {
            let expected = match a.cmp(b) {
                std::cmp::Ordering::Less => KeyOrder::Less,
                std::cmp::Ordering::Equal => KeyOrder::Equal,
                std::cmp::Ordering::Greater => KeyOrder::Greater,
            };
            assert_eq!(compare(a, b), expected);
        }
    }
}

#[test]
fn find_gives_the_rank_and_whether_the_key_stands_there() {
    let keys = vec![bytes("b"), bytes("d"), bytes("f")];
    assert_eq!(find(&keys, &bytes("a")), (0, false));
    assert_eq!(find(&keys, &bytes("b")), (0, true));
    assert_eq!(find(&keys, &bytes("c")), (1, false));
    assert_eq!(find(&keys, &bytes("d")), (1, true));
    assert_eq!(find(&keys, &bytes("e")), (2, false));
    assert_eq!(find(&keys, &bytes("f")), (2, true));
    assert_eq!(find(&keys, &bytes("g")), (3, false));
    assert_eq!(find(&keys, &bytes("")), (0, false));
    assert_eq!(find(&keys, &bytes("bb")), (1, false));
    let none: Vec<Vec<u8>> = vec![];
    assert_eq!(find(&none, &bytes("a")), (0, false));
}

#[test]
fn find_agrees_with_binary_search_on_long_runs() {
    let keys: Vec<Vec<u8>> = (0..500u32).map(|i| bytes(&format!("{:04}", 2 * i))).collect();
    for i in 0..1001u32 {
        let key = bytes(&format!("{:04}", i));
        let expected = match keys.binary_search(&key) {
            Ok(at) => (at, true),
            Err(at) => (at, false),
        };
        assert_eq!(find(&keys, &key), expected);
    }
}
