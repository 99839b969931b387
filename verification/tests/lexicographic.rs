use supervisor_schema::lexicographic::{compare_bytes, locate, Order};

#[test]
fn compare_bytes_orders_lexicographically() {
    assert_eq!(compare_bytes(b"", b""), Order::Equal);
    assert_eq!(compare_bytes(b"", b"a"), Order::Less);
    assert_eq!(compare_bytes(b"a", b""), Order::Greater);
    assert_eq!(compare_bytes(b"ab", b"b"), Order::Less);
    assert_eq!(compare_bytes(b"abc", b"abd"), Order::Less);
    assert_eq!(compare_bytes(b"abc", b"ab"), Order::Greater);
    assert_eq!(compare_bytes(b"\x00\xff", b"\x01"), Order::Less);
    assert_eq!(compare_bytes(b"same", b"same"), Order::Equal);
}

#[test]
fn compare_bytes_agrees_with_slice_order() {
    let samples: [&[u8]; 6] = [b"", b"a", b"ab", b"b", b"\xff", b"a\x00"];
    for a in samples {
        for b in samples {
            let expected = match a.cmp(b) {
                std::cmp::Ordering::Less => Order::Less,
                std::cmp::Ordering::Equal => Order::Equal,
                std::cmp::Ordering::Greater => Order::Greater,
            };
            assert_eq!(compare_bytes(a, b), expected);
        }
    }
}

#[test]
fn locate_finds_or_places() {
    let items = vec![b"b".to_vec(), b"d".to_vec(), b"f".to_vec()];
    assert_eq!(locate(&items, b"d"), (true, 1));
    assert_eq!(locate(&items, b"a"), (false, 0));
    assert_eq!(locate(&items, b"c"), (false, 1));
    assert_eq!(locate(&items, b"g"), (false, 3));
    assert_eq!(locate(&Vec::new(), b"x"), (false, 0));
}
