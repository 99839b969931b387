use sha2::{Digest, Sha256};
use supervisor_schema::binary_set::{BinarySet, KeyDecodeError};

fn frame(item: &[u8]) -> Vec<u8> {
    let mut out = (item.len() as u64).to_le_bytes().to_vec();
    out.extend_from_slice(item);
    out
}

#[test]
fn test_validator_values_binary_value() {
    let mut set = BinarySet::default();
    let data = vec![
        b"abacaba1224634abcfdfdfca353".to_vec(),
        b"abacaba1224634abcfdfdfca353ee2224774".to_vec(),
    ];
    set.insert(data[1].clone());
    set.insert(data[0].clone());
    assert_eq!(set.len(), 2);

    let bytes = set.clone().into_bytes();
    let set2 = BinarySet::from_bytes(&bytes);
    assert_eq!(set, set2);
}

#[test]
fn new_and_default_are_empty() {
    let a = BinarySet::new();
    let b = BinarySet::default();
    assert_eq!(a.len(), 0);
    assert_eq!(a, b);
    assert_eq!(a.to_bytes(), Vec::<u8>::new());
}

#[test]
fn insert_reports_new_elements_only() {
    let mut set = BinarySet::new();
    assert!(set.insert(b"b".to_vec()));
    assert!(set.insert(b"a".to_vec()));
    assert!(!set.insert(b"b".to_vec()));
    assert_eq!(set.len(), 2);
    assert!(set.contains(b"a"));
    assert!(set.contains(b"b"));
    assert!(!set.contains(b"c"));
    assert!(!set.contains(b""));
}

#[test]
fn elements_come_in_lexicographic_order() {
    let mut set = BinarySet::new();
    for item in [&b"b"[..], b"ab", b"", b"a", b"ba", b"\xff", b"a"] {
        set.insert(item.to_vec());
    }
    let expected: Vec<Vec<u8>> = vec![
        b"".to_vec(),
        b"a".to_vec(),
        b"ab".to_vec(),
        b"b".to_vec(),
        b"ba".to_vec(),
        b"\xff".to_vec(),
    ];
    assert_eq!(set.elements(), &expected);
}

#[test]
fn encoding_is_sorted_length_prefixed_frames() {
    let mut set = BinarySet::new();
    set.insert(b"xyz".to_vec());
    set.insert(b"ab".to_vec());
    let bytes = set.to_bytes();
    let mut expected = Vec::new();
    expected.extend_from_slice(&[2, 0, 0, 0, 0, 0, 0, 0]);
    expected.extend_from_slice(b"ab");
    expected.extend_from_slice(&[3, 0, 0, 0, 0, 0, 0, 0]);
    expected.extend_from_slice(b"xyz");
    assert_eq!(bytes, expected);
}

#[test]
fn long_element_length_uses_several_prefix_bytes() {
    let item = vec![7u8; 300];
    let mut set = BinarySet::new();
    set.insert(item.clone());
    let bytes = set.to_bytes();
    assert_eq!(&bytes[..8], &[44, 1, 0, 0, 0, 0, 0, 0]);
    assert_eq!(bytes.len(), 308);
    let back = BinarySet::from_bytes(&bytes);
    assert_eq!(back.elements(), &vec![item]);
}

#[test]
fn decoding_sorts_and_drops_repeats() {
    let mut bytes = Vec::new();
    bytes.extend(frame(b"zeta"));
    bytes.extend(frame(b"alpha"));
    bytes.extend(frame(b"zeta"));
    bytes.extend(frame(b""));
    let set = BinarySet::from_bytes(&bytes);
    assert_eq!(set.len(), 3);
    assert_eq!(
        set.elements(),
        &vec![b"".to_vec(), b"alpha".to_vec(), b"zeta".to_vec()]
    );
    let mut canonical = Vec::new();
    canonical.extend(frame(b""));
    canonical.extend(frame(b"alpha"));
    canonical.extend(frame(b"zeta"));
    assert_eq!(set.to_bytes(), canonical);
}

#[test]
fn decoding_empty_input_gives_empty_set() {
    let set = BinarySet::from_bytes(&[]);
    assert_eq!(set.len(), 0);
}

#[test]
fn canonical_bytes_reencode_identically() {
    let mut bytes = Vec::new();
    bytes.extend(frame(b"a"));
    bytes.extend(frame(b"b"));
    bytes.extend(frame(b"c"));
    assert_eq!(BinarySet::from_bytes(&bytes).to_bytes(), bytes);
}

#[test]
fn roundtrip_keeps_the_set() {
    let mut set = BinarySet::new();
    for i in 0u8..20 {
        set.insert(vec![i % 7, i]);
    }
    let back = BinarySet::from_bytes(&set.to_bytes());
    assert_eq!(back, set);
}

#[test]
fn encoding_does_not_depend_on_insertion_order() {
    let mut a = BinarySet::new();
    let mut b = BinarySet::new();
    for item in [&b"one"[..], b"two", b"three"] {
        a.insert(item.to_vec());
    }
    for item in [&b"three"[..], b"one", b"two", b"one"] {
        b.insert(item.to_vec());
    }
    assert_eq!(a.to_bytes(), b.to_bytes());
    assert_eq!(a.object_hash(), b.object_hash());
}

#[test]
fn object_hash_is_sha256_of_encoding() {
    let mut set = BinarySet::new();
    set.insert(b"key".to_vec());
    let bytes = set.to_bytes();
    let expected: [u8; 32] = Sha256::digest(&bytes).into();
    assert_eq!(set.object_hash().as_bytes(), expected);
    let unframed: [u8; 32] = Sha256::digest(b"key").into();
    assert_ne!(set.object_hash().as_bytes(), unframed);
}

#[test]
fn empty_set_hash_is_sha256_of_nothing() {
    let expected: [u8; 32] = Sha256::digest(b"").into();
    assert_eq!(BinarySet::new().object_hash().as_bytes(), expected);
    assert_eq!(
        expected[..4],
        [0xe3, 0xb0, 0xc4, 0x42]
    );
}

#[test]
fn clone_is_equal() {
    let mut set = BinarySet::new();
    set.insert(b"q".to_vec());
    let copy = set.clone();
    assert_eq!(copy, set);
    assert_eq!(copy.to_bytes(), set.to_bytes());
}

#[test]
fn sets_order_by_their_sorted_elements() {
    let mut a = BinarySet::new();
    a.insert(b"b".to_vec());
    a.insert(b"a".to_vec());
    let mut b = BinarySet::new();
    b.insert(b"a".to_vec());
    b.insert(b"c".to_vec());
    assert!(a < b);
    assert_eq!(a.cmp(&a.clone()), std::cmp::Ordering::Equal);
}

#[test]
fn key_sets_decode_when_every_element_is_a_key() {
    let mut bytes = Vec::new();
    bytes.extend(frame(&[2u8; 32]));
    bytes.extend(frame(&[1u8; 32]));
    let set = BinarySet::from_key_bytes(&bytes).unwrap();
    assert_eq!(set.elements(), &vec![vec![1u8; 32], vec![2u8; 32]]);
    assert_eq!(BinarySet::from_key_bytes(&[]).unwrap().len(), 0);

    let mut bad = Vec::new();
    bad.extend(frame(&[1u8; 32]));
    bad.extend(frame(&[3u8; 31]));
    assert_eq!(
        BinarySet::from_key_bytes(&bad),
        Err(KeyDecodeError::WrongKeyLength)
    );
    assert_eq!(
        BinarySet::from_key_bytes(&frame(&[0u8; 33])),
        Err(KeyDecodeError::WrongKeyLength)
    );
}
