use nexmark_state::encoding::{
    encode_ordered_u64, prefix_ordered_key, decode_records, decode_u64, encode_name, encode_records, encode_u64, merge_numbers,
    merge_vectors, prefix_key,
};

#[test]
fn u64_is_eight_little_endian_bytes() {
    assert_eq!(encode_u64(1), vec![1, 0, 0, 0, 0, 0, 0, 0]);
    assert_eq!(encode_u64(0x0102), vec![2, 1, 0, 0, 0, 0, 0, 0]);
    assert_eq!(decode_u64(&[2, 1, 0, 0, 0, 0, 0, 0, 9]), Some(0x0102));
    assert_eq!(decode_u64(&[2, 1, 0]), None);
}

#[test]
fn names_prefix_keys() {
    let name = encode_name("ab");
    assert_eq!(name, vec![2, 0, 0, 0, 0, 0, 0, 0, b'a', b'b']);
    assert_eq!(
        prefix_key(&name, 5),
        vec![2, 0, 0, 0, 0, 0, 0, 0, b'a', b'b', 5, 0, 0, 0, 0, 0, 0, 0]
    );
}

#[test]
fn records_round_trip() {
    let v = vec![(7, 500), (9, 2500)];
    let b = encode_records(&v);
    assert_eq!(b.len(), 8 + 32);
    assert_eq!(decode_records(&b), Some(v));
    assert_eq!(decode_records(&b[..20]), None);
}

#[test]
fn merge_numbers_adds() {
    let stored = 1337i64.to_le_bytes().to_vec();
    let ops = vec![10i64.to_le_bytes().to_vec(), (-7i64).to_le_bytes().to_vec()];
    assert_eq!(merge_numbers(Some(&stored), &ops), Some(1340i64.to_le_bytes().to_vec()));
    assert_eq!(merge_numbers(None, &ops), Some(3i64.to_le_bytes().to_vec()));
    assert_eq!(merge_numbers(None, &vec![vec![1, 2]]), None);
    let max = i64::MAX.to_le_bytes().to_vec();
    assert_eq!(merge_numbers(Some(&max), &vec![1i64.to_le_bytes().to_vec()]), None);
}

#[test]
fn merge_vectors_appends() {
    let stored = encode_records(&vec![(1, 10)]);
    let ops = vec![encode_records(&vec![(2, 20)]), encode_records(&vec![(3, 30), (4, 40)])];
    assert_eq!(
        merge_vectors(Some(&stored), &ops),
        Some(encode_records(&vec![(1, 10), (2, 20), (3, 30), (4, 40)]))
    );
    assert_eq!(merge_vectors(None, &vec![]), Some(encode_records(&vec![])));
    assert_eq!(merge_vectors(None, &vec![vec![1]]), None);
}

#[test]
fn ordered_keys_sort_like_numbers() {
    assert_eq!(encode_ordered_u64(0x0102), vec![0, 0, 0, 0, 0, 0, 1, 2]);
    let mut keys = vec![256u64, 1, 65536, 255, 0, u64::MAX];
    let mut encoded: Vec<Vec<u8>> = keys.iter().map(|k| encode_ordered_u64(*k)).collect();
    keys.sort();
    encoded.sort();
    let expected: Vec<Vec<u8>> = keys.iter().map(|k| encode_ordered_u64(*k)).collect();
    assert_eq!(encoded, expected);
}

#[test]
fn named_ordered_keys_sort_like_numbers() {
    let name = encode_name("w");
    let a = prefix_ordered_key(&name, 255);
    let b = prefix_ordered_key(&name, 256);
    assert_eq!(a, vec![1, 0, 0, 0, 0, 0, 0, 0, b'w', 0, 0, 0, 0, 0, 0, 0, 255]);
    assert!(a < b);
}
