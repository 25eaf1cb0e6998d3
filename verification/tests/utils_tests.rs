use pow_miner::uint256::U256;
use pow_miner::utils::{decode_hex, digest_ok, num_0s, read_contract, take_first_count, UintRange};

#[test]
fn threshold_edges() {
    assert_eq!(num_0s(0), vec![0xffu8; 32]);
    assert_eq!(num_0s(64), vec![0x00u8; 32]);
}

#[test]
fn threshold_odd_count() {
    let t = num_0s(5);
    assert_eq!(&t[..2], &[0x00, 0x00][..]);
    assert_eq!(t[2], 0x0f);
    assert_eq!(&t[3..], &[0xffu8; 29][..]);
}

#[test]
fn take_first_is_ceil_of_half() {
    assert_eq!(take_first_count(0), 0);
    assert_eq!(take_first_count(1), 1);
    assert_eq!(take_first_count(5), 3);
    assert_eq!(take_first_count(6), 3);
    assert_eq!(take_first_count(64), 32);
}

#[test]
fn predicate_trivial_at_zero() {
    let t = num_0s(0);
    let d = vec![0xffu8; 32];
    assert!(digest_ok(&d, &t, take_first_count(0)));
}

#[test]
fn predicate_odd_boundary_byte() {
    // at one nibble the boundary byte is compared with <= 0x0f: the low
    // nibble of the boundary byte is free, the high nibble must be zero
    let t = num_0s(1);
    let mut d = vec![0u8; 32];
    d[0] = 0x0f;
    assert!(digest_ok(&d, &t, take_first_count(1)));
    d[0] = 0x10;
    assert!(!digest_ok(&d, &t, take_first_count(1)));
}

#[test]
fn predicate_full_difficulty() {
    let t = num_0s(64);
    assert!(digest_ok(&vec![0u8; 32], &t, take_first_count(64)));
    let mut d = vec![0u8; 32];
    d[31] = 1;
    assert!(!digest_ok(&d, &t, take_first_count(64)));
}

#[test]
fn hex_decoding() {
    assert_eq!(decode_hex("6080ff00"), Some(vec![0x60, 0x80, 0xff, 0x00]));
    assert_eq!(decode_hex(""), Some(vec![]));
    assert_eq!(decode_hex("abc"), None);
    assert_eq!(decode_hex("6g"), None);
    assert_eq!(decode_hex("AbCdEf09"), Some(vec![0xab, 0xcd, 0xef, 0x09]));
}

#[test]
fn contract_bytes_load() {
    let code = read_contract();
    assert_eq!(code.len(), 200);
    assert_eq!(&code[..4], &[0x60, 0x80, 0x60, 0x40][..]);
    assert_eq!(code[code.len() - 1], 0x33);
}

#[test]
fn range_sequential_enumeration() {
    let mut r = UintRange::new(U256::from_u64(3), U256::from_u64(7));
    let mut seen: Vec<U256> = Vec::new();
    while let Some(c) = r.next() {
        seen.push(c);
    }
    let expect: Vec<U256> = (3u64..7).map(U256::from_u64).collect();
    assert_eq!(seen, expect);
}

#[test]
fn range_len_reports_distance() {
    let r = UintRange::new(U256::from_u64(10), U256::from_u64(25));
    assert_eq!(r.len(), U256::from_u64(15));
    let whole = UintRange::full();
    assert_eq!(whole.len(), U256::max_value());
}

#[test]
fn split_partitions_without_gap_or_overlap() {
    let r = UintRange::new(U256::from_u64(0), U256::from_u64(9));
    let (left, right) = r.split();
    let right = right.expect("a non-empty interval splits");
    // ceil(9/2) == 5: left is [0,5), right [5,9)
    let mut all: Vec<U256> = Vec::new();
    let mut l = left;
    while let Some(c) = l.next() {
        all.push(c);
    }
    assert_eq!(all.len(), 5);
    let mut rr = right;
    while let Some(c) = rr.next() {
        all.push(c);
    }
    let expect: Vec<U256> = (0u64..9).map(U256::from_u64).collect();
    assert_eq!(all, expect);
}

#[test]
fn split_of_singleton_and_empty() {
    let (mut left, right) = UintRange::new(U256::from_u64(4), U256::from_u64(5)).split();
    let mut right = right.expect("a singleton splits into itself and an empty piece");
    assert_eq!(left.next(), Some(U256::from_u64(4)));
    assert_eq!(left.next(), None);
    assert_eq!(right.next(), None);

    let (mut only, none) = UintRange::new(U256::from_u64(4), U256::from_u64(4)).split();
    assert!(none.is_none());
    assert_eq!(only.next(), None);
}
