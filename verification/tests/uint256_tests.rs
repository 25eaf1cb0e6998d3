use pow_miner::uint256::U256;

#[test]
fn from_u64_and_bytes() {
    let v = U256::from_u64(0x0102030405060708);
    let b = v.to_be_bytes();
    assert_eq!(b.len(), 32);
    assert_eq!(&b[..24], &[0u8; 24][..]);
    assert_eq!(&b[24..], &[1, 2, 3, 4, 5, 6, 7, 8][..]);
}

#[test]
fn bytes_of_multi_word_value() {
    let v = U256::from_words(0xaabbccdd00112233, 0, 0xffee000000000000, 7);
    let b = v.to_be_bytes();
    assert_eq!(&b[0..8], &[0xaa, 0xbb, 0xcc, 0xdd, 0x00, 0x11, 0x22, 0x33][..]);
    assert_eq!(&b[8..16], &[0u8; 8][..]);
    assert_eq!(&b[16..24], &[0xff, 0xee, 0, 0, 0, 0, 0, 0][..]);
    assert_eq!(&b[24..32], &[0, 0, 0, 0, 0, 0, 0, 7][..]);
}

#[test]
fn incr_carries_across_words() {
    let v = U256::from_words(0, 0, 0, u64::MAX);
    let w = v.incr();
    assert_eq!(w, U256::from_words(0, 0, 1, 0));
    let x = U256::from_words(0, u64::MAX, u64::MAX, u64::MAX).incr();
    assert_eq!(x, U256::from_words(1, 0, 0, 0));
}

#[test]
fn sub_borrows_across_words() {
    let a = U256::from_words(0, 0, 1, 0);
    let b = U256::from_u64(1);
    let d = a.sub(&b);
    assert_eq!(d, U256::from_words(0, 0, 0, u64::MAX));
}

#[test]
fn add_carries_across_words() {
    let a = U256::from_words(0, 0, 0, u64::MAX);
    let b = U256::from_u64(5);
    assert_eq!(a.add(&b), U256::from_words(0, 0, 1, 4));
}

#[test]
fn half_ceil_rounds_up() {
    assert_eq!(U256::from_u64(9).half_ceil(), U256::from_u64(5));
    assert_eq!(U256::from_u64(8).half_ceil(), U256::from_u64(4));
    assert_eq!(U256::from_u64(0).half_ceil(), U256::from_u64(0));
    // an odd high word pushes its low bit into the next word
    let v = U256::from_words(0, 0, 3, 0);
    assert_eq!(v.half_ceil(), U256::from_words(0, 0, 1, 0x8000000000000000));
}

#[test]
fn lt_compares_by_value() {
    let small = U256::from_words(0, 0, 0, u64::MAX);
    let big = U256::from_words(0, 0, 1, 0);
    assert!(small.lt(&big));
    assert!(!big.lt(&small));
    assert!(!big.lt(&big));
    assert!(U256::zero().lt(&U256::max_value()));
}
