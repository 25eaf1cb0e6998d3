use pow_miner::miner::{MineError, Miner, Worker};
use pow_miner::uint256::U256;
use pow_miner::utils::{digest_ok, num_0s, read_contract, take_first_count, UintRange};

/// The 68-byte call input with the variable candidate slot still zeroed.
fn calldata_prefix(first: &U256) -> Vec<u8> {
    let mut calldata = vec![0x07u8, 0x1e, 0x95, 0x03];
    calldata.extend_from_slice(&first.to_be_bytes());
    calldata.extend_from_slice(&[0u8; 32]);
    calldata
}

/// A synthetic evaluation primitive: an all-zero digest for one known
/// candidate, a hopeless digest for every other.
fn synth_digest(c: &U256, winner: &U256) -> Vec<u8> {
    if c == winner {
        vec![0u8; 32]
    } else {
        vec![0xffu8; 32]
    }
}

#[test]
fn invalid_difficulty_is_rejected() {
    let miner = Miner::new();
    let r = miner.mine(65, U256::from_u64(1));
    assert_eq!(r, Err(MineError::InvalidDifficulty));
}

#[test]
fn broken_program_aborts_the_search() {
    // a single INVALID opcode: every evaluation halts, which is fatal
    let worker = Worker::new(vec![0xfe]);
    let calldata = calldata_prefix(&U256::from_u64(3));
    let r = worker.work(&calldata, U256::from_u64(0), &num_0s(0), 0);
    assert_eq!(r, Err(MineError::Evaluation));
}

#[test]
fn scenario_zero_difficulty_succeeds_immediately() {
    let miner = Miner::new();
    let first = U256::from_u64(1);
    let (c, d) = miner
        .mine(0, first)
        .expect("evaluation works")
        .expect("difficulty zero always finds a winner");
    // the very first candidate of the domain wins
    assert_eq!(c, U256::zero());
    assert_eq!(d.len(), 32);
    assert!(digest_ok(&d, &num_0s(0), take_first_count(0)));
    // the digest is the hash of the two 32-byte values, as the fixed
    // program computes it
    let mut preimage = first.to_be_bytes();
    preimage.extend_from_slice(&c.to_be_bytes());
    let expect = revm::primitives::keccak256(&preimage);
    assert_eq!(d.as_slice(), expect.as_slice());
}

#[test]
fn determinism_across_worker_instances() {
    let code = read_contract();
    let w1 = Worker::new(code.clone());
    let w2 = Worker::new(code);
    let calldata = calldata_prefix(&U256::from_u64(77));
    let candidate = U256::from_u64(123456);
    let t = num_0s(0);
    let r1 = w1.work(&calldata, candidate, &t, 0).unwrap().unwrap();
    let r2 = w2.work(&calldata, candidate, &t, 0).unwrap().unwrap();
    let r3 = w2.work(&calldata, candidate, &t, 0).unwrap().unwrap();
    assert_eq!(r1.0, candidate);
    assert_eq!(r1.1, r2.1);
    assert_eq!(r2.1, r3.1);
}

#[test]
fn scenario_bounded_subrange_sequential_and_parallel() {
    let miner = Miner::new();
    let first = U256::from_u64(42);
    let end = U256::from_u64(2048);

    let seq = miner
        .mine_range(1, first, UintRange::new(U256::zero(), end))
        .expect("evaluation works")
        .expect("a winner in the sub-range");

    let (left, right) = UintRange::new(U256::zero(), end).split();
    let right = right.expect("a non-empty interval splits");
    let (a, b) = rayon::join(
        || miner.mine_range(1, first, left),
        || miner.mine_range(1, first, right),
    );
    let par = a
        .expect("evaluation works")
        .or(b.expect("evaluation works"))
        .expect("a winner in one half");

    // both winners independently satisfy the predicate when re-checked;
    // they need not be the same candidate
    let t = num_0s(1);
    let k = take_first_count(1);
    assert!(digest_ok(&seq.1, &t, k));
    assert!(digest_ok(&par.1, &t, k));
}

#[test]
fn scenario_full_difficulty_synthetic_primitive() {
    // only an all-zero digest passes 64 zero nibbles; the synthetic
    // primitive grants it to exactly one known candidate
    let winner = U256::from_u64(100);
    let t = num_0s(64);
    let k = take_first_count(64);
    let mut range = UintRange::new(U256::from_u64(95), U256::from_u64(106));
    let mut found = None;
    while let Some(c) = range.next() {
        let d = synth_digest(&c, &winner);
        if digest_ok(&d, &t, k) {
            found = Some((c, d));
            break;
        }
    }
    let (c, d) = found.expect("the known candidate wins");
    assert_eq!(c, winner);
    assert_eq!(d, vec![0u8; 32]);
}

#[test]
fn cancellation_keeps_evaluation_count_bounded() {
    let winner = U256::from_u64(700);
    let t = num_0s(64);
    let k = take_first_count(64);
    let mut range = UintRange::new(U256::zero(), U256::from_u64(1000));
    let mut evaluations: u64 = 0;
    let mut found = None;
    while let Some(c) = range.next() {
        evaluations += 1;
        let d = synth_digest(&c, &winner);
        if digest_ok(&d, &t, k) {
            found = Some(c);
            break;
        }
    }
    assert_eq!(found, Some(winner));
    // the search stops at the winner instead of draining the range
    assert_eq!(evaluations, 701);
    assert!(evaluations < 1000);
}
