//! The search coordinator and the per-candidate evaluator.
//!
//! A `Miner` owns the fixed program bytes; `mine` derives the difficulty
//! threshold, prefetches the invariant 36-byte call-input prefix, and
//! steps through the candidate domain, evaluating one candidate at a
//! time. A `Worker` evaluates a single candidate: it fills the variable
//! last 32 bytes of the call input, runs the program, and classifies the
//! digest.

use vstd::prelude::*;
use crate::uint256::{U256, u256_max, lemma_as_int_injective};
use crate::utils::{
    UintRange, num_0s, take_first_count, digest_ok, digest_meets, threshold_seq, read_contract,
    contract_code,
};
use revm::{ExecuteEvm, MainBuilder, MainContext};

verus! {

/// The search failed to run: the difficulty is out of range, or the
/// evaluation primitive broke, which aborts the whole run.
#[derive(Clone, Copy, Debug, PartialEq, Eq, Structural)]
pub enum MineError {
    /// The requested nibble count exceeds the 64 nibbles of a digest.
    InvalidDifficulty,
    /// The evaluation primitive failed or returned a malformed digest.
    Evaluation,
}

/// The 4-byte selector of the fixed program's entry point, as embedded in
/// its dispatcher.
pub open spec fn selector_seq() -> Seq<u8> {
    seq![0x07u8, 0x1eu8, 0x95u8, 0x03u8]
}

/// The call input for one evaluation: selector, first value, candidate,
/// each in its fixed-width big-endian slot.
pub open spec fn call_input(first: U256, second: U256) -> Seq<u8> {
    selector_seq() + first.be_bytes() + second.be_bytes()
}

/// What the evaluation primitive yields on the given program and call
/// input: the call's output bytes, or nothing when the program reverts,
/// halts or the engine errors. The execution is deterministic, so this is
/// a function of the program and input alone.
pub uninterp spec fn evm_outcome(code: Seq<u8>, input: Seq<u8>) -> Option<Seq<u8>>;

/// The digest a candidate produces, when the primitive yields a
/// well-formed 32-byte one.
pub open spec fn candidate_digest(code: Seq<u8>, first: U256, second: U256) -> Option<Seq<u8>> {
    match evm_outcome(code, call_input(first, second)) {
        Some(d) => if d.len() == 32 {
            Some(d)
        } else {
            None
        },
        None => None,
    }
}

/// The candidate was evaluated cleanly and its digest misses the
/// difficulty target of `n` leading zero nibbles.
pub open spec fn candidate_fails(code: Seq<u8>, first: U256, second: U256, n: int) -> bool {
    match candidate_digest(code, first, second) {
        Some(d) => !digest_meets(d, threshold_seq(n), (n + 1) / 2),
        None => false,
    }
}

/// Relies on revm's mainnet EVM (`Context::mainnet`, `transact_one` over a
/// `BenchmarkDB` holding the program): executing the given legacy bytecode
/// on the given calldata, with every other part of the environment fixed,
/// is deterministic, so the outcome is a function of code and input alone.
/// Yields the call's output on success and nothing on any revert, halt or
/// engine error.
#[verifier::external_body]
fn evm_call(code: &Vec<u8>, input: &Vec<u8>) -> (r: Option<Vec<u8>>)
    ensures
        (match r {
            Some(d) => evm_outcome(code@, input@) == Some(d@),
            None => evm_outcome(code@, input@) is None,
        }),
{
    let bytecode = revm::bytecode::Bytecode::new_legacy(code.clone().into());
    let db = revm::database::BenchmarkDB::new_bytecode(bytecode);
    let mut evm = revm::Context::mainnet().with_db(db).build_mainnet();
    let mut tx = revm::context::TxEnv::new_bench();
    tx.gas_limit = 16_777_216;
    tx.data = input.clone().into();
    match evm.transact_one(tx) {
        Ok(revm::context::result::ExecutionResult::Success {
            output: revm::context::result::Output::Call(bytes),
            ..
        }) => Some(bytes.to_vec()),
        _ => None,
    }
}

/// Evaluates candidates: holds the program bytes and derives each
/// candidate's call input from the shared prefix.
pub struct Worker {
    code: Vec<u8>,
}

impl Worker {
    /// The program this worker evaluates.
    pub closed spec fn code_bytes(self) -> Seq<u8> {
        self.code@
    }

    pub fn new(contract_bytecode: Vec<u8>) -> (r: Self)
        ensures
            r.code_bytes() == contract_bytecode@,
    {
        Worker { code: contract_bytecode }
    }

    /// Evaluates one candidate: overwrites the variable last 32 bytes of
    /// the prefetched call input with the candidate, runs the program, and
    /// tests the digest against the threshold. Yields the winning pair, a
    /// miss, or the fatal evaluation error.
    pub fn work(
        &self,
        calldata: &Vec<u8>,
        second_nonce: U256,
        max_hash: &Vec<u8>,
        take_first: usize,
    ) -> (r: Result<Option<(U256, Vec<u8>)>, MineError>)
        requires
            calldata@.len() == 68,
            max_hash@.len() == 32,
            take_first <= 32,
        ensures
            (match r {
                Ok(Some((c, d))) => {
                    &&& c == second_nonce
                    &&& evm_outcome(self.code_bytes(), calldata@.take(36) + second_nonce.be_bytes())
                        == Some(d@)
                    &&& d@.len() == 32
                    &&& digest_meets(d@, max_hash@, take_first as int)
                },
                Ok(None) => (match evm_outcome(
                    self.code_bytes(),
                    calldata@.take(36) + second_nonce.be_bytes(),
                ) {
                    Some(d) => d.len() == 32 && !digest_meets(d, max_hash@, take_first as int),
                    None => false,
                }),
                Err(e) => e == MineError::Evaluation && (match evm_outcome(
                    self.code_bytes(),
                    calldata@.take(36) + second_nonce.be_bytes(),
                ) {
                    Some(d) => d.len() != 32,
                    None => true,
                }),
            }),
    {
        let mut input: Vec<u8> = Vec::new();
        let mut i: usize = 0;
        while i < 36
            invariant
                i <= 36,
                calldata@.len() == 68,
                input@ == calldata@.take(i as int),
            decreases 36 - i,
        {
            proof {
                assert(calldata@.take(i + 1) =~= calldata@.take(i as int) + seq![calldata@[i as int]]);
            }
            input.push(calldata[i]);
            i = i + 1;
        }
        let mut tail = second_nonce.to_be_bytes();
        input.append(&mut tail);
        match evm_call(&self.code, &input) {
            None => Err(MineError::Evaluation),
            Some(d) => {
                if d.len() != 32 {
                    return Err(MineError::Evaluation);
                }
                if digest_ok(&d, max_hash, take_first) {
                    Ok(Some((second_nonce, d)))
                } else {
                    Ok(None)
                }
            },
        }
    }
}

/// Owns the fixed program and drives the search.
pub struct Miner {
    contract_bytecode: Vec<u8>,
}

impl Miner {
    /// The program the search evaluates.
    pub closed spec fn code_bytes(self) -> Seq<u8> {
        self.contract_bytecode@
    }

    pub fn new() -> (r: Self)
        ensures
            r.code_bytes() == contract_code(),
    {
        Miner { contract_bytecode: read_contract() }
    }

    /// Searches the whole candidate domain for a value whose digest meets
    /// the difficulty target, lowest candidate first.
    ///
    /// Succeeds with the lowest winning candidate and its digest; yields
    /// nothing once the domain is exhausted without a winner; aborts with
    /// the first evaluation failure. Every candidate below a winner, and
    /// every candidate of an exhausted domain, was evaluated cleanly and
    /// missed the target.
    pub fn mine(&self, leading_zeros: usize, first_nonce: U256) -> (r: Result<
        Option<(U256, Vec<u8>)>,
        MineError,
    >)
        ensures
            (r == Err::<Option<(U256, Vec<u8>)>, MineError>(MineError::InvalidDifficulty)) <==> leading_zeros > 64,
            (match r {
                Ok(Some((c, d))) => {
                    &&& 0 <= c.as_int() < u256_max()
                    &&& candidate_digest(self.code_bytes(), first_nonce, c) == Some(d@)
                    &&& digest_meets(d@, threshold_seq(leading_zeros as int), (leading_zeros + 1) as int / 2)
                    &&& forall|x: U256| 0 <= x.as_int() < c.as_int() ==> candidate_fails(
                        self.code_bytes(), first_nonce, x, leading_zeros as int)
                },
                Ok(None) => forall|x: U256| 0 <= x.as_int() < u256_max() ==> candidate_fails(
                    self.code_bytes(), first_nonce, x, leading_zeros as int),
                Err(e) => e == MineError::InvalidDifficulty || exists|x: U256|
                    {
                        &&& 0 <= x.as_int() < u256_max()
                        &&& candidate_digest(self.code_bytes(), first_nonce, x) is None
                        &&& forall|y: U256| 0 <= y.as_int() < x.as_int() ==> candidate_fails(
                            self.code_bytes(), first_nonce, y, leading_zeros as int)
                    },
            }),
    {
        self.mine_range(leading_zeros, first_nonce, UintRange::full())
    }

    /// Searches one interval of the candidate domain, lowest candidate
    /// first: the sequential search used on a bounded sub-range, or on a
    /// split-off piece of the domain.
    pub fn mine_range(&self, leading_zeros: usize, first_nonce: U256, range: UintRange) -> (r:
        Result<Option<(U256, Vec<u8>)>, MineError>)
        requires
            range.wf(),
        ensures
            (r == Err::<Option<(U256, Vec<u8>)>, MineError>(MineError::InvalidDifficulty)) <==> leading_zeros > 64,
            (match r {
                Ok(Some((c, d))) => {
                    &&& range.start_int() <= c.as_int() < range.end_int()
                    &&& candidate_digest(self.code_bytes(), first_nonce, c) == Some(d@)
                    &&& digest_meets(d@, threshold_seq(leading_zeros as int), (leading_zeros + 1) as int / 2)
                    &&& forall|x: U256| range.start_int() <= x.as_int() < c.as_int() ==> candidate_fails(
                        self.code_bytes(), first_nonce, x, leading_zeros as int)
                },
                Ok(None) => forall|x: U256| range.start_int() <= x.as_int() < range.end_int()
                    ==> candidate_fails(self.code_bytes(), first_nonce, x, leading_zeros as int),
                Err(e) => e == MineError::InvalidDifficulty || exists|x: U256|
                    {
                        &&& range.start_int() <= x.as_int() < range.end_int()
                        &&& candidate_digest(self.code_bytes(), first_nonce, x) is None
                        &&& forall|y: U256| range.start_int() <= y.as_int() < x.as_int()
                            ==> candidate_fails(self.code_bytes(), first_nonce, y, leading_zeros as int)
                    },
            }),
    {
        if leading_zeros > 64 {
            return Err(MineError::InvalidDifficulty);
        }
        let max_hash = num_0s(leading_zeros);
        let take_first = take_first_count(leading_zeros);

        // The first 36 bytes of the call input are fixed for the whole
        // run; only the last 32 vary per candidate.
        let mut calldata: Vec<u8> = Vec::new();
        calldata.push(0x07);
        calldata.push(0x1e);
        calldata.push(0x95);
        calldata.push(0x03);
        let mut first_bytes = first_nonce.to_be_bytes();
        calldata.append(&mut first_bytes);
        let mut j: usize = 0;
        while j < 32
            invariant
                j <= 32,
                calldata@.len() == 36 + j,
                calldata@.take(36) == selector_seq() + first_nonce.be_bytes(),
            decreases 32 - j,
        {
            proof {
                assert(calldata@.push(0u8).take(36) =~= calldata@.take(36));
            }
            calldata.push(0x00);
            j = j + 1;
        }

        let worker = Worker::new(self.contract_bytecode.clone());
        let mut cur = range;
        loop
            invariant
                worker.code_bytes() == self.code_bytes(),
                cur.wf(),
                cur.end_int() == range.end_int(),
                range.start_int() <= cur.start_int(),
                calldata@.len() == 68,
                calldata@.take(36) == selector_seq() + first_nonce.be_bytes(),
                max_hash@ == threshold_seq(leading_zeros as int),
                max_hash@.len() == 32,
                take_first == (leading_zeros + 1) as int / 2,
                take_first <= 32,
                leading_zeros <= 64,
                forall|x: U256| range.start_int() <= x.as_int() < cur.start_int() ==> candidate_fails(
                    self.code_bytes(), first_nonce, x, leading_zeros as int),
            decreases cur.end_int() - cur.start_int(),
        {
            let c = match cur.next() {
                Some(c) => c,
                None => {
                    return Ok(None);
                },
            };
            proof {
                assert(calldata@.take(36) + c.be_bytes() =~= call_input(first_nonce, c));
            }
            match worker.work(&calldata, c, &max_hash, take_first) {
                Err(_) => {
                    proof {
                        assert(candidate_digest(self.code_bytes(), first_nonce, c) is None);
                    }
                    return Err(MineError::Evaluation);
                },
                Ok(Some(pair)) => {
                    return Ok(Some(pair));
                },
                Ok(None) => {
                    proof {
                        assert forall|x: U256| range.start_int() <= x.as_int() < cur.start_int() implies
                            candidate_fails(self.code_bytes(), first_nonce, x, leading_zeros as int) by {
                            if x.as_int() == c.as_int() {
                                lemma_as_int_injective(x, c);
                            }
                        }
                    }
                },
            }
        }
    }
}

/// Law: evaluation is deterministic. The digest is a function of the
/// program bytes, the first value and the candidate alone, so any two
/// clean evaluations of the same triple, by any worker instances, yield
/// the same digest.
pub proof fn lemma_digest_deterministic(
    code: Seq<u8>,
    first: U256,
    second: U256,
    d1: Seq<u8>,
    d2: Seq<u8>,
)
    requires
        candidate_digest(code, first, second) == Some(d1),
        candidate_digest(code, first, second) == Some(d2),
    ensures
        d1 == d2,
{
}

/// Law: at a difficulty of zero nibbles no byte of the digest is compared,
/// so every digest meets the threshold.
pub proof fn lemma_zero_difficulty_trivial(d: Seq<u8>)
    ensures
        digest_meets(d, threshold_seq(0), 0int),
{
}

/// Law: at a difficulty of zero nibbles no cleanly evaluated candidate can
/// miss the target, so a successful search returns the very first
/// candidate of the domain: it terminates after one evaluation.
pub proof fn lemma_zero_difficulty_first_candidate(code: Seq<u8>, first: U256, c: U256)
    requires
        0 <= c.as_int(),
        forall|x: U256| 0 <= x.as_int() < c.as_int() ==> candidate_fails(code, first, x, 0),
    ensures
        c.as_int() == 0,
{
    if c.as_int() > 0 {
        let z = U256 { w3: 0, w2: 0, w1: 0, w0: 0 };
        assert(z.as_int() == 0);
        assert(candidate_fails(code, first, z, 0));
        assert(false);
    }
}

} // verus!
