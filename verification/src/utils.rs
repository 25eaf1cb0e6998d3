//! The candidate-space partitioner, the difficulty threshold and predicate,
//! and the loader for the fixed program bytes.

use vstd::prelude::*;
use vstd::string::StringSliceAdditionalSpecFns;
use crate::uint256::{U256, u256_max};

verus! {

/// The integers of the half-open interval `[s, e)`, in ascending order.
pub open spec fn interval_seq(s: int, e: int) -> Seq<int>
    decreases e - s,
{
    if s < e {
        seq![s] + interval_seq(s + 1, e)
    } else {
        Seq::empty()
    }
}

/// Law: an interval, cut anywhere, is exactly the two pieces in order:
/// no value is lost, none is duplicated, and the order is kept.
pub proof fn lemma_interval_concat(s: int, m: int, e: int)
    requires
        s <= m <= e,
    ensures
        interval_seq(s, e) == interval_seq(s, m) + interval_seq(m, e),
    decreases m - s,
{
    if s < m {
        lemma_interval_concat(s + 1, m, e);
        assert(interval_seq(s, e) =~= interval_seq(s, m) + interval_seq(m, e));
    } else {
        assert(interval_seq(s, e) =~= interval_seq(s, m) + interval_seq(m, e));
    }
}

/// A half-open interval `[start, end)` over 256-bit unsigned integers.
///
/// It is enumerated one value at a time with [`UintRange::next`] and split
/// on demand with [`UintRange::split`]; the full domain is never
/// materialized.
pub struct UintRange {
    start: U256,
    end: U256,
}

impl UintRange {
    pub closed spec fn start_int(self) -> int {
        self.start.as_int()
    }

    pub closed spec fn end_int(self) -> int {
        self.end.as_int()
    }

    /// The interval never runs backwards.
    pub open spec fn wf(self) -> bool {
        self.start_int() <= self.end_int()
    }

    pub open spec fn len_int(self) -> int {
        self.end_int() - self.start_int()
    }

    /// The values the interval holds, in the order `next` yields them.
    pub open spec fn to_seq(self) -> Seq<int> {
        interval_seq(self.start_int(), self.end_int())
    }

    pub fn new(start: U256, end: U256) -> (r: Self)
        requires
            start.as_int() <= end.as_int(),
        ensures
            r.start_int() == start.as_int(),
            r.end_int() == end.as_int(),
            r.wf(),
    {
        UintRange { start, end }
    }

    /// The whole candidate domain, `[0, 2^256 - 1)`.
    pub fn full() -> (r: Self)
        ensures
            r.start_int() == 0,
            r.end_int() == u256_max(),
            r.wf(),
    {
        UintRange { start: U256::zero(), end: U256::max_value() }
    }

    /// How many values are left.
    pub fn len(&self) -> (r: U256)
        requires
            self.wf(),
        ensures
            r.as_int() == self.len_int(),
    {
        self.end.sub(&self.start)
    }

    /// Yields the lowest remaining value, or nothing once the interval is
    /// exhausted.
    pub fn next(&mut self) -> (r: Option<U256>)
        requires
            old(self).wf(),
        ensures
            final(self).wf(),
            final(self).end_int() == old(self).end_int(),
            match r {
                Some(c) => {
                    &&& c.as_int() == old(self).start_int()
                    &&& old(self).start_int() < old(self).end_int()
                    &&& final(self).start_int() == old(self).start_int() + 1
                    &&& old(self).to_seq() == seq![c.as_int()] + final(self).to_seq()
                },
                None => {
                    &&& old(self).start_int() == old(self).end_int()
                    &&& *final(self) == *old(self)
                    &&& old(self).to_seq() == Seq::<int>::empty()
                },
            },
    {
        if self.start.lt(&self.end) {
            let c = self.start;
            self.start = self.start.incr();
            Some(c)
        } else {
            None
        }
    }

    /// Splits off the upper half for another worker: the retained left part
    /// is `[start, start + ceil(len/2))`, the returned right part the rest.
    /// An empty interval does not split.
    pub fn split(self) -> (r: (Self, Option<Self>))
        requires
            self.wf(),
        ensures
            r.0.wf(),
            match r.1 {
                Some(right) => {
                    &&& self.len_int() > 0
                    &&& right.wf()
                    &&& r.0.start_int() == self.start_int()
                    &&& r.0.end_int() == self.start_int() + (self.len_int() + 1) / 2
                    &&& right.start_int() == r.0.end_int()
                    &&& right.end_int() == self.end_int()
                },
                None => {
                    &&& self.len_int() == 0
                    &&& r.0 == self
                },
            },
    {
        let len = self.end.sub(&self.start);
        let zero = U256::zero();
        if zero.lt(&len) {
            let half = len.half_ceil();
            let mid = self.start.add(&half);
            (
                UintRange { start: self.start, end: mid },
                Some(UintRange { start: mid, end: self.end }),
            )
        } else {
            (self, None)
        }
    }
}

/// Law: a split partitions the enumeration. Enumerating the original
/// interval yields exactly the values of the left part followed by the
/// values of the right part, so recursive splitting covers the original
/// interval with no gap and no overlap.
pub proof fn lemma_split_covers(whole: UintRange, left: UintRange, right: UintRange)
    requires
        left.start_int() == whole.start_int(),
        left.end_int() == right.start_int(),
        right.end_int() == whole.end_int(),
        left.wf(),
        right.wf(),
    ensures
        whole.to_seq() == left.to_seq() + right.to_seq(),
{
    lemma_interval_concat(whole.start_int(), left.end_int(), whole.end_int());
}

/// The threshold byte at position `i` for a difficulty of `n` leading zero
/// nibbles: the first `n` nibbles of the threshold are `0`, the rest `f`.
pub open spec fn threshold_byte(n: int, i: int) -> u8 {
    if 2 * i + 1 < n {
        0x00
    } else if 2 * i < n {
        0x0f
    } else {
        0xff
    }
}

/// The full 32-byte threshold for a difficulty of `n` leading zero nibbles.
pub open spec fn threshold_seq(n: int) -> Seq<u8> {
    Seq::new(32, |i: int| threshold_byte(n, i))
}

/// Builds the 32-byte upper bound whose first `num` hex nibbles are `0` and
/// whose remaining nibbles are `f`.
pub fn num_0s(num: usize) -> (r: Vec<u8>)
    requires
        num <= 64,
    ensures
        r@ == threshold_seq(num as int),
        r@.len() == 32,
{
    let mut out: Vec<u8> = Vec::new();
    let mut i: usize = 0;
    while i < 32
        invariant
            num <= 64,
            i <= 32,
            out@.len() == i,
            forall|j: int| 0 <= j < i ==> out@[j] == threshold_byte(num as int, j),
        decreases 32 - i,
    {
        if 2 * i + 1 < num {
            out.push(0x00);
        } else if 2 * i < num {
            out.push(0x0f);
        } else {
            out.push(0xff);
        }
        i = i + 1;
    }
    proof {
        assert(out@ =~= threshold_seq(num as int));
    }
    out
}

/// How many leading bytes of a digest are compared against the threshold
/// for a difficulty of `n` nibbles: `ceil(n / 2)`.
pub fn take_first_count(n: usize) -> (r: usize)
    requires
        n <= 64,
    ensures
        r == (n + 1) / 2,
{
    (n + n % 2) / 2
}

/// The difficulty predicate: every one of the first `take_first` bytes of
/// the digest is at or below the corresponding threshold byte.
pub open spec fn digest_meets(d: Seq<u8>, t: Seq<u8>, take_first: int) -> bool {
    forall|i: int| 0 <= i < take_first ==> d[i] <= t[i]
}

/// Tests a digest against the threshold over the first `take_first` bytes.
pub fn digest_ok(d: &Vec<u8>, t: &Vec<u8>, take_first: usize) -> (r: bool)
    requires
        take_first <= d@.len(),
        take_first <= t@.len(),
    ensures
        r == digest_meets(d@, t@, take_first as int),
{
    let mut i: usize = 0;
    while i < take_first
        invariant
            i <= take_first,
            take_first <= d@.len(),
            take_first <= t@.len(),
            forall|j: int| 0 <= j < i ==> d@[j] <= t@[j],
        decreases take_first - i,
    {
        if d[i] > t[i] {
            return false;
        }
        i = i + 1;
    }
    true
}

/// Hex nibble `j` of a digest, counted from the most significant end.
pub open spec fn nibble(d: Seq<u8>, j: int) -> u8 {
    if j % 2 == 0 {
        (d[j / 2] / 16) as u8
    } else {
        (d[j / 2] % 16) as u8
    }
}

/// Law: the byte-wise comparison against the threshold, taken over the
/// first `ceil(n/2)` bytes, accepts a digest exactly when its top `n` hex
/// nibbles are all zero. At odd `n` the boundary byte is compared with
/// `<= 0x0f`, which constrains precisely its high nibble and leaves the
/// uncounted low nibble free.
pub proof fn lemma_predicate_iff_zero_nibbles(d: Seq<u8>, n: int)
    requires
        0 <= n <= 64,
        d.len() == 32,
    ensures
        digest_meets(d, threshold_seq(n), (n + 1) / 2) <==> (forall|j: int|
            0 <= j < n ==> nibble(d, j) == 0),
{
    if digest_meets(d, threshold_seq(n), (n + 1) / 2) {
        assert forall|j: int| 0 <= j < n implies nibble(d, j) == 0 by {
            let i = j / 2;
            assert(0 <= i < (n + 1) / 2);
            assert(d[i] <= threshold_seq(n)[i]);
            assert(d[i] == 16 * (d[i] / 16) + d[i] % 16);
        }
    }
    if forall|j: int| 0 <= j < n ==> nibble(d, j) == 0 {
        assert forall|i: int| 0 <= i < (n + 1) / 2 implies d[i] <= threshold_seq(n)[i] by {
            if 2 * i + 1 < n {
                assert(nibble(d, 2 * i) == 0);
                assert(nibble(d, 2 * i + 1) == 0);
                assert((2 * i) / 2 == i && (2 * i + 1) / 2 == i);
                assert(d[i] == 16 * (d[i] / 16) + d[i] % 16);
            } else if 2 * i < n {
                assert(nibble(d, 2 * i) == 0);
                assert((2 * i) / 2 == i);
                assert(d[i] == 16 * (d[i] / 16) + d[i] % 16);
            }
        }
    }
}

/// Whether a byte is an ASCII hex digit.
pub open spec fn is_hex_digit(b: u8) -> bool {
    (48 <= b <= 57) || (97 <= b <= 102) || (65 <= b <= 70)
}

/// The value of an ASCII hex digit.
pub open spec fn hex_val(b: u8) -> int {
    if 48 <= b <= 57 {
        b - 48
    } else if 97 <= b <= 102 {
        b - 97 + 10
    } else {
        b - 65 + 10
    }
}

/// The byte encoded by a pair of hex digits, high nibble first.
pub open spec fn hex_byte(hi: u8, lo: u8) -> u8 {
    (16 * hex_val(hi) + hex_val(lo)) as u8
}

/// The bytes a hex string encodes: two digits per byte, or nothing when
/// the length is odd or a character is not a hex digit.
pub open spec fn decode_hex_spec(s: Seq<u8>) -> Option<Seq<u8>>
    decreases s.len(),
{
    if s.len() == 0 {
        Some(Seq::empty())
    } else if s.len() == 1 {
        None
    } else if !is_hex_digit(s[0]) || !is_hex_digit(s[1]) {
        None
    } else {
        match decode_hex_spec(s.skip(2)) {
            Some(rest) => Some(seq![hex_byte(s[0], s[1])] + rest),
            None => None,
        }
    }
}

/// One decoded pair extends the decoded suffix.
proof fn lemma_decode_step(s: Seq<u8>, k: int)
    requires
        0 <= k,
        2 * k + 2 <= s.len(),
        is_hex_digit(s[2 * k]),
        is_hex_digit(s[2 * k + 1]),
    ensures
        decode_hex_spec(s.skip(2 * k)) == match decode_hex_spec(s.skip(2 * k + 2)) {
            Some(rest) => Some(seq![hex_byte(s[2 * k], s[2 * k + 1])] + rest),
            None => None::<Seq<u8>>,
        },
{
    assert(s.skip(2 * k).skip(2) =~= s.skip(2 * k + 2));
    assert(s.skip(2 * k)[0] == s[2 * k]);
    assert(s.skip(2 * k)[1] == s[2 * k + 1]);
}

/// Decodes a hex digit, or fails on any other byte.
fn hex_digit(b: u8) -> (r: Option<u8>)
    ensures
        match r {
            Some(v) => is_hex_digit(b) && v == hex_val(b),
            None => !is_hex_digit(b),
        },
{
    if 48 <= b && b <= 57 {
        Some(b - 48)
    } else if 97 <= b && b <= 102 {
        Some(b - 97 + 10)
    } else if 65 <= b && b <= 70 {
        Some(b - 65 + 10)
    } else {
        None
    }
}

/// Decodes a hex string into its bytes; fails exactly when the string is
/// not well-formed hex of even length.
pub fn decode_hex(s: &str) -> (r: Option<Vec<u8>>)
    ensures
        match r {
            Some(v) => decode_hex_spec(s.spec_bytes()) == Some(v@),
            None => decode_hex_spec(s.spec_bytes()) is None,
        },
{
    let bytes: &[u8] = s.as_bytes();
    let n: usize = bytes.len();
    if n % 2 != 0 {
        proof {
            lemma_odd_len_fails(s.spec_bytes());
        }
        return None;
    }
    let mut out: Vec<u8> = Vec::new();
    let mut i: usize = 0;
    proof {
        assert(bytes@.skip(0) =~= bytes@);
        if decode_hex_spec(bytes@) is Some {
            let whole = decode_hex_spec(bytes@).unwrap();
            assert(out@ + whole =~= whole);
        }
    }
    while 2 * i < n
        invariant
            bytes@ == s.spec_bytes(),
            n == bytes@.len(),
            n % 2 == 0,
            2 * i <= n,
            out@.len() == i,
            decode_hex_spec(bytes@.skip(2 * i)) matches Some(rest) ==> decode_hex_spec(bytes@)
                == Some(out@ + rest),
            (decode_hex_spec(bytes@.skip(2 * i)) is None) ==> (decode_hex_spec(bytes@) is None),
        decreases n - 2 * i,
    {
        proof {
            assert(bytes@.skip(2 * i)[0] == bytes@[2 * i]);
            assert(bytes@.skip(2 * i)[1] == bytes@[2 * i + 1]);
        }
        let hi = match hex_digit(bytes[2 * i]) {
            Some(v) => v,
            None => {
                return None;
            },
        };
        let lo = match hex_digit(bytes[2 * i + 1]) {
            Some(v) => v,
            None => {
                return None;
            },
        };
        proof {
            lemma_decode_step(bytes@, i as int);
            let pair = seq![hex_byte(bytes@[2 * i], bytes@[2 * i + 1])];
            if decode_hex_spec(bytes@.skip(2 * i + 2)) is Some {
                let rest = decode_hex_spec(bytes@.skip(2 * i + 2)).unwrap();
                assert(out@ + (pair + rest) =~= (out@ + pair) + rest);
            }
        }
        out.push(16 * hi + lo);
        i = i + 1;
    }
    proof {
        assert(bytes@.skip(2 * i) =~= Seq::<u8>::empty());
        assert(decode_hex_spec(bytes@) == Some(out@ + Seq::<u8>::empty()));
        assert(out@ + Seq::<u8>::empty() =~= out@);
    }
    Some(out)
}

/// A hex string of odd length never decodes.
proof fn lemma_odd_len_fails(s: Seq<u8>)
    requires
        s.len() % 2 == 1,
    ensures
        decode_hex_spec(s) is None,
    decreases s.len(),
{
    if s.len() == 1 {
    } else if !is_hex_digit(s[0]) || !is_hex_digit(s[1]) {
    } else {
        assert(s.skip(2).len() % 2 == 1);
        lemma_odd_len_fails(s.skip(2));
    }
}


/// The fixed program the search evaluates: its deployed bytecode, in hex.
pub open spec fn contract_code() -> Seq<u8> {
    match decode_hex_spec("6080604052348015600e575f80fd5b50600436106026575f3560e01c8063071e950314602a575b5f80fd5b606160353660046073565b604080516020808201949094528082019290925280518083038201815260609092019052805191012090565b60405190815260200160405180910390f35b5f80604083850312156083575f80fd5b5050803592602090910135915056fea26469706673582212201676b931d82af5bbf61cc03592b8a3e8c28dac7cdf08deae042e43adf84b041264736f6c63430008160033".spec_bytes()) {
        Some(code) => code,
        None => Seq::empty(),
    }
}

/// Loads the fixed program bytecode.
pub fn read_contract() -> (r: Vec<u8>)
    ensures
        r@ == contract_code(),
{
    match decode_hex("6080604052348015600e575f80fd5b50600436106026575f3560e01c8063071e950314602a575b5f80fd5b606160353660046073565b604080516020808201949094528082019290925280518083038201815260609092019052805191012090565b60405190815260200160405180910390f35b5f80604083850312156083575f80fd5b5050803592602090910135915056fea26469706673582212201676b931d82af5bbf61cc03592b8a3e8c28dac7cdf08deae042e43adf84b041264736f6c63430008160033") {
        Some(code) => code,
        None => Vec::new(),
    }
}

} // verus!
