//! A 256-bit unsigned integer built from four 64-bit words.
//!
//! The candidate space of the search is the full 256-bit range, which
//! exceeds native word width, so the interval arithmetic (increment,
//! subtract, compare, halve) is implemented here directly and proved
//! against the mathematical value of the four words.

use vstd::prelude::*;

verus! {

/// Big-endian words: `w3` holds the most significant 64 bits.
#[derive(Clone, Copy, PartialEq, Eq, Structural, Debug)]
pub struct U256 {
    pub w3: u64,
    pub w2: u64,
    pub w1: u64,
    pub w0: u64,
}

/// The largest value a `U256` can hold, `2^256 - 1`.
pub open spec fn u256_max() -> int {
    0xffffffffffffffffffffffffffffffffffffffffffffffffffffffffffffffffint
}

/// Big-endian byte decomposition of a 64-bit word.
pub open spec fn be8(w: u64) -> Seq<u8> {
    seq![
        (w / 0x100000000000000u64) as u8,
        ((w / 0x1000000000000u64) % 256) as u8,
        ((w / 0x10000000000u64) % 256) as u8,
        ((w / 0x100000000u64) % 256) as u8,
        ((w / 0x1000000u64) % 256) as u8,
        ((w / 0x10000u64) % 256) as u8,
        ((w / 0x100u64) % 256) as u8,
        (w % 256) as u8,
    ]
}

impl U256 {
    /// The mathematical value of this 256-bit integer.
    pub open spec fn as_int(self) -> int {
        self.w0
            + 0x10000000000000000int * self.w1
            + 0x100000000000000000000000000000000int * self.w2
            + 0x1000000000000000000000000000000000000000000000000int * self.w3
    }

    /// Big-endian byte representation, 32 bytes, most significant first.
    pub open spec fn be_bytes(self) -> Seq<u8> {
        be8(self.w3) + be8(self.w2) + be8(self.w1) + be8(self.w0)
    }

    pub fn zero() -> (r: Self)
        ensures
            r.as_int() == 0,
    {
        U256 { w3: 0, w2: 0, w1: 0, w0: 0 }
    }

    pub fn max_value() -> (r: Self)
        ensures
            r.as_int() == u256_max(),
    {
        U256 { w3: u64::MAX, w2: u64::MAX, w1: u64::MAX, w0: u64::MAX }
    }

    pub fn from_words(w3: u64, w2: u64, w1: u64, w0: u64) -> (r: Self)
        ensures
            r == (U256 { w3, w2, w1, w0 }),
    {
        U256 { w3, w2, w1, w0 }
    }

    pub fn from_u64(v: u64) -> (r: Self)
        ensures
            r.as_int() == v,
    {
        U256 { w3: 0, w2: 0, w1: 0, w0: v }
    }

    /// Strict comparison by value.
    pub fn lt(&self, other: &Self) -> (r: bool)
        ensures
            r == (self.as_int() < other.as_int()),
    {
        if self.w3 != other.w3 {
            self.w3 < other.w3
        } else if self.w2 != other.w2 {
            self.w2 < other.w2
        } else if self.w1 != other.w1 {
            self.w1 < other.w1
        } else {
            self.w0 < other.w0
        }
    }

    /// The successor, for stepping through an interval.
    pub fn incr(&self) -> (r: Self)
        requires
            self.as_int() < u256_max(),
        ensures
            r.as_int() == self.as_int() + 1,
    {
        if self.w0 < u64::MAX {
            U256 { w3: self.w3, w2: self.w2, w1: self.w1, w0: self.w0 + 1 }
        } else if self.w1 < u64::MAX {
            U256 { w3: self.w3, w2: self.w2, w1: self.w1 + 1, w0: 0 }
        } else if self.w2 < u64::MAX {
            U256 { w3: self.w3, w2: self.w2 + 1, w1: 0, w0: 0 }
        } else {
            U256 { w3: self.w3 + 1, w2: 0, w1: 0, w0: 0 }
        }
    }

    /// Difference of two values, for interval lengths.
    pub fn sub(&self, other: &Self) -> (r: Self)
        requires
            other.as_int() <= self.as_int(),
        ensures
            r.as_int() == self.as_int() - other.as_int(),
    {
        let (d0, b0) = borrow_sub(self.w0, other.w0, false);
        let (d1, b1) = borrow_sub(self.w1, other.w1, b0);
        let (d2, b2) = borrow_sub(self.w2, other.w2, b1);
        let (d3, b3) = borrow_sub(self.w3, other.w3, b2);
        proof {
            if b3 {
                assert(false);
            }
        }
        U256 { w3: d3, w2: d2, w1: d1, w0: d0 }
    }

    /// Sum of two values, for advancing an interval start by an offset.
    pub fn add(&self, other: &Self) -> (r: Self)
        requires
            self.as_int() + other.as_int() <= u256_max(),
        ensures
            r.as_int() == self.as_int() + other.as_int(),
    {
        let (s0, c0) = carry_add(self.w0, other.w0, false);
        let (s1, c1) = carry_add(self.w1, other.w1, c0);
        let (s2, c2) = carry_add(self.w2, other.w2, c1);
        let (s3, c3) = carry_add(self.w3, other.w3, c2);
        proof {
            if c3 {
                assert(false);
            }
        }
        U256 { w3: s3, w2: s2, w1: s1, w0: s0 }
    }

    /// Half the value, rounded up: the split point offset of an interval.
    pub fn half_ceil(&self) -> (r: Self)
        ensures
            r.as_int() == (self.as_int() + 1) / 2,
    {
        let h3: u64 = self.w3 / 2;
        let h2: u64 = self.w2 / 2 + (self.w3 % 2) * 0x8000000000000000;
        let h1: u64 = self.w1 / 2 + (self.w2 % 2) * 0x8000000000000000;
        let h0: u64 = self.w0 / 2 + (self.w1 % 2) * 0x8000000000000000;
        let floor_half = U256 { w3: h3, w2: h2, w1: h1, w0: h0 };
        proof {
            assert(self.as_int() == 2 * floor_half.as_int() + self.w0 % 2);
        }
        if self.w0 % 2 == 1 {
            floor_half.incr()
        } else {
            floor_half
        }
    }

    /// The 32-byte big-endian encoding of this value.
    pub fn to_be_bytes(&self) -> (r: Vec<u8>)
        ensures
            r@ == self.be_bytes(),
            r@.len() == 32,
    {
        let mut out: Vec<u8> = Vec::new();
        push_be8(&mut out, self.w3);
        push_be8(&mut out, self.w2);
        push_be8(&mut out, self.w1);
        push_be8(&mut out, self.w0);
        proof {
            assert(out@ =~= self.be_bytes());
        }
        out
    }
}

/// The numeric value a big-endian byte sequence denotes.
pub open spec fn be_value(s: Seq<u8>) -> int
    decreases s.len(),
{
    if s.len() == 0 {
        0
    } else {
        be_value(s.drop_last()) * 256 + s.last()
    }
}

/// `256^n`.
pub open spec fn pow256(n: nat) -> int
    decreases n,
{
    if n == 0 {
        1
    } else {
        256 * pow256((n - 1) as nat)
    }
}

/// Concatenating byte strings shifts the left one by the length of the
/// right one.
pub proof fn lemma_be_value_concat(a: Seq<u8>, b: Seq<u8>)
    ensures
        be_value(a + b) == be_value(a) * pow256(b.len()) + be_value(b),
    decreases b.len(),
{
    if b.len() == 0 {
        assert(a + b =~= a);
    } else {
        lemma_be_value_concat(a, b.drop_last());
        assert((a + b).drop_last() =~= a + b.drop_last());
        assert((be_value(a) * pow256((b.len() - 1) as nat) + be_value(b.drop_last())) * 256
            == be_value(a) * (256 * pow256((b.len() - 1) as nat)) + be_value(b.drop_last()) * 256)
            by (nonlinear_arith);
    }
}

/// The eight bytes of a word denote the word.
#[verifier::rlimit(50)]
proof fn lemma_be8_value(w: u64)
    ensures
        be_value(be8(w)) == w,
{
    let b7 = (w / 0x100000000000000u64) as u8;
    let b6 = ((w / 0x1000000000000u64) % 256) as u8;
    let b5 = ((w / 0x10000000000u64) % 256) as u8;
    let b4 = ((w / 0x100000000u64) % 256) as u8;
    let b3 = ((w / 0x1000000u64) % 256) as u8;
    let b2 = ((w / 0x10000u64) % 256) as u8;
    let b1 = ((w / 0x100u64) % 256) as u8;
    let s1 = seq![b7];
    let s2 = seq![b7, b6];
    let s3 = seq![b7, b6, b5];
    let s4 = seq![b7, b6, b5, b4];
    let s5 = seq![b7, b6, b5, b4, b3];
    let s6 = seq![b7, b6, b5, b4, b3, b2];
    let s7 = seq![b7, b6, b5, b4, b3, b2, b1];
    assert(s1.drop_last() =~= Seq::<u8>::empty());
    assert(s2.drop_last() =~= s1);
    assert(s3.drop_last() =~= s2);
    assert(s4.drop_last() =~= s3);
    assert(s5.drop_last() =~= s4);
    assert(s6.drop_last() =~= s5);
    assert(s7.drop_last() =~= s6);
    assert(be8(w).drop_last() =~= s7);
    vstd::arithmetic::div_mod::lemma_div_denominator(w as int, 0x100, 0x100);
    vstd::arithmetic::div_mod::lemma_div_denominator(w as int, 0x10000, 0x100);
    vstd::arithmetic::div_mod::lemma_div_denominator(w as int, 0x1000000, 0x100);
    vstd::arithmetic::div_mod::lemma_div_denominator(w as int, 0x100000000, 0x100);
    vstd::arithmetic::div_mod::lemma_div_denominator(w as int, 0x10000000000, 0x100);
    vstd::arithmetic::div_mod::lemma_div_denominator(w as int, 0x1000000000000, 0x100);
    assert(w / 0x100000000000000u64 < 256) by {
        vstd::arithmetic::div_mod::lemma_basic_div_specific_divisor(0x100000000000000);
    }
    assert(be_value(Seq::<u8>::empty()) == 0);
    assert(s1.last() == b7);
    assert(b7 == w / 0x100000000000000u64);
    assert(be_value(s1) == be_value(s1.drop_last()) * 256 + s1.last());
    assert(be_value(s1) == w / 0x100000000000000u64);
    assert(be_value(s2) == w / 0x1000000000000u64);
    assert(be_value(s3) == w / 0x10000000000u64);
    assert(be_value(s4) == w / 0x100000000u64);
    assert(be_value(s5) == w / 0x1000000u64);
    assert(be_value(s6) == w / 0x10000u64);
    assert(be_value(s7) == w / 0x100u64);
    assert(be_value(be8(w)) == w);
}

/// Law: the 32-byte big-endian encoding denotes exactly the value of the
/// four words: the encoding of a candidate into its call-input slot is the
/// base-256 representation of the candidate.
#[verifier::rlimit(100)]
pub proof fn lemma_be_bytes_value(v: U256)
    ensures
        be_value(v.be_bytes()) == v.as_int(),
{
    let a1 = be8(v.w3);
    let a2 = a1 + be8(v.w2);
    let a3 = a2 + be8(v.w1);
    let a4 = a3 + be8(v.w0);
    lemma_be8_value(v.w3);
    lemma_be8_value(v.w2);
    lemma_be8_value(v.w1);
    lemma_be8_value(v.w0);
    assert(pow256(8) == 0x10000000000000000int) by {
        reveal_with_fuel(pow256, 9);
    }
    lemma_be_value_concat(a1, be8(v.w2));
    assert(be_value(a2) == v.w3 * 0x10000000000000000int + v.w2);
    lemma_be_value_concat(a2, be8(v.w1));
    assert(be_value(a3) == be_value(a2) * 0x10000000000000000int + v.w1);
    lemma_be_value_concat(a3, be8(v.w0));
    assert(be_value(a4) == be_value(a3) * 0x10000000000000000int + v.w0);
    assert(v.be_bytes() == a4);
}

/// Two values with the same mathematical value are the same words: the
/// word decomposition of a 256-bit integer is unique.
pub proof fn lemma_as_int_injective(a: U256, b: U256)
    requires
        a.as_int() == b.as_int(),
    ensures
        a == b,
{
    lemma_split_low_word(a.w0, a.w1, a.w2, a.w3);
    lemma_split_low_word(b.w0, b.w1, b.w2, b.w3);
    let qa = a.w1 + 0x10000000000000000int * a.w2 + 0x100000000000000000000000000000000int * a.w3;
    let qb = b.w1 + 0x10000000000000000int * b.w2 + 0x100000000000000000000000000000000int * b.w3;
    vstd::arithmetic::div_mod::lemma_fundamental_div_mod_converse(
        a.as_int(), 0x10000000000000000, qa, a.w0 as int);
    vstd::arithmetic::div_mod::lemma_fundamental_div_mod_converse(
        b.as_int(), 0x10000000000000000, qb, b.w0 as int);
    let q2a = a.w2 + 0x10000000000000000int * a.w3;
    let q2b = b.w2 + 0x10000000000000000int * b.w3;
    vstd::arithmetic::div_mod::lemma_fundamental_div_mod_converse(
        qa, 0x10000000000000000, q2a, a.w1 as int);
    vstd::arithmetic::div_mod::lemma_fundamental_div_mod_converse(
        qb, 0x10000000000000000, q2b, b.w1 as int);
    vstd::arithmetic::div_mod::lemma_fundamental_div_mod_converse(
        q2a, 0x10000000000000000, a.w3 as int, a.w2 as int);
    vstd::arithmetic::div_mod::lemma_fundamental_div_mod_converse(
        q2b, 0x10000000000000000, b.w3 as int, b.w2 as int);
}

/// The value splits as its low word plus `2^64` times the upper words.
proof fn lemma_split_low_word(w0: u64, w1: u64, w2: u64, w3: u64)
    ensures
        (U256 { w3, w2, w1, w0 }).as_int() == (w1 + 0x10000000000000000int * w2
            + 0x100000000000000000000000000000000int * w3) * 0x10000000000000000 + w0,
{
}

/// One step of a multi-word subtraction: `a - b - borrow` with the next borrow.
fn borrow_sub(a: u64, b: u64, borrow: bool) -> (r: (u64, bool))
    ensures
        r.0 == a - b - (if borrow { 1int } else { 0int }) + (if r.1 { 0x10000000000000000int } else { 0int }),
        r.1 == (a < b + (if borrow { 1int } else { 0int })),
{
    let bv: u64 = if borrow { 1 } else { 0 };
    if a as u128 >= b as u128 + bv as u128 {
        (a - b - bv, false)
    } else {
        let wide: u128 = a as u128 + 0x10000000000000000u128 - b as u128 - bv as u128;
        ((wide as u64), true)
    }
}

/// One step of a multi-word addition: `a + b + carry` with the next carry.
fn carry_add(a: u64, b: u64, carry: bool) -> (r: (u64, bool))
    ensures
        r.0 == a + b + (if carry { 1int } else { 0int }) - (if r.1 { 0x10000000000000000int } else { 0int }),
        r.1 == (a + b + (if carry { 1int } else { 0int }) > u64::MAX),
{
    let cv: u64 = if carry { 1 } else { 0 };
    let wide: u128 = a as u128 + b as u128 + cv as u128;
    if wide > u64::MAX as u128 {
        ((wide - 0x10000000000000000u128) as u64, true)
    } else {
        (wide as u64, false)
    }
}

/// Appends the big-endian bytes of one 64-bit word.
fn push_be8(out: &mut Vec<u8>, w: u64)
    ensures
        final(out)@ == old(out)@ + be8(w),
{
    out.push((w / 0x100000000000000u64) as u8);
    out.push(((w / 0x1000000000000u64) % 256) as u8);
    out.push(((w / 0x10000000000u64) % 256) as u8);
    out.push(((w / 0x100000000u64) % 256) as u8);
    out.push(((w / 0x1000000u64) % 256) as u8);
    out.push(((w / 0x10000u64) % 256) as u8);
    out.push(((w / 0x100u64) % 256) as u8);
    out.push((w % 256) as u8);
    proof {
        assert(out@ =~= old(out)@ + be8(w));
    }
}

} // verus!
