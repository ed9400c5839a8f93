//! Field elements: the 252-bit values Starknet uses for hashes, contract
//! addresses, storage keys and storage values.
//!
//! A `Felt` holds its value in two 128-bit limbs, big-endian: the value is
//! `hi * 2^128 + lo`. Canonical felts fit in 252 bits, so `hi` stays below
//! `2^124`; every constructor here keeps that bound.

use vstd::prelude::*;

verus! {

/// Exclusive upper bound on the high limb of a canonical felt: `2^124`.
pub const FELT_HI_BOUND: u128 = 0x10000000000000000000000000000000;

/// A 252-bit field element, stored as `hi * 2^128 + lo`.
#[derive(Clone, Copy, Debug, PartialEq, Eq, Structural)]
pub struct Felt {
    pub hi: u128,
    pub lo: u128,
}

impl Felt {
    /// The mathematical value of the felt.
    pub open spec fn value(self) -> int {
        self.hi as int * (u128::MAX as int + 1) + self.lo as int
    }

    /// A canonical felt fits in 252 bits.
    pub open spec fn is_canonical(self) -> bool {
        self.hi < FELT_HI_BOUND
    }

    /// The zero felt.
    pub fn zero() -> (r: Felt)
        ensures
            r.value() == 0,
            r.is_canonical(),
    {
        Felt { hi: 0, lo: 0 }
    }

    /// A felt from a 64-bit integer.
    pub fn from_u64(x: u64) -> (r: Felt)
        ensures
            r.value() == x,
            r.is_canonical(),
    {
        Felt { hi: 0, lo: x as u128 }
    }

    /// A felt from a 128-bit integer.
    pub fn from_u128(x: u128) -> (r: Felt)
        ensures
            r.value() == x,
            r.is_canonical(),
    {
        Felt { hi: 0, lo: x }
    }

    /// A felt encoding a short ASCII string as a big-endian integer, the way
    /// Starknet derives its chain ids. Up to 31 bytes fit in 252 bits;
    /// anything longer is refused.
    pub fn ascii_as_felt(bytes: &[u8]) -> (r: Option<Felt>)
        ensures
            bytes@.len() <= 31 ==> (r matches Some(f) && f.value() == be_int(bytes@)
                && f.is_canonical()),
            bytes@.len() > 31 ==> r is None,
    {
        if bytes.len() > 31 {
            return None;
        }
        let len = bytes.len();
        let split: usize = if len > 16 {
            len - 16
        } else {
            0
        };
        let hi = be_chunk(bytes, 0, split);
        let lo = be_chunk(bytes, split, len);
        proof {
            lemma_pow256_unfold();
            lemma_be_int_bounds(bytes@.subrange(0, split as int));
            lemma_pow256_le((split as nat), 15);
            if len > 16 {
                lemma_be_int_split(bytes@, split as int);
            } else {
                assert(bytes@.subrange(0, 0) =~= Seq::<u8>::empty());
            }
            assert(bytes@.subrange(split as int, len as int) =~= bytes@.subrange(
                split as int,
                bytes@.len() as int,
            ));
            assert(bytes@.subrange(0, len as int) =~= bytes@);
        }
        Some(Felt { hi, lo })
    }

    /// A felt from its two 128-bit limbs, rejecting values outside 252 bits.
    pub fn from_limbs(hi: u128, lo: u128) -> (r: Option<Felt>)
        ensures
            hi < FELT_HI_BOUND ==> r == Some(Felt { hi, lo }),
            hi >= FELT_HI_BOUND ==> r is None,
    {
        if hi < FELT_HI_BOUND {
            Some(Felt { hi, lo })
        } else {
            None
        }
    }
}

/// The big-endian integer a byte string denotes.
pub open spec fn be_int(s: Seq<u8>) -> int
    decreases s.len(),
{
    if s.len() == 0 {
        0
    } else {
        be_int(s.drop_last()) * 256 + s.last()
    }
}

/// `256^k`: the count of byte strings of length `k`.
pub open spec fn pow256(k: nat) -> int
    decreases k,
{
    if k == 0 {
        1
    } else {
        256 * pow256((k - 1) as nat)
    }
}

/// The two powers of 256 the limb split leans on.
proof fn lemma_pow256_unfold()
    ensures
        pow256(15) == 0x1000000000000000000000000000000,
        pow256(16) == u128::MAX as int + 1,
{
    reveal_with_fuel(pow256, 17);
}

/// Powers of 256 are positive and grow with the exponent.
pub proof fn lemma_pow256_le(j: nat, k: nat)
    requires
        j <= k,
    ensures
        1 <= pow256(j) <= pow256(k),
    decreases k,
{
    if j == k {
        lemma_pow256_pos(k);
    } else {
        lemma_pow256_le(j, (k - 1) as nat);
    }
}

/// Powers of 256 are at least one.
proof fn lemma_pow256_pos(k: nat)
    ensures
        pow256(k) >= 1,
    decreases k,
{
    if k > 0 {
        lemma_pow256_pos((k - 1) as nat);
    }
}

/// A byte string's value is non-negative and below `256^len`.
pub proof fn lemma_be_int_bounds(s: Seq<u8>)
    ensures
        0 <= be_int(s) < pow256(s.len()),
    decreases s.len(),
{
    if s.len() > 0 {
        lemma_be_int_bounds(s.drop_last());
    }
}

/// Splitting a byte string splits its value by place value.
pub proof fn lemma_be_int_split(s: Seq<u8>, mid: int)
    requires
        0 <= mid <= s.len(),
    ensures
        be_int(s) == be_int(s.subrange(0, mid)) * pow256((s.len() - mid) as nat) + be_int(
            s.subrange(mid, s.len() as int),
        ),
    decreases s.len() - mid,
{
    if mid == s.len() {
        assert(s.subrange(0, mid) =~= s);
        assert(s.subrange(mid, s.len() as int) =~= Seq::<u8>::empty());
    } else {
        lemma_be_int_split(s.drop_last(), mid);
        assert(s.drop_last().subrange(0, mid) =~= s.subrange(0, mid));
        assert(s.drop_last().subrange(mid, s.drop_last().len() as int) =~= s.subrange(
            mid,
            s.len() as int,
        ).drop_last());
        let first = be_int(s.subrange(0, mid));
        let k = (s.len() - 1 - mid) as nat;
        let tail = s.subrange(mid, s.len() as int);
        assert(tail.last() == s.last());
        assert(be_int(s) == (first * pow256(k) + be_int(tail.drop_last())) * 256 + s.last());
        assert((first * pow256(k) + be_int(tail.drop_last())) * 256 == first * (pow256(k) * 256)
            + be_int(tail.drop_last()) * 256) by (nonlinear_arith);
        assert(pow256(k) * 256 == pow256((k + 1) as nat));
        assert(s.len() - mid == k + 1);
    }
}

/// The value of a byte range, accumulated big-endian; at most 16 bytes fit
/// one 128-bit limb.
pub fn be_chunk(bytes: &[u8], from: usize, to: usize) -> (r: u128)
    requires
        from <= to <= bytes@.len(),
        to - from <= 16,
    ensures
        r == be_int(bytes@.subrange(from as int, to as int)),
{
    proof {
        assert(bytes@.subrange(from as int, from as int) =~= Seq::<u8>::empty());
    }
    let mut acc: u128 = 0;
    let mut i = from;
    while i < to
        invariant
            from <= i <= to,
            to <= bytes@.len(),
            to - from <= 16,
            acc == be_int(bytes@.subrange(from as int, i as int)),
        decreases to - i,
    {
        proof {
            lemma_be_int_bounds(bytes@.subrange(from as int, i as int));
            lemma_pow256_le(((i - from) as nat), 15);
            lemma_pow256_unfold();
        }
        let b = bytes[i];
        acc = acc * 256 + (b as u128);
        proof {
            assert(bytes@.subrange(from as int, i as int + 1).drop_last() =~= bytes@.subrange(
                from as int,
                i as int,
            ));
            assert(bytes@.subrange(from as int, i as int + 1).last() == bytes@[i as int]);
        }
        i += 1;
    }
    acc
}

} // verus!
