//! The on-disk key codec: fixed-width big-endian encodings whose
//! byte-by-byte (lexicographic) order equals the numeric order of what they
//! encode, so an ordered store scans keys in component order.
//!
//! Block numbers encode as 8 bytes, felts as 32; the storage history key is
//! the concatenation `address ‖ key ‖ block_number` (72 bytes). Each decoder
//! inverts its encoder over everything the encoder produces.

use vstd::prelude::*;

use crate::felt::{be_int, lemma_be_int_bounds, lemma_pow256_le, pow256, Felt};

verus! {

/// Strict lexicographic order on byte strings.
pub open spec fn lex_lt(a: Seq<u8>, b: Seq<u8>) -> bool
    decreases a.len(),
{
    if a.len() == 0 {
        b.len() > 0
    } else if b.len() == 0 {
        false
    } else if a[0] < b[0] {
        true
    } else if a[0] > b[0] {
        false
    } else {
        lex_lt(a.drop_first(), b.drop_first())
    }
}

/// The big-endian bytes of `x`, `count` of them. The most significant digit
/// is peeled off with the matching power of 256, then the rest.
fn be_bytes(x: u128, count: usize) -> (r: Vec<u8>)
    requires
        count <= 16,
        x < pow256(count as nat),
    ensures
        r@.len() == count,
        be_int(r@) == x,
{
    let mut divisor: u128 = 1;
    let mut i: usize = 1;
    while i < count
        invariant
            count <= 16,
            1 <= i,
            i <= count || count == 0,
            divisor == pow256((i - 1) as nat),
        decreases count - i,
    {
        proof {
            reveal_with_fuel(pow256, 17);
            lemma_pow256_le((i - 1) as nat, 14);
        }
        divisor = divisor * 256;
        i += 1;
    }
    let mut tmp = x;
    let mut r: Vec<u8> = Vec::new();
    let mut j: usize = 0;
    assert(r@ =~= Seq::<u8>::empty());
    while j < count
        invariant
            count <= 16,
            j <= count,
            r@.len() == j,
            j < count ==> divisor == pow256((count - 1 - j) as nat),
            x < pow256(count as nat),
            be_int(r@) * pow256((count - j) as nat) + tmp == x,
            tmp < pow256((count - j) as nat),
        decreases count - j,
    {
        let ghost pw = pow256((count - j) as nat);
        let ghost pw1 = pow256((count - 1 - j) as nat);
        proof {
            lemma_pow256_le(0, (count - 1 - j) as nat);
            assert(pw == 256 * pw1);
        }
        let digit = (tmp / divisor) as u8;
        proof {
            assert(tmp / divisor < 256 && tmp / divisor >= 0) by (nonlinear_arith)
                requires
                    tmp < 256 * pw1,
                    divisor == pw1,
                    pw1 >= 1,
            ;
            vstd::arithmetic::div_mod::lemma_fundamental_div_mod(tmp as int, divisor as int);
            assert(r@.push(digit).drop_last() =~= r@);
            assert((be_int(r@) * 256 + (tmp / divisor) as int) * pw1 == be_int(r@) * (256 * pw1) + (
            tmp / divisor) as int * pw1) by (nonlinear_arith);
        }
        tmp = tmp % divisor;
        r.push(digit);
        if j + 1 < count {
            proof {
                lemma_pow256_le(0, (count - 2 - j) as nat);
                assert(pw1 == 256 * pow256((count - 2 - j) as nat));
                assert(divisor / 256 == pow256((count - 2 - j) as nat)) by (nonlinear_arith)
                    requires
                        divisor == 256 * pow256((count - 2 - j) as nat),
                        pow256((count - 2 - j) as nat) >= 1,
                ;
            }
            divisor = divisor / 256;
        }
        j += 1;
    }
    r
}

/// The 8-byte big-endian encoding of a block number: the key of the header,
/// body and state-diff tables.
pub fn encode_block_number(n: u64) -> (r: Vec<u8>)
    ensures
        r@.len() == 8,
        be_int(r@) == n,
{
    proof {
        reveal_with_fuel(pow256, 9);
    }
    be_bytes(n as u128, 8)
}

/// Reads a block number back from its 8-byte encoding; any other length is
/// refused.
pub fn decode_block_number(bytes: &[u8]) -> (r: Option<u64>)
    ensures
        bytes@.len() == 8 ==> (r matches Some(n) && n == be_int(bytes@)),
        bytes@.len() != 8 ==> r is None,
{
    if bytes.len() != 8 {
        return None;
    }
    proof {
        reveal_with_fuel(pow256, 9);
        lemma_be_int_bounds(bytes@.subrange(0, 8));
        assert(bytes@.subrange(0, 8) =~= bytes@);
    }
    Some(crate::felt::be_chunk(bytes, 0, 8) as u64)
}

/// The 32-byte big-endian encoding of a felt.
pub fn encode_felt(f: &Felt) -> (r: Vec<u8>)
    ensures
        r@.len() == 32,
        be_int(r@) == f.value(),
{
    proof {
        reveal_with_fuel(pow256, 17);
    }
    let mut r = be_bytes(f.hi, 16);
    let mut low = be_bytes(f.lo, 16);
    let ghost hi_part = r@;
    let ghost lo_part = low@;
    r.append(&mut low);
    proof {
        crate::felt::lemma_be_int_split(r@, 16);
        assert(r@.subrange(0, 16) =~= hi_part);
        assert(r@.subrange(16, 32) =~= lo_part);
    }
    r
}

/// Reads a felt back from its 32-byte encoding; any other length is refused.
/// The value is whatever the bytes denote, canonical or not: the store only
/// ever decodes what it encoded.
pub fn decode_felt(bytes: &[u8]) -> (r: Option<Felt>)
    ensures
        bytes@.len() == 32 ==> (r matches Some(f) && f.value() == be_int(bytes@)),
        bytes@.len() != 32 ==> r is None,
{
    if bytes.len() != 32 {
        return None;
    }
    let hi = crate::felt::be_chunk(bytes, 0, 16);
    let lo = crate::felt::be_chunk(bytes, 16, 32);
    proof {
        reveal_with_fuel(pow256, 17);
        crate::felt::lemma_be_int_split(bytes@, 16);
        assert(bytes@.subrange(0, bytes@.len() as int) =~= bytes@);
        lemma_be_int_bounds(bytes@.subrange(0, 16));
        lemma_be_int_bounds(bytes@.subrange(16, 32));
    }
    Some(Felt { hi, lo })
}

/// The storage-history key `address ‖ key ‖ block_number`: 72 bytes whose
/// byte order ranks first by contract, then by slot, then by block.
pub fn encode_storage_history_key(address: &Felt, key: &Felt, block: u64) -> (r: Vec<u8>)
    ensures
        r@.len() == 72,
        be_int(r@.subrange(0, 32)) == address.value(),
        be_int(r@.subrange(32, 64)) == key.value(),
        be_int(r@.subrange(64, 72)) == block,
{
    let mut r = encode_felt(address);
    let mut middle = encode_felt(key);
    let mut tail = encode_block_number(block);
    let ghost a_part = r@;
    let ghost k_part = middle@;
    let ghost b_part = tail@;
    r.append(&mut middle);
    r.append(&mut tail);
    proof {
        assert(r@.subrange(0, 32) =~= a_part);
        assert(r@.subrange(32, 64) =~= k_part);
        assert(r@.subrange(64, 72) =~= b_part);
    }
    r
}

/// On equal-length byte strings, lexicographic order is exactly numeric
/// order of the denoted values — the property the on-disk layout leans on.
pub proof fn lemma_lex_order_is_numeric(a: Seq<u8>, b: Seq<u8>)
    requires
        a.len() == b.len(),
    ensures
        lex_lt(a, b) <==> be_int(a) < be_int(b),
    decreases a.len(),
{
    if a.len() > 0 {
        crate::felt::lemma_be_int_split(a, 1);
        crate::felt::lemma_be_int_split(b, 1);
        assert(be_int(Seq::<u8>::empty()) == 0);
        assert(a.subrange(0, 1).drop_last() =~= Seq::<u8>::empty());
        assert(b.subrange(0, 1).drop_last() =~= Seq::<u8>::empty());
        assert(a.subrange(0, 1).last() == a[0]);
        assert(b.subrange(0, 1).last() == b[0]);
        assert(be_int(a.subrange(0, 1)) == a[0]);
        assert(be_int(b.subrange(0, 1)) == b[0]);
        assert(a.subrange(1, a.len() as int) =~= a.drop_first());
        assert(b.subrange(1, b.len() as int) =~= b.drop_first());
        let p = pow256((a.len() - 1) as nat);
        let a0 = a[0] as int;
        let b0 = b[0] as int;
        let ra = be_int(a.drop_first());
        let rb = be_int(b.drop_first());
        lemma_be_int_bounds(a.drop_first());
        lemma_be_int_bounds(b.drop_first());
        lemma_pow256_le(0, (a.len() - 1) as nat);
        lemma_lex_order_is_numeric(a.drop_first(), b.drop_first());
        assert(be_int(a) == a0 * p + ra);
        assert(be_int(b) == b0 * p + rb);
        if a[0] != b[0] {
            assert((a0 < b0) == (a0 * p + ra < b0 * p + rb)) by (nonlinear_arith)
                requires
                    a0 != b0,
                    p >= 1,
                    0 <= ra < p,
                    0 <= rb < p,
            ;
        }
    }
}

/// Equal-length encodings of different values differ somewhere, so the codec
/// is injective: equal encodings mean equal values.
pub proof fn lemma_be_int_injective(a: Seq<u8>, b: Seq<u8>)
    requires
        a.len() == b.len(),
        be_int(a) == be_int(b),
    ensures
        a =~= b,
    decreases a.len(),
{
    if a.len() > 0 {
        crate::felt::lemma_be_int_split(a, 1);
        crate::felt::lemma_be_int_split(b, 1);
        assert(be_int(Seq::<u8>::empty()) == 0);
        assert(a.subrange(0, 1).drop_last() =~= Seq::<u8>::empty());
        assert(b.subrange(0, 1).drop_last() =~= Seq::<u8>::empty());
        assert(a.subrange(0, 1).last() == a[0]);
        assert(b.subrange(0, 1).last() == b[0]);
        assert(a.subrange(1, a.len() as int) =~= a.drop_first());
        assert(b.subrange(1, b.len() as int) =~= b.drop_first());
        let p = pow256((a.len() - 1) as nat);
        let a0 = a[0] as int;
        let b0 = b[0] as int;
        let ra = be_int(a.drop_first());
        let rb = be_int(b.drop_first());
        lemma_be_int_bounds(a.drop_first());
        lemma_be_int_bounds(b.drop_first());
        lemma_pow256_le(0, (a.len() - 1) as nat);
        assert(be_int(a) == a0 * p + ra);
        assert(be_int(b) == b0 * p + rb);
        assert(a0 == b0 && ra == rb) by (nonlinear_arith)
            requires
                a0 * p + ra == b0 * p + rb,
                p >= 1,
                0 <= ra < p,
                0 <= rb < p,
        ;
        lemma_be_int_injective(a.drop_first(), b.drop_first());
        assert forall|i: int| 0 <= i < a.len() implies a[i] == b[i] by {
            if i >= 1 {
                assert(a.drop_first()[i - 1] == a[i]);
                assert(b.drop_first()[i - 1] == b[i]);
            }
        }
    }
}

/// Concatenations of equal-width segments compare segment by segment:
/// composite keys scan first by their leading component.
pub proof fn lemma_lex_concat(a1: Seq<u8>, b1: Seq<u8>, a2: Seq<u8>, b2: Seq<u8>)
    requires
        a1.len() == a2.len(),
        b1.len() == b2.len(),
    ensures
        lex_lt(a1 + b1, a2 + b2) <==> (lex_lt(a1, a2) || (a1 == a2 && lex_lt(b1, b2))),
    decreases a1.len(),
{
    if a1.len() == 0 {
        assert(a1 + b1 =~= b1);
        assert(a2 + b2 =~= b2);
        assert(a1 =~= a2);
    } else {
        assert((a1 + b1)[0] == a1[0]);
        assert((a2 + b2)[0] == a2[0]);
        assert((a1 + b1).drop_first() =~= a1.drop_first() + b1);
        assert((a2 + b2).drop_first() =~= a2.drop_first() + b2);
        lemma_lex_concat(a1.drop_first(), b1, a2.drop_first(), b2);
        if a1[0] == a2[0] {
            if a1.drop_first() == a2.drop_first() {
                assert forall|i: int| 0 <= i < a1.len() implies a1[i] == a2[i] by {
                    if i >= 1 {
                        assert(a1.drop_first()[i - 1] == a1[i]);
                        assert(a2.drop_first()[i - 1] == a2[i]);
                    }
                }
                assert(a1 =~= a2);
            }
            if a1 == a2 {
                assert(a1.drop_first() == a2.drop_first());
            }
        }
    }
}

} // verus!
