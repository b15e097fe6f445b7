//! Portable scalar forms of the two 128-bit vector primitives the restrictor
//! kernel is built on: `movemask` (collect the top bit of each of 16 bytes)
//! and a left shift by one of each 64-bit lane.  Both match the corresponding
//! SSE2 instructions bit for bit.

use vstd::prelude::*;

verus! {

/// Bit `k` of a byte.
pub open spec fn bit_u8(v: u8, k: nat) -> bool {
    (v >> (k as u8)) & 1u8 == 1u8
}

/// Bit `k` of a 16-bit word.
pub open spec fn bit_u16(v: u16, k: nat) -> bool {
    (v >> (k as u16)) & 1u16 == 1u16
}

/// Setting one fresh bit of a 16-bit word leaves the others alone.
proof fn lemma_u16_set_bit(r: u16, b: u16, i: u16, j: u16)
    by (bit_vector)
    requires
        i < 16,
        b <= 1,
        j < 16,
        (r >> i) & 1u16 == 0u16,
    ensures
        ((r | (b << i)) >> j) & 1u16 == (if j == i {
            b
        } else {
            (r >> j) & 1u16
        }),
{
}

/// The word whose bit `k` is the top bit of byte `k` of the input, for each of
/// the 16 input bytes.
pub fn v_movemask_epi8(x: [u8; 16]) -> (r: u16)
    ensures
        forall|k: nat| k < 16 ==> bit_u16(r, k) == bit_u8(x@[k as int], 7),
{
    let mut r: u16 = 0;
    proof {
        assert(forall|j: u16| j < 16 ==> (0u16 >> j) & 1u16 == 0u16) by (bit_vector);
    }
    let mut k: usize = 0;
    while k < 16
        invariant
            k <= 16,
            forall|j: nat| j < k ==> bit_u16(r, j) == bit_u8(x@[j as int], 7),
            forall|j: u16| k <= j < 16 ==> (r >> j) & 1u16 == 0u16,
        decreases 16 - k,
    {
        let xk: u8 = x[k];
        let b: u16 = (xk >> 7u8) as u16;
        let r2: u16 = r | (b << (k as u16));
        proof {
            assert((xk >> 7u8) as u16 <= 1) by (bit_vector);
            assert(((xk >> 7u8) as u16) == 1u16 <==> (xk >> 7u8) & 1u8 == 1u8)
                by (bit_vector);
            assert forall|j: nat| j < k + 1 implies bit_u16(r2, j) == bit_u8(
                x@[j as int],
                7,
            ) by {
                lemma_u16_set_bit(r, b, k as u16, j as u16);
                if j < k {
                    assert(bit_u16(r, j) == bit_u8(x@[j as int], 7));
                }
            }
            assert forall|j: u16| k + 1 <= j < 16 implies (r2 >> j) & 1u16 == 0u16 by {
                lemma_u16_set_bit(r, b, k as u16, j);
                assert((r >> j) & 1u16 == 0u16);
            }
        }
        r = r2;
        k = k + 1;
    }
    r
}

/// The expected byte `k` of the lane-shifted vector: bytes advance by one bit
/// inside each 64-bit little-endian lane, taking the carry bit from the byte
/// below, and the lane's lowest byte shifts a zero in.
pub open spec fn slli_byte(x: Seq<u8>, k: int) -> u8 {
    if k % 8 == 0 {
        x[k] << 1u8
    } else {
        (x[k] << 1u8) | (x[k - 1] >> 7u8)
    }
}

/// Interprets the 16 bytes as two little-endian 64-bit lanes and shifts each
/// lane left by one bit.
pub fn v_slli_epi64(x: [u8; 16]) -> (r: [u8; 16])
    ensures
        forall|k: int| 0 <= k < 16 ==> r@[k] == slli_byte(x@, k),
{
    let r: [u8; 16] = [
        x[0] << 1u8,
        (x[1] << 1u8) | (x[0] >> 7u8),
        (x[2] << 1u8) | (x[1] >> 7u8),
        (x[3] << 1u8) | (x[2] >> 7u8),
        (x[4] << 1u8) | (x[3] >> 7u8),
        (x[5] << 1u8) | (x[4] >> 7u8),
        (x[6] << 1u8) | (x[5] >> 7u8),
        (x[7] << 1u8) | (x[6] >> 7u8),
        x[8] << 1u8,
        (x[9] << 1u8) | (x[8] >> 7u8),
        (x[10] << 1u8) | (x[9] >> 7u8),
        (x[11] << 1u8) | (x[10] >> 7u8),
        (x[12] << 1u8) | (x[11] >> 7u8),
        (x[13] << 1u8) | (x[12] >> 7u8),
        (x[14] << 1u8) | (x[13] >> 7u8),
        (x[15] << 1u8) | (x[14] >> 7u8),
    ];
    r
}

} // verus!
