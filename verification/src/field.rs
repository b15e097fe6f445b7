//! The binary field GF(2^128).
//!
//! An element is a 128-bit word; bit `i` is the coefficient of `x^i` in the
//! polynomial basis of `F2[x] / (x^128 + x^7 + x^2 + x + 1)`.  Addition is XOR.
//! Multiplication is carry-less (polynomial) multiplication followed by
//! reduction, performed here by interleaving the reduction with the shifts:
//! one step multiplies by `x` and folds the overflowing bit back in through
//! the low terms of the modulus (`x^7 + x^2 + x + 1`, the word `0x87`).

use vstd::prelude::*;

verus! {

/// An element of GF(2^128).
#[derive(Clone, Copy, PartialEq, Eq, Structural, Debug)]
pub struct F128(pub u128);

/// Multiplication by `x` followed by reduction: the defining step of the
/// multiplication routine.
pub open spec fn mulx(a: u128) -> u128 {
    if a >> 127u128 == 1u128 {
        (a << 1u128) ^ 0x87u128
    } else {
        a << 1u128
    }
}

/// `k`-fold iteration of `mulx`: multiplication by `x^k` modulo the field polynomial.
pub open spec fn mulx_iter(a: u128, k: nat) -> u128
    decreases k,
{
    if k == 0 {
        a
    } else {
        mulx(mulx_iter(a, (k - 1) as nat))
    }
}

/// Partial product over the low `k` bits of `b`: the XOR of `a * x^i` (reduced)
/// over all set bits `i < k` of `b`.
pub open spec fn mul_rec(a: u128, b: u128, k: nat) -> u128
    decreases k,
{
    if k == 0 {
        0u128
    } else {
        mul_rec(a, b, (k - 1) as nat) ^ (if (b >> (((k - 1) as nat) as u128)) & 1u128 == 1u128 {
            mulx_iter(a, (k - 1) as nat)
        } else {
            0u128
        })
    }
}

/// Field addition: XOR of the raw words.
pub open spec fn sadd(a: F128, b: F128) -> F128 {
    F128(a.0 ^ b.0)
}

/// Field multiplication: the full partial product over all 128 bits.
pub open spec fn smul(a: F128, b: F128) -> F128 {
    F128(mul_rec(a.0, b.0, 128))
}

/// Bitwise AND of the raw words (coordinate-wise product of the two
/// coordinate vectors over GF(2)).
pub open spec fn sband(a: F128, b: F128) -> F128 {
    F128(a.0 & b.0)
}

/// `k` successive squarings: the `k`-th Frobenius power `x -> x^(2^k)`.
pub open spec fn ssq_iter(x: F128, k: nat) -> F128
    decreases k,
{
    if k == 0 {
        x
    } else {
        smul(ssq_iter(x, (k - 1) as nat), ssq_iter(x, (k - 1) as nat))
    }
}

/// The exponent actually used by `frob`: `i` reduced into `[0, 128)`.
pub open spec fn frob_norm(i: int) -> nat {
    (i % 128) as nat
}

/// XOR on 128-bit words has zero as neutral element and every word as its
/// own inverse.
pub proof fn lemma_xor_zero(a: u128)
    by (bit_vector)
    ensures
        a ^ 0u128 == a,
        0u128 ^ a == a,
        a ^ a == 0u128,
{
}

/// XOR on 128-bit words is commutative.
pub proof fn lemma_xor_comm(a: u128, b: u128)
    by (bit_vector)
    ensures
        a ^ b == b ^ a,
{
}

/// XOR on 128-bit words is associative.
pub proof fn lemma_xor_assoc(a: u128, b: u128, c: u128)
    by (bit_vector)
    ensures
        (a ^ b) ^ c == a ^ (b ^ c),
{
}

pub open spec fn zero() -> F128 {
    F128(0u128)
}

pub open spec fn one() -> F128 {
    F128(1u128)
}

/// Field addition is commutative, associative, has `zero` as neutral element,
/// and every element is its own negative.
pub proof fn lemma_sadd_basics(a: F128, b: F128, c: F128)
    ensures
        sadd(a, b) == sadd(b, a),
        sadd(sadd(a, b), c) == sadd(a, sadd(b, c)),
        sadd(a, zero()) == a,
        sadd(zero(), a) == a,
        sadd(a, a) == zero(),
{
    lemma_xor_comm(a.0, b.0);
    lemma_xor_assoc(a.0, b.0, c.0);
    lemma_xor_zero(a.0);
}

/// Left XOR-fold of a sequence of field elements, starting from zero.
pub open spec fn xor_fold(s: Seq<F128>) -> F128
    decreases s.len(),
{
    if s.len() == 0 {
        zero()
    } else {
        sadd(xor_fold(s.drop_last()), s.last())
    }
}

/// Folding a sequence with its head split off: the head joins by one more
/// addition on the left.
pub proof fn lemma_xor_fold_cons(a: F128, t: Seq<F128>)
    ensures
        xor_fold(seq![a] + t) == sadd(a, xor_fold(t)),
    decreases t.len(),
{
    if t.len() == 0 {
        assert(seq![a] + t =~= seq![a]);
        assert(xor_fold(seq![a]) == sadd(xor_fold(seq![a].drop_last()), a));
        assert(seq![a].drop_last() =~= Seq::<F128>::empty());
        lemma_sadd_basics(a, a, a);
        lemma_sadd_basics(zero(), a, a);
    } else {
        let s = seq![a] + t;
        assert(s.drop_last() =~= seq![a] + t.drop_last());
        assert(s.last() == t.last());
        lemma_xor_fold_cons(a, t.drop_last());
        lemma_sadd_basics(a, xor_fold(t.drop_last()), t.last());
    }
}

impl F128 {
    /// The additive identity.
    pub fn zero() -> (r: F128)
        ensures
            r == zero(),
    {
        F128(0u128)
    }

    /// The multiplicative identity.
    pub fn one() -> (r: F128)
        ensures
            r == one(),
    {
        F128(1u128)
    }

    /// The `i`-th standard basis vector `x^i`.
    pub fn basis(i: usize) -> (r: F128)
        requires
            i < 128,
        ensures
            r == F128(1u128 << (i as u128)),
    {
        F128(1u128 << (i as u128))
    }

    /// Zero or one, from a boolean coordinate.
    pub fn new(x: bool) -> (r: F128)
        ensures
            r == (if x {
                one()
            } else {
                zero()
            }),
    {
        if x {
            F128(1u128)
        } else {
            F128(0u128)
        }
    }

    /// Wraps a raw 128-bit word.
    pub fn from_raw(x: u128) -> (r: F128)
        ensures
            r == F128(x),
    {
        F128(x)
    }

    /// The raw 128-bit word.
    pub fn raw(self) -> (r: u128)
        ensures
            r == self.0,
    {
        self.0
    }

    /// Field addition (XOR).
    pub fn add(self, other: F128) -> (r: F128)
        ensures
            r == sadd(self, other),
    {
        F128(self.0 ^ other.0)
    }

    /// Coordinate-wise product: bitwise AND of the coordinate vectors.
    pub fn bitand(self, other: F128) -> (r: F128)
        ensures
            r == sband(self, other),
    {
        F128(self.0 & other.0)
    }

    /// Field multiplication: shift-and-add with interleaved reduction.
    pub fn mul(self, other: F128) -> (r: F128)
        ensures
            r == smul(self, other),
    {
        let mut acc: u128 = 0;
        let mut cur: u128 = self.0;
        let mut i: usize = 0;
        while i < 128
            invariant
                i <= 128,
                cur == mulx_iter(self.0, i as nat),
                acc == mul_rec(self.0, other.0, i as nat),
            decreases 128 - i,
        {
            if (other.0 >> (i as u128)) & 1u128 == 1u128 {
                acc = acc ^ cur;
            } else {
                proof {
                    lemma_xor_zero(acc);
                }
            }
            let top = cur >> 127u128;
            cur = if top == 1u128 {
                (cur << 1u128) ^ 0x87u128
            } else {
                cur << 1u128
            };
            i = i + 1;
        }
        F128(acc)
    }

    /// The `i`-th Frobenius power `self^(2^i)`, with `i` taken modulo 128;
    /// negative `i` selects the corresponding inverse power.
    pub fn frob(self, i: i32) -> (r: F128)
        ensures
            r == ssq_iter(self, frob_norm(i as int)),
    {
        let v: i64 = i as i64;
        let w: u64 = if v < 0 {
            (v + 0x8000_0000i64) as u64
        } else {
            v as u64
        };
        let k: usize = (w % 128) as usize;
        proof {
            if v < 0 {
                vstd::arithmetic::div_mod::lemma_mod_multiples_vanish(0x1000000, i as int, 128);
                assert(128 * 0x1000000 + i == w as int);
            }
        }
        let mut r = self;
        let mut j: usize = 0;
        while j < k
            invariant
                j <= k,
                r == ssq_iter(self, j as nat),
            decreases k - j,
        {
            r = r.mul(r);
            j = j + 1;
        }
        r
    }
}


/// The dual basis of the monomial basis under the trace form: element `i`
/// satisfies, over GF(2), trace(cobasis_i * x) = coordinate `i` of `x`.
pub open spec fn cobasis_seq() -> Seq<u128> {
    seq![
        0x02082082082082082082082082082083u128,
        0x830c30c30c30c30c30c30c30c30c3081u128,
        0xc38e38e38e38e38e38e38e38e38e3880u128,
        0x61c71c71c71c71c71c71c71c71c71c40u128,
        0x30e38e38e38e38e38e38e38e38e38e20u128,
        0x1871c71c71c71c71c71c71c71c71c710u128,
        0x0c38e38e38e38e38e38e38e38e38e388u128,
        0x04145145145145145145145145145147u128,
        0x820a28a28a28a28a28a28a28a28a28e0u128,
        0x41051451451451451451451451451470u128,
        0x20828a28a28a28a28a28a28a28a28a38u128,
        0x1041451451451451451451451451451cu128,
        0x0820a28a28a28a28a28a28a28a28a28eu128,
        0x04105145145145145145145145145147u128,
        0x820828a28a28a28a28a28a28a28a28e0u128,
        0x41041451451451451451451451451470u128,
        0x20820a28a28a28a28a28a28a28a28a38u128,
        0x1041051451451451451451451451451cu128,
        0x0820828a28a28a28a28a28a28a28a28eu128,
        0x04104145145145145145145145145147u128,
        0x820820a28a28a28a28a28a28a28a28e0u128,
        0x41041051451451451451451451451470u128,
        0x20820828a28a28a28a28a28a28a28a38u128,
        0x1041041451451451451451451451451cu128,
        0x0820820a28a28a28a28a28a28a28a28eu128,
        0x04104105145145145145145145145147u128,
        0x820820828a28a28a28a28a28a28a28e0u128,
        0x41041041451451451451451451451470u128,
        0x20820820a28a28a28a28a28a28a28a38u128,
        0x1041041051451451451451451451451cu128,
        0x0820820828a28a28a28a28a28a28a28eu128,
        0x04104104145145145145145145145147u128,
        0x820820820a28a28a28a28a28a28a28e0u128,
        0x41041041051451451451451451451470u128,
        0x20820820828a28a28a28a28a28a28a38u128,
        0x1041041041451451451451451451451cu128,
        0x0820820820a28a28a28a28a28a28a28eu128,
        0x04104104105145145145145145145147u128,
        0x820820820828a28a28a28a28a28a28e0u128,
        0x41041041041451451451451451451470u128,
        0x20820820820a28a28a28a28a28a28a38u128,
        0x1041041041051451451451451451451cu128,
        0x0820820820828a28a28a28a28a28a28eu128,
        0x04104104104145145145145145145147u128,
        0x820820820820a28a28a28a28a28a28e0u128,
        0x41041041041051451451451451451470u128,
        0x20820820820828a28a28a28a28a28a38u128,
        0x1041041041041451451451451451451cu128,
        0x0820820820820a28a28a28a28a28a28eu128,
        0x04104104104105145145145145145147u128,
        0x820820820820828a28a28a28a28a28e0u128,
        0x41041041041041451451451451451470u128,
        0x20820820820820a28a28a28a28a28a38u128,
        0x1041041041041051451451451451451cu128,
        0x0820820820820828a28a28a28a28a28eu128,
        0x04104104104104145145145145145147u128,
        0x820820820820820a28a28a28a28a28e0u128,
        0x41041041041041051451451451451470u128,
        0x20820820820820828a28a28a28a28a38u128,
        0x1041041041041041451451451451451cu128,
        0x0820820820820820a28a28a28a28a28eu128,
        0x04104104104104105145145145145147u128,
        0x820820820820820828a28a28a28a28e0u128,
        0x41041041041041041451451451451470u128,
        0x20820820820820820a28a28a28a28a38u128,
        0x1041041041041041051451451451451cu128,
        0x0820820820820820828a28a28a28a28eu128,
        0x04104104104104104145145145145147u128,
        0x820820820820820820a28a28a28a28e0u128,
        0x41041041041041041051451451451470u128,
        0x20820820820820820828a28a28a28a38u128,
        0x1041041041041041041451451451451cu128,
        0x0820820820820820820a28a28a28a28eu128,
        0x04104104104104104105145145145147u128,
        0x820820820820820820828a28a28a28e0u128,
        0x41041041041041041041451451451470u128,
        0x20820820820820820820a28a28a28a38u128,
        0x1041041041041041041051451451451cu128,
        0x0820820820820820820828a28a28a28eu128,
        0x04104104104104104104145145145147u128,
        0x820820820820820820820a28a28a28e0u128,
        0x41041041041041041041051451451470u128,
        0x20820820820820820820828a28a28a38u128,
        0x1041041041041041041041451451451cu128,
        0x0820820820820820820820a28a28a28eu128,
        0x04104104104104104104105145145147u128,
        0x820820820820820820820828a28a28e0u128,
        0x41041041041041041041041451451470u128,
        0x20820820820820820820820a28a28a38u128,
        0x1041041041041041041041051451451cu128,
        0x0820820820820820820820828a28a28eu128,
        0x04104104104104104104104145145147u128,
        0x820820820820820820820820a28a28e0u128,
        0x41041041041041041041041051451470u128,
        0x20820820820820820820820828a28a38u128,
        0x1041041041041041041041041451451cu128,
        0x0820820820820820820820820a28a28eu128,
        0x04104104104104104104104105145147u128,
        0x820820820820820820820820828a28e0u128,
        0x41041041041041041041041041451470u128,
        0x20820820820820820820820820a28a38u128,
        0x1041041041041041041041041051451cu128,
        0x0820820820820820820820820828a28eu128,
        0x04104104104104104104104104145147u128,
        0x820820820820820820820820820a28e0u128,
        0x41041041041041041041041041051470u128,
        0x20820820820820820820820820828a38u128,
        0x1041041041041041041041041041451cu128,
        0x0820820820820820820820820820a28eu128,
        0x04104104104104104104104104105147u128,
        0x820820820820820820820820820828e0u128,
        0x41041041041041041041041041041470u128,
        0x20820820820820820820820820820a38u128,
        0x1041041041041041041041041041051cu128,
        0x0820820820820820820820820820828eu128,
        0x04104104104104104104104104104147u128,
        0x820820820820820820820820820820e0u128,
        0x41041041041041041041041041041070u128,
        0x20820820820820820820820820820838u128,
        0x1041041041041041041041041041041cu128,
        0x0820820820820820820820820820820eu128,
        0x04104104104104104104104104104107u128,
        0x820820820820820820820820820820c0u128,
        0x41041041041041041041041041041060u128,
        0x20820820820820820820820820820830u128,
        0x10410410410410410410410410410418u128,
        0x0820820820820820820820820820820cu128,
        0x04104104104104104104104104104106u128,
    ]
}

/// The dual-basis table as a run-time array.
pub fn cobasis_table() -> (r: Vec<u128>)
    ensures
        r@ == cobasis_seq(),
{
    let a: [u128; 128] = [
        0x02082082082082082082082082082083u128,
        0x830c30c30c30c30c30c30c30c30c3081u128,
        0xc38e38e38e38e38e38e38e38e38e3880u128,
        0x61c71c71c71c71c71c71c71c71c71c40u128,
        0x30e38e38e38e38e38e38e38e38e38e20u128,
        0x1871c71c71c71c71c71c71c71c71c710u128,
        0x0c38e38e38e38e38e38e38e38e38e388u128,
        0x04145145145145145145145145145147u128,
        0x820a28a28a28a28a28a28a28a28a28e0u128,
        0x41051451451451451451451451451470u128,
        0x20828a28a28a28a28a28a28a28a28a38u128,
        0x1041451451451451451451451451451cu128,
        0x0820a28a28a28a28a28a28a28a28a28eu128,
        0x04105145145145145145145145145147u128,
        0x820828a28a28a28a28a28a28a28a28e0u128,
        0x41041451451451451451451451451470u128,
        0x20820a28a28a28a28a28a28a28a28a38u128,
        0x1041051451451451451451451451451cu128,
        0x0820828a28a28a28a28a28a28a28a28eu128,
        0x04104145145145145145145145145147u128,
        0x820820a28a28a28a28a28a28a28a28e0u128,
        0x41041051451451451451451451451470u128,
        0x20820828a28a28a28a28a28a28a28a38u128,
        0x1041041451451451451451451451451cu128,
        0x0820820a28a28a28a28a28a28a28a28eu128,
        0x04104105145145145145145145145147u128,
        0x820820828a28a28a28a28a28a28a28e0u128,
        0x41041041451451451451451451451470u128,
        0x20820820a28a28a28a28a28a28a28a38u128,
        0x1041041051451451451451451451451cu128,
        0x0820820828a28a28a28a28a28a28a28eu128,
        0x04104104145145145145145145145147u128,
        0x820820820a28a28a28a28a28a28a28e0u128,
        0x41041041051451451451451451451470u128,
        0x20820820828a28a28a28a28a28a28a38u128,
        0x1041041041451451451451451451451cu128,
        0x0820820820a28a28a28a28a28a28a28eu128,
        0x04104104105145145145145145145147u128,
        0x820820820828a28a28a28a28a28a28e0u128,
        0x41041041041451451451451451451470u128,
        0x20820820820a28a28a28a28a28a28a38u128,
        0x1041041041051451451451451451451cu128,
        0x0820820820828a28a28a28a28a28a28eu128,
        0x04104104104145145145145145145147u128,
        0x820820820820a28a28a28a28a28a28e0u128,
        0x41041041041051451451451451451470u128,
        0x20820820820828a28a28a28a28a28a38u128,
        0x1041041041041451451451451451451cu128,
        0x0820820820820a28a28a28a28a28a28eu128,
        0x04104104104105145145145145145147u128,
        0x820820820820828a28a28a28a28a28e0u128,
        0x41041041041041451451451451451470u128,
        0x20820820820820a28a28a28a28a28a38u128,
        0x1041041041041051451451451451451cu128,
        0x0820820820820828a28a28a28a28a28eu128,
        0x04104104104104145145145145145147u128,
        0x820820820820820a28a28a28a28a28e0u128,
        0x41041041041041051451451451451470u128,
        0x20820820820820828a28a28a28a28a38u128,
        0x1041041041041041451451451451451cu128,
        0x0820820820820820a28a28a28a28a28eu128,
        0x04104104104104105145145145145147u128,
        0x820820820820820828a28a28a28a28e0u128,
        0x41041041041041041451451451451470u128,
        0x20820820820820820a28a28a28a28a38u128,
        0x1041041041041041051451451451451cu128,
        0x0820820820820820828a28a28a28a28eu128,
        0x04104104104104104145145145145147u128,
        0x820820820820820820a28a28a28a28e0u128,
        0x41041041041041041051451451451470u128,
        0x20820820820820820828a28a28a28a38u128,
        0x1041041041041041041451451451451cu128,
        0x0820820820820820820a28a28a28a28eu128,
        0x04104104104104104105145145145147u128,
        0x820820820820820820828a28a28a28e0u128,
        0x41041041041041041041451451451470u128,
        0x20820820820820820820a28a28a28a38u128,
        0x1041041041041041041051451451451cu128,
        0x0820820820820820820828a28a28a28eu128,
        0x04104104104104104104145145145147u128,
        0x820820820820820820820a28a28a28e0u128,
        0x41041041041041041041051451451470u128,
        0x20820820820820820820828a28a28a38u128,
        0x1041041041041041041041451451451cu128,
        0x0820820820820820820820a28a28a28eu128,
        0x04104104104104104104105145145147u128,
        0x820820820820820820820828a28a28e0u128,
        0x41041041041041041041041451451470u128,
        0x20820820820820820820820a28a28a38u128,
        0x1041041041041041041041051451451cu128,
        0x0820820820820820820820828a28a28eu128,
        0x04104104104104104104104145145147u128,
        0x820820820820820820820820a28a28e0u128,
        0x41041041041041041041041051451470u128,
        0x20820820820820820820820828a28a38u128,
        0x1041041041041041041041041451451cu128,
        0x0820820820820820820820820a28a28eu128,
        0x04104104104104104104104105145147u128,
        0x820820820820820820820820828a28e0u128,
        0x41041041041041041041041041451470u128,
        0x20820820820820820820820820a28a38u128,
        0x1041041041041041041041041051451cu128,
        0x0820820820820820820820820828a28eu128,
        0x04104104104104104104104104145147u128,
        0x820820820820820820820820820a28e0u128,
        0x41041041041041041041041041051470u128,
        0x20820820820820820820820820828a38u128,
        0x1041041041041041041041041041451cu128,
        0x0820820820820820820820820820a28eu128,
        0x04104104104104104104104104105147u128,
        0x820820820820820820820820820828e0u128,
        0x41041041041041041041041041041470u128,
        0x20820820820820820820820820820a38u128,
        0x1041041041041041041041041041051cu128,
        0x0820820820820820820820820820828eu128,
        0x04104104104104104104104104104147u128,
        0x820820820820820820820820820820e0u128,
        0x41041041041041041041041041041070u128,
        0x20820820820820820820820820820838u128,
        0x1041041041041041041041041041041cu128,
        0x0820820820820820820820820820820eu128,
        0x04104104104104104104104104104107u128,
        0x820820820820820820820820820820c0u128,
        0x41041041041041041041041041041060u128,
        0x20820820820820820820820820820830u128,
        0x10410410410410410410410410410418u128,
        0x0820820820820820820820820820820cu128,
        0x04104104104104104104104104104106u128,
    ];
    let mut v: Vec<u128> = Vec::new();
    let mut i: usize = 0;
    while i < 128
        invariant
            i <= 128,
            v@.len() == i,
            forall|t: int| 0 <= t < i ==> v@[t] == a@[t],
        decreases 128 - i,
    {
        v.push(a[i]);
        i = i + 1;
    }
    proof {
        assert(v@ =~= cobasis_seq());
    }
    v
}

/// The running sum `sum_j frob^j(cobasis_i) * l[j]` over the first `k`
/// terms.
pub open spec fn pi_rec(i: int, l: Seq<F128>, k: nat) -> F128
    decreases k,
{
    if k == 0 {
        zero()
    } else {
        sadd(
            pi_rec(i, l, (k - 1) as nat),
            smul(ssq_iter(F128(cobasis_seq()[i]), (k - 1) as nat), l[k - 1]),
        )
    }
}

/// Extracts coordinate `i` of a field element from its 128 twisted orbit
/// values: the dual-basis combination `sum_j frob^j(cobasis_i) * l[j]`.
pub fn pi(i: usize, l: &Vec<F128>) -> (r: F128)
    requires
        i < 128,
        l@.len() == 128,
    ensures
        r == pi_rec(i as int, l@, 128),
{
    let tbl = cobasis_table();
    let mut cur = F128(tbl[i]);
    let mut acc = F128::zero();
    let mut j: usize = 0;
    while j < 128
        invariant
            j <= 128,
            l@.len() == 128,
            i < 128,
            cur == ssq_iter(F128(cobasis_seq()[i as int]), j as nat),
            acc == pi_rec(i as int, l@, j as nat),
        decreases 128 - j,
    {
        acc = acc.add(cur.mul(l[j]));
        cur = cur.mul(cur);
        j = j + 1;
    }
    acc
}


/// The reduction step sends zero to zero and distributes over XOR.
proof fn lemma_mulx_linear(x: u128, y: u128)
    by (bit_vector)
    ensures
        mulx(x ^ y) == mulx(x) ^ mulx(y),
        mulx(0u128) == 0u128,
{
}

/// Iterated reduction steps send zero to zero.
proof fn lemma_mulx_iter_zero(k: nat)
    ensures
        mulx_iter(0u128, k) == 0u128,
    decreases k,
{
    if k > 0 {
        lemma_mulx_iter_zero((k - 1) as nat);
        lemma_mulx_linear(0u128, 0u128);
    }
}

/// Iterated reduction steps distribute over XOR.
proof fn lemma_mulx_iter_linear(x: u128, y: u128, k: nat)
    ensures
        mulx_iter(x ^ y, k) == mulx_iter(x, k) ^ mulx_iter(y, k),
    decreases k,
{
    if k > 0 {
        lemma_mulx_iter_linear(x, y, (k - 1) as nat);
        lemma_mulx_linear(mulx_iter(x, (k - 1) as nat), mulx_iter(y, (k - 1) as nat));
    }
}

/// The partial product of zero is zero.
proof fn lemma_mul_rec_zero_left(b: u128, k: nat)
    ensures
        mul_rec(0u128, b, k) == 0u128,
    decreases k,
{
    if k > 0 {
        lemma_mul_rec_zero_left(b, (k - 1) as nat);
        lemma_mulx_iter_zero((k - 1) as nat);
        lemma_xor_zero(0u128);
    }
}

/// The partial product against zero is zero.
proof fn lemma_mul_rec_zero_right(a: u128, k: nat)
    requires
        k <= 128,
    ensures
        mul_rec(a, 0u128, k) == 0u128,
    decreases k,
{
    if k > 0 {
        lemma_mul_rec_zero_right(a, (k - 1) as nat);
        let kk = (k - 1) as nat;
        let ku: u128 = kk as u128;
        assert((0u128 >> ku) & 1u128 == 0u128) by (bit_vector);
        lemma_xor_zero(0u128);
    }
}

/// The partial product is linear in its left argument.
proof fn lemma_mul_rec_linear_left(x: u128, y: u128, b: u128, k: nat)
    requires
        k <= 128,
    ensures
        mul_rec(x ^ y, b, k) == mul_rec(x, b, k) ^ mul_rec(y, b, k),
    decreases k,
{
    if k > 0 {
        let kk = (k - 1) as nat;
        lemma_mul_rec_linear_left(x, y, b, kk);
        lemma_mulx_iter_linear(x, y, kk);
        let mx = mul_rec(x, b, kk);
        let my = mul_rec(y, b, kk);
        let ix = mulx_iter(x, kk);
        let iy = mulx_iter(y, kk);
        let ku: u128 = kk as u128;
        assert((b >> (kk as u128)) == (b >> ku));
        if (b >> ku) & 1u128 == 1u128 {
            assert(mul_rec(x, b, k) == mx ^ ix);
            assert(mul_rec(y, b, k) == my ^ iy);
            assert(mul_rec(x ^ y, b, k) == (mx ^ my) ^ (ix ^ iy));
            assert((mx ^ my) ^ (ix ^ iy) == (mx ^ ix) ^ (my ^ iy)) by (bit_vector);
        } else {
            lemma_xor_zero(mx ^ my);
            lemma_xor_zero(mx);
            lemma_xor_zero(my);
            assert(mul_rec(x, b, k) == mx);
            assert(mul_rec(y, b, k) == my);
            assert(mul_rec(x ^ y, b, k) == mx ^ my);
        }
    } else {
        lemma_xor_zero(0u128);
    }
}

/// The partial product is linear in its right argument.
proof fn lemma_mul_rec_linear_right(a: u128, b1: u128, b2: u128, k: nat)
    requires
        k <= 128,
    ensures
        mul_rec(a, b1 ^ b2, k) == mul_rec(a, b1, k) ^ mul_rec(a, b2, k),
    decreases k,
{
    if k > 0 {
        let kk = (k - 1) as nat;
        lemma_mul_rec_linear_right(a, b1, b2, kk);
        let m1 = mul_rec(a, b1, kk);
        let m2 = mul_rec(a, b2, kk);
        let ia = mulx_iter(a, kk);
        let ku: u128 = kk as u128;
        let t1: u128 = if (b1 >> ku) & 1u128 == 1u128 {
            ia
        } else {
            0u128
        };
        let t2: u128 = if (b2 >> ku) & 1u128 == 1u128 {
            ia
        } else {
            0u128
        };
        assert((((b1 ^ b2) >> ku) & 1u128 == 1u128) <==> (((b1 >> ku) & 1u128 == 1u128) != ((b2
            >> ku) & 1u128 == 1u128))) by (bit_vector);
        let t12: u128 = if ((b1 ^ b2) >> ku) & 1u128 == 1u128 {
            ia
        } else {
            0u128
        };
        assert(t12 == t1 ^ t2) by {
            lemma_xor_zero(ia);
            lemma_xor_zero(0u128);
        }
        assert(mul_rec(a, b1, k) == m1 ^ t1) by {
            lemma_xor_zero(m1);
        }
        assert(mul_rec(a, b2, k) == m2 ^ t2) by {
            lemma_xor_zero(m2);
        }
        assert(mul_rec(a, b1 ^ b2, k) == (m1 ^ m2) ^ t12) by {
            lemma_xor_zero(m1 ^ m2);
        }
        assert((m1 ^ m2) ^ (t1 ^ t2) == (m1 ^ t1) ^ (m2 ^ t2)) by (bit_vector);
    } else {
        lemma_xor_zero(0u128);
    }
}

/// One is neutral on the right of the partial product.
proof fn lemma_mul_rec_one_right(a: u128, k: nat)
    requires
        1 <= k <= 128,
    ensures
        mul_rec(a, 1u128, k) == a,
    decreases k,
{
    if k == 1 {
        assert((1u128 >> 0u128) & 1u128 == 1u128) by (bit_vector);
        lemma_xor_zero(a);
        assert(mul_rec(a, 1u128, 0) == 0u128);
        assert((((k - 1) as nat) as u128) == 0u128);
        assert(mul_rec(a, 1u128, 1) == mul_rec(a, 1u128, 0) ^ mulx_iter(a, 0));
    } else {
        let kk = (k - 1) as nat;
        lemma_mul_rec_one_right(a, kk);
        let ku: u128 = kk as u128;
        assert((1u128 >> ku) & 1u128 == 0u128) by (bit_vector)
            requires
                ku >= 1,
        ;
        lemma_xor_zero(a);
    }
}

/// Iterating the reduction step on one walks through the monomials.
proof fn lemma_mulx_iter_one(k: nat)
    requires
        k < 128,
    ensures
        mulx_iter(1u128, k) == 1u128 << (k as u128),
    decreases k,
{
    if k == 0 {
        assert(1u128 << 0u128 == 1u128) by (bit_vector);
    } else {
        let kk = (k - 1) as nat;
        lemma_mulx_iter_one(kk);
        let ku: u128 = kk as u128;
        let v: u128 = 1u128 << ku;
        assert(v >> 127u128 == 0u128 && (v << 1u128) == 1u128 << (ku + 1)) by (bit_vector)
            requires
                v == 1u128 << ku,
                ku < 127,
        ;
        assert((ku + 1) as u128 == k as u128);
    }
}

/// The low `k` bits of a word.
pub open spec fn trunc_bits(b: u128, k: nat) -> u128 {
    if k >= 128 {
        b
    } else {
        b & (((1u128 << (k as u128)) - 1) as u128)
    }
}

/// One is neutral on the left: the partial product of one reconstructs the
/// low bits of the other factor.
proof fn lemma_mul_rec_one_left(b: u128, k: nat)
    requires
        k <= 128,
    ensures
        mul_rec(1u128, b, k) == trunc_bits(b, k),
    decreases k,
{
    if k == 0 {
        assert(b & (((1u128 << 0u128) - 1) as u128) == 0u128) by (bit_vector);
    } else {
        let kk = (k - 1) as nat;
        lemma_mul_rec_one_left(b, kk);
        lemma_mulx_iter_one(kk);
        let m = mul_rec(1u128, b, kk);
        let ku: u128 = kk as u128;
        let ku2: u128 = (kk + 1) as u128;
        if kk < 127 {
            assert((if (b >> ku) & 1u128 == 1u128 {
                m ^ (1u128 << ku)
            } else {
                m
            }) == b & (((1u128 << ku2) - 1) as u128)) by (bit_vector)
                requires
                    ku < 127,
                    ku2 == ku + 1,
                    m == b & (((1u128 << ku) - 1) as u128),
            ;
        } else {
            assert((if (b >> 127u128) & 1u128 == 1u128 {
                m ^ (1u128 << 127u128)
            } else {
                m
            }) == b) by (bit_vector)
                requires
                    m == b & (((1u128 << 127u128) - 1) as u128),
            ;
        }
        if (b >> ku) & 1u128 != 1u128 {
            lemma_xor_zero(m);
        }
    }
}

/// Field laws of the concrete multiplication: zero annihilates, one is the
/// identity on either side, and multiplication distributes over addition on
/// either side.
pub proof fn lemma_smul_basics(a: F128, b: F128, c: F128)
    ensures
        smul(a, zero()) == zero(),
        smul(zero(), a) == zero(),
        smul(a, one()) == a,
        smul(one(), a) == a,
        smul(a, sadd(b, c)) == sadd(smul(a, b), smul(a, c)),
        smul(sadd(a, b), c) == sadd(smul(a, c), smul(b, c)),
{
    lemma_mul_rec_zero_right(a.0, 128);
    lemma_mul_rec_zero_left(a.0, 128);
    lemma_mul_rec_one_right(a.0, 128);
    lemma_mul_rec_one_left(a.0, 128);
    lemma_mul_rec_linear_right(a.0, b.0, c.0, 128);
    lemma_mul_rec_linear_left(a.0, b.0, c.0, 128);
}


/// Iterated reduction steps compose by adding the counts.
proof fn lemma_mulx_iter_compose(x: u128, i: nat, j: nat)
    ensures
        mulx_iter(mulx_iter(x, i), j) == mulx_iter(x, i + j),
    decreases j,
{
    if j > 0 {
        lemma_mulx_iter_compose(x, i, (j - 1) as nat);
    }
}

/// The partial product against a single monomial is one iterated reduction,
/// when the monomial's exponent falls inside the processed range.
proof fn lemma_mul_rec_single_bit(a: u128, i: nat, k: nat)
    requires
        i < 128,
        k <= 128,
    ensures
        mul_rec(a, 1u128 << (i as u128), k) == (if i < k {
            mulx_iter(a, i)
        } else {
            0u128
        }),
    decreases k,
{
    if k > 0 {
        let kk = (k - 1) as nat;
        lemma_mul_rec_single_bit(a, i, kk);
        let iu: u128 = i as u128;
        let ku: u128 = kk as u128;
        assert((((1u128 << iu) >> ku) & 1u128 == 1u128) <==> (iu == ku)) by (bit_vector)
            requires
                iu < 128,
                ku < 128,
        ;
        if i == kk {
            lemma_xor_zero(mulx_iter(a, i));
        } else if i < kk {
            lemma_xor_zero(mulx_iter(a, i));
        } else {
            lemma_xor_zero(0u128);
        }
    }
}

/// The monomials commute: iterating the reduction step `j` times on `x^i`
/// or `i` times on `x^j` both give `x^(i+j)`.
proof fn lemma_monomial_comm(i: nat, j: nat)
    requires
        i < 128,
        j < 128,
    ensures
        mulx_iter(1u128 << (i as u128), j) == mulx_iter(1u128 << (j as u128), i),
{
    lemma_mulx_iter_one(i);
    lemma_mulx_iter_one(j);
    lemma_mulx_iter_compose(1u128, i, j);
    lemma_mulx_iter_compose(1u128, j, i);
}

/// A single monomial commutes with anything under the partial product.
proof fn lemma_single_bit_comm(i: nat, b: u128, k: nat)
    requires
        i < 128,
        k <= 128,
    ensures
        mulx_iter(b, i) == mul_rec(1u128 << (i as u128), b, k) ^ mulx_iter(
            b ^ trunc_bits(b, k),
            i,
        ),
    decreases k,
{
    if k == 0 {
        assert(b ^ trunc_bits(b, 0) == b) by (bit_vector);
        lemma_xor_zero(mulx_iter(b, i));
    } else {
        let kk = (k - 1) as nat;
        lemma_single_bit_comm(i, b, kk);
        let ku: u128 = kk as u128;
        let t: u128 = if (b >> ku) & 1u128 == 1u128 {
            1u128 << ku
        } else {
            0u128
        };
        let tbkk: u128 = trunc_bits(b, kk);
        let tbk: u128 = trunc_bits(b, k);
        assert(tbkk == b & (((1u128 << ku) - 1) as u128));
        if k < 128 {
            assert(tbk == b & (((1u128 << ((k as nat) as u128)) - 1) as u128));
            assert((b ^ tbkk) == (b ^ tbk) ^ t) by (bit_vector)
                requires
                    ku < 127,
                    t == (if (b >> ku) & 1u128 == 1u128 {
                        1u128 << ku
                    } else {
                        0u128
                    }),
                    tbkk == b & (((1u128 << ku) - 1) as u128),
                    tbk == b & (((1u128 << (ku + 1)) - 1) as u128),
            ;
        } else {
            assert(tbk == b);
            assert((b ^ tbkk) == (b ^ tbk) ^ t) by (bit_vector)
                requires
                    ku == 127,
                    t == (if (b >> ku) & 1u128 == 1u128 {
                        1u128 << ku
                    } else {
                        0u128
                    }),
                    tbkk == b & (((1u128 << ku) - 1) as u128),
                    tbk == b,
            ;
        }
        lemma_mulx_iter_linear(b ^ trunc_bits(b, k), t, i);
        let m = mul_rec(1u128 << (i as u128), b, kk);
        if (b >> ku) & 1u128 == 1u128 {
            lemma_monomial_comm(i, kk);
            lemma_mulx_iter_one(i);
            lemma_mulx_iter_one(kk);
            lemma_mulx_iter_compose(1u128, i, kk);
            assert(mulx_iter(1u128 << (i as u128), kk) == mulx_iter(t, i));
            // rearrange the accumulated terms
            let u = mulx_iter(b ^ trunc_bits(b, k), i);
            let v = mulx_iter(t, i);
            assert(m ^ (u ^ v) == (m ^ v) ^ u) by (bit_vector);
        } else {
            lemma_xor_zero(m);
            lemma_mulx_iter_zero(i);
            lemma_xor_zero(mulx_iter(b ^ trunc_bits(b, k), i));
        }
    }
}

/// Commutativity over the low `k` bits of the left factor.
proof fn lemma_comm_masked(a: u128, b: u128, k: nat)
    requires
        k <= 128,
        a == trunc_bits(a, k),
    ensures
        mul_rec(a, b, 128) == mul_rec(b, a, 128),
    decreases k,
{
    if k == 0 {
        assert(a == 0u128) by (bit_vector)
            requires
                a == trunc_bits(a, 0),
        ;
        lemma_mul_rec_zero_left(b, 128);
        lemma_mul_rec_zero_right(b, 128);
    } else {
        let kk = (k - 1) as nat;
        let ku: u128 = kk as u128;
        let t: u128 = if (a >> ku) & 1u128 == 1u128 {
            1u128 << ku
        } else {
            0u128
        };
        let a2: u128 = a ^ t;
        let ta2: u128 = trunc_bits(a2, kk);
        assert(ta2 == a2 & (((1u128 << ku) - 1) as u128));
        if k < 128 {
            assert(a == a & (((1u128 << ((k as nat) as u128)) - 1) as u128));
            assert(a2 == ta2 && a == a2 ^ t) by (bit_vector)
                requires
                    ku < 127,
                    a == a & (((1u128 << (ku + 1)) - 1) as u128),
                    t == (if (a >> ku) & 1u128 == 1u128 {
                        1u128 << ku
                    } else {
                        0u128
                    }),
                    a2 == a ^ t,
                    ta2 == a2 & (((1u128 << ku) - 1) as u128),
            ;
        } else {
            assert(a2 == ta2 && a == a2 ^ t) by (bit_vector)
                requires
                    ku == 127,
                    t == (if (a >> ku) & 1u128 == 1u128 {
                        1u128 << ku
                    } else {
                        0u128
                    }),
                    a2 == a ^ t,
                    ta2 == a2 & (((1u128 << ku) - 1) as u128),
            ;
        }
        assert(a2 == trunc_bits(a2, kk));
        lemma_comm_masked(a2, b, kk);
        lemma_mul_rec_linear_left(a2, t, b, 128);
        lemma_mul_rec_linear_right(b, a2, t, 128);
        if (a >> ku) & 1u128 == 1u128 {
            // the single monomial commutes with b
            lemma_single_bit_comm(kk, b, 128);
            assert(b ^ trunc_bits(b, 128) == 0u128) by (bit_vector)
                requires
                    trunc_bits(b, 128) == b,
            ;
            lemma_mulx_iter_zero(kk);
            lemma_xor_zero(mul_rec(1u128 << ku, b, 128));
            lemma_mul_rec_single_bit(b, kk, 128);
        } else {
            lemma_mul_rec_zero_left(b, 128);
            lemma_mul_rec_zero_right(b, 128);
            lemma_xor_zero(mul_rec(a2, b, 128));
            lemma_xor_zero(mul_rec(b, a2, 128));
        }
    }
}

/// The concrete field multiplication is commutative.
pub proof fn lemma_smul_comm(a: F128, b: F128)
    ensures
        smul(a, b) == smul(b, a),
{
    lemma_comm_masked(a.0, b.0, 128);
}

} // verus!
