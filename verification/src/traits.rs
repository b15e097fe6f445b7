//! The compressed round-polynomial representation and the interface that a
//! sum-check prover presents to a driver.

use vstd::prelude::*;

use crate::field::{sadd, xor_fold, zero, F128};

verus! {

/// A univariate round polynomial with its linear coefficient elided: the
/// verifier recovers it from the running claim, which equals the polynomial's
/// value at 0 plus its value at 1.
#[derive(Clone, Debug)]
pub struct CompressedPoly {
    pub compressed_coeffs: Vec<F128>,
}

/// What `compress` keeps: the constant coefficient followed by the
/// coefficients of degree two and higher.
pub open spec fn compress_seq(poly: Seq<F128>) -> Seq<F128> {
    seq![poly[0]] + poly.subrange(2, poly.len() as int)
}

/// What `compress` reports alongside: the sum of all coefficients but the
/// constant one, which equals `poly(0) + poly(1)`.
pub open spec fn compress_sum(poly: Seq<F128>) -> F128 {
    xor_fold(poly.subrange(1, poly.len() as int))
}

/// The full coefficient list recovered from a compressed polynomial and the
/// claim `sum = poly(0) + poly(1)`.
pub open spec fn coeffs_seq(c: Seq<F128>, sum: F128) -> Seq<F128> {
    let ev_1 = sadd(c[0], sum);
    let coeff_1 = sadd(xor_fold(c), ev_1);
    seq![c[0], coeff_1] + c.subrange(1, c.len() as int)
}

impl CompressedPoly {
    /// Drops the linear coefficient of `poly` and returns the sum of the
    /// remaining non-constant coefficients, from which that coefficient can
    /// be recovered.
    pub fn compress(poly: &[F128]) -> (r: (CompressedPoly, F128))
        requires
            poly@.len() >= 2,
        ensures
            r.0.compressed_coeffs@ == compress_seq(poly@),
            r.1 == compress_sum(poly@),
    {
        let n = poly.len();
        let mut sum = F128::zero();
        let mut i: usize = 1;
        proof {
            assert(poly@.subrange(1, 1) =~= Seq::<F128>::empty());
        }
        while i < n
            invariant
                1 <= i <= n,
                n == poly@.len(),
                sum == xor_fold(poly@.subrange(1, i as int)),
            decreases n - i,
        {
            proof {
                assert(poly@.subrange(1, i + 1).drop_last() =~= poly@.subrange(1, i as int));
                assert(poly@.subrange(1, i + 1).last() == poly@[i as int]);
            }
            sum = sum.add(poly[i]);
            i = i + 1;
        }
        let mut compressed: Vec<F128> = Vec::new();
        compressed.push(poly[0]);
        let mut j: usize = 2;
        while j < n
            invariant
                2 <= j <= n || (j == 2 && n < 2),
                n == poly@.len(),
                n >= 2,
                compressed@ == seq![poly@[0]] + poly@.subrange(2, j as int),
            decreases n - j,
        {
            proof {
                assert(
                    seq![poly@[0]] + poly@.subrange(2, j + 1) =~= (seq![poly@[0]] + poly@.subrange(
                        2,
                        j as int,
                    )).push(poly@[j as int])
                );
            }
            compressed.push(poly[j]);
            j = j + 1;
        }
        proof {
            assert(compressed@ =~= compress_seq(poly@));
        }
        (CompressedPoly { compressed_coeffs: compressed }, sum)
    }

    /// Recovers the full coefficient list from the compressed form and the
    /// previous claim, which is `poly(0) + poly(1)`.
    pub fn coeffs(&self, sum: F128) -> (r: Vec<F128>)
        requires
            self.compressed_coeffs@.len() >= 1,
        ensures
            r@ == coeffs_seq(self.compressed_coeffs@, sum),
    {
        let c = &self.compressed_coeffs;
        let n = c.len();
        let coeff_0 = c[0];
        let ev_1 = coeff_0.add(sum);
        let mut acc = F128::zero();
        let mut i: usize = 0;
        proof {
            assert(c@.subrange(0, 0) =~= Seq::<F128>::empty());
        }
        while i < n
            invariant
                i <= n,
                n == c@.len(),
                acc == xor_fold(c@.subrange(0, i as int)),
            decreases n - i,
        {
            proof {
                assert(c@.subrange(0, i + 1).drop_last() =~= c@.subrange(0, i as int));
            }
            acc = acc.add(c[i]);
            i = i + 1;
        }
        proof {
            assert(c@.subrange(0, n as int) =~= c@);
        }
        let coeff_1 = acc.add(ev_1);
        let mut r: Vec<F128> = Vec::new();
        r.push(coeff_0);
        r.push(coeff_1);
        let mut j: usize = 1;
        while j < n
            invariant
                1 <= j <= n,
                n == c@.len(),
                r@ == seq![c@[0], sadd(xor_fold(c@), sadd(c@[0], sum))] + c@.subrange(0, j as int).drop_first(),
            decreases n - j,
        {
            r.push(c[j]);
            proof {
                assert(
                    seq![c@[0], sadd(xor_fold(c@), sadd(c@[0], sum))] + c@.subrange(
                        0,
                        j + 1,
                    ).drop_first() =~= (seq![c@[0], sadd(xor_fold(c@), sadd(c@[0], sum))]
                        + c@.subrange(0, j as int).drop_first()).push(c@[j as int])
                );
            }
            j = j + 1;
        }
        proof {
            assert(c@.subrange(0, n as int).drop_first() =~= c@.subrange(1, n as int));
            assert(r@ =~= coeffs_seq(c@, sum));
        }
        r
    }
}

/// Compression is lossless: given the matching claim, `coeffs` restores every
/// coefficient of the polynomial that was compressed.
pub proof fn lemma_compress_roundtrip(poly: Seq<F128>)
    ensures
        poly.len() >= 2 ==> coeffs_seq(compress_seq(poly), compress_sum(poly)) == poly,
{
    if poly.len() >= 2 {
        let tail2 = poly.subrange(2, poly.len() as int);
        let tail1 = poly.subrange(1, poly.len() as int);
        let c = compress_seq(poly);
        let sum = compress_sum(poly);
        assert(c[0] == poly[0]);
        crate::field::lemma_xor_fold_cons(poly[0], tail2);
        assert(tail1 =~= seq![poly[1]] + tail2);
        crate::field::lemma_xor_fold_cons(poly[1], tail2);
        let x = xor_fold(tail2);
        // the recovered linear coefficient:
        //   (a0 + x) + (a0 + (a1 + x)) == a1
        let a = poly[0].0;
        let b = poly[1].0;
        let xx = x.0;
        assert((a ^ xx) ^ (a ^ (b ^ xx)) == b) by (bit_vector);
        assert(sadd(sadd(poly[0], x), sadd(poly[0], sadd(poly[1], x))) == poly[1]);
        assert(c.subrange(1, c.len() as int) =~= tail2);
        assert(coeffs_seq(c, sum) =~= poly);
    }
}

/// The interface a sum-check prover presents to the driver of the protocol:
/// a round message that must be idempotent, and a binding step that consumes
/// one verifier challenge.
pub trait SumcheckObject: Sized {
    /// Whether all rounds of the protocol have been played.
    spec fn is_finished(&self) -> bool;

    /// Whether the state is internally consistent.
    spec fn is_consistent(&self) -> bool;

    /// Whether this prover binds variables starting from the highest index.
    fn is_reverse_order(&self) -> bool;

    /// Consumes one verifier challenge and advances the state by one round.
    fn bind(&mut self, challenge: F128)
        requires
            old(self).is_consistent(),
            !old(self).is_finished(),
    ;

    /// The current round's compressed polynomial.
    fn round_msg(&mut self) -> CompressedPoly
        requires
            old(self).is_consistent(),
            !old(self).is_finished(),
    ;
}

/// The subsequence `s[base], s[base + step], ...` of `count` entries.
pub open spec fn strided(s: Seq<F128>, base: int, step: int, count: nat) -> Seq<F128> {
    Seq::new(count, |k: int| s[base + k * step])
}

/// The entry-wise sum of two sequences of the same length.
pub open spec fn seq_add(a: Seq<F128>, b: Seq<F128>) -> Seq<F128> {
    Seq::new(a.len(), |i: int| sadd(a[i], b[i]))
}

/// A quadratic combinator with one output: the formula `f` the check proves a
/// claim about.  It is split into a linear part and a purely quadratic part
/// whose sum is `f`, evaluated on whole field elements, which act
/// coordinate-wise on the 128 boolean coordinate slices at once; `alg` is the
/// same formula written algebraically on the 128 separate coordinate values
/// of each argument.
pub trait QuadFormula: Sized {
    /// How many input polynomials the formula reads.
    spec fn arity(&self) -> nat;

    /// The linear part, on one field element per input polynomial.
    spec fn lin(&self, args: Seq<F128>) -> F128;

    /// The purely quadratic part, on one field element per input polynomial.
    spec fn quad(&self, args: Seq<F128>) -> F128;

    /// The algebraic form, on the 128 coordinate values of each input
    /// polynomial, laid out as `coords[q * 128 + i]`.
    spec fn alg(&self, coords: Seq<F128>) -> F128;

    /// The arity is at least one.
    proof fn arity_pos(&self)
        ensures
            self.arity() >= 1,
    ;

    /// The arity as a run-time value.
    fn num_polys(&self) -> (n: usize)
        ensures
            n as nat == self.arity(),
            n >= 1,
    ;

    /// Evaluates the linear part.
    fn eval_lin(&self, args: &Vec<F128>) -> (r: F128)
        requires
            args@.len() == self.arity(),
        ensures
            r == self.lin(args@),
    ;

    /// Evaluates the purely quadratic part.
    fn eval_quad(&self, args: &Vec<F128>) -> (r: F128)
        requires
            args@.len() == self.arity(),
        ensures
            r == self.quad(args@),
    ;

    /// Evaluates the algebraic form at the three points 0, 1 and infinity of
    /// one variable: the coordinate values are read from `data` with stride
    /// `offset` starting at `2 * start` for the even copy and `2 * start + 1`
    /// for the odd copy, and the value at infinity is taken on their sums.
    fn eval_alg(&self, data: &Vec<F128>, start: usize, offset: usize) -> (r: [F128; 3])
        requires
            self.arity() >= 1,
            offset >= 1,
            2 * start + 1 + (self.arity() * 128 - 1) * offset < data@.len(),
        ensures
            r@[0] == self.alg(strided(data@, 2 * start as int, offset as int, self.arity() * 128)),
            r@[1] == self.alg(
                strided(data@, 2 * start as int + 1, offset as int, self.arity() * 128),
            ),
            r@[2] == self.alg(
                seq_add(
                    strided(data@, 2 * start as int, offset as int, self.arity() * 128),
                    strided(data@, 2 * start as int + 1, offset as int, self.arity() * 128),
                ),
            ),
    ;
}

/// A quadratic combinator with several outputs; a folding challenge reduces
/// it to a single-output `QuadFormula` by a Horner combination of the
/// outputs.
pub trait MultiQuadFormula: Sized {
    /// How many input polynomials the formula reads.
    spec fn arity(&self) -> nat;

    /// How many outputs the formula produces.
    spec fn width(&self) -> nat;

    /// The linear part of output `m`.
    spec fn lin_at(&self, m: int, args: Seq<F128>) -> F128;

    /// The purely quadratic part of output `m`.
    spec fn quad_at(&self, m: int, args: Seq<F128>) -> F128;

    /// The algebraic form of output `m`, on coordinate values laid out as
    /// `coords[q * 128 + i]`.
    spec fn alg_at(&self, m: int, coords: Seq<F128>) -> F128;

    /// The arity is at least one.
    proof fn arity_pos(&self)
        ensures
            self.arity() >= 1,
    ;

    /// The width is at least one.
    proof fn width_pos(&self)
        ensures
            self.width() >= 1,
    ;

    /// The arity as a run-time value.
    fn num_polys(&self) -> (n: usize)
        ensures
            n as nat == self.arity(),
            n >= 1,
    ;

    /// The width as a run-time value.
    fn num_outputs(&self) -> (m: usize)
        ensures
            m as nat == self.width(),
            m >= 1,
    ;

    /// Evaluates the linear part of every output.
    fn eval_lins(&self, args: &Vec<F128>) -> (r: Vec<F128>)
        requires
            args@.len() == self.arity(),
        ensures
            r@.len() == self.width(),
            forall|m: int| 0 <= m < self.width() ==> #[trigger] r@[m] == self.lin_at(m, args@),
    ;

    /// Evaluates the purely quadratic part of every output.
    fn eval_quads(&self, args: &Vec<F128>) -> (r: Vec<F128>)
        requires
            args@.len() == self.arity(),
        ensures
            r@.len() == self.width(),
            forall|m: int| 0 <= m < self.width() ==> #[trigger] r@[m] == self.quad_at(m, args@),
    ;

    /// Evaluates the algebraic form of every output at the three points 0, 1
    /// and infinity, with the same layout as `QuadFormula::eval_alg`.
    fn eval_algs(&self, data: &Vec<F128>, start: usize, offset: usize) -> (r: (
        Vec<F128>,
        Vec<F128>,
        Vec<F128>,
    ))
        requires
            self.arity() >= 1,
            offset >= 1,
            2 * start + 1 + (self.arity() * 128 - 1) * offset < data@.len(),
        ensures
            r.0@.len() == self.width(),
            r.1@.len() == self.width(),
            r.2@.len() == self.width(),
            forall|m: int|
                0 <= m < self.width() ==> #[trigger] r.0@[m] == self.alg_at(
                    m,
                    strided(data@, 2 * start as int, offset as int, self.arity() * 128),
                ),
            forall|m: int|
                0 <= m < self.width() ==> #[trigger] r.1@[m] == self.alg_at(
                    m,
                    strided(data@, 2 * start as int + 1, offset as int, self.arity() * 128),
                ),
            forall|m: int|
                0 <= m < self.width() ==> #[trigger] r.2@[m] == self.alg_at(
                    m,
                    seq_add(
                        strided(data@, 2 * start as int, offset as int, self.arity() * 128),
                        strided(data@, 2 * start as int + 1, offset as int, self.arity() * 128),
                    ),
                ),
    ;
}

/// A linear map carrying some number of input evaluation tables, chunk by
/// chunk, to output tables; the dimensions are powers of two.
pub trait AdmissibleMatrix {
    /// How many input tables a chunk application reads.
    fn num_input_polys(&self) -> usize;

    /// How many output tables a chunk application writes.
    fn num_output_polys(&self) -> usize;

    /// Base-two logarithm of the input chunk length.
    fn logsize_in(&self) -> usize;

    /// Base-two logarithm of the output chunk length.
    fn logsize_out(&self) -> usize;

    /// Applies the map to one chunk of each input table.
    fn apply(&self, src: &Vec<Vec<F128>>) -> Vec<Vec<F128>>;

    /// Applies the transposed map to one chunk of each input table.
    fn apply_transposed(&self, src: &Vec<Vec<F128>>) -> Vec<Vec<F128>>;

    /// Applies the map chunk by chunk across whole tables.
    fn apply_full(&self, input: &Vec<Vec<F128>>) -> Vec<Vec<F128>>;
}

} // verus!
