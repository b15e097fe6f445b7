//! The generic quadratic boolean check: a sum-check for any quadratic
//! formula of the coordinate slices of some input polynomials, driven by a
//! `QuadFormula` package; a multi-output formula is first folded into a
//! single output by a Horner combination with a folding challenge.

use vstd::prelude::*;
use vstd::slice::slice_subrange;

use crate::field::{sadd, smul, zero, F128};
use crate::protocols::utils::{
    eq_table, eq_ev_spec, eval_cubic_left, fold3_entry, fold_ext_by3, fold_pairs, is_bit_mapping,
    make_round_poly, p1_sum, pair_fold_entry, phase1_triple_sums, pow2, pow3, restrict_spec,
    round_poly_coeffs, univar_horner, views_of,
};
use crate::traits::{
    coeffs_seq, compress_seq, seq_add, strided, CompressedPoly, MultiQuadFormula, QuadFormula,
    SumcheckObject,
};

verus! {

/// The AND formula on two inputs: linear part zero, quadratic part the
/// coordinate-wise product, algebraic form the basis-weighted sum of the
/// products of matching coordinates.
pub struct AndPackage;

/// The algebraic AND combinator: the sum over the first `k` coordinates of
/// `basis(i) * coords[i] * coords[128 + i]`.
pub open spec fn and_alg_spec(coords: Seq<F128>, k: nat) -> F128
    decreases k,
{
    if k == 0 {
        zero()
    } else {
        sadd(
            and_alg_spec(coords, (k - 1) as nat),
            smul(
                smul(crate::protocols::utils::basis_spec(k - 1), coords[k - 1]),
                coords[128 + k - 1],
            ),
        )
    }
}

impl MultiQuadFormula for AndPackage {
    open spec fn arity(&self) -> nat {
        2
    }

    open spec fn width(&self) -> nat {
        1
    }

    open spec fn lin_at(&self, m: int, args: Seq<F128>) -> F128 {
        zero()
    }

    open spec fn quad_at(&self, m: int, args: Seq<F128>) -> F128 {
        crate::field::sband(args[0], args[1])
    }

    open spec fn alg_at(&self, m: int, coords: Seq<F128>) -> F128 {
        and_alg_spec(coords, 128)
    }

    proof fn arity_pos(&self) {
    }

    proof fn width_pos(&self) {
    }

    fn num_polys(&self) -> (n: usize) {
        2
    }

    fn num_outputs(&self) -> (m: usize) {
        1
    }

    fn eval_lins(&self, args: &Vec<F128>) -> (r: Vec<F128>) {
        let mut r: Vec<F128> = Vec::new();
        r.push(F128::zero());
        r
    }

    fn eval_quads(&self, args: &Vec<F128>) -> (r: Vec<F128>) {
        let mut r: Vec<F128> = Vec::new();
        r.push(args[0].bitand(args[1]));
        r
    }

    fn eval_algs(&self, data: &Vec<F128>, start: usize, offset: usize) -> (r: (
        Vec<F128>,
        Vec<F128>,
        Vec<F128>,
    )) {
        let ghost se = strided(data@, 2 * start as int, offset as int, 256);
        let ghost so = strided(data@, 2 * start as int + 1, offset as int, 256);
        let dlen = data.len();
        let mut a0 = F128::zero();
        let mut a1 = F128::zero();
        let mut a2 = F128::zero();
        let mut i: usize = 0;
        while i < 128
            invariant
                i <= 128,
                offset >= 1,
                dlen == data@.len(),
                2 * start + 1 + 255 * offset < dlen,
                se == strided(data@, 2 * start as int, offset as int, 256),
                so == strided(data@, 2 * start as int + 1, offset as int, 256),
                a0 == and_alg_spec(se, i as nat),
                a1 == and_alg_spec(so, i as nat),
                a2 == and_alg_spec(seq_add(se, so), i as nat),
            decreases 128 - i,
        {
            proof {
                assert(i * offset <= 127 * offset && (128 + i) * offset <= 255 * offset)
                    by (nonlinear_arith)
                    requires
                        i < 128,
                        offset >= 1,
                ;
            }
            let idx_a = 2 * start + i * offset;
            let idx_b = 2 * start + (128 + i) * offset;
            let b = F128::basis(i);
            let pa0 = data[idx_a];
            let pa1 = data[idx_a + 1];
            let pb0 = data[idx_b];
            let pb1 = data[idx_b + 1];
            a0 = a0.add(b.mul(pa0).mul(pb0));
            a1 = a1.add(b.mul(pa1).mul(pb1));
            a2 = a2.add(b.mul(pa0.add(pa1)).mul(pb0.add(pb1)));
            proof {
                assert(se[i as int] == pa0 && so[i as int] == pa1);
                assert(se[128 + i as int] == pb0 && so[128 + i as int] == pb1);
                assert(seq_add(se, so)[i as int] == sadd(pa0, pa1));
                assert(seq_add(se, so)[128 + i as int] == sadd(pb0, pb1));
            }
            i = i + 1;
        }
        let mut r0: Vec<F128> = Vec::new();
        let mut r1: Vec<F128> = Vec::new();
        let mut r2: Vec<F128> = Vec::new();
        r0.push(a0);
        r1.push(a1);
        r2.push(a2);
        (r0, r1, r2)
    }
}

/// A multi-output formula folded into a single output by Horner combination
/// of its outputs with a folding challenge.
pub struct FoldedFormula<C: MultiQuadFormula> {
    pub inner: C,
    pub gamma: F128,
}

/// The Horner combination of a sequence of outputs with the folding
/// challenge.
pub open spec fn folded_outputs(vals: Seq<F128>, gamma: F128) -> F128 {
    univar_horner(vals, gamma)
}

/// Evaluates the Horner combination of a non-empty output vector.
fn horner_combine(vals: &Vec<F128>, gamma: F128) -> (r: F128)
    requires
        vals@.len() >= 1,
    ensures
        r == folded_outputs(vals@, gamma),
{
    let m = vals.len();
    let mut ret = vals[m - 1];
    proof {
        assert(vals@.subrange(m - 1, m as int).len() == 1);
    }
    let mut i: usize = 0;
    while i < m - 1
        invariant
            i <= m - 1,
            m == vals@.len(),
            m >= 1,
            ret == univar_horner(vals@.subrange(m - 1 - i, m as int), gamma),
        decreases m - 1 - i,
    {
        proof {
            assert(vals@.subrange(m - 2 - i, m as int).drop_first() =~= vals@.subrange(
                m - 1 - i,
                m as int,
            ));
        }
        ret = ret.mul(gamma).add(vals[m - 2 - i]);
        i = i + 1;
    }
    proof {
        assert(vals@.subrange(0, m as int) =~= vals@);
    }
    ret
}

impl<C: MultiQuadFormula> QuadFormula for FoldedFormula<C> {
    open spec fn arity(&self) -> nat {
        self.inner.arity()
    }

    open spec fn lin(&self, args: Seq<F128>) -> F128 {
        folded_outputs(
            Seq::new(self.inner.width(), |m: int| self.inner.lin_at(m, args)),
            self.gamma,
        )
    }

    open spec fn quad(&self, args: Seq<F128>) -> F128 {
        folded_outputs(
            Seq::new(self.inner.width(), |m: int| self.inner.quad_at(m, args)),
            self.gamma,
        )
    }

    open spec fn alg(&self, coords: Seq<F128>) -> F128 {
        folded_outputs(
            Seq::new(self.inner.width(), |m: int| self.inner.alg_at(m, coords)),
            self.gamma,
        )
    }

    proof fn arity_pos(&self) {
        self.inner.arity_pos();
    }

    fn num_polys(&self) -> (n: usize) {
        self.inner.num_polys()
    }

    fn eval_lin(&self, args: &Vec<F128>) -> (r: F128) {
        proof {
            self.inner.width_pos();
        }
        let vals = self.inner.eval_lins(args);
        let r = horner_combine(&vals, self.gamma);
        proof {
            assert(vals@ =~= Seq::new(self.inner.width(), |m: int| self.inner.lin_at(m, args@)));
        }
        r
    }

    fn eval_quad(&self, args: &Vec<F128>) -> (r: F128) {
        proof {
            self.inner.width_pos();
        }
        let vals = self.inner.eval_quads(args);
        let r = horner_combine(&vals, self.gamma);
        proof {
            assert(vals@ =~= Seq::new(self.inner.width(), |m: int| self.inner.quad_at(m, args@)));
        }
        r
    }

    fn eval_alg(&self, data: &Vec<F128>, start: usize, offset: usize) -> (r: [F128; 3]) {
        proof {
            self.inner.width_pos();
        }
        let vals = self.inner.eval_algs(data, start, offset);
        let r0 = horner_combine(&vals.0, self.gamma);
        let r1 = horner_combine(&vals.1, self.gamma);
        let r2 = horner_combine(&vals.2, self.gamma);
        proof {
            let n128 = self.inner.arity() * 128;
            let se = strided(data@, 2 * start as int, offset as int, n128);
            let so = strided(data@, 2 * start as int + 1, offset as int, n128);
            assert(vals.0@ =~= Seq::new(self.inner.width(), |m: int| self.inner.alg_at(m, se)));
            assert(vals.1@ =~= Seq::new(self.inner.width(), |m: int| self.inner.alg_at(m, so)));
            assert(vals.2@ =~= Seq::new(
                self.inner.width(),
                |m: int| self.inner.alg_at(m, seq_add(se, so)),
            ));
        }
        [r0, r1, r2]
    }
}

/// The package side of the phase-two partial sum: the folded algebraic form
/// read at each position, weighted on the right by the equality values, over
/// the first `ch` positions.
pub open spec fn pkg_p2_sum<C: QuadFormula>(
    f: C,
    data: Seq<F128>,
    eqs: Seq<F128>,
    full: int,
    which: int,
    ch: nat,
) -> F128
    decreases ch,
{
    if ch == 0 {
        zero()
    } else {
        let i = ch - 1;
        let se = strided(data, 2 * i, full, f.arity() * 128);
        let so = strided(data, 2 * i + 1, full, f.arity() * 128);
        let args = if which == 0 {
            se
        } else if which == 1 {
            so
        } else {
            seq_add(se, so)
        };
        sadd(pkg_p2_sum(f, data, eqs, full, which, (ch - 1) as nat), smul(f.alg(args), eqs[i]))
    }
}

/// A check for any quadratic formula of the coordinate slices of the input
/// polynomials, still carrying several output claims; a folding challenge
/// reduces it to a single-output instance.
pub struct BoolCheck<C: MultiQuadFormula> {
    pub f: C,
    pub pt: Vec<F128>,
    pub polys: Vec<Vec<F128>>,
    pub c: usize,
    pub evaluation_claims: Vec<F128>,
}

impl<C: MultiQuadFormula> BoolCheck<C> {
    /// Packs the inputs of a multi-output check.
    pub fn new(
        f: C,
        polys: Vec<Vec<F128>>,
        c: usize,
        evaluation_claims: Vec<F128>,
        pt: Vec<F128>,
    ) -> (r: BoolCheck<C>)
        ensures
            r.f == f,
            r.pt@ == pt@,
            r.polys@ == polys@,
            r.c == c,
            r.evaluation_claims@ == evaluation_claims@,
    {
        BoolCheck { f, pt, polys, c, evaluation_claims }
    }

    /// Accepts the verifier's folding challenge: combines the output claims
    /// by Horner with `gamma` and hands the folded formula to the
    /// single-output prover.
    pub fn folding_challenge(self, gamma: F128) -> (r: BoolCheckSingle<FoldedFormula<C>>)
        requires
            self.evaluation_claims@.len() == self.f.width(),
            self.f.width() >= 1,
            self.polys@.len() == self.f.arity(),
            self.pt@.len() >= 1,
            (self.c as int) < self.pt@.len(),
            self.c >= 3,
            pow3((self.c + 1) as nat) < 0x8000,
            forall|z: int|
                0 <= z < self.polys@.len() ==> (#[trigger] self.polys@[z]@.len()) == pow2(
                    self.pt@.len(),
                ),
            self.polys@.len() * (128 * (pow2(self.pt@.len()) / pow2((self.c + 1) as nat)))
                <= usize::MAX,
        ensures
            r.wf(),
            r.f == (FoldedFormula { inner: self.f, gamma }),
            r.pt@ == self.pt@,
            r.polys@ == self.polys@,
            r.c == self.c,
            r.challenges@.len() == 0,
            r.claim == folded_outputs(self.evaluation_claims@, gamma),
            forall|t: int|
                0 <= t < r.ext@.len() ==> #[trigger] r.ext@[t] == (if
                crate::protocols::utils::top_two(
                    (t % (pow3((self.c + 1) as nat) as int)) as nat,
                    (self.c + 1) as nat,
                ) == -1 {
                    sadd(
                        (FoldedFormula { inner: self.f, gamma }).quad(
                            crate::protocols::utils::ext_n_args(
                                views_of(self.polys@),
                                self.c as nat,
                                t / (pow3((self.c + 1) as nat) as int),
                                (t % (pow3((self.c + 1) as nat) as int)) as nat,
                            ),
                        ),
                        (FoldedFormula { inner: self.f, gamma }).lin(
                            crate::protocols::utils::ext_n_args(
                                views_of(self.polys@),
                                self.c as nat,
                                t / (pow3((self.c + 1) as nat) as int),
                                (t % (pow3((self.c + 1) as nat) as int)) as nat,
                            ),
                        ),
                    )
                } else {
                    (FoldedFormula { inner: self.f, gamma }).quad(
                        crate::protocols::utils::ext_n_args(
                            views_of(self.polys@),
                            self.c as nat,
                            t / (pow3((self.c + 1) as nat) as int),
                            (t % (pow3((self.c + 1) as nat) as int)) as nat,
                        ),
                    )
                }),
    {
        let evaluation_claim = horner_combine(&self.evaluation_claims, gamma);
        let folded = FoldedFormula { inner: self.f, gamma };
        BoolCheckSingle::new(folded, self.pt, self.polys, self.c, evaluation_claim)
    }
}

/// The single-output quadratic check: the two-phase sum-check prover for
/// `sum_x f(P_1(x), ..., P_N(x)) * eq(x, pt)`.  The current coordinate
/// restrictions live in the last entry of `polys_coords`; earlier entries
/// are kept as a cache for later argument reconstruction.
pub struct BoolCheckSingle<C: QuadFormula> {
    pub f: C,
    pub pt: Vec<F128>,
    pub polys: Vec<Vec<F128>>,
    pub ext: Vec<F128>,
    pub polys_coords: Vec<Vec<F128>>,
    pub c: usize,
    pub claim: F128,
    pub challenges: Vec<F128>,
    pub bits_to_trits_map: Vec<u16>,
    pub eq_sequence: Vec<Vec<F128>>,
    pub round_polys: Vec<CompressedPoly>,
}

impl<C: QuadFormula> BoolCheckSingle<C> {
    /// The structural invariant of the prover state.
    pub open spec fn wf(&self) -> bool {
        let n = self.pt@.len();
        let r = self.challenges@.len();
        &&& n >= 1
        &&& (self.c as int) < n
        &&& self.c >= 3
        &&& r <= n
        &&& self.f.arity() >= 1
        &&& pow3((self.c + 1) as nat) < 0x8000
        &&& self.polys@.len() == self.f.arity()
        &&& self.polys@.len() * (128 * (pow2(n) / pow2((self.c + 1) as nat))) <= usize::MAX
        &&& (forall|z: int|
            0 <= z < self.polys@.len() ==> (#[trigger] self.polys@[z]@.len()) == pow2(n))
        &&& is_bit_mapping(self.bits_to_trits_map@, self.c as nat)
        &&& self.eq_sequence@.len() == n
        &&& (forall|i: int|
            0 <= i < n ==> (#[trigger] self.eq_sequence@[i])@ == eq_table(
                self.pt@.subrange(n - i, n as int),
            ))
        &&& (forall|i: int|
            0 <= i < n ==> (#[trigger] self.eq_sequence@[i])@.len() == pow2(i as nat))
        &&& (self.round_polys@.len() == r || self.round_polys@.len() == r + 1)
        &&& (forall|k: int|
            0 <= k < self.round_polys@.len()
                ==> (#[trigger] self.round_polys@[k]).compressed_coeffs@.len() == 3)
        &&& if r <= self.c {
            &&& self.ext@.len() == pow3((self.c + 1 - r) as nat) * pow2((n - self.c - 1) as nat)
            &&& self.polys_coords@.len() == 0
        } else {
            &&& self.ext@.len() == 0
            &&& self.polys_coords@.len() == r - self.c
            &&& (self.polys_coords@[self.polys_coords@.len() - 1])@.len() == self.f.arity() * 128
                * pow2((n - r) as nat)
        }
    }

    /// The current coordinate array: the last cached restriction layer.
    pub open spec fn cur_coords(&self) -> Seq<F128> {
        self.polys_coords@[self.polys_coords@.len() - 1]@
    }

    /// Builds a single-output prover: extends the input tables by the
    /// formula and precomputes the suffix equality tables.
    pub fn new(f: C, pt: Vec<F128>, polys: Vec<Vec<F128>>, c: usize, evaluation_claim: F128) -> (r:
        BoolCheckSingle<C>)
        requires
            pt@.len() >= 1,
            (c as int) < pt@.len(),
            c >= 3,
            pow3((c + 1) as nat) < 0x8000,
            polys@.len() == f.arity(),
            forall|z: int|
                0 <= z < polys@.len() ==> (#[trigger] polys@[z]@.len()) == pow2(pt@.len()),
            polys@.len() * (128 * (pow2(pt@.len()) / pow2((c + 1) as nat))) <= usize::MAX,
        ensures
            r.wf(),
            r.f == f,
            r.pt@ == pt@,
            r.polys@ == polys@,
            r.c == c,
            r.claim == evaluation_claim,
            r.challenges@.len() == 0,
            r.round_polys@.len() == 0,
            forall|t: int|
                0 <= t < r.ext@.len() ==> #[trigger] r.ext@[t] == (if
                crate::protocols::utils::top_two(
                    (t % (pow3((c + 1) as nat) as int)) as nat,
                    (c + 1) as nat,
                ) == -1 {
                    sadd(
                        f.quad(
                            crate::protocols::utils::ext_n_args(
                                views_of(polys@),
                                c as nat,
                                t / (pow3((c + 1) as nat) as int),
                                (t % (pow3((c + 1) as nat) as int)) as nat,
                            ),
                        ),
                        f.lin(
                            crate::protocols::utils::ext_n_args(
                                views_of(polys@),
                                c as nat,
                                t / (pow3((c + 1) as nat) as int),
                                (t % (pow3((c + 1) as nat) as int)) as nat,
                            ),
                        ),
                    )
                } else {
                    f.quad(
                        crate::protocols::utils::ext_n_args(
                            views_of(polys@),
                            c as nat,
                            t / (pow3((c + 1) as nat) as int),
                            (t % (pow3((c + 1) as nat) as int)) as nat,
                        ),
                    )
                }),
    {
        let n = pt.len();
        let maps = crate::protocols::utils::compute_trit_mappings(c);
        let bit_mapping = maps.0;
        let trit_mapping = maps.1;
        proof {
            f.arity_pos();
            assert(polys@[0]@.len() == pow2(n as nat) && (n as nat) > (c as nat));
        }
        let ext = crate::protocols::utils::extend_n_tables(
            &polys,
            c,
            trit_mapping.as_slice(),
            &f,
        );
        let eq_sequence = crate::protocols::utils::eq_poly_sequence(
            slice_subrange(pt.as_slice(), 1, n),
        );
        proof {
            let tail = pt@.subrange(1, n as int);
            assert forall|i: int| 0 <= i < n implies (#[trigger] eq_sequence@[i])@ == eq_table(
                pt@.subrange(n - i, n as int),
            ) by {
                assert(tail.subrange(tail.len() - i, tail.len() as int) =~= pt@.subrange(
                    n - i,
                    n as int,
                ));
            }
            crate::protocols::utils::lemma_pow2_pos((c + 1) as nat);
            crate::protocols::utils::lemma_pow2_adds((n - c - 1) as nat, (c + 1) as nat);
            vstd::arithmetic::div_mod::lemma_div_multiples_vanish(
                pow2((n - c - 1) as nat) as int,
                pow2((c + 1) as nat) as int,
            );
            vstd::arithmetic::mul::lemma_mul_is_commutative(
                pow2((n - c - 1) as nat) as int,
                pow2((c + 1) as nat) as int,
            );
        }
        BoolCheckSingle {
            f,
            pt,
            polys,
            ext,
            polys_coords: Vec::new(),
            c,
            claim: evaluation_claim,
            challenges: Vec::new(),
            bits_to_trits_map: bit_mapping,
            eq_sequence,
            round_polys: Vec::new(),
        }
    }

    /// The number of rounds already played.
    pub fn curr_round(&self) -> (r: usize)
        ensures
            r == self.challenges@.len(),
    {
        self.challenges.len()
    }

    /// The number of variables of the inputs.
    pub fn num_vars(&self) -> (r: usize)
        ensures
            r == self.pt@.len(),
    {
        self.pt.len()
    }

    /// This prover binds variables starting from the lowest index.
    pub fn is_reverse_order(&self) -> (r: bool)
        ensures
            r == false,
    {
        false
    }

    /// The round polynomial the current state determines, in compressed
    /// form.
    pub open spec fn round_poly_spec(&self) -> Seq<F128> {
        let n = self.pt@.len();
        let r = self.challenges@.len() as int;
        let c = self.c as int;
        if r <= c {
            compress_seq(
                round_poly_coeffs(
                    seq![
                        p1_sum(
                            self.ext@,
                            self.eq_sequence@[n - r - 1]@,
                            self.bits_to_trits_map@,
                            pow3((c - r) as nat) as int,
                            pow2((c - r) as nat) as int,
                            pow2((n - c - 1) as nat),
                            0,
                        ),
                        p1_sum(
                            self.ext@,
                            self.eq_sequence@[n - r - 1]@,
                            self.bits_to_trits_map@,
                            pow3((c - r) as nat) as int,
                            pow2((c - r) as nat) as int,
                            pow2((n - c - 1) as nat),
                            1,
                        ),
                        p1_sum(
                            self.ext@,
                            self.eq_sequence@[n - r - 1]@,
                            self.bits_to_trits_map@,
                            pow3((c - r) as nat) as int,
                            pow2((c - r) as nat) as int,
                            pow2((n - c - 1) as nat),
                            2,
                        ),
                    ],
                    eq_ev_spec(self.challenges@, self.pt@.subrange(0, r)),
                    self.pt@[r],
                ),
            )
        } else {
            compress_seq(
                round_poly_coeffs(
                    seq![
                        pkg_p2_sum(
                            self.f,
                            self.cur_coords(),
                            self.eq_sequence@[n - r - 1]@,
                            2 * pow2((n - r - 1) as nat) as int,
                            0,
                            pow2((n - r - 1) as nat),
                        ),
                        pkg_p2_sum(
                            self.f,
                            self.cur_coords(),
                            self.eq_sequence@[n - r - 1]@,
                            2 * pow2((n - r - 1) as nat) as int,
                            1,
                            pow2((n - r - 1) as nat),
                        ),
                        pkg_p2_sum(
                            self.f,
                            self.cur_coords(),
                            self.eq_sequence@[n - r - 1]@,
                            2 * pow2((n - r - 1) as nat) as int,
                            2,
                            pow2((n - r - 1) as nat),
                        ),
                    ],
                    eq_ev_spec(self.challenges@, self.pt@.subrange(0, r)),
                    self.pt@[r],
                ),
            )
        }
    }

    /// Returns the current round's compressed polynomial, computing and
    /// caching it on first use; a repeated call returns the cached value and
    /// changes nothing, so the operation is idempotent.
    pub fn round_msg(&mut self) -> (ret: CompressedPoly)
        requires
            old(self).wf(),
            old(self).challenges@.len() < old(self).pt@.len(),
        ensures
            final(self).wf(),
            ret.compressed_coeffs@.len() == 3,
            final(self).f == old(self).f,
            final(self).pt@ == old(self).pt@,
            final(self).polys@ == old(self).polys@,
            final(self).ext@ == old(self).ext@,
            final(self).polys_coords@ == old(self).polys_coords@,
            final(self).c == old(self).c,
            final(self).claim == old(self).claim,
            final(self).challenges@ == old(self).challenges@,
            final(self).bits_to_trits_map@ == old(self).bits_to_trits_map@,
            final(self).eq_sequence@ == old(self).eq_sequence@,
            ret.compressed_coeffs@ == final(self).round_polys@[old(self).challenges@.len() as int].compressed_coeffs@,
            final(self).round_polys@.len() == old(self).challenges@.len() + 1,
            (old(self).round_polys@.len() > old(self).challenges@.len()
                ==> final(self).round_polys@ == old(self).round_polys@),
            (forall|k: int|
                0 <= k < old(self).round_polys@.len() ==> #[trigger] final(self).round_polys@[k]
                    == old(self).round_polys@[k]),
            (old(self).round_polys@.len() <= old(self).challenges@.len()
                ==> ret.compressed_coeffs@ == old(self).round_poly_spec()),
    {
        let round = self.challenges.len();
        let num_vars = self.pt.len();
        let c = self.c;
        if self.round_polys.len() > round {
            let cached = CompressedPoly {
                compressed_coeffs: clone_f128_vec(&self.round_polys[round].compressed_coeffs),
            };
            return cached;
        }
        let pt_r = self.pt[round];
        let poly_final: Vec<F128>;
        if round <= c {
            let phase1_dims = c - round;
            proof {
                crate::protocols::utils::lemma_pow3_monotone(
                    (c - round) as nat,
                    (c + 1) as nat,
                );
                crate::protocols::utils::lemma_pow2_le_pow3((c - round) as nat);
                crate::protocols::utils::lemma_pow3_monotone(0, (c - round) as nat);
                crate::protocols::utils::lemma_pow2_monotone(0, (c - round) as nat);
            }
            let pow3v = crate::protocols::utils::pow3_exec(phase1_dims);
            let twod = crate::protocols::utils::pow2_exec(phase1_dims);
            let elen = self.ext.len();
            proof {
                assert(pow3((c + 1 - round) as nat) == 3 * pow3((c - round) as nat));
                assert(elen as int == (3 * (pow3v as int)) * pow2((num_vars - c - 1) as nat))
                    by (nonlinear_arith)
                    requires
                        elen as int == (3 * (pow3v as int)) * pow2((num_vars - c - 1) as nat)
                            || elen as int == pow3((c + 1 - round) as nat) * pow2(
                            (num_vars - c - 1) as nat,
                        ) && pow3((c + 1 - round) as nat) == 3 * (pow3v as int),
                ;
                vstd::arithmetic::div_mod::lemma_div_multiples_vanish(
                    pow2((num_vars - c - 1) as nat) as int,
                    3 * pow3v as int,
                );
                vstd::arithmetic::mul::lemma_mul_is_commutative(
                    pow2((num_vars - c - 1) as nat) as int,
                    3 * pow3v as int,
                );
            }
            let chunks = elen / (3 * pow3v);
            proof {
                assert(chunks as nat == pow2((num_vars - c - 1) as nat));
                assert forall|z: int| 0 <= z < twod implies (#[trigger] self.bits_to_trits_map@[z])
                    < pow3v by {
                    crate::protocols::utils::lemma_pow2_monotone(
                        (c - round) as nat,
                        (c + 1) as nat,
                    );
                    crate::protocols::utils::lemma_b2t_pure(z as nat, (c - round) as nat);
                }
                crate::protocols::utils::lemma_pow2_monotone(
                    (c - round) as nat,
                    (c + 1) as nat,
                );
                crate::protocols::utils::lemma_pow2_adds(
                    (num_vars - c - 1) as nat,
                    (c - round) as nat,
                );
                assert(elen as int == 3 * (chunks * pow3v)) by (nonlinear_arith)
                    requires
                        elen as int == (3 * (pow3v as int)) * (chunks as int),
                ;
            }
            let eq_evs = &self.eq_sequence[num_vars - round - 1];
            let pd2 = phase1_triple_sums(
                &self.ext,
                eq_evs,
                &self.bits_to_trits_map,
                pow3v,
                twod,
                chunks,
            );
            let eq_y = crate::protocols::utils::eq_ev(
                self.challenges.as_slice(),
                slice_subrange(self.pt.as_slice(), 0, round),
            );
            proof {
                let n = self.pt@.len();
                let r = round as int;
                let cc = c as int;
                assert(pd2@ =~= seq![
                    p1_sum(
                        self.ext@,
                        self.eq_sequence@[n - r - 1]@,
                        self.bits_to_trits_map@,
                        pow3((cc - r) as nat) as int,
                        pow2((cc - r) as nat) as int,
                        pow2((n - cc - 1) as nat),
                        0,
                    ),
                    p1_sum(
                        self.ext@,
                        self.eq_sequence@[n - r - 1]@,
                        self.bits_to_trits_map@,
                        pow3((cc - r) as nat) as int,
                        pow2((cc - r) as nat) as int,
                        pow2((n - cc - 1) as nat),
                        1,
                    ),
                    p1_sum(
                        self.ext@,
                        self.eq_sequence@[n - r - 1]@,
                        self.bits_to_trits_map@,
                        pow3((cc - r) as nat) as int,
                        pow2((cc - r) as nat) as int,
                        pow2((n - cc - 1) as nat),
                        2,
                    ),
                ]);
            }
            poly_final = make_round_poly(pd2, eq_y, pt_r);
        } else {
            let coords = &self.polys_coords[self.polys_coords.len() - 1];
            let clen = coords.len();
            let narity = self.f.num_polys();
            proof {
                assert(clen as int == self.f.arity() * 128 * pow2(
                    (num_vars - round) as nat,
                ));
                assert(pow2((num_vars - round) as nat) == 2 * pow2(
                    (num_vars - round - 1) as nat,
                ));
            }
            proof {
                crate::protocols::utils::lemma_pow2_pos((num_vars - round - 1) as nat);
                assert((narity as int) * 128 * 2 <= clen as int) by (nonlinear_arith)
                    requires
                        clen as int == (narity as int) * 128 * (2 * pow2(
                            (num_vars - round - 1) as nat,
                        )),
                        pow2((num_vars - round - 1) as nat) >= 1,
                        narity >= 1,
                ;
            }
            let n128 = narity * 128;
            let nall = n128 * 2;
            let half = clen / nall;
            proof {
                assert(clen as int == (narity as int * 128 * 2) * pow2(
                    (num_vars - round - 1) as nat,
                )) by (nonlinear_arith)
                    requires
                        clen as int == (narity as int) * 128 * (2 * pow2(
                            (num_vars - round - 1) as nat,
                        )),
                ;
                assert(nall as int == narity as int * 128 * 2);
                vstd::arithmetic::div_mod::lemma_div_multiples_vanish(
                    pow2((num_vars - round - 1) as nat) as int,
                    nall as int,
                );
                vstd::arithmetic::mul::lemma_mul_is_commutative(
                    pow2((num_vars - round - 1) as nat) as int,
                    nall as int,
                );
                assert(half as nat == pow2((num_vars - round - 1) as nat));
            }
            let eq_evs = &self.eq_sequence[num_vars - round - 1];
            proof {
                assert(2 * half <= clen) by (nonlinear_arith)
                    requires
                        clen as int == (narity as int) * 128 * (2 * (half as int)),
                        narity >= 1,
                        half >= 0,
                ;
            }
            let full = 2 * half;
            let mut a0 = F128::zero();
            let mut a1 = F128::zero();
            let mut a2 = F128::zero();
            let mut i: usize = 0;
            while i < half
                invariant
                    i <= half,
                    half >= 1,
                    narity as nat == self.f.arity(),
                    narity >= 1,
                    full == 2 * half,
                    clen == coords@.len(),
                    clen as int == (narity as int) * 128 * (2 * half as int),
                    eq_evs@.len() >= half,
                    a0 == pkg_p2_sum(self.f, coords@, eq_evs@, full as int, 0, i as nat),
                    a1 == pkg_p2_sum(self.f, coords@, eq_evs@, full as int, 1, i as nat),
                    a2 == pkg_p2_sum(self.f, coords@, eq_evs@, full as int, 2, i as nat),
                decreases half - i,
            {
                proof {
                    assert(2 * i + 1 + (narity as int * 128 - 1) * (full as int) < clen as int)
                        by (nonlinear_arith)
                        requires
                            i < half,
                            narity >= 1,
                            full == 2 * half,
                            half >= 1,
                            clen as int == (narity as int) * 128 * (2 * half as int),
                    ;
                }
                let trio = self.f.eval_alg(coords, i, full);
                let m = eq_evs[i];
                a0 = a0.add(trio[0].mul(m));
                a1 = a1.add(trio[1].mul(m));
                a2 = a2.add(trio[2].mul(m));
                i = i + 1;
            }
            let pd2 = [a0, a1, a2];
            let eq_y = crate::protocols::utils::eq_ev(
                self.challenges.as_slice(),
                slice_subrange(self.pt.as_slice(), 0, round),
            );
            proof {
                let n = self.pt@.len();
                let r = round as int;
                assert(pd2@ =~= seq![
                    pkg_p2_sum(
                        self.f,
                        self.cur_coords(),
                        self.eq_sequence@[n - r - 1]@,
                        2 * pow2((n - r - 1) as nat) as int,
                        0,
                        pow2((n - r - 1) as nat),
                    ),
                    pkg_p2_sum(
                        self.f,
                        self.cur_coords(),
                        self.eq_sequence@[n - r - 1]@,
                        2 * pow2((n - r - 1) as nat) as int,
                        1,
                        pow2((n - r - 1) as nat),
                    ),
                    pkg_p2_sum(
                        self.f,
                        self.cur_coords(),
                        self.eq_sequence@[n - r - 1]@,
                        2 * pow2((n - r - 1) as nat) as int,
                        2,
                        pow2((n - r - 1) as nat),
                    ),
                ]);
            }
            poly_final = make_round_poly(pd2, eq_y, pt_r);
        }
        let compressed = CompressedPoly::compress(poly_final.as_slice());
        let ret = compressed.0;
        let copy = CompressedPoly { compressed_coeffs: clone_f128_vec(&ret.compressed_coeffs) };
        self.round_polys.push(copy);
        proof {
            assert(ret.compressed_coeffs@ == self.round_polys@[round as int].compressed_coeffs@);
        }
        ret
    }

    /// Consumes one verifier challenge: updates the claim to the round
    /// polynomial's value at the challenge, folds the working table, and at
    /// the end of round `c` materializes the coordinate restrictions of the
    /// inputs.
    pub fn bind(&mut self, t: F128)
        requires
            old(self).wf(),
            old(self).challenges@.len() < old(self).pt@.len(),
        ensures
            final(self).wf(),
            final(self).f == old(self).f,
            final(self).pt@ == old(self).pt@,
            final(self).c == old(self).c,
            final(self).bits_to_trits_map@ == old(self).bits_to_trits_map@,
            final(self).eq_sequence@ == old(self).eq_sequence@,
            final(self).challenges@ == old(self).challenges@.push(t),
            final(self).round_polys@.len() == old(self).challenges@.len() + 1,
            final(self).claim == eval_cubic_left(
                coeffs_seq(
                    final(self).round_polys@[old(self).challenges@.len() as int].compressed_coeffs@,
                    old(self).claim,
                ),
                t,
            ),
            (old(self).round_polys@.len() <= old(self).challenges@.len()
                ==> final(self).round_polys@[old(self).challenges@.len() as int].compressed_coeffs@
                == old(self).round_poly_spec()),
            (old(self).round_polys@.len() > old(self).challenges@.len()
                ==> final(self).round_polys@[old(self).challenges@.len() as int].compressed_coeffs@
                == old(self).round_polys@[old(self).challenges@.len() as int].compressed_coeffs@),
            ({
                let r = old(self).challenges@.len() as int;
                let c = old(self).c as int;
                let n = old(self).pt@.len();
                if r < c {
                    &&& final(self).polys@ == old(self).polys@
                    &&& final(self).ext@.len() == old(self).ext@.len() / 3
                    &&& (forall|k: int|
                        0 <= k < final(self).ext@.len()
                            ==> #[trigger] final(self).ext@[k] == fold3_entry(
                            old(self).ext@,
                            t,
                            k,
                        ))
                } else if r == c {
                    &&& final(self).polys_coords@.len() == 1
                    &&& (forall|u: int|
                        0 <= u < final(self).cur_coords().len()
                            ==> #[trigger] final(self).cur_coords()[u] == restrict_spec(
                            views_of(old(self).polys@),
                            old(self).challenges@.push(t),
                            u,
                        ))
                } else {
                    &&& final(self).polys_coords@.len() == old(self).polys_coords@.len() + 1
                    &&& (forall|u: int|
                        0 <= u < final(self).cur_coords().len()
                            ==> #[trigger] final(self).cur_coords()[u] == pair_fold_entry(
                            old(self).cur_coords(),
                            t,
                            u,
                        ))
                }
            }),
    {
        let round = self.challenges.len();
        let num_vars = self.pt.len();
        let c = self.c;
        let curr_phase_1 = round <= c;
        let rmsg = self.round_msg();
        let rpoly = rmsg.coeffs(self.claim);
        let t2 = t.mul(t);
        let t3 = t.mul(t).mul(t);
        let new_claim = rpoly[0].add(t.mul(rpoly[1])).add(t2.mul(rpoly[2])).add(
            t3.mul(rpoly[3]),
        );
        self.claim = new_claim;
        self.challenges.push(t);
        if curr_phase_1 {
            proof {
                let x = pow3((c - round) as nat) * pow2((num_vars - c - 1) as nat);
                assert(self.ext@.len() == 3 * x) by (nonlinear_arith)
                    requires
                        self.ext@.len() == pow3((c + 1 - round) as nat) * pow2(
                            (num_vars - c - 1) as nat,
                        ),
                        pow3((c + 1 - round) as nat) == 3 * pow3((c - round) as nat),
                        x == pow3((c - round) as nat) * pow2((num_vars - c - 1) as nat),
                ;
                vstd::arithmetic::div_mod::lemma_mod_multiples_vanish(x as int, 0, 3);
                vstd::arithmetic::mul::lemma_mul_is_commutative(x as int, 3);
                vstd::arithmetic::div_mod::lemma_div_multiples_vanish(x as int, 3);
            }
            let folded = fold_ext_by3(&self.ext, t);
            self.ext = folded;
        } else {
            let coords = &self.polys_coords[self.polys_coords.len() - 1];
            let clen = coords.len();
            let narity = self.f.num_polys();
            proof {
                assert(clen as int == self.f.arity() * 128 * pow2(
                    (num_vars - round) as nat,
                ));
                assert(pow2((num_vars - round) as nat) == 2 * pow2(
                    (num_vars - round - 1) as nat,
                ));
                assert(clen as int == 2 * ((narity as int) * 128 * pow2(
                    (num_vars - round - 1) as nat,
                ))) by (nonlinear_arith)
                    requires
                        clen as int == (narity as int) * 128 * (2 * pow2(
                            (num_vars - round - 1) as nat,
                        )),
                ;
            }
            let count = clen / 2;
            let restriction = fold_pairs(coords, t, count);
            self.polys_coords.push(restriction);
            proof {
                assert((narity as int) * 128 * pow2((num_vars - round - 1) as nat) == count as int);
            }
        }
        if self.challenges.len() == c + 1 {
            self.ext = Vec::new();
            proof {
                crate::protocols::utils::lemma_pow2_pos((c + 1) as nat);
                crate::protocols::utils::lemma_pow2_adds(
                    (num_vars - c - 1) as nat,
                    (c + 1) as nat,
                );
                vstd::arithmetic::div_mod::lemma_div_multiples_vanish(
                    pow2((num_vars - c - 1) as nat) as int,
                    pow2((c + 1) as nat) as int,
                );
                vstd::arithmetic::mul::lemma_mul_is_commutative(
                    pow2((num_vars - c - 1) as nat) as int,
                    pow2((c + 1) as nat) as int,
                );
            }
            let restriction = crate::protocols::utils::restrict(
                &self.polys,
                self.challenges.as_slice(),
                num_vars,
            );
            self.polys_coords.push(restriction);
            proof {
                assert(self.f.arity() * 128 * pow2((num_vars - c - 1) as nat) == self.polys@.len()
                    * (128 * (pow2(num_vars as nat) / pow2((self.c + 1) as nat))))
                    by (nonlinear_arith)
                    requires
                        self.polys@.len() == self.f.arity(),
                        pow2(num_vars as nat) / pow2((self.c + 1) as nat) == pow2(
                            (num_vars - c - 1) as nat,
                        ),
                        c == self.c,
                ;
            }
        }
    }
}

impl<C: QuadFormula> SumcheckObject for BoolCheckSingle<C> {
    open spec fn is_finished(&self) -> bool {
        self.challenges@.len() >= self.pt@.len()
    }

    open spec fn is_consistent(&self) -> bool {
        self.wf()
    }

    fn is_reverse_order(&self) -> bool {
        false
    }

    fn bind(&mut self, challenge: F128) {
        BoolCheckSingle::bind(self, challenge);
    }

    fn round_msg(&mut self) -> CompressedPoly {
        BoolCheckSingle::round_msg(self)
    }
}

/// Copies a vector of field elements.
fn clone_f128_vec(v: &Vec<F128>) -> (r: Vec<F128>)
    ensures
        r@ == v@,
{
    let mut r: Vec<F128> = Vec::new();
    let n = v.len();
    let mut i: usize = 0;
    while i < n
        invariant
            i <= n,
            n == v@.len(),
            r@.len() == i,
            forall|t: int| 0 <= t < i ==> #[trigger] r@[t] == v@[t],
        decreases n - i,
    {
        r.push(v[i]);
        i = i + 1;
    }
    proof {
        assert(r@ =~= v@);
    }
    r
}

} // verus!
