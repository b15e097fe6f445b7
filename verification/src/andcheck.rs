//! The specialized AND-check prover: a two-phase sum-check for the claim
//! `sum_x (p[x] & q[x]) * eq(x, pt)` over GF(2^128), with a trit-extended
//! table in phase one and bit-sliced coordinate restrictions in phase two.

use vstd::prelude::*;
use vstd::slice::slice_subrange;

use crate::field::{pi_rec, sadd, sband, smul, zero, F128};
use crate::protocols::utils::{
    basis_spec, eq_table, eq_ev_spec, eval_cubic_right, evaluate_spec, fold3_entry, fold_ext_by3,
    fold_pairs, is_bit_mapping, make_round_poly, p1_sum, pair_fold_entry, phase1_triple_sums, pow2,
    pow3, restrict_cell, round_poly_coeffs, table_ext, twist_entry, twist_evals, views_of,
};

verus! {

/// The equality table of a point, of length `2^|pt|`.
pub fn eq_poly(pt: &[F128]) -> (r: Vec<F128>)
    ensures
        r@ == eq_table(pt@),
        r@.len() == pow2(pt@.len()),
{
    crate::protocols::utils::eq_poly(pt)
}

/// All suffix equality tables of a point.
pub fn eq_poly_sequence(pt: &[F128]) -> (r: Vec<Vec<F128>>)
    ensures
        r@.len() == pt@.len() + 1,
        forall|i: int|
            0 <= i <= pt@.len() ==> #[trigger] r@[i]@ == eq_table(
                pt@.subrange(pt@.len() - i, pt@.len() as int),
            ),
        forall|i: int| 0 <= i <= pt@.len() ==> #[trigger] r@[i]@.len() == pow2(i as nat),
{
    crate::protocols::utils::eq_poly_sequence(pt)
}

/// The equality polynomial `eq(x, y)` of two points of the same length.
pub fn eq_ev(x: &[F128], y: &[F128]) -> (r: F128)
    requires
        x@.len() == y@.len(),
    ensures
        r == eq_ev_spec(x@, y@),
{
    crate::protocols::utils::eq_ev(x, y)
}

/// Evaluates a multilinear polynomial at a point.
pub fn evaluate(poly: &[F128], pt: &[F128]) -> (r: F128)
    requires
        poly@.len() == pow2(pt@.len()),
    ensures
        r == evaluate_spec(poly@, pt@),
{
    crate::protocols::utils::evaluate(poly, pt)
}

/// Converts a number with binary digits into the number with the same
/// digits read base 3.
pub fn bits_to_trits(x: usize) -> (r: usize)
    requires
        3 * crate::protocols::utils::b2t(x as nat) <= usize::MAX,
    ensures
        r as nat == crate::protocols::utils::b2t(x as nat),
{
    crate::protocols::utils::bits_to_trits(x)
}

/// The restriction of each of the 128 coordinate slices of a polynomial to
/// the sub-cube where the first `|coords|` variables take the values
/// `coords`, one vector per coordinate.
pub fn restrict(poly: &[F128], coords: &[F128], dims: usize) -> (r: Vec<Vec<F128>>)
    requires
        poly@.len() == pow2(dims as nat),
        4 <= coords@.len(),
        coords@.len() <= dims,
    ensures
        r@.len() == 128,
        forall|row: int|
            0 <= row < 128 ==> (#[trigger] r@[row])@.len() == pow2(dims as nat) / pow2(
                coords@.len(),
            ),
        forall|row: int, i: int|
            0 <= row < 128 && 0 <= i < pow2(dims as nat) / pow2(coords@.len())
                ==> (#[trigger] r@[row]@[i]) == restrict_cell(poly@, eq_table(coords@), i, row),
{
    crate::protocols::utils::restrict_legacy(poly, coords, dims)
}

/// One round's response: the four coefficients of the degree-3 round
/// polynomial.
pub struct RoundResponse {
    pub values: Vec<F128>,
}

/// The evaluations of `p` and `q` on the inverse Frobenius orbit of the
/// challenge point.
pub struct FinalClaim {
    pub p_evs: Vec<F128>,
    pub q_evs: Vec<F128>,
}

/// The AND dot product over the coordinate slices at one position: the sum
/// over the first `k` coordinates of `basis(j) * a_j * b_j` where the
/// arguments are read at column `a` of the `p` rows and column `b` of the
/// `q` rows, or at the sums of two adjacent columns when `at_inf` is set.
pub open spec fn and_dot(
    pc: Seq<Seq<F128>>,
    qc: Seq<Seq<F128>>,
    i: int,
    which: int,
    k: nat,
) -> F128
    decreases k,
{
    if k == 0 {
        zero()
    } else {
        let j = k - 1;
        let pa = if which == 0 {
            pc[j][2 * i]
        } else if which == 1 {
            pc[j][2 * i + 1]
        } else {
            sadd(pc[j][2 * i], pc[j][2 * i + 1])
        };
        let qa = if which == 0 {
            qc[j][2 * i]
        } else if which == 1 {
            qc[j][2 * i + 1]
        } else {
            sadd(qc[j][2 * i], qc[j][2 * i + 1])
        };
        sadd(and_dot(pc, qc, i, which, (k - 1) as nat), smul(smul(basis_spec(j), pa), qa))
    }
}

/// The full phase-two partial sum: the AND dot products weighted by the
/// equality values, folded over the first `ch` positions.
pub open spec fn and_p2_sum(
    pc: Seq<Seq<F128>>,
    qc: Seq<Seq<F128>>,
    eqs: Seq<F128>,
    which: int,
    ch: nat,
) -> F128
    decreases ch,
{
    if ch == 0 {
        zero()
    } else {
        sadd(
            and_p2_sum(pc, qc, eqs, which, (ch - 1) as nat),
            smul(eqs[ch - 1], and_dot(pc, qc, ch - 1, which, 128)),
        )
    }
}

/// Computes the three phase-two partial sums of the AND combinator.
fn and_phase2_sums(
    p_coords: &Vec<Vec<F128>>,
    q_coords: &Vec<Vec<F128>>,
    eq_evs: &Vec<F128>,
    half: usize,
) -> (r: [F128; 3])
    requires
        p_coords@.len() == 128,
        q_coords@.len() == 128,
        forall|j: int| 0 <= j < 128 ==> (#[trigger] p_coords@[j])@.len() >= 2 * half,
        forall|j: int| 0 <= j < 128 ==> (#[trigger] q_coords@[j])@.len() >= 2 * half,
        eq_evs@.len() >= half,
    ensures
        r@[0] == and_p2_sum(views_of(p_coords@), views_of(q_coords@), eq_evs@, 0, half as nat),
        r@[1] == and_p2_sum(views_of(p_coords@), views_of(q_coords@), eq_evs@, 1, half as nat),
        r@[2] == and_p2_sum(views_of(p_coords@), views_of(q_coords@), eq_evs@, 2, half as nat),
{
    let ghost pc = views_of(p_coords@);
    let ghost qc = views_of(q_coords@);
    let mut a0 = F128::zero();
    let mut a1 = F128::zero();
    let mut a2 = F128::zero();
    let mut i: usize = 0;
    while i < half
        invariant
            i <= half,
            pc == views_of(p_coords@),
            qc == views_of(q_coords@),
            p_coords@.len() == 128,
            q_coords@.len() == 128,
            forall|j: int| 0 <= j < 128 ==> (#[trigger] p_coords@[j])@.len() >= 2 * half,
            forall|j: int| 0 <= j < 128 ==> (#[trigger] q_coords@[j])@.len() >= 2 * half,
            eq_evs@.len() >= half,
            a0 == and_p2_sum(pc, qc, eq_evs@, 0, i as nat),
            a1 == and_p2_sum(pc, qc, eq_evs@, 1, i as nat),
            a2 == and_p2_sum(pc, qc, eq_evs@, 2, i as nat),
        decreases half - i,
    {
        let mut d0 = F128::zero();
        let mut d1 = F128::zero();
        let mut d2 = F128::zero();
        let mut j: usize = 0;
        while j < 128
            invariant
                j <= 128,
                i < half,
                pc == views_of(p_coords@),
                qc == views_of(q_coords@),
                p_coords@.len() == 128,
                q_coords@.len() == 128,
                forall|jj: int| 0 <= jj < 128 ==> (#[trigger] p_coords@[jj])@.len() >= 2 * half,
                forall|jj: int| 0 <= jj < 128 ==> (#[trigger] q_coords@[jj])@.len() >= 2 * half,
                d0 == and_dot(pc, qc, i as int, 0, j as nat),
                d1 == and_dot(pc, qc, i as int, 1, j as nat),
                d2 == and_dot(pc, qc, i as int, 2, j as nat),
            decreases 128 - j,
        {
            let b = F128::basis(j);
            let rlen = p_coords[j].len();
            let rlenq = q_coords[j].len();
            proof {
                assert(rlen >= 2 * half);
                assert(rlenq >= 2 * half);
            }
            let p0 = p_coords[j][2 * i];
            let p1 = p_coords[j][2 * i + 1];
            let q0 = q_coords[j][2 * i];
            let q1 = q_coords[j][2 * i + 1];
            d0 = d0.add(b.mul(p0).mul(q0));
            d1 = d1.add(b.mul(p1).mul(q1));
            d2 = d2.add(b.mul(p0.add(p1)).mul(q0.add(q1)));
            j = j + 1;
        }
        let m = eq_evs[i];
        a0 = a0.add(m.mul(d0));
        a1 = a1.add(m.mul(d1));
        a2 = a2.add(m.mul(d2));
        i = i + 1;
    }
    [a0, a1, a2]
}

/// The claimed sum `sum_x (p[x] & q[x]) * eq_table(pt)[x]` over the first
/// `k` corners.
pub open spec fn and_claim_fold(p: Seq<F128>, q: Seq<F128>, eqt: Seq<F128>, k: nat) -> F128
    decreases k,
{
    if k == 0 {
        zero()
    } else {
        sadd(and_claim_fold(p, q, eqt, (k - 1) as nat), smul(sband(p[k - 1], q[k - 1]), eqt[k - 1]))
    }
}

/// The sum `sum_i basis(i) * pi(i, pt) * pi(i, qt)` over the first `k`
/// coordinates: the algebraic AND combinator applied to two twisted orbits.
pub open spec fn combinator_fold(pt: Seq<F128>, qt: Seq<F128>, k: nat) -> F128
    decreases k,
{
    if k == 0 {
        zero()
    } else {
        sadd(
            combinator_fold(pt, qt, (k - 1) as nat),
            smul(smul(basis_spec(k - 1), pi_rec(k - 1, pt, 128)), pi_rec(k - 1, qt, 128)),
        )
    }
}

impl FinalClaim {
    /// Computes the evaluation of `p & q` at the challenge point from the
    /// evaluations of `p` and `q` on its inverse Frobenius orbit, by
    /// twisting each orbit entry back and projecting the coordinates out
    /// through the dual basis.
    pub fn apply_algebraic_combinator(&self) -> (r: F128)
        requires
            self.p_evs@.len() == 128,
            self.q_evs@.len() == 128,
        ensures
            r == combinator_fold(
                Seq::new(128, |i: int| crate::field::ssq_iter(self.p_evs@[i], i as nat)),
                Seq::new(128, |i: int| crate::field::ssq_iter(self.q_evs@[i], i as nat)),
                128,
            ),
    {
        let ghost ptw = Seq::new(128, |i: int| crate::field::ssq_iter(self.p_evs@[i], i as nat));
        let ghost qtw = Seq::new(128, |i: int| crate::field::ssq_iter(self.q_evs@[i], i as nat));
        let mut p_twists: Vec<F128> = Vec::new();
        let mut q_twists: Vec<F128> = Vec::new();
        let mut i: usize = 0;
        while i < 128
            invariant
                i <= 128,
                self.p_evs@.len() == 128,
                self.q_evs@.len() == 128,
                ptw == Seq::new(128, |t: int| crate::field::ssq_iter(self.p_evs@[t], t as nat)),
                qtw == Seq::new(128, |t: int| crate::field::ssq_iter(self.q_evs@[t], t as nat)),
                p_twists@.len() == i,
                q_twists@.len() == i,
                forall|t: int| 0 <= t < i ==> #[trigger] p_twists@[t] == ptw[t],
                forall|t: int| 0 <= t < i ==> #[trigger] q_twists@[t] == qtw[t],
            decreases 128 - i,
        {
            proof {
                assert((i as int) % 128 == i as int);
            }
            p_twists.push(self.p_evs[i].frob(i as i32));
            q_twists.push(self.q_evs[i].frob(i as i32));
            i = i + 1;
        }
        proof {
            assert(p_twists@ =~= ptw);
            assert(q_twists@ =~= qtw);
        }
        let mut ret = F128::zero();
        let mut k: usize = 0;
        while k < 128
            invariant
                k <= 128,
                p_twists@ == ptw,
                q_twists@ == qtw,
                p_twists@.len() == 128,
                q_twists@.len() == 128,
                ret == combinator_fold(ptw, qtw, k as nat),
            decreases 128 - k,
        {
            let pk = crate::field::pi(k, &p_twists);
            let qk = crate::field::pi(k, &q_twists);
            ret = ret.add(F128::basis(k).mul(pk).mul(qk));
            k = k + 1;
        }
        ret
    }
}

/// The two-phase prover of the AND-check.  Before the phase switch the
/// combined trit-extended table of `p & q` is held in `p_q_ext`; at the
/// switch it is dropped and the 128 coordinate restrictions of each input
/// take its place.  Fields no longer needed by the current phase are left
/// empty.
pub struct AndcheckProver {
    pub pt: Vec<F128>,
    pub p: Vec<F128>,
    pub q: Vec<F128>,
    pub p_q_ext: Vec<F128>,
    pub p_coords: Vec<Vec<F128>>,
    pub q_coords: Vec<Vec<F128>>,
    pub c: usize,
    pub evaluation_claim: F128,
    pub challenges: Vec<F128>,
    pub bits_to_trits_map: Vec<u16>,
    pub eq_sequence: Vec<Vec<F128>>,
}

impl AndcheckProver {
    /// The structural invariant of the prover state: the table shapes of
    /// whichever phase the round count places it in.
    pub open spec fn wf(&self) -> bool {
        let n = self.pt@.len();
        let r = self.challenges@.len();
        &&& n >= 1
        &&& (self.c as int) < n
        &&& self.c >= 3
        &&& r <= n
        &&& pow3((self.c + 1) as nat) < 0x8000
        &&& 128 * pow2((n - self.c - 1) as nat) <= usize::MAX
        &&& is_bit_mapping(self.bits_to_trits_map@, self.c as nat)
        &&& self.eq_sequence@.len() == n
        &&& (forall|i: int|
            0 <= i < n ==> (#[trigger] self.eq_sequence@[i])@ == eq_table(
                self.pt@.subrange(n - i, n as int),
            ))
        &&& (forall|i: int|
            0 <= i < n ==> (#[trigger] self.eq_sequence@[i])@.len() == pow2(i as nat))
        &&& if r <= self.c {
            &&& self.p@.len() == pow2(n)
            &&& self.q@.len() == pow2(n)
            &&& self.p_q_ext@.len() == pow3((self.c + 1 - r) as nat) * pow2(
                (n - self.c - 1) as nat,
            )
            &&& self.p_coords@.len() == 0
            &&& self.q_coords@.len() == 0
        } else {
            &&& self.p@.len() == 0
            &&& self.q@.len() == 0
            &&& self.p_q_ext@.len() == 0
            &&& self.p_coords@.len() == 128
            &&& self.q_coords@.len() == 128
            &&& (forall|j: int|
                0 <= j < 128 ==> (#[trigger] self.p_coords@[j])@.len() == pow2((n - r) as nat))
            &&& (forall|j: int|
                0 <= j < 128 ==> (#[trigger] self.q_coords@[j])@.len() == pow2((n - r) as nat))
        }
    }

    /// Builds a prover for the claim `sum_x (p[x] & q[x]) * eq(x, pt)`.
    /// When `check_correct` is set the claim is recomputed and checked
    /// against the inputs, which the caller must therefore have gotten
    /// right.
    pub fn new(
        pt: Vec<F128>,
        p: Vec<F128>,
        q: Vec<F128>,
        evaluation_claim: F128,
        phase_switch: usize,
        check_correct: bool,
    ) -> (r: AndcheckProver)
        requires
            pt@.len() >= 1,
            (phase_switch as int) < pt@.len(),
            phase_switch >= 3,
            pow3((phase_switch + 1) as nat) < 0x8000,
            128 * pow2((pt@.len() - phase_switch - 1) as nat) <= usize::MAX,
            p@.len() == pow2(pt@.len()),
            q@.len() == pow2(pt@.len()),
            check_correct ==> evaluation_claim == and_claim_fold(
                p@,
                q@,
                eq_table(pt@),
                pow2(pt@.len()),
            ),
        ensures
            r.wf(),
            r.pt@ == pt@,
            r.p@ == p@,
            r.q@ == q@,
            r.c == phase_switch,
            r.evaluation_claim == evaluation_claim,
            r.challenges@.len() == 0,
            forall|t: int|
                0 <= t < r.p_q_ext@.len() ==> #[trigger] r.p_q_ext@[t] == sband(
                    table_ext(
                        p@,
                        phase_switch as nat,
                        t / (pow3((phase_switch + 1) as nat) as int),
                        (t % (pow3((phase_switch + 1) as nat) as int)) as nat,
                    ),
                    table_ext(
                        q@,
                        phase_switch as nat,
                        t / (pow3((phase_switch + 1) as nat) as int),
                        (t % (pow3((phase_switch + 1) as nat) as int)) as nat,
                    ),
                ),
    {
        let n = pt.len();
        if check_correct {
            let eq = crate::protocols::utils::eq_poly(pt.as_slice());
            let mut acc = F128::zero();
            let mut x: usize = 0;
            let plen = p.len();
            while x < plen
                invariant
                    x <= plen,
                    plen == p@.len(),
                    q@.len() == p@.len(),
                    eq@.len() == p@.len(),
                    eq@ == eq_table(pt@),
                    acc == and_claim_fold(p@, q@, eq@, x as nat),
                decreases plen - x,
            {
                acc = acc.add(p[x].bitand(q[x]).mul(eq[x]));
                x = x + 1;
            }
        }
        let maps = crate::protocols::utils::compute_trit_mappings(phase_switch);
        let bit_mapping = maps.0;
        let trit_mapping = maps.1;
        let p_q_ext = crate::protocols::utils::extend_2_tables_legacy(
            p.as_slice(),
            q.as_slice(),
            n,
            phase_switch,
            trit_mapping.as_slice(),
        );
        let eq_sequence = crate::protocols::utils::eq_poly_sequence(
            slice_subrange(pt.as_slice(), 1, n),
        );
        proof {
            let tail = pt@.subrange(1, n as int);
            assert forall|i: int| 0 <= i < n implies (#[trigger] eq_sequence@[i])@ == eq_table(
                pt@.subrange(n - i, n as int),
            ) by {
                assert(tail.subrange(tail.len() - i, tail.len() as int) =~= pt@.subrange(
                    n - i,
                    n as int,
                ));
            }
        }
        AndcheckProver {
            pt,
            p,
            q,
            p_q_ext,
            p_coords: Vec::new(),
            q_coords: Vec::new(),
            evaluation_claim,
            c: phase_switch,
            challenges: Vec::new(),
            bits_to_trits_map: bit_mapping,
            eq_sequence,
        }
    }

    /// The number of variables of the inputs.
    pub fn num_vars(&self) -> (r: usize)
        ensures
            r == self.pt@.len(),
    {
        self.pt.len()
    }

    /// The number of rounds already played.
    pub fn curr_round(&self) -> (r: usize)
        ensures
            r == self.challenges@.len(),
    {
        self.challenges.len()
    }

    /// The claim update: the round polynomial evaluated at the challenge,
    /// multipliers on the right.
    fn eval_round_poly(poly: &Vec<F128>, t: F128) -> (r: F128)
        requires
            poly@.len() == 4,
        ensures
            r == eval_cubic_right(poly@, t),
    {
        let r2 = t.mul(t);
        let r3 = t.mul(r2);
        poly[0].add(poly[1].mul(t)).add(poly[2].mul(r2)).add(poly[3].mul(r3))
    }

    /// Plays one round: computes the round polynomial, folds the working
    /// table by the given challenge, updates the claim to the polynomial's
    /// value at the challenge, and, after binding round `c`, replaces the
    /// extended table by the coordinate restrictions of the inputs.
    pub fn round(&mut self, round_challenge: F128) -> (ret: RoundResponse)
        requires
            old(self).wf(),
            old(self).challenges@.len() < old(self).pt@.len(),
        ensures
            final(self).wf(),
            final(self).pt@ == old(self).pt@,
            final(self).c == old(self).c,
            final(self).bits_to_trits_map@ == old(self).bits_to_trits_map@,
            final(self).eq_sequence@ == old(self).eq_sequence@,
            final(self).challenges@ == old(self).challenges@.push(round_challenge),
            ret.values@.len() == 4,
            final(self).evaluation_claim == eval_cubic_right(ret.values@, round_challenge),
            ({
                let n = old(self).pt@.len();
                let r = old(self).challenges@.len() as int;
                let c = old(self).c as int;
                if r <= c {
                    ret.values@ == round_poly_coeffs(
                        seq![
                            p1_sum(
                                old(self).p_q_ext@,
                                old(self).eq_sequence@[n - r - 1]@,
                                old(self).bits_to_trits_map@,
                                pow3((c - r) as nat) as int,
                                pow2((c - r) as nat) as int,
                                pow2((n - c - 1) as nat),
                                0,
                            ),
                            p1_sum(
                                old(self).p_q_ext@,
                                old(self).eq_sequence@[n - r - 1]@,
                                old(self).bits_to_trits_map@,
                                pow3((c - r) as nat) as int,
                                pow2((c - r) as nat) as int,
                                pow2((n - c - 1) as nat),
                                1,
                            ),
                            p1_sum(
                                old(self).p_q_ext@,
                                old(self).eq_sequence@[n - r - 1]@,
                                old(self).bits_to_trits_map@,
                                pow3((c - r) as nat) as int,
                                pow2((c - r) as nat) as int,
                                pow2((n - c - 1) as nat),
                                2,
                            ),
                        ],
                        eq_ev_spec(old(self).challenges@, old(self).pt@.subrange(0, r)),
                        old(self).pt@[r],
                    )
                } else {
                    ret.values@ == round_poly_coeffs(
                        seq![
                            and_p2_sum(
                                views_of(old(self).p_coords@),
                                views_of(old(self).q_coords@),
                                old(self).eq_sequence@[n - r - 1]@,
                                0,
                                pow2((n - r - 1) as nat),
                            ),
                            and_p2_sum(
                                views_of(old(self).p_coords@),
                                views_of(old(self).q_coords@),
                                old(self).eq_sequence@[n - r - 1]@,
                                1,
                                pow2((n - r - 1) as nat),
                            ),
                            and_p2_sum(
                                views_of(old(self).p_coords@),
                                views_of(old(self).q_coords@),
                                old(self).eq_sequence@[n - r - 1]@,
                                2,
                                pow2((n - r - 1) as nat),
                            ),
                        ],
                        eq_ev_spec(old(self).challenges@, old(self).pt@.subrange(0, r)),
                        old(self).pt@[r],
                    )
                }
            }),
            ({
                let r = old(self).challenges@.len() as int;
                let c = old(self).c as int;
                if r < c {
                    &&& final(self).p@ == old(self).p@
                    &&& final(self).q@ == old(self).q@
                    &&& final(self).p_q_ext@.len() == old(self).p_q_ext@.len() / 3
                    &&& (forall|k: int|
                        0 <= k < final(self).p_q_ext@.len()
                            ==> #[trigger] final(self).p_q_ext@[k] == fold3_entry(
                            old(self).p_q_ext@,
                            round_challenge,
                            k,
                        ))
                } else if r == c {
                    &&& final(self).p_coords@.len() == 128
                    &&& final(self).q_coords@.len() == 128
                    &&& (forall|row: int, i: int|
                        0 <= row < 128 && 0 <= i < pow2(
                            (old(self).pt@.len() - c - 1) as nat,
                        ) ==> (#[trigger] final(self).p_coords@[row]@[i]) == restrict_cell(
                            old(self).p@,
                            eq_table(old(self).challenges@.push(round_challenge)),
                            i,
                            row,
                        ))
                    &&& (forall|row: int, i: int|
                        0 <= row < 128 && 0 <= i < pow2(
                            (old(self).pt@.len() - c - 1) as nat,
                        ) ==> (#[trigger] final(self).q_coords@[row]@[i]) == restrict_cell(
                            old(self).q@,
                            eq_table(old(self).challenges@.push(round_challenge)),
                            i,
                            row,
                        ))
                } else {
                    &&& (forall|row: int, i: int|
                        0 <= row < 128 && 0 <= i < pow2(
                            (old(self).pt@.len() - r - 1) as nat,
                        ) ==> (#[trigger] final(self).p_coords@[row]@[i]) == pair_fold_entry(
                            old(self).p_coords@[row]@,
                            round_challenge,
                            i,
                        ))
                    &&& (forall|row: int, i: int|
                        0 <= row < 128 && 0 <= i < pow2(
                            (old(self).pt@.len() - r - 1) as nat,
                        ) ==> (#[trigger] final(self).q_coords@[row]@[i]) == pair_fold_entry(
                            old(self).q_coords@[row]@,
                            round_challenge,
                            i,
                        ))
                }
            }),
    {
        let round = self.challenges.len();
        let num_vars = self.pt.len();
        let c = self.c;
        let curr_phase_1 = round <= c;
        let pt_r = self.pt[round];
        let poly_final: Vec<F128>;
        if curr_phase_1 {
            let phase1_dims = c - round;
            proof {
                crate::protocols::utils::lemma_pow3_monotone(
                    (c - round) as nat,
                    (c + 1) as nat,
                );
                crate::protocols::utils::lemma_pow2_le_pow3((c - round) as nat);
                crate::protocols::utils::lemma_pow3_monotone(0, (c - round) as nat);
                crate::protocols::utils::lemma_pow2_monotone(0, (c - round) as nat);
            }
            let pow3v = crate::protocols::utils::pow3_exec(phase1_dims);
            let twod = crate::protocols::utils::pow2_exec(phase1_dims);
            let elen = self.p_q_ext.len();
            proof {
                assert(pow3((c + 1 - round) as nat) == 3 * pow3((c - round) as nat));
                assert(elen as int == (3 * (pow3v as int)) * pow2((num_vars - c - 1) as nat))
                    by (nonlinear_arith)
                    requires
                        elen as int == (3 * (pow3v as int)) * pow2((num_vars - c - 1) as nat)
                            || elen as int == pow3((c + 1 - round) as nat) * pow2(
                            (num_vars - c - 1) as nat,
                        ) && pow3((c + 1 - round) as nat) == 3 * (pow3v as int),
                ;
                vstd::arithmetic::div_mod::lemma_div_multiples_vanish(
                    pow2((num_vars - c - 1) as nat) as int,
                    3 * pow3v as int,
                );
                vstd::arithmetic::mul::lemma_mul_is_commutative(
                    pow2((num_vars - c - 1) as nat) as int,
                    3 * pow3v as int,
                );
            }
            let chunks = elen / (3 * pow3v);
            proof {
                assert(chunks as nat == pow2((num_vars - c - 1) as nat));
                assert forall|z: int| 0 <= z < twod implies (#[trigger] self.bits_to_trits_map@[z])
                    < pow3v by {
                    crate::protocols::utils::lemma_pow2_monotone(
                        (c - round) as nat,
                        (c + 1) as nat,
                    );
                    crate::protocols::utils::lemma_b2t_pure(z as nat, (c - round) as nat);
                }
                crate::protocols::utils::lemma_pow2_monotone(
                    (c - round) as nat,
                    (c + 1) as nat,
                );
                crate::protocols::utils::lemma_pow2_adds(
                    (num_vars - c - 1) as nat,
                    (c - round) as nat,
                );
                assert(elen as int == 3 * (chunks * pow3v)) by (nonlinear_arith)
                    requires
                        elen as int == (3 * (pow3v as int)) * (chunks as int),
                ;
            }
            let eq_evs = &self.eq_sequence[num_vars - round - 1];
            let pd2 = phase1_triple_sums(
                &self.p_q_ext,
                eq_evs,
                &self.bits_to_trits_map,
                pow3v,
                twod,
                chunks,
            );
            let eq_y = crate::protocols::utils::eq_ev(
                self.challenges.as_slice(),
                slice_subrange(self.pt.as_slice(), 0, round),
            );
            poly_final = make_round_poly(pd2, eq_y, pt_r);
            let new_claim = Self::eval_round_poly(&poly_final, round_challenge);
            self.evaluation_claim = new_claim;
            self.challenges.push(round_challenge);
            proof {
                let x = pow3((c - round) as nat) * pow2((num_vars - c - 1) as nat);
                assert(self.p_q_ext@.len() == 3 * x) by (nonlinear_arith)
                    requires
                        self.p_q_ext@.len() == pow3((c + 1 - round) as nat) * pow2(
                            (num_vars - c - 1) as nat,
                        ),
                        pow3((c + 1 - round) as nat) == 3 * pow3((c - round) as nat),
                        x == pow3((c - round) as nat) * pow2((num_vars - c - 1) as nat),
                ;
                vstd::arithmetic::div_mod::lemma_mod_multiples_vanish(x as int, 0, 3);
                vstd::arithmetic::mul::lemma_mul_is_commutative(x as int, 3);
                vstd::arithmetic::div_mod::lemma_div_multiples_vanish(x as int, 3);
            }
            let folded = fold_ext_by3(&self.p_q_ext, round_challenge);
            self.p_q_ext = folded;
        } else {
            let row_len = self.p_coords[0].len();
            let half = row_len / 2;
            proof {
                assert(row_len == pow2((num_vars - round) as nat));
                assert(pow2((num_vars - round) as nat) == 2 * pow2((num_vars - round - 1) as nat));
                assert(half == pow2((num_vars - round - 1) as nat));
            }
            let eq_evs = &self.eq_sequence[num_vars - round - 1];
            let pd2 = and_phase2_sums(&self.p_coords, &self.q_coords, eq_evs, half);
            let eq_y = crate::protocols::utils::eq_ev(
                self.challenges.as_slice(),
                slice_subrange(self.pt.as_slice(), 0, round),
            );
            poly_final = make_round_poly(pd2, eq_y, pt_r);
            let new_claim = Self::eval_round_poly(&poly_final, round_challenge);
            self.evaluation_claim = new_claim;
            self.challenges.push(round_challenge);
            let mut new_p: Vec<Vec<F128>> = Vec::new();
            let mut new_q: Vec<Vec<F128>> = Vec::new();
            let mut row: usize = 0;
            while row < 128
                invariant
                    row <= 128,
                    self.p_coords@.len() == 128,
                    self.q_coords@.len() == 128,
                    forall|j: int|
                        0 <= j < 128 ==> (#[trigger] self.p_coords@[j])@.len() >= 2 * half,
                    forall|j: int|
                        0 <= j < 128 ==> (#[trigger] self.q_coords@[j])@.len() >= 2 * half,
                    new_p@.len() == row,
                    new_q@.len() == row,
                    forall|j: int| 0 <= j < row ==> (#[trigger] new_p@[j])@.len() == half,
                    forall|j: int| 0 <= j < row ==> (#[trigger] new_q@[j])@.len() == half,
                    forall|j: int, i: int|
                        0 <= j < row && 0 <= i < half ==> (#[trigger] new_p@[j]@[i])
                            == pair_fold_entry(self.p_coords@[j]@, round_challenge, i),
                    forall|j: int, i: int|
                        0 <= j < row && 0 <= i < half ==> (#[trigger] new_q@[j]@[i])
                            == pair_fold_entry(self.q_coords@[j]@, round_challenge, i),
                decreases 128 - row,
            {
                new_p.push(fold_pairs(&self.p_coords[row], round_challenge, half));
                new_q.push(fold_pairs(&self.q_coords[row], round_challenge, half));
                row = row + 1;
            }
            self.p_coords = new_p;
            self.q_coords = new_q;
        }
        if self.challenges.len() == c + 1 {
            self.p_q_ext = Vec::new();
            let mut p = Vec::new();
            let mut q = Vec::new();
            core::mem::swap(&mut p, &mut self.p);
            core::mem::swap(&mut q, &mut self.q);
            self.p_coords = crate::protocols::utils::restrict_legacy(
                p.as_slice(),
                self.challenges.as_slice(),
                num_vars,
            );
            self.q_coords = crate::protocols::utils::restrict_legacy(
                q.as_slice(),
                self.challenges.as_slice(),
                num_vars,
            );
            proof {
                crate::protocols::utils::lemma_pow2_adds(
                    (num_vars - c - 1) as nat,
                    (c + 1) as nat,
                );
                vstd::arithmetic::div_mod::lemma_div_multiples_vanish(
                    pow2((num_vars - c - 1) as nat) as int,
                    pow2((c + 1) as nat) as int,
                );
                vstd::arithmetic::mul::lemma_mul_is_commutative(
                    pow2((num_vars - c - 1) as nat) as int,
                    pow2((c + 1) as nat) as int,
                );
                crate::protocols::utils::lemma_pow2_pos((c + 1) as nat);
                assert(pow2(num_vars as nat) / pow2((c + 1) as nat) == pow2(
                    (num_vars - c - 1) as nat,
                ));
            }
        }
        RoundResponse { values: poly_final }
    }

    /// Finalizes the protocol after all rounds: the single remaining value
    /// of each coordinate row is turned into the evaluations of each input
    /// on the inverse Frobenius orbit of the challenge vector.
    pub fn finish(&self) -> (r: FinalClaim)
        requires
            self.wf(),
            self.challenges@.len() == self.pt@.len(),
        ensures
            r.p_evs@.len() == 128,
            r.q_evs@.len() == 128,
            forall|t: int|
                0 <= t < 128 ==> #[trigger] r.p_evs@[t] == twist_entry(
                    Seq::new(128, |j: int| self.p_coords@[j]@[0]),
                    t,
                ),
            forall|t: int|
                0 <= t < 128 ==> #[trigger] r.q_evs@[t] == twist_entry(
                    Seq::new(128, |j: int| self.q_coords@[j]@[0]),
                    t,
                ),
    {
        let mut p_i_evs: Vec<F128> = Vec::new();
        let mut q_i_evs: Vec<F128> = Vec::new();
        let mut j: usize = 0;
        while j < 128
            invariant
                j <= 128,
                self.wf(),
                self.challenges@.len() == self.pt@.len(),
                p_i_evs@.len() == j,
                q_i_evs@.len() == j,
                forall|t: int| 0 <= t < j ==> #[trigger] p_i_evs@[t] == self.p_coords@[t]@[0],
                forall|t: int| 0 <= t < j ==> #[trigger] q_i_evs@[t] == self.q_coords@[t]@[0],
            decreases 128 - j,
        {
            p_i_evs.push(self.p_coords[j][0]);
            q_i_evs.push(self.q_coords[j][0]);
            j = j + 1;
        }
        proof {
            assert(p_i_evs@ =~= Seq::new(128, |t: int| self.p_coords@[t]@[0]));
            assert(q_i_evs@ =~= Seq::new(128, |t: int| self.q_coords@[t]@[0]));
        }
        twist_evals(&mut p_i_evs);
        twist_evals(&mut q_i_evs);
        FinalClaim { p_evs: p_i_evs, q_evs: q_i_evs }
    }
}

} // verus!
