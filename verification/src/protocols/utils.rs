//! Table-building utilities shared by the sum-check provers: equality tables,
//! the trit-indexing maps of phase one, table extension, the bit-sliced
//! restrictor, and small dense 128x128 matrices over GF(2).

use vstd::prelude::*;

use crate::field::{one, pi, pi_rec, sadd, smul, ssq_iter, zero, F128};
use crate::traits::QuadFormula;

verus! {

/// `2^k`.
pub open spec fn pow2(k: nat) -> nat
    decreases k,
{
    if k == 0 {
        1
    } else {
        2 * pow2((k - 1) as nat)
    }
}

/// `3^k`.
pub open spec fn pow3(k: nat) -> nat
    decreases k,
{
    if k == 0 {
        1
    } else {
        3 * pow3((k - 1) as nat)
    }
}

/// The equality table of a point: entry `x` is the product over all
/// variables of `pt_i` when bit `i` of `x` is set and `1 + pt_i` when it is
/// clear.  It is built here by the tensor recursion on the first variable,
/// which keeps the products in the same shape the builders compute them in:
/// the entry with bit 0 set carries `pt_0 * w`, the entry with bit 0 clear
/// carries `w + pt_0 * w`, with `w` the entry of the table of the remaining
/// variables.
pub open spec fn eq_table(pt: Seq<F128>) -> Seq<F128>
    decreases pt.len(),
{
    if pt.len() == 0 {
        seq![one()]
    } else {
        let sub = eq_table(pt.drop_first());
        Seq::new(
            2 * sub.len(),
            |x: int|
                if x % 2 == 1 {
                    smul(pt[0], sub[x / 2])
                } else {
                    sadd(sub[x / 2], smul(pt[0], sub[x / 2]))
                },
        )
    }
}

/// The equality table built by the doubling recursion on the *last* variable
/// instead: the same table with the factors of each entry multiplied in the
/// opposite order.
pub open spec fn eq_table_by_last(pt: Seq<F128>) -> Seq<F128>
    decreases pt.len(),
{
    if pt.len() == 0 {
        seq![one()]
    } else {
        let sub = eq_table_by_last(pt.drop_last());
        Seq::new(
            2 * sub.len(),
            |x: int|
                if x < sub.len() {
                    sadd(sub[x], smul(pt.last(), sub[x]))
                } else {
                    smul(pt.last(), sub[x - sub.len()])
                },
        )
    }
}

/// The two halves of the equality-table recursion really are products: the
/// entry with bit 0 set carries the factor `pt_0`, the entry with bit 0
/// clear the factor `1 + pt_0`, times the entry of the remaining table.
pub proof fn lemma_eq_table_factors(pt: Seq<F128>, x: int)
    requires
        pt.len() >= 1,
        0 <= x < eq_table(pt).len(),
    ensures
        x % 2 == 1 ==> eq_table(pt)[x] == smul(pt[0], eq_table(pt.drop_first())[x / 2]),
        x % 2 == 0 ==> eq_table(pt)[x] == smul(
            sadd(pt[0], one()),
            eq_table(pt.drop_first())[x / 2],
        ),
{
    let w = eq_table(pt.drop_first())[x / 2];
    crate::field::lemma_smul_basics(pt[0], w, w);
    crate::field::lemma_smul_basics(one(), w, w);
    crate::field::lemma_smul_comm(sadd(pt[0], one()), w);
    crate::field::lemma_smul_comm(pt[0], w);
    crate::field::lemma_smul_comm(one(), w);
    crate::field::lemma_smul_basics(w, pt[0], one());
    assert(smul(w, sadd(pt[0], one())) == sadd(smul(w, pt[0]), smul(w, one())));
    crate::field::lemma_sadd_basics(w, smul(pt[0], w), w);
    crate::field::lemma_sadd_basics(smul(pt[0], w), w, w);
}

pub proof fn lemma_eq_table_len(pt: Seq<F128>)
    ensures
        eq_table(pt).len() == pow2(pt.len()),
    decreases pt.len(),
{
    if pt.len() > 0 {
        lemma_eq_table_len(pt.drop_first());
    }
}

/// One level of the equality-table recursion: interleaves `w + m * w` and
/// `m * w` for every entry `w` of the previous level.
fn eq_extend_level(last: &Vec<F128>, m: F128) -> (r: Vec<F128>)
    ensures
        r@.len() == 2 * last@.len(),
        forall|j: int|
            0 <= j < last@.len() ==> r@[2 * j] == sadd(last@[j], smul(m, last@[j])) && r@[2 * j
                + 1] == smul(m, last@[j]),
{
    let n = last.len();
    let mut r: Vec<F128> = Vec::new();
    let mut j: usize = 0;
    while j < n
        invariant
            j <= n,
            n == last@.len(),
            r@.len() == 2 * j,
            forall|t: int|
                0 <= t < j ==> r@[2 * t] == sadd(last@[t], smul(m, last@[t])) && r@[2 * t + 1]
                    == smul(m, last@[t]),
        decreases n - j,
    {
        let w = last[j];
        let mw = m.mul(w);
        r.push(w.add(mw));
        r.push(mw);
        j = j + 1;
    }
    r
}

/// A freshly extended level equals the equality table with one more leading
/// variable.
proof fn lemma_eq_table_step(pt: Seq<F128>, t: Seq<F128>)
    requires
        pt.len() >= 1,
        t.len() == 2 * eq_table(pt.drop_first()).len(),
        forall|j: int|
            0 <= j < eq_table(pt.drop_first()).len() ==> t[2 * j] == sadd(
                eq_table(pt.drop_first())[j],
                smul(pt[0], eq_table(pt.drop_first())[j]),
            ) && t[2 * j + 1] == smul(pt[0], eq_table(pt.drop_first())[j]),
    ensures
        t == eq_table(pt),
{
    let sub = eq_table(pt.drop_first());
    assert forall|x: int| 0 <= x < t.len() implies t[x] == eq_table(pt)[x] by {
        let j = x / 2;
        assert(x == 2 * j || x == 2 * j + 1);
    }
    assert(t =~= eq_table(pt));
}

/// The equality table `eq_table(pt)` of a point, of length `2^|pt|`.
pub fn eq_poly(pt: &[F128]) -> (r: Vec<F128>)
    ensures
        r@ == eq_table(pt@),
        r@.len() == pow2(pt@.len()),
{
    let l = pt.len();
    let mut ret: Vec<F128> = Vec::new();
    ret.push(F128::one());
    proof {
        assert(pt@.subrange(l as int, l as int) =~= Seq::<F128>::empty());
        assert(ret@ =~= eq_table(pt@.subrange(l as int, l as int)));
        lemma_eq_table_len(pt@);
    }
    let mut i: usize = 0;
    while i < l
        invariant
            i <= l,
            l == pt@.len(),
            ret@ == eq_table(pt@.subrange(l - i, l as int)),
            ret@.len() == pow2(i as nat),
        decreases l - i,
    {
        let m = pt[l - 1 - i];
        let next = eq_extend_level(&ret, m);
        proof {
            let s = pt@.subrange(l - i - 1, l as int);
            assert(s.drop_first() =~= pt@.subrange(l - i, l as int));
            assert(s[0] == pt@[l - i - 1]);
            lemma_eq_table_step(s, next@);
        }
        ret = next;
        i = i + 1;
    }
    proof {
        assert(pt@.subrange(0, l as int) =~= pt@);
    }
    ret
}

/// All suffix equality tables of a point: entry `i` is the equality table of
/// the last `i` variables, so entry 0 is `[1]` and entry `|pt|` is the full
/// table.
pub fn eq_poly_sequence(pt: &[F128]) -> (r: Vec<Vec<F128>>)
    ensures
        r@.len() == pt@.len() + 1,
        forall|i: int|
            0 <= i <= pt@.len() ==> #[trigger] r@[i]@ == eq_table(
                pt@.subrange(pt@.len() - i, pt@.len() as int),
            ),
        forall|i: int| 0 <= i <= pt@.len() ==> #[trigger] r@[i]@.len() == pow2(i as nat),
{
    let l = pt.len();
    let mut ret: Vec<Vec<F128>> = Vec::new();
    let mut first: Vec<F128> = Vec::new();
    first.push(F128::one());
    proof {
        assert(pt@.subrange(l as int, l as int) =~= Seq::<F128>::empty());
        assert(first@ =~= eq_table(pt@.subrange(l as int, l as int)));
    }
    ret.push(first);
    let mut k: usize = 0;
    while k < l
        invariant
            k <= l,
            l == pt@.len(),
            ret@.len() == k + 1,
            forall|t: int|
                0 <= t <= k ==> #[trigger] ret@[t]@ == eq_table(pt@.subrange(l - t, l as int)),
            forall|t: int| 0 <= t <= k ==> #[trigger] ret@[t]@.len() == pow2(t as nat),
        decreases l - k,
    {
        let i = k + 1;
        let multiplier = pt[l - i];
        let last = &ret[i - 1];
        let incoming = eq_extend_level(last, multiplier);
        proof {
            let s = pt@.subrange(l - i, l as int);
            assert(s.drop_first() =~= pt@.subrange(l - i + 1, l as int));
            assert(s[0] == pt@[l - i]);
            lemma_eq_table_step(s, incoming@);
        }
        ret.push(incoming);
        k = i;
    }
    ret
}

/// The suffix table sequence agrees with `eq_poly` entry by entry: whatever
/// `eq_poly_sequence` promises of its result, its `i`-th table is exactly
/// the equality table of the last `i` coordinates of the point -- the very
/// table `eq_poly` returns for that suffix -- in length and in value.
pub proof fn lemma_eq_sequence_agrees(pt: Seq<F128>, seqs: Seq<Seq<F128>>, i: int)
    requires
        seqs.len() == pt.len() + 1,
        forall|t: int|
            0 <= t <= pt.len() ==> #[trigger] seqs[t] == eq_table(
                pt.subrange(pt.len() - t, pt.len() as int),
            ),
        0 <= i <= pt.len(),
    ensures
        seqs[i] == eq_table(pt.subrange(pt.len() - i, pt.len() as int)),
        seqs[i].len() == pow2(i as nat),
{
    lemma_eq_table_len(pt.subrange(pt.len() - i, pt.len() as int));
}

/// The equality table built by the classical in-place doubling pass, oldest
/// variable innermost.
pub fn eq_poly_legacy(pt: &[F128]) -> (r: Vec<F128>)
    ensures
        r@ == eq_table_by_last(pt@),
        r@.len() == pow2(pt@.len()),
{
    let l = pt.len();
    let mut ret: Vec<F128> = Vec::new();
    ret.push(F128::one());
    proof {
        assert(pt@.subrange(0, 0) =~= Seq::<F128>::empty());
        assert(ret@ =~= eq_table_by_last(pt@.subrange(0, 0)));
    }
    let mut i: usize = 0;
    while i < l
        invariant
            i <= l,
            l == pt@.len(),
            ret@ == eq_table_by_last(pt@.subrange(0, i as int)),
            ret@.len() == pow2(i as nat),
        decreases l - i,
    {
        let m = pt[i];
        let half = ret.len();
        let mut j: usize = 0;
        while j < half
            invariant
                j <= half,
                half == pow2(i as nat),
                i < l,
                l == pt@.len(),
                m == pt@[i as int],
                ret@.len() == half + j,
                forall|t: int|
                    0 <= t < j ==> ret@[t] == sadd(
                        eq_table_by_last(pt@.subrange(0, i as int))[t],
                        smul(m, eq_table_by_last(pt@.subrange(0, i as int))[t]),
                    ),
                forall|t: int|
                    j <= t < half ==> ret@[t] == eq_table_by_last(pt@.subrange(0, i as int))[t],
                forall|t: int|
                    half <= t < half + j ==> ret@[t] == smul(
                        m,
                        eq_table_by_last(pt@.subrange(0, i as int))[t - half],
                    ),
            decreases half - j,
        {
            let w = ret[j];
            let mw = m.mul(w);
            ret.push(mw);
            let updated = w.add(mw);
            ret.set(j, updated);
            j = j + 1;
        }
        proof {
            let s = pt@.subrange(0, i + 1);
            assert(s.drop_last() =~= pt@.subrange(0, i as int));
            assert(s.last() == pt@[i as int]);
            let sub = eq_table_by_last(pt@.subrange(0, i as int));
            assert forall|x: int| 0 <= x < ret@.len() implies ret@[x] == eq_table_by_last(s)[x] by {
                if x < half {
                    assert(ret@[x] == sadd(sub[x], smul(m, sub[x])));
                } else {
                    assert(ret@[x] == smul(m, sub[x - half]));
                }
            }
            assert(ret@ =~= eq_table_by_last(s));
        }
        i = i + 1;
    }
    proof {
        assert(pt@.subrange(0, l as int) =~= pt@);
    }
    ret
}

/// The running product `prod_i (1 + x_i + y_i)`, folded left over the
/// coordinates.
pub open spec fn eq_ev_spec(x: Seq<F128>, y: Seq<F128>) -> F128
    decreases x.len(),
{
    if x.len() == 0 {
        one()
    } else {
        smul(eq_ev_spec(x.drop_last(), y.drop_last()), sadd(sadd(one(), x.last()), y.last()))
    }
}

/// The equality polynomial `eq(x, y) = prod_i (1 + x_i + y_i)` of two points
/// of the same length.
pub fn eq_ev(x: &[F128], y: &[F128]) -> (r: F128)
    requires
        x@.len() == y@.len(),
    ensures
        r == eq_ev_spec(x@, y@),
{
    let n = x.len();
    let mut acc = F128::one();
    proof {
        assert(x@.subrange(0, 0) =~= Seq::<F128>::empty());
    }
    let mut i: usize = 0;
    while i < n
        invariant
            i <= n,
            n == x@.len(),
            n == y@.len(),
            acc == eq_ev_spec(x@.subrange(0, i as int), y@.subrange(0, i as int)),
        decreases n - i,
    {
        proof {
            assert(x@.subrange(0, i + 1).drop_last() =~= x@.subrange(0, i as int));
            assert(y@.subrange(0, i + 1).drop_last() =~= y@.subrange(0, i as int));
        }
        let factor = F128::one().add(x[i]).add(y[i]);
        acc = acc.mul(factor);
        i = i + 1;
    }
    proof {
        assert(x@.subrange(0, n as int) =~= x@);
        assert(y@.subrange(0, n as int) =~= y@);
    }
    acc
}

/// The equality polynomial is symmetric in its two points: the running
/// product reads the same whichever point supplies which coordinate.
pub proof fn lemma_eq_ev_symmetric(x: Seq<F128>, y: Seq<F128>)
    requires
        x.len() == y.len(),
    ensures
        eq_ev_spec(x, y) == eq_ev_spec(y, x),
    decreases x.len(),
{
    if x.len() > 0 {
        lemma_eq_ev_symmetric(x.drop_last(), y.drop_last());
        crate::field::lemma_sadd_basics(sadd(one(), x.last()), y.last(), y.last());
        crate::field::lemma_sadd_basics(one(), x.last(), y.last());
        crate::field::lemma_sadd_basics(one(), y.last(), x.last());
        crate::field::lemma_sadd_basics(x.last(), y.last(), y.last());
        assert(sadd(sadd(one(), x.last()), y.last()) == sadd(sadd(one(), y.last()), x.last()));
    }
}

/// The dot product of two tables is symmetric, so in particular evaluating
/// the equality table of one point against the table of another reads the
/// same either way round.
pub proof fn lemma_dot_fold_symmetric(a: Seq<F128>, b: Seq<F128>)
    requires
        a.len() == b.len(),
    ensures
        dot_fold(a, b) == dot_fold(b, a),
    decreases a.len(),
{
    if a.len() > 0 {
        lemma_dot_fold_symmetric(a.drop_last(), b.drop_last());
        crate::field::lemma_smul_comm(a.last(), b.last());
    }
}

/// The dot product of two sequences of equal length, folded left.
pub open spec fn dot_fold(p: Seq<F128>, e: Seq<F128>) -> F128
    decreases p.len(),
{
    if p.len() == 0 {
        zero()
    } else {
        sadd(dot_fold(p.drop_last(), e.drop_last()), smul(p.last(), e.last()))
    }
}

/// The value of a multilinear polynomial at a point: the dot product of its
/// evaluation table with the point's equality table.
pub open spec fn evaluate_spec(poly: Seq<F128>, pt: Seq<F128>) -> F128 {
    dot_fold(poly, eq_table(pt))
}

/// Evaluates a multilinear polynomial, given by its table of values on the
/// boolean cube, at an arbitrary point.
pub fn evaluate(poly: &[F128], pt: &[F128]) -> (r: F128)
    requires
        poly@.len() == pow2(pt@.len()),
    ensures
        r == evaluate_spec(poly@, pt@),
{
    let eq = eq_poly(pt);
    let n = poly.len();
    let mut acc = F128::zero();
    proof {
        assert(poly@.subrange(0, 0) =~= Seq::<F128>::empty());
        assert(eq@.subrange(0, 0) =~= Seq::<F128>::empty());
    }
    let mut i: usize = 0;
    while i < n
        invariant
            i <= n,
            n == poly@.len(),
            eq@.len() == n,
            eq@ == eq_table(pt@),
            acc == dot_fold(poly@.subrange(0, i as int), eq@.subrange(0, i as int)),
        decreases n - i,
    {
        proof {
            assert(poly@.subrange(0, i + 1).drop_last() =~= poly@.subrange(0, i as int));
            assert(eq@.subrange(0, i + 1).drop_last() =~= eq@.subrange(0, i as int));
        }
        acc = acc.add(poly[i].mul(eq[i]));
        i = i + 1;
    }
    proof {
        assert(poly@.subrange(0, n as int) =~= poly@);
        assert(eq@.subrange(0, n as int) =~= eq@);
    }
    acc
}

/// Horner evaluation of a univariate polynomial given by its coefficients,
/// constant term first.
pub open spec fn univar_horner(poly: Seq<F128>, at: F128) -> F128
    decreases poly.len(),
{
    if poly.len() <= 1 {
        poly[0]
    } else {
        sadd(smul(univar_horner(poly.drop_first(), at), at), poly[0])
    }
}

/// Evaluates a univariate polynomial at a point by Horner's rule.
pub fn evaluate_univar(poly: &[F128], at: F128) -> (r: F128)
    requires
        poly@.len() >= 1,
    ensures
        r == univar_horner(poly@, at),
{
    let l = poly.len();
    let mut ret = poly[l - 1];
    proof {
        assert(poly@.subrange(l - 1, l as int).len() == 1);
    }
    let mut i: usize = 0;
    while i < l - 1
        invariant
            i <= l - 1,
            l == poly@.len(),
            l >= 1,
            ret == univar_horner(poly@.subrange(l - 1 - i, l as int), at),
        decreases l - 1 - i,
    {
        proof {
            assert(poly@.subrange(l - 2 - i, l as int).drop_first() =~= poly@.subrange(
                l - 1 - i,
                l as int,
            ));
        }
        ret = ret.mul(at).add(poly[l - 2 - i]);
        i = i + 1;
    }
    proof {
        assert(poly@.subrange(0, l as int) =~= poly@);
    }
    ret
}

/// The trit index with the same digits as the bits of `x`: digit `i` of the
/// result, base 3, is bit `i` of `x`.
pub open spec fn b2t(x: nat) -> nat
    decreases x,
{
    if x == 0 {
        0
    } else {
        x % 2 + 3 * b2t(x / 2)
    }
}

/// Converts a number with binary digits into the number with the same digits
/// read base 3.
pub fn bits_to_trits(x: usize) -> (r: usize)
    requires
        3 * b2t(x as nat) <= usize::MAX,
    ensures
        r as nat == b2t(x as nat),
{
    let ghost x0 = x as nat;
    let mut x = x;
    let mut multiplier: usize = 1;
    let mut ret: usize = 0;
    while x > 0
        invariant
            3 * b2t(x0) <= usize::MAX,
            ret + multiplier * b2t(x as nat) == b2t(x0),
            multiplier >= 1,
        decreases x,
    {
        proof {
            assert(b2t(x as nat) == (x as nat) % 2 + 3 * b2t((x as nat) / 2));
            assert(multiplier * ((x as nat) % 2 + 3 * b2t((x as nat) / 2)) == multiplier * ((
            x as nat) % 2) + multiplier * (3 * b2t((x as nat) / 2))) by {
                vstd::arithmetic::mul::lemma_mul_is_distributive_add(
                    multiplier as int,
                    ((x as nat) % 2) as int,
                    (3 * b2t((x as nat) / 2)) as int,
                );
            }
            assert(multiplier * (3 * b2t((x as nat) / 2)) == (multiplier * 3) * b2t(
                (x as nat) / 2,
            )) by {
                vstd::arithmetic::mul::lemma_mul_is_associative(
                    multiplier as int,
                    3,
                    b2t((x as nat) / 2) as int,
                );
                vstd::arithmetic::mul::lemma_mul_is_commutative(multiplier as int, 3);
            }
            assert(b2t(x as nat) >= 1) by {
                if (x as nat) % 2 == 0 {
                    assert((x as nat) / 2 >= 1);
                    lemma_b2t_pos((x as nat) / 2);
                }
            }
            assert(multiplier <= multiplier * b2t(x as nat)) by {
                vstd::arithmetic::mul::lemma_mul_inequality(
                    1,
                    b2t(x as nat) as int,
                    multiplier as int,
                );
                vstd::arithmetic::mul::lemma_mul_is_commutative(
                    multiplier as int,
                    b2t(x as nat) as int,
                );
            }
            assert(multiplier * ((x as nat) % 2) <= multiplier) by {
                vstd::arithmetic::mul::lemma_mul_inequality(
                    ((x as nat) % 2) as int,
                    1,
                    multiplier as int,
                );
                vstd::arithmetic::mul::lemma_mul_is_commutative(
                    multiplier as int,
                    ((x as nat) % 2) as int,
                );
            }
        }
        ret = ret + multiplier * (x % 2);
        x = x / 2;
        multiplier = multiplier * 3;
    }
    proof {
        assert(b2t(0) == 0);
        assert(multiplier * 0 == 0) by {
            vstd::arithmetic::mul::lemma_mul_basics(multiplier as int);
        }
    }
    ret
}

/// `b2t` of a positive number is positive.
proof fn lemma_b2t_pos(x: nat)
    requires
        x >= 1,
    ensures
        b2t(x) >= 1,
    decreases x,
{
    if x % 2 == 0 {
        lemma_b2t_pos(x / 2);
    }
}

/// `b2t` is strictly monotone.
proof fn lemma_b2t_monotone(x: nat, y: nat)
    requires
        x < y,
    ensures
        b2t(x) < b2t(y),
    decreases y,
{
    lemma_b2t_pos(y);
    if x == 0 {
    } else if x / 2 == y / 2 {
        assert(x % 2 == 0 && y % 2 == 1);
    } else {
        lemma_b2t_monotone(x / 2, y / 2);
    }
}

/// Digit `k`, base 3, of a trit index.
pub open spec fn trit_digit(j: nat, k: nat) -> nat {
    (j / pow3(k)) % 3
}

/// The position of the highest digit 2 among the low `d` base-3 digits of
/// `j`, or -1 when there is none.
pub open spec fn top_two(j: nat, d: nat) -> int
    decreases d,
{
    if d == 0 {
        -1
    } else if trit_digit(j, (d - 1) as nat) == 2 {
        (d - 1) as int
    } else {
        top_two(j, (d - 1) as nat)
    }
}

/// The binary number whose bit `k` is digit `k` of the trit index, over the
/// low `d` digits, counting a digit 2 as 0.
pub open spec fn bin_le(j: nat, d: nat) -> nat
    decreases d,
{
    if d == 0 {
        0
    } else {
        (if j % 3 == 2 {
            0
        } else {
            j % 3
        }) + 2 * bin_le(j / 3, (d - 1) as nat)
    }
}

/// Dividing a trit index by three shifts its digits down by one.
proof fn lemma_trit_digit_shift(j: nat, k: nat)
    ensures
        trit_digit(j / 3, k) == trit_digit(j, (k + 1) as nat),
{
    lemma_pow3_monotone(0, k);
    vstd::arithmetic::div_mod::lemma_div_denominator(j as int, 3, pow3(k) as int);
    assert(pow3((k + 1) as nat) == 3 * pow3(k));
}

/// `top_two(j, d) == -1` says exactly that no low digit is 2.
proof fn lemma_pure_char(j: nat, d: nat)
    ensures
        (top_two(j, d) == -1) <==> (forall|k: nat| k < d ==> trit_digit(j, k) != 2),
        top_two(j, d) < d,
        top_two(j, d) >= -1,
    decreases d,
{
    if d > 0 {
        lemma_pure_char(j, (d - 1) as nat);
    }
}

/// The binary image of `d` digits stays below `2^d`.
proof fn lemma_bin_le_bound(j: nat, d: nat)
    ensures
        bin_le(j, d) < pow2(d),
    decreases d,
{
    if d > 0 {
        lemma_bin_le_bound(j / 3, (d - 1) as nat);
    }
}

/// Accumulating the binary image digit by digit from the bottom: adding
/// digit `k` contributes its value (2 counting as 0) at bit `k`.
proof fn lemma_bin_le_step(j: nat, k: nat)
    ensures
        bin_le(j, (k + 1) as nat) == bin_le(j, k) + (if trit_digit(j, k) == 2 {
            0
        } else {
            trit_digit(j, k)
        }) * pow2(k),
    decreases k,
{
    let sel0: nat = if j % 3 == 2 {
        0
    } else {
        j % 3
    };
    let s: nat = if trit_digit(j, k) == 2 {
        0
    } else {
        trit_digit(j, k)
    };
    if k == 0 {
        assert(pow3(0) == 1);
        assert(j / 1 == j) by (nonlinear_arith);
        assert(trit_digit(j, 0) == j % 3);
        assert(bin_le(j / 3, 0) == 0);
        assert(bin_le(j, 1) == sel0);
        assert(bin_le(j, 0) == 0);
        assert(pow2(0) == 1);
        assert(s * 1 == s) by (nonlinear_arith);
    } else {
        lemma_bin_le_step(j / 3, (k - 1) as nat);
        lemma_trit_digit_shift(j, (k - 1) as nat);
        assert(trit_digit(j / 3, (k - 1) as nat) == trit_digit(j, k));
        assert(bin_le(j / 3, k) == bin_le(j / 3, (k - 1) as nat) + s * pow2((k - 1) as nat));
        assert(bin_le(j, (k + 1) as nat) == sel0 + 2 * bin_le(j / 3, k));
        assert(bin_le(j, k) == sel0 + 2 * bin_le(j / 3, (k - 1) as nat));
        assert(2 * (bin_le(j / 3, (k - 1) as nat) + s * pow2((k - 1) as nat)) == 2 * bin_le(
            j / 3,
            (k - 1) as nat,
        ) + s * (2 * pow2((k - 1) as nat))) by (nonlinear_arith);
        assert(pow2(k) == 2 * pow2((k - 1) as nat));
    }
}

/// On a trit index with no digit 2, `b2t` inverts the binary image.
proof fn lemma_b2t_of_bin(j: nat, d: nat)
    requires
        top_two(j, d) == -1,
        j < pow3(d),
    ensures
        b2t(bin_le(j, d)) == j,
        bin_le(j, d) < pow2(d),
    decreases d,
{
    lemma_bin_le_bound(j, d);
    if d == 0 {
    } else {
        lemma_pure_char(j, d);
        assert(trit_digit(j, 0) != 2);
        assert(pow3(0) == 1);
        assert(j / pow3(0) == j / 1);
        assert(j / 1 == j) by (nonlinear_arith);
        assert(trit_digit(j, 0) == j % 3);
        assert forall|k: nat| k < (d - 1) as nat implies #[trigger] trit_digit(j / 3, k) != 2 by {
            lemma_trit_digit_shift(j, k);
        }
        lemma_pure_char(j / 3, (d - 1) as nat);
        assert(j / 3 < pow3((d - 1) as nat)) by {
            assert(pow3(d) == 3 * pow3((d - 1) as nat));
        }
        lemma_b2t_of_bin(j / 3, (d - 1) as nat);
        let m = bin_le(j / 3, (d - 1) as nat);
        let b = bin_le(j, d);
        assert(b == j % 3 + 2 * m);
        assert(b % 2 == j % 3 && b / 2 == m) by {
            assert(j % 3 < 2);
        }
        if b == 0 {
            assert(j % 3 == 0 && m == 0);
            assert(b2t(m) == 0);
            assert(j == 3 * (j / 3) + j % 3) by {
                vstd::arithmetic::div_mod::lemma_fundamental_div_mod(j as int, 3);
            }
            assert(j / 3 == 0) by {
                if j / 3 >= 1 {
                    lemma_b2t_pos(j / 3);
                }
            }
        } else {
            assert(b2t(b) == b % 2 + 3 * b2t(b / 2));
            assert(j == 3 * (j / 3) + j % 3) by {
                vstd::arithmetic::div_mod::lemma_fundamental_div_mod(j as int, 3);
            }
        }
    }
}

/// The image of `b2t` on `[0, 2^d)` has no digit 2 and stays below `3^d`.
pub proof fn lemma_b2t_pure(x: nat, d: nat)
    requires
        x < pow2(d),
    ensures
        top_two(b2t(x), d) == -1,
        b2t(x) < pow3(d),
    decreases d,
{
    if d == 0 {
        lemma_pure_char(b2t(x), d);
    } else {
        assert(x / 2 < pow2((d - 1) as nat));
        lemma_b2t_pure(x / 2, (d - 1) as nat);
        let b = b2t(x);
        assert(b == x % 2 + 3 * b2t(x / 2));
        assert(b % 3 == x % 2 && b / 3 == b2t(x / 2)) by {
            assert(x % 2 < 3);
        }
        assert(pow3(d) == 3 * pow3((d - 1) as nat));
        assert(b < pow3(d));
        lemma_pure_char(b, d);
        lemma_pure_char(b2t(x / 2), (d - 1) as nat);
        assert forall|k: nat| k < d implies trit_digit(b, k) != 2 by {
            if k == 0 {
                assert(pow3(0) == 1);
                assert(b / 1 == b) by (nonlinear_arith);
                assert(trit_digit(b, 0) == b % 3);
            } else {
                lemma_trit_digit_shift(b, (k - 1) as nat);
                assert(trit_digit(b / 3, (k - 1) as nat) != 2);
            }
        }
    }
}

/// `pow3` is monotone.
pub proof fn lemma_pow3_monotone(a: nat, b: nat)
    requires
        a <= b,
    ensures
        pow3(a) <= pow3(b),
    decreases b,
{
    if a < b {
        lemma_pow3_monotone(a, (b - 1) as nat);
    }
}

/// The value of the trit-extended table of one input table at chunk `hi` and
/// trit index `j`, for phase width `c`.  At an index with no digit 2 it is
/// the table value at the binary index with the same digits; at any other it
/// is the sum of the two values obtained by lowering the highest digit 2 to
/// one and to zero, the multilinear extension's value at infinity.
pub open spec fn table_ext(table: Seq<F128>, c: nat, hi: int, j: nat) -> F128
    decreases j,
    via table_ext_decreases
{
    if top_two(j, (c + 1) as nat) == -1 {
        table[hi * pow2((c + 1) as nat) + bin_le(j, (c + 1) as nat)]
    } else {
        let k = top_two(j, (c + 1) as nat) as nat;
        sadd(
            table_ext(table, c, hi, (j - pow3(k)) as nat),
            table_ext(table, c, hi, (j - 2 * pow3(k)) as nat),
        )
    }
}

#[via_fn]
proof fn table_ext_decreases(table: Seq<F128>, c: nat, hi: int, j: nat) {
    lemma_pure_char(j, (c + 1) as nat);
    if top_two(j, (c + 1) as nat) >= 0 {
        let k = top_two(j, (c + 1) as nat) as nat;
        lemma_top_two_digit(j, (c + 1) as nat);
        lemma_two_digit_bound(j, k);
        lemma_pow3_monotone(0, k);
    }
}

/// What `compute_trit_mappings` promises of its second result.
pub open spec fn is_trit_mapping(tm: Seq<u16>, c: nat) -> bool {
    &&& tm.len() == pow3((c + 1) as nat)
    &&& forall|j: int|
        0 <= j < tm.len() && top_two(j as nat, (c + 1) as nat) == -1 ==> (#[trigger] tm[j]) as nat
            == 2 * bin_le(j as nat, (c + 1) as nat)
    &&& forall|j: int|
        0 <= j < tm.len() && top_two(j as nat, (c + 1) as nat) >= 0 ==> (#[trigger] tm[j]) as nat
            == pow3(top_two(j as nat, (c + 1) as nat) as nat)
}

/// What `compute_trit_mappings` promises of its first result.
pub open spec fn is_bit_mapping(bm: Seq<u16>, c: nat) -> bool {
    &&& bm.len() == pow2((c + 1) as nat)
    &&& forall|i: int| 0 <= i < bm.len() ==> (#[trigger] bm[i]) as nat == b2t(i as nat)
}

/// Builds the two phase-one index maps for switch parameter `c`.  For a trit
/// index with no digit 2, `trit_mapping` holds twice the binary index with
/// the same digits, an even value; for any other it holds `3^k`, odd, with
/// `k` the position of the highest digit 2.  `bit_mapping` lists the trit
/// indexes of the pure binary slots in order, so it inverts the even case.
pub fn compute_trit_mappings(c: usize) -> (r: (Vec<u16>, Vec<u16>))
    requires
        pow3((c + 1) as nat) < 0x8000,
    ensures
        is_bit_mapping(r.0@, c as nat),
        is_trit_mapping(r.1@, c as nat),
{
    proof {
        if (c + 1) as nat >= 10 {
            lemma_pow3_monotone(10, (c + 1) as nat);
            assert(pow3(0) == 1);
            assert(pow3(1) == 3);
            assert(pow3(2) == 9);
            assert(pow3(3) == 27);
            assert(pow3(4) == 81);
            assert(pow3(5) == 243);
            assert(pow3(6) == 729);
            assert(pow3(7) == 2187);
            assert(pow3(8) == 6561);
            assert(pow3(9) == 19683);
            assert(pow3(10) == 59049);
        }
    }
    let d = c + 1;
    // powers of three up to 3^d
    let mut pows: Vec<usize> = Vec::new();
    pows.push(1);
    let mut k: usize = 0;
    while k < d
        invariant
            k <= d,
            d == c + 1,
            pow3(d as nat) < 0x8000,
            pows@.len() == k + 1,
            forall|t: int| 0 <= t <= k ==> (#[trigger] pows@[t]) as nat == pow3(t as nat),
        decreases d - k,
    {
        proof {
            lemma_pow3_monotone((k + 1) as nat, d as nat);
        }
        let last = pows[k];
        pows.push(3 * last);
        k = k + 1;
    }
    let p3d = pows[d];
    let mut bit_mapping: Vec<u16> = Vec::new();
    let mut trit_mapping: Vec<u16> = Vec::new();
    let mut j: usize = 0;
    while j < p3d
        invariant
            j <= p3d,
            d == c + 1,
            d < 10,
            p3d as nat == pow3(d as nat),
            p3d < 0x8000,
            pows@.len() == d + 1,
            forall|t: int| 0 <= t <= d ==> (#[trigger] pows@[t]) as nat == pow3(t as nat),
            trit_mapping@.len() == j,
            forall|t: int|
                0 <= t < j && top_two(t as nat, d as nat) == -1 ==> (#[trigger] trit_mapping@[t])
                    as nat == 2 * bin_le(t as nat, d as nat),
            forall|t: int|
                0 <= t < j && top_two(t as nat, d as nat) >= 0 ==> (#[trigger] trit_mapping@[t])
                    as nat == pow3(top_two(t as nat, d as nat) as nat),
            bit_mapping@.len() <= pow2(d as nat),
            forall|i: int|
                0 <= i < bit_mapping@.len() ==> (#[trigger] bit_mapping@[i]) as nat == b2t(i as nat),
            forall|i: int| 0 <= i < bit_mapping@.len() ==> #[trigger] b2t(i as nat) < j,
            bit_mapping@.len() < pow2(d as nat) ==> b2t(bit_mapping@.len() as nat) >= j,
        decreases p3d - j,
    {
        let mut bin_value: usize = 0;
        let mut p2k: usize = 1;
        let mut flag = true;
        let mut topk: usize = 0;
        let mut k: usize = 0;
        while k < d
            invariant
                k <= d,
                d < 10,
                j < p3d,
                p3d as nat == pow3(d as nat),
                pows@.len() == d + 1,
                forall|t: int| 0 <= t <= d ==> (#[trigger] pows@[t]) as nat == pow3(t as nat),
                p2k as nat == pow2(k as nat),
                bin_value < p2k,
                bin_value == bin_le(j as nat, k as nat),
                flag <==> top_two(j as nat, k as nat) == -1,
                !flag ==> topk == top_two(j as nat, k as nat),
                topk < 10,
            decreases d - k,
        {
            proof {
                lemma_pow3_monotone(0, k as nat);
            }
            let digit = (j / pows[k]) % 3;
            proof {
                assert(digit as nat == trit_digit(j as nat, k as nat));
                lemma_bin_le_step(j as nat, k as nat);
                lemma_pure_char(j as nat, k as nat);
                lemma_pure_char(j as nat, (k + 1) as nat);
                assert(pow2((k + 1) as nat) == 2 * pow2(k as nat));
                lemma_pow2_le_512(k as nat);
                lemma_pow2_le_512((k + 1) as nat);
            }
            if digit == 2 {
                flag = false;
                topk = k;
            } else {
                proof {
                    assert(digit * p2k <= 1 * p2k) by {
                        vstd::arithmetic::mul::lemma_mul_inequality(
                            digit as int,
                            1,
                            p2k as int,
                        );
                    }
                }
                bin_value = bin_value + digit * p2k;
            }
            p2k = p2k * 2;
            k = k + 1;
        }
        if flag {
            proof {
                lemma_b2t_of_bin(j as nat, d as nat);
                let istar = bin_le(j as nat, d as nat);
                let bl = bit_mapping@.len() as nat;
                if istar < bl {
                    assert(b2t(istar) < j);
                }
                if istar > bl {
                    assert(bl < pow2(d as nat));
                    assert(b2t(bl) >= j);
                    lemma_b2t_monotone(bl, istar);
                }
                assert(istar == bl);
                if bl + 1 < pow2(d as nat) {
                    lemma_b2t_monotone(bl, bl + 1);
                }
                lemma_bin_le_bound(j as nat, d as nat);
                assert(2 * bin_value < 0x8000) by {
                    assert(pow2(d as nat) <= 512) by {
                        lemma_pow2_le_512(d as nat);
                    }
                }
            }
            trit_mapping.push((2 * bin_value) as u16);
            bit_mapping.push(j as u16);
        } else {
            proof {
                let bl = bit_mapping@.len() as nat;
                if bl < pow2(d as nat) {
                    lemma_b2t_pure(bl, d as nat);
                    lemma_pure_char(j as nat, d as nat);
                    assert(b2t(bl) != j);
                }
                lemma_pure_char(j as nat, d as nat);
                lemma_pow3_monotone(topk as nat, d as nat);
            }
            trit_mapping.push(pows[topk] as u16);
        }
        j = j + 1;
    }
    proof {
        let bl = bit_mapping@.len() as nat;
        if bl < pow2(d as nat) {
            lemma_b2t_pure(bl, d as nat);
            assert(b2t(bl) >= pow3(d as nat));
            assert(false);
        }
    }
    (bit_mapping, trit_mapping)
}

/// Splitting an exponent splits the power.
pub proof fn lemma_pow2_adds(a: nat, b: nat)
    ensures
        pow2(a + b) == pow2(a) * pow2(b),
    decreases a,
{
    if a == 0 {
        assert(pow2(0) == 1);
        assert(pow2(0 + b) == 1 * pow2(b));
    } else {
        lemma_pow2_adds((a - 1) as nat, b);
        let x = pow2((a - 1) as nat);
        let y = pow2(b);
        let z = pow2(a + b);
        assert(a + b >= 1);
        assert((a + b - 1) as nat == (a - 1) as nat + b);
        assert(z == 2 * pow2((a + b - 1) as nat));
        assert(pow2((a - 1) as nat + b) == x * y);
        assert(z == 2 * (x * y));
        assert(pow2(a) == 2 * x);
        assert((2 * x) * y == 2 * (x * y)) by (nonlinear_arith);
        assert(z == (2 * x) * y);
        assert(pow2(a) * pow2(b) == (2 * x) * y);
    }
}

/// Every power of three is odd.
proof fn lemma_pow3_odd(k: nat)
    ensures
        pow3(k) % 2 == 1,
    decreases k,
{
    if k > 0 {
        lemma_pow3_odd((k - 1) as nat);
    }
}

/// A flat chunked index stays inside the flat array.
proof fn lemma_flat_bound(hi: int, lo: int, a: int, b: int)
    by (nonlinear_arith)
    requires
        0 <= hi < a,
        0 <= lo < b,
    ensures
        0 <= hi * b + lo < a * b,
{
}

/// Where a digit 2 sits, the index carries at least twice that power of
/// three.
proof fn lemma_two_digit_bound(j: nat, k: nat)
    requires
        trit_digit(j, k) == 2,
    ensures
        j >= 2 * pow3(k),
{
    lemma_pow3_monotone(0, k);
    let p = pow3(k);
    assert(j / p >= 2);
    vstd::arithmetic::div_mod::lemma_fundamental_div_mod(j as int, p as int);
    assert(p * (j as int / p as int) >= p * 2) by (nonlinear_arith)
        requires
            p >= 1,
            j as int / p as int >= 2,
    ;
}

/// A defined `top_two` position points at an actual digit 2 below `d`.
proof fn lemma_top_two_digit(j: nat, d: nat)
    requires
        top_two(j, d) >= 0,
    ensures
        top_two(j, d) < d,
        trit_digit(j, top_two(j, d) as nat) == 2,
    decreases d,
{
    if d > 0 && trit_digit(j, (d - 1) as nat) != 2 {
        lemma_top_two_digit(j, (d - 1) as nat);
    }
}

/// In the top third of the trit range the top digit is 2.
proof fn lemma_top_third(j: nat, c: nat)
    requires
        2 * pow3(c) <= j < 3 * pow3(c),
    ensures
        trit_digit(j, c) == 2,
        top_two(j, (c + 1) as nat) == c,
{
    lemma_pow3_monotone(0, c);
    let p = pow3(c);
    assert(j / p == 2) by (nonlinear_arith)
        requires
            p >= 1,
            2 * p <= j < 3 * p,
    ;
}

/// `2^k` never exceeds `3^k`.
pub proof fn lemma_pow2_le_pow3(k: nat)
    ensures
        pow2(k) <= pow3(k),
    decreases k,
{
    if k > 0 {
        lemma_pow2_le_pow3((k - 1) as nat);
    }
}

/// `2^k`, computed by doubling.
pub fn pow2_exec(k: usize) -> (r: usize)
    requires
        pow2(k as nat) <= usize::MAX,
    ensures
        r as nat == pow2(k as nat),
{
    let mut acc: usize = 1;
    let mut i: usize = 0;
    while i < k
        invariant
            i <= k,
            acc as nat == pow2(i as nat),
            pow2(k as nat) <= usize::MAX,
        decreases k - i,
    {
        proof {
            lemma_pow2_monotone((i + 1) as nat, k as nat);
        }
        acc = acc * 2;
        i = i + 1;
    }
    acc
}

/// `3^k`, computed by tripling.
pub fn pow3_exec(k: usize) -> (r: usize)
    requires
        pow3(k as nat) <= usize::MAX,
    ensures
        r as nat == pow3(k as nat),
{
    let mut acc: usize = 1;
    let mut i: usize = 0;
    while i < k
        invariant
            i <= k,
            acc as nat == pow3(i as nat),
            pow3(k as nat) <= usize::MAX,
        decreases k - i,
    {
        proof {
            lemma_pow3_monotone((i + 1) as nat, k as nat);
        }
        acc = acc * 3;
        i = i + 1;
    }
    acc
}

/// Extends one table of length `2^dims` into the trit-indexed table of
/// length `3^(c+1) * 2^(dims-c-1)`: each chunk of `2^(c+1)` entries grows
/// into a chunk of `3^(c+1)` entries holding the multilinear extension's
/// values at every point of `{0, 1, oo}^(c+1)`.
pub fn extend_table(table: &[F128], dims: usize, c: usize, trits_mapping: &[u16]) -> (r: Vec<F128>)
    requires
        c < dims,
        table@.len() == pow2(dims as nat),
        pow3((c + 1) as nat) < 0x8000,
        is_trit_mapping(trits_mapping@, c as nat),
    ensures
        r@.len() == pow3((c + 1) as nat) * pow2((dims - c - 1) as nat),
        forall|t: int|
            0 <= t < r@.len() ==> #[trigger] r@[t] == table_ext(
                table@,
                c as nat,
                t / (pow3((c + 1) as nat) as int),
                (t % (pow3((c + 1) as nat) as int)) as nat,
            ),
{
    proof {
        lemma_pow2_le_pow3((c + 1) as nat);
    }
    let p3: usize = pow3_exec(c + 1);
    let twoc1: usize = pow2_exec(c + 1);
    proof {
        lemma_pow2_monotone(0, (c + 1) as nat);
    }
    let tab_len: usize = table.len();
    let num_chunks: usize = tab_len / twoc1;
    proof {
        lemma_pow2_adds((dims - c - 1) as nat, (c + 1) as nat);
        vstd::arithmetic::div_mod::lemma_div_multiples_vanish(
            pow2((dims - c - 1) as nat) as int,
            twoc1 as int,
        );
        vstd::arithmetic::mul::lemma_mul_is_commutative(
            pow2((dims - c - 1) as nat) as int,
            twoc1 as int,
        );
        assert(num_chunks * twoc1 == tab_len as int);
    }
    let ghost pp: int = p3 as int;
    let mut ret: Vec<F128> = Vec::new();
    let mut hi: usize = 0;
    while hi < num_chunks
        invariant
            hi <= num_chunks,
            p3 as nat == pow3((c + 1) as nat),
            p3 < 0x8000,
            pp == p3 as int,
            twoc1 as nat == pow2((c + 1) as nat),
            num_chunks as nat == pow2((dims - c - 1) as nat),
            table@.len() == num_chunks * twoc1,
            num_chunks * twoc1 <= usize::MAX,
            is_trit_mapping(trits_mapping@, c as nat),
            ret@.len() == hi * p3,
            forall|t: int|
                0 <= t < ret@.len() ==> #[trigger] ret@[t] == table_ext(
                    table@,
                    c as nat,
                    t / pp,
                    (t % pp) as nat,
                ),
        decreases num_chunks - hi,
    {
        let mut j: usize = 0;
        while j < p3
            invariant
                j <= p3,
                hi < num_chunks,
                p3 as nat == pow3((c + 1) as nat),
                p3 < 0x8000,
                pp == p3 as int,
                twoc1 as nat == pow2((c + 1) as nat),
                num_chunks as nat == pow2((dims - c - 1) as nat),
                table@.len() == num_chunks * twoc1,
                num_chunks * twoc1 <= usize::MAX,
                is_trit_mapping(trits_mapping@, c as nat),
                ret@.len() == hi * p3 + j,
                forall|t: int|
                    0 <= t < ret@.len() ==> #[trigger] ret@[t] == table_ext(
                        table@,
                        c as nat,
                        t / pp,
                        (t % pp) as nat,
                    ),
            decreases p3 - j,
        {
            proof {
                lemma_flat_bound(hi as int, j as int, num_chunks as int, p3 as int);
                vstd::arithmetic::div_mod::lemma_fundamental_div_mod_converse(
                    (hi * p3 + j) as int,
                    pp,
                    hi as int,
                    j as int,
                );
            }
            let offset = trits_mapping[j];
            if offset % 2 == 0 {
                proof {
                    lemma_pure_char(j as nat, (c + 1) as nat);
                    let tt = top_two(j as nat, (c + 1) as nat);
                    if tt >= 0 {
                        assert(trits_mapping@[j as int] as nat == pow3(tt as nat));
                        lemma_pow3_odd(tt as nat);
                        assert(false);
                    }
                    assert(trits_mapping@[j as int] as nat == 2 * bin_le(j as nat, (c + 1) as nat));
                    lemma_bin_le_bound(j as nat, (c + 1) as nat);
                    lemma_flat_bound(hi as int, (offset / 2) as int, num_chunks as int, twoc1 as int);
                }
                let idx = hi * twoc1 + (offset / 2) as usize;
                ret.push(table[idx]);
            } else {
                proof {
                    lemma_pure_char(j as nat, (c + 1) as nat);
                    if top_two(j as nat, (c + 1) as nat) == -1 {
                        assert(trits_mapping@[j as int] as nat == 2 * bin_le(
                            j as nat,
                            (c + 1) as nat,
                        ));
                        assert(false);
                    }
                    assert(trits_mapping@[j as int] as nat == pow3(
                        top_two(j as nat, (c + 1) as nat) as nat,
                    ));
                    let k = top_two(j as nat, (c + 1) as nat) as nat;
                    lemma_top_two_digit(j as nat, (c + 1) as nat);
                    lemma_two_digit_bound(j as nat, k);
                    lemma_pow3_monotone(0, k);
                    vstd::arithmetic::div_mod::lemma_fundamental_div_mod_converse(
                        (hi * p3 + j - offset) as int,
                        pp,
                        hi as int,
                        (j - offset) as int,
                    );
                    vstd::arithmetic::div_mod::lemma_fundamental_div_mod_converse(
                        (hi * p3 + j - 2 * offset) as int,
                        pp,
                        hi as int,
                        (j - 2 * offset) as int,
                    );
                }
                let base = ret.len();
                let off = offset as usize;
                let v1 = ret[base - off];
                let v2 = ret[base - 2 * off];
                ret.push(v1.add(v2));
            }
            j = j + 1;
        }
        proof {
            assert((hi + 1) * p3 == hi * p3 + p3) by (nonlinear_arith);
        }
        hi = hi + 1;
    }
    proof {
        vstd::arithmetic::mul::lemma_mul_is_commutative(num_chunks as int, p3 as int);
    }
    ret
}

/// Extends two tables at once and combines them pointwise with the
/// coordinate-wise AND, skipping the top third of each per-input extension,
/// which nothing later reads.
pub fn extend_2_tables_legacy(
    p: &[F128],
    q: &[F128],
    dims: usize,
    c: usize,
    trit_mapping: &[u16],
) -> (r: Vec<F128>)
    requires
        c < dims,
        p@.len() == pow2(dims as nat),
        q@.len() == pow2(dims as nat),
        pow3((c + 1) as nat) < 0x8000,
        is_trit_mapping(trit_mapping@, c as nat),
    ensures
        r@.len() == pow3((c + 1) as nat) * pow2((dims - c - 1) as nat),
        forall|t: int|
            0 <= t < r@.len() ==> #[trigger] r@[t] == crate::field::sband(
                table_ext(p@, c as nat, t / (pow3((c + 1) as nat) as int), (t % (pow3((c + 1) as nat) as int)) as nat),
                table_ext(q@, c as nat, t / (pow3((c + 1) as nat) as int), (t % (pow3((c + 1) as nat) as int)) as nat),
            ),
{
    proof {
        lemma_pow2_le_pow3((c + 1) as nat);
    }
    let p3: usize = pow3_exec(c + 1);
    let p3c: usize = p3 / 3;
    let pow3_adj: usize = p3c * 2;
    let twoc1: usize = pow2_exec(c + 1);
    proof {
        lemma_pow2_monotone(0, (c + 1) as nat);
    }
    let tab_len: usize = p.len();
    let num_chunks: usize = tab_len / twoc1;
    proof {
        assert(p3 as nat == 3 * pow3(c as nat));
        assert(p3c as nat == pow3(c as nat));
        lemma_pow2_adds((dims - c - 1) as nat, (c + 1) as nat);
        vstd::arithmetic::div_mod::lemma_div_multiples_vanish(
            pow2((dims - c - 1) as nat) as int,
            twoc1 as int,
        );
        vstd::arithmetic::mul::lemma_mul_is_commutative(
            pow2((dims - c - 1) as nat) as int,
            twoc1 as int,
        );
        assert(num_chunks * twoc1 == tab_len as int);
    }
    let ghost pp: int = p3 as int;
    let mut ret: Vec<F128> = Vec::new();
    let mut hi: usize = 0;
    while hi < num_chunks
        invariant
            hi <= num_chunks,
            p3 as nat == pow3((c + 1) as nat),
            p3 < 0x8000,
            pp == p3 as int,
            p3c as nat == pow3(c as nat),
            pow3_adj == 2 * p3c,
            p3 == 3 * p3c,
            twoc1 as nat == pow2((c + 1) as nat),
            num_chunks as nat == pow2((dims - c - 1) as nat),
            p@.len() == num_chunks * twoc1,
            q@.len() == num_chunks * twoc1,
            num_chunks * twoc1 <= usize::MAX,
            is_trit_mapping(trit_mapping@, c as nat),
            ret@.len() == hi * p3,
            forall|t: int|
                0 <= t < ret@.len() ==> #[trigger] ret@[t] == crate::field::sband(
                    table_ext(p@, c as nat, t / pp, (t % pp) as nat),
                    table_ext(q@, c as nat, t / pp, (t % pp) as nat),
                ),
        decreases num_chunks - hi,
    {
        let mut p_ext: Vec<F128> = Vec::new();
        let mut q_ext: Vec<F128> = Vec::new();
        let mut j: usize = 0;
        while j < pow3_adj
            invariant
                j <= pow3_adj,
                hi < num_chunks,
                p3 as nat == pow3((c + 1) as nat),
                p3 < 0x8000,
                pp == p3 as int,
                p3c as nat == pow3(c as nat),
                pow3_adj == 2 * p3c,
                p3 == 3 * p3c,
                twoc1 as nat == pow2((c + 1) as nat),
                num_chunks as nat == pow2((dims - c - 1) as nat),
                p@.len() == num_chunks * twoc1,
                q@.len() == num_chunks * twoc1,
                num_chunks * twoc1 <= usize::MAX,
                is_trit_mapping(trit_mapping@, c as nat),
                ret@.len() == hi * p3 + j,
                p_ext@.len() == j,
                q_ext@.len() == j,
                forall|t: int|
                    0 <= t < j ==> #[trigger] p_ext@[t] == table_ext(
                        p@,
                        c as nat,
                        hi as int,
                        t as nat,
                    ),
                forall|t: int|
                    0 <= t < j ==> #[trigger] q_ext@[t] == table_ext(
                        q@,
                        c as nat,
                        hi as int,
                        t as nat,
                    ),
                forall|t: int|
                    0 <= t < ret@.len() ==> #[trigger] ret@[t] == crate::field::sband(
                        table_ext(p@, c as nat, t / pp, (t % pp) as nat),
                        table_ext(q@, c as nat, t / pp, (t % pp) as nat),
                    ),
            decreases pow3_adj - j,
        {
            proof {
                lemma_flat_bound(hi as int, j as int, num_chunks as int, p3 as int);
                vstd::arithmetic::div_mod::lemma_fundamental_div_mod_converse(
                    (hi * p3 + j) as int,
                    pp,
                    hi as int,
                    j as int,
                );
            }
            let offset = trit_mapping[j];
            let pe;
            let qe;
            if offset % 2 == 0 {
                proof {
                    lemma_pure_char(j as nat, (c + 1) as nat);
                    let tt = top_two(j as nat, (c + 1) as nat);
                    if tt >= 0 {
                        assert(trit_mapping@[j as int] as nat == pow3(tt as nat));
                        lemma_pow3_odd(tt as nat);
                        assert(false);
                    }
                    assert(trit_mapping@[j as int] as nat == 2 * bin_le(j as nat, (c + 1) as nat));
                    lemma_bin_le_bound(j as nat, (c + 1) as nat);
                    lemma_flat_bound(hi as int, (offset / 2) as int, num_chunks as int, twoc1 as int);
                }
                let idx = hi * twoc1 + (offset / 2) as usize;
                pe = p[idx];
                qe = q[idx];
            } else {
                proof {
                    lemma_pure_char(j as nat, (c + 1) as nat);
                    if top_two(j as nat, (c + 1) as nat) == -1 {
                        assert(trit_mapping@[j as int] as nat == 2 * bin_le(
                            j as nat,
                            (c + 1) as nat,
                        ));
                        assert(false);
                    }
                    assert(trit_mapping@[j as int] as nat == pow3(
                        top_two(j as nat, (c + 1) as nat) as nat,
                    ));
                    let k = top_two(j as nat, (c + 1) as nat) as nat;
                    lemma_top_two_digit(j as nat, (c + 1) as nat);
                    lemma_two_digit_bound(j as nat, k);
                    lemma_pow3_monotone(0, k);
                }
                let off = offset as usize;
                pe = p_ext[j - off].add(p_ext[j - 2 * off]);
                qe = q_ext[j - off].add(q_ext[j - 2 * off]);
            }
            p_ext.push(pe);
            q_ext.push(qe);
            ret.push(pe.bitand(qe));
            j = j + 1;
        }
        while j < p3
            invariant
                pow3_adj <= j <= p3,
                hi < num_chunks,
                p3 as nat == pow3((c + 1) as nat),
                p3 < 0x8000,
                pp == p3 as int,
                p3c as nat == pow3(c as nat),
                pow3_adj == 2 * p3c,
                p3 == 3 * p3c,
                is_trit_mapping(trit_mapping@, c as nat),
                num_chunks as nat == pow2((dims - c - 1) as nat),
                ret@.len() == hi * p3 + j,
                p_ext@.len() == pow3_adj,
                q_ext@.len() == pow3_adj,
                forall|t: int|
                    0 <= t < pow3_adj ==> #[trigger] p_ext@[t] == table_ext(
                        p@,
                        c as nat,
                        hi as int,
                        t as nat,
                    ),
                forall|t: int|
                    0 <= t < pow3_adj ==> #[trigger] q_ext@[t] == table_ext(
                        q@,
                        c as nat,
                        hi as int,
                        t as nat,
                    ),
                forall|t: int|
                    0 <= t < ret@.len() ==> #[trigger] ret@[t] == crate::field::sband(
                        table_ext(p@, c as nat, t / pp, (t % pp) as nat),
                        table_ext(q@, c as nat, t / pp, (t % pp) as nat),
                    ),
            decreases p3 - j,
        {
            proof {
                lemma_flat_bound(hi as int, j as int, num_chunks as int, p3 as int);
                vstd::arithmetic::div_mod::lemma_fundamental_div_mod_converse(
                    (hi * p3 + j) as int,
                    pp,
                    hi as int,
                    j as int,
                );
                lemma_top_third(j as nat, c as nat);
                lemma_two_digit_bound(j as nat, c as nat);
            }
            let offset = trit_mapping[j];
            let off = offset as usize;
            let pe = p_ext[j - off].add(p_ext[j - 2 * off]);
            let qe = q_ext[j - off].add(q_ext[j - 2 * off]);
            ret.push(pe.bitand(qe));
            j = j + 1;
        }
        proof {
            assert((hi + 1) * p3 == hi * p3 + p3) by (nonlinear_arith);
        }
        hi = hi + 1;
    }
    proof {
        vstd::arithmetic::mul::lemma_mul_is_commutative(num_chunks as int, p3 as int);
    }
    ret
}

/// The views of a sequence of vectors.
pub open spec fn views_of(tables: Seq<Vec<F128>>) -> Seq<Seq<F128>> {
    Seq::new(tables.len(), |z: int| tables[z]@)
}

/// One argument tuple of the combined extension: the extended value of every
/// input table at the same chunk and trit index.
pub open spec fn ext_n_args(tables: Seq<Seq<F128>>, c: nat, hi: int, j: nat) -> Seq<F128> {
    Seq::new(tables.len(), |z: int| table_ext(tables[z], c, hi, j))
}

/// Two equal powers of two have equal exponents.
proof fn lemma_pow2_injective(a: nat, b: nat)
    requires
        pow2(a) == pow2(b),
    ensures
        a == b,
{
    if a < b {
        lemma_pow2_strict(a, b);
    }
    if b < a {
        lemma_pow2_strict(b, a);
    }
}

/// `pow2` is strictly monotone.
pub proof fn lemma_pow2_strict(a: nat, b: nat)
    requires
        a < b,
    ensures
        pow2(a) < pow2(b),
    decreases b,
{
    lemma_pow2_monotone(0, a);
    if a + 1 < b {
        lemma_pow2_strict(a, (b - 1) as nat);
    }
}

/// The exact base-two logarithm of a power of two.
fn log2_exact(x: usize) -> (r: usize)
    requires
        exists|k: nat| x as nat == pow2(k),
    ensures
        x as nat == pow2(r as nat),
{
    let mut v: usize = x;
    let mut r: usize = 0;
    proof {
        let k0 = choose|k: nat| x as nat == pow2(k);
        assert(x as nat == 1 * pow2(k0));
        lemma_pow2_monotone(0, k0);
    }
    while v > 1
        invariant
            v >= 1,
            exists|k: nat| v as nat == pow2(k),
            x as nat == v * pow2(r as nat),
            pow2(r as nat) <= x as nat,
        decreases v,
    {
        proof {
            let k = choose|k: nat| v as nat == pow2(k);
            assert(k >= 1) by {
                if k == 0 {
                    assert(pow2(0) == 1);
                }
            }
            assert(v as nat / 2 == pow2((k - 1) as nat));
            assert((v as nat / 2) * pow2((r + 1) as nat) == v * pow2(r as nat)) by (nonlinear_arith)
                requires
                    v as nat == 2 * (v as nat / 2),
                    pow2((r + 1) as nat) == 2 * pow2(r as nat),
            ;
            assert(1 * pow2((r + 1) as nat) <= (v as nat / 2) * pow2((r + 1) as nat)) by {
                vstd::arithmetic::mul::lemma_mul_inequality(
                    1,
                    (v as nat / 2) as int,
                    pow2((r + 1) as nat) as int,
                );
            }
            lemma_pow2_gt(r as nat);
        }
        v = v / 2;
        r = r + 1;
    }
    proof {
        assert(v == 1);
        assert(x as nat == 1 * pow2(r as nat));
        vstd::arithmetic::mul::lemma_mul_basics(pow2(r as nat) as int);
    }
    r
}

/// A power of two exceeds its exponent.
proof fn lemma_pow2_gt(k: nat)
    ensures
        pow2(k) > k,
    decreases k,
{
    if k > 0 {
        lemma_pow2_gt((k - 1) as nat);
    }
}

/// Extends every input table at once and combines the extended values
/// pointwise with the formula: the full formula at the pure binary slots,
/// only its quadratic part at the slots with a digit 2, where the linear
/// part of a multilinear extension vanishes.  The top third of each
/// per-input extension is never stored, as no later slot reads it.
pub fn extend_n_tables<C: QuadFormula>(
    tables: &Vec<Vec<F128>>,
    c: usize,
    trit_mapping: &[u16],
    f: &C,
) -> (r: Vec<F128>)
    requires
        tables@.len() == f.arity(),
        exists|k: nat| tables@[0]@.len() == pow2(k) && k > c,
        forall|z: int| 0 <= z < tables@.len() ==> (#[trigger] tables@[z]@.len()) == tables@[0]@.len(),
        pow3((c + 1) as nat) < 0x8000,
        is_trit_mapping(trit_mapping@, c as nat),
    ensures
        r@.len() == pow3((c + 1) as nat) * (tables@[0]@.len() / pow2((c + 1) as nat)),
        forall|t: int|
            0 <= t < r@.len() ==> #[trigger] r@[t] == (if top_two(
                (t % (pow3((c + 1) as nat) as int)) as nat,
                (c + 1) as nat,
            ) == -1 {
                sadd(
                    f.quad(
                        ext_n_args(
                            views_of(tables@),
                            c as nat,
                            t / (pow3((c + 1) as nat) as int),
                            (t % (pow3((c + 1) as nat) as int)) as nat,
                        ),
                    ),
                    f.lin(
                        ext_n_args(
                            views_of(tables@),
                            c as nat,
                            t / (pow3((c + 1) as nat) as int),
                            (t % (pow3((c + 1) as nat) as int)) as nat,
                        ),
                    ),
                )
            } else {
                f.quad(
                    ext_n_args(
                        views_of(tables@),
                        c as nat,
                        t / (pow3((c + 1) as nat) as int),
                        (t % (pow3((c + 1) as nat) as int)) as nat,
                    ),
                )
            }),
{
    let n = f.num_polys();
    let dims = log2_exact(tables[0].len());
    proof {
        let k = choose|k: nat| tables@[0]@.len() == pow2(k) && k > c;
        lemma_pow2_injective(k, dims as nat);
        lemma_pow2_le_pow3((c + 1) as nat);
        lemma_pow2_monotone(0, (c + 1) as nat);
    }
    let p3: usize = pow3_exec(c + 1);
    let p3c: usize = p3 / 3;
    let pow3_adj: usize = p3c * 2;
    let twoc1: usize = pow2_exec(c + 1);
    let tab_len: usize = tables[0].len();
    let num_chunks: usize = tab_len / twoc1;
    proof {
        assert(p3 as nat == 3 * pow3(c as nat));
        assert(p3c as nat == pow3(c as nat));
        lemma_pow2_adds((dims - c - 1) as nat, (c + 1) as nat);
        vstd::arithmetic::div_mod::lemma_div_multiples_vanish(
            pow2((dims - c - 1) as nat) as int,
            twoc1 as int,
        );
        vstd::arithmetic::mul::lemma_mul_is_commutative(
            pow2((dims - c - 1) as nat) as int,
            twoc1 as int,
        );
        assert(num_chunks * twoc1 == tab_len as int);
    }
    let ghost pp: int = p3 as int;
    let ghost tviews: Seq<Seq<F128>> = views_of(tables@);
    let mut ret: Vec<F128> = Vec::new();
    let mut hi: usize = 0;
    while hi < num_chunks
        invariant
            hi <= num_chunks,
            n as nat == f.arity(),
            n >= 1,
            tables@.len() == n,
            p3 as nat == pow3((c + 1) as nat),
            p3 < 0x8000,
            pp == p3 as int,
            p3c as nat == pow3(c as nat),
            pow3_adj == 2 * p3c,
            p3 == 3 * p3c,
            twoc1 as nat == pow2((c + 1) as nat),
            num_chunks as nat == pow2((dims - c - 1) as nat),
            tab_len == tables@[0]@.len(),
            tab_len as int == num_chunks * twoc1,
            num_chunks * twoc1 <= usize::MAX,
            forall|z: int|
                0 <= z < tables@.len() ==> (#[trigger] tables@[z]@.len()) == tables@[0]@.len(),
            is_trit_mapping(trit_mapping@, c as nat),
            tviews == views_of(tables@),
            ret@.len() == hi * p3,
            forall|t: int|
                0 <= t < ret@.len() ==> #[trigger] ret@[t] == (if top_two(
                    (t % pp) as nat,
                    (c + 1) as nat,
                ) == -1 {
                    sadd(
                        f.quad(ext_n_args(tviews, c as nat, t / pp, (t % pp) as nat)),
                        f.lin(ext_n_args(tviews, c as nat, t / pp, (t % pp) as nat)),
                    )
                } else {
                    f.quad(ext_n_args(tviews, c as nat, t / pp, (t % pp) as nat))
                }),
        decreases num_chunks - hi,
    {
        let mut ext_flat: Vec<F128> = Vec::new();
        let mut j: usize = 0;
        while j < pow3_adj
            invariant
                j <= pow3_adj,
                hi < num_chunks,
                n as nat == f.arity(),
                n >= 1,
                tables@.len() == n,
                p3 as nat == pow3((c + 1) as nat),
                p3 < 0x8000,
                pp == p3 as int,
                p3c as nat == pow3(c as nat),
                pow3_adj == 2 * p3c,
                p3 == 3 * p3c,
                twoc1 as nat == pow2((c + 1) as nat),
                num_chunks as nat == pow2((dims - c - 1) as nat),
                tab_len == tables@[0]@.len(),
                tab_len as int == num_chunks * twoc1,
                num_chunks * twoc1 <= usize::MAX,
                forall|z: int|
                    0 <= z < tables@.len() ==> (#[trigger] tables@[z]@.len()) == tables@[0]@.len(),
                is_trit_mapping(trit_mapping@, c as nat),
                tviews == views_of(tables@),
                ret@.len() == hi * p3 + j,
                ext_flat@.len() == j * n,
                forall|t: int|
                    0 <= t < ext_flat@.len() ==> #[trigger] ext_flat@[t] == table_ext(
                        tviews[t % (n as int)],
                        c as nat,
                        hi as int,
                        (t / (n as int)) as nat,
                    ),
                forall|t: int|
                    0 <= t < ret@.len() ==> #[trigger] ret@[t] == (if top_two(
                        (t % pp) as nat,
                        (c + 1) as nat,
                    ) == -1 {
                        sadd(
                            f.quad(ext_n_args(tviews, c as nat, t / pp, (t % pp) as nat)),
                            f.lin(ext_n_args(tviews, c as nat, t / pp, (t % pp) as nat)),
                        )
                    } else {
                        f.quad(ext_n_args(tviews, c as nat, t / pp, (t % pp) as nat))
                    }),
            decreases pow3_adj - j,
        {
            proof {
                lemma_flat_bound(hi as int, j as int, num_chunks as int, p3 as int);
                vstd::arithmetic::div_mod::lemma_fundamental_div_mod_converse(
                    (hi * p3 + j) as int,
                    pp,
                    hi as int,
                    j as int,
                );
                lemma_flat_bound(j as int, 0, pow3_adj as int, n as int);
            }
            let offset = trit_mapping[j];
            let mut args: Vec<F128> = Vec::new();
            if offset % 2 == 0 {
                proof {
                    lemma_pure_char(j as nat, (c + 1) as nat);
                    let tt = top_two(j as nat, (c + 1) as nat);
                    if tt >= 0 {
                        assert(trit_mapping@[j as int] as nat == pow3(tt as nat));
                        lemma_pow3_odd(tt as nat);
                        assert(false);
                    }
                    assert(trit_mapping@[j as int] as nat == 2 * bin_le(j as nat, (c + 1) as nat));
                    lemma_bin_le_bound(j as nat, (c + 1) as nat);
                    lemma_flat_bound(hi as int, (offset / 2) as int, num_chunks as int, twoc1 as int);
                }
                let idx = hi * twoc1 + (offset / 2) as usize;
                let mut z: usize = 0;
                while z < n
                    invariant
                        z <= n,
                        n >= 1,
                        tables@.len() == n,
                        idx < tab_len,
                        tab_len == tables@[0]@.len(),
                        forall|zz: int|
                            0 <= zz < tables@.len() ==> (#[trigger] tables@[zz]@.len())
                                == tables@[0]@.len(),
                        tviews == views_of(tables@),
                        idx as int == hi * twoc1 + (offset / 2),
                        hi * pow2((c + 1) as nat) + bin_le(j as nat, (c + 1) as nat) == idx as int,
                        top_two(j as nat, (c + 1) as nat) == -1,
                        twoc1 as nat == pow2((c + 1) as nat),
                        args@.len() == z,
                        ext_flat@.len() == j * n + z,
                        forall|t: int|
                            0 <= t < j * n ==> #[trigger] ext_flat@[t] == table_ext(
                                tviews[t % (n as int)],
                                c as nat,
                                hi as int,
                                (t / (n as int)) as nat,
                            ),
                        forall|zz: int|
                            0 <= zz < z ==> #[trigger] ext_flat@[j * n + zz] == table_ext(
                                tviews[zz],
                                c as nat,
                                hi as int,
                                j as nat,
                            ),
                        forall|zz: int|
                            0 <= zz < z ==> #[trigger] args@[zz] == table_ext(
                                tviews[zz],
                                c as nat,
                                hi as int,
                                j as nat,
                            ),
                    decreases n - z,
                {
                    let v = tables[z][idx];
                    ext_flat.push(v);
                    args.push(v);
                    z = z + 1;
                }
                proof {
                    assert(args@ =~= ext_n_args(tviews, c as nat, hi as int, j as nat));
                    assert forall|t: int| 0 <= t < ext_flat@.len() implies #[trigger] ext_flat@[t]
                        == table_ext(
                        tviews[t % (n as int)],
                        c as nat,
                        hi as int,
                        (t / (n as int)) as nat,
                    ) by {
                        if t >= j * n {
                            vstd::arithmetic::div_mod::lemma_fundamental_div_mod_converse(
                                t,
                                n as int,
                                j as int,
                                t - j * n,
                            );
                        }
                    }
                    assert((j + 1) * n == j * n + n) by (nonlinear_arith);
                }
                let rq = f.eval_quad(&args);
                let rl = f.eval_lin(&args);
                ret.push(rq.add(rl));
            } else {
                proof {
                    lemma_pure_char(j as nat, (c + 1) as nat);
                    if top_two(j as nat, (c + 1) as nat) == -1 {
                        assert(trit_mapping@[j as int] as nat == 2 * bin_le(
                            j as nat,
                            (c + 1) as nat,
                        ));
                        assert(false);
                    }
                    assert(trit_mapping@[j as int] as nat == pow3(
                        top_two(j as nat, (c + 1) as nat) as nat,
                    ));
                    let k = top_two(j as nat, (c + 1) as nat) as nat;
                    lemma_top_two_digit(j as nat, (c + 1) as nat);
                    lemma_two_digit_bound(j as nat, k);
                    lemma_pow3_monotone(0, k);
                }
                let off = offset as usize;
                let mut z: usize = 0;
                while z < n
                    invariant
                        z <= n,
                        n >= 1,
                        tables@.len() == n,
                        tviews == views_of(tables@),
                        j < pow3_adj,
                        off as nat == pow3(top_two(j as nat, (c + 1) as nat) as nat),
                        top_two(j as nat, (c + 1) as nat) >= 0,
                        2 * off <= j,
                        off >= 1,
                        args@.len() == z,
                        ext_flat@.len() == j * n + z,
                        forall|t: int|
                            0 <= t < j * n ==> #[trigger] ext_flat@[t] == table_ext(
                                tviews[t % (n as int)],
                                c as nat,
                                hi as int,
                                (t / (n as int)) as nat,
                            ),
                        forall|zz: int|
                            0 <= zz < z ==> #[trigger] ext_flat@[j * n + zz] == table_ext(
                                tviews[zz],
                                c as nat,
                                hi as int,
                                j as nat,
                            ),
                        forall|zz: int|
                            0 <= zz < z ==> #[trigger] args@[zz] == table_ext(
                                tviews[zz],
                                c as nat,
                                hi as int,
                                j as nat,
                            ),
                    decreases n - z,
                {
                    proof {
                        lemma_flat_bound((j - off) as int, z as int, pow3_adj as int, n as int);
                        lemma_flat_bound((j - 2 * off) as int, z as int, pow3_adj as int, n as int);
                        vstd::arithmetic::div_mod::lemma_fundamental_div_mod_converse(
                            ((j - off) * n + z) as int,
                            n as int,
                            (j - off) as int,
                            z as int,
                        );
                        vstd::arithmetic::div_mod::lemma_fundamental_div_mod_converse(
                            ((j - 2 * off) * n + z) as int,
                            n as int,
                            (j - 2 * off) as int,
                            z as int,
                        );
                        assert((j - off) * n + z < j * n) by (nonlinear_arith)
                            requires
                                off >= 1,
                                n >= 1,
                                z < n,
                                off <= j,
                        ;
                        assert((j - 2 * off) * n + z < j * n) by (nonlinear_arith)
                            requires
                                off >= 1,
                                n >= 1,
                                z < n,
                                2 * off <= j,
                        ;
                    }
                    let flen = ext_flat.len();
                    proof {
                        assert(flen as int == j * n + z);
                    }
                    let v = ext_flat[(j - off) * n + z].add(ext_flat[(j - 2 * off) * n + z]);
                    ext_flat.push(v);
                    args.push(v);
                    z = z + 1;
                }
                proof {
                    assert(args@ =~= ext_n_args(tviews, c as nat, hi as int, j as nat));
                    assert forall|t: int| 0 <= t < ext_flat@.len() implies #[trigger] ext_flat@[t]
                        == table_ext(
                        tviews[t % (n as int)],
                        c as nat,
                        hi as int,
                        (t / (n as int)) as nat,
                    ) by {
                        if t >= j * n {
                            vstd::arithmetic::div_mod::lemma_fundamental_div_mod_converse(
                                t,
                                n as int,
                                j as int,
                                t - j * n,
                            );
                        }
                    }
                    assert((j + 1) * n == j * n + n) by (nonlinear_arith);
                }
                let rq = f.eval_quad(&args);
                ret.push(rq);
            }
            j = j + 1;
        }
        while j < p3
            invariant
                pow3_adj <= j <= p3,
                hi < num_chunks,
                n as nat == f.arity(),
                n >= 1,
                tables@.len() == n,
                p3 as nat == pow3((c + 1) as nat),
                p3 < 0x8000,
                pp == p3 as int,
                p3c as nat == pow3(c as nat),
                pow3_adj == 2 * p3c,
                p3 == 3 * p3c,
                num_chunks as nat == pow2((dims - c - 1) as nat),
                is_trit_mapping(trit_mapping@, c as nat),
                tviews == views_of(tables@),
                ret@.len() == hi * p3 + j,
                ext_flat@.len() == pow3_adj * n,
                forall|t: int|
                    0 <= t < ext_flat@.len() ==> #[trigger] ext_flat@[t] == table_ext(
                        tviews[t % (n as int)],
                        c as nat,
                        hi as int,
                        (t / (n as int)) as nat,
                    ),
                forall|t: int|
                    0 <= t < ret@.len() ==> #[trigger] ret@[t] == (if top_two(
                        (t % pp) as nat,
                        (c + 1) as nat,
                    ) == -1 {
                        sadd(
                            f.quad(ext_n_args(tviews, c as nat, t / pp, (t % pp) as nat)),
                            f.lin(ext_n_args(tviews, c as nat, t / pp, (t % pp) as nat)),
                        )
                    } else {
                        f.quad(ext_n_args(tviews, c as nat, t / pp, (t % pp) as nat))
                    }),
            decreases p3 - j,
        {
            proof {
                lemma_flat_bound(hi as int, j as int, num_chunks as int, p3 as int);
                vstd::arithmetic::div_mod::lemma_fundamental_div_mod_converse(
                    (hi * p3 + j) as int,
                    pp,
                    hi as int,
                    j as int,
                );
                lemma_top_third(j as nat, c as nat);
                lemma_two_digit_bound(j as nat, c as nat);
                assert(trit_mapping@[j as int] as nat == pow3(c as nat));
            }
            let offset = trit_mapping[j];
            let off = offset as usize;
            let mut args: Vec<F128> = Vec::new();
            let mut z: usize = 0;
            while z < n
                invariant
                    z <= n,
                    n >= 1,
                    tables@.len() == n,
                    tviews == views_of(tables@),
                    pow3_adj <= j,
                    off as nat == pow3(c as nat),
                    off == p3c,
                    p3c >= 1,
                    pow3_adj == 2 * p3c,
                    p3 == 3 * p3c,
                    j < p3,
                    top_two(j as nat, (c + 1) as nat) == c,
                    args@.len() == z,
                    ext_flat@.len() == pow3_adj * n,
                    forall|t: int|
                        0 <= t < ext_flat@.len() ==> #[trigger] ext_flat@[t] == table_ext(
                            tviews[t % (n as int)],
                            c as nat,
                            hi as int,
                            (t / (n as int)) as nat,
                        ),
                    forall|zz: int|
                        0 <= zz < z ==> #[trigger] args@[zz] == table_ext(
                            tviews[zz],
                            c as nat,
                            hi as int,
                            j as nat,
                        ),
                decreases n - z,
            {
                proof {
                    lemma_flat_bound((j - off) as int, z as int, pow3_adj as int, n as int);
                    lemma_flat_bound((j - 2 * off) as int, z as int, pow3_adj as int, n as int);
                    vstd::arithmetic::div_mod::lemma_fundamental_div_mod_converse(
                        ((j - off) * n + z) as int,
                        n as int,
                        (j - off) as int,
                        z as int,
                    );
                    vstd::arithmetic::div_mod::lemma_fundamental_div_mod_converse(
                        ((j - 2 * off) * n + z) as int,
                        n as int,
                        (j - 2 * off) as int,
                        z as int,
                    );
                }
                let flen = ext_flat.len();
                proof {
                    assert(flen as int == pow3_adj * n);
                }
                let v = ext_flat[(j - off) * n + z].add(ext_flat[(j - 2 * off) * n + z]);
                args.push(v);
                z = z + 1;
            }
            proof {
                assert(args@ =~= ext_n_args(tviews, c as nat, hi as int, j as nat));
            }
            let rq = f.eval_quad(&args);
            ret.push(rq);
            j = j + 1;
        }
        proof {
            assert((hi + 1) * p3 == hi * p3 + p3) by (nonlinear_arith);
        }
        hi = hi + 1;
    }
    proof {
        vstd::arithmetic::mul::lemma_mul_is_commutative(num_chunks as int, p3 as int);
    }
    ret
}

/// Bit `b` of a number, seen through division.
pub open spec fn bit_of(m: nat, b: nat) -> bool {
    (m / pow2(b)) % 2 == 1
}

/// The position of the highest set bit among the low `d` bits, or 0 when
/// there is none.
pub open spec fn top_bit_scan(x: nat, d: nat) -> nat
    decreases d,
{
    if d == 0 {
        0
    } else if bit_of(x, (d - 1) as nat) {
        (d - 1) as nat
    } else {
        top_bit_scan(x, (d - 1) as nat)
    }
}

/// The highest set bit of a positive number below `2^d`: it is set, nothing
/// above it is, and its power does not exceed the number.
proof fn lemma_top_bit_props(x: nat, d: nat)
    requires
        1 <= x < pow2(d),
    ensures
        top_bit_scan(x, d) < d,
        bit_of(x, top_bit_scan(x, d)),
        pow2(top_bit_scan(x, d)) <= x,
        forall|t: nat| top_bit_scan(x, d) < t ==> !bit_of(x, t),
        x - pow2(top_bit_scan(x, d)) < pow2(top_bit_scan(x, d)),
    decreases d,
{
    if d == 0 {
        assert(pow2(0) == 1);
    } else {
        let dd = (d - 1) as nat;
        assert(pow2(d) == 2 * pow2(dd));
        if bit_of(x, dd) {
            assert(x / pow2(dd) < 2) by (nonlinear_arith)
                requires
                    pow2(dd) >= 1,
                    x < 2 * pow2(dd),
            ;
            assert(x / pow2(dd) == 1);
            vstd::arithmetic::div_mod::lemma_fundamental_div_mod(x as int, pow2(dd) as int);
            assert(x == pow2(dd) + x % pow2(dd));
            vstd::arithmetic::div_mod::lemma_mod_bound(x as int, pow2(dd) as int);
            assert forall|t: nat| dd < t implies !bit_of(x, t) by {
                lemma_pow2_monotone(d, t);
                assert(x / pow2(t) == 0) by (nonlinear_arith)
                    requires
                        x < pow2(d),
                        pow2(d) <= pow2(t),
                        pow2(t) >= 1,
                ;
            }
        } else {
            assert(x / pow2(dd) < 2) by (nonlinear_arith)
                requires
                    pow2(dd) >= 1,
                    x < 2 * pow2(dd),
            ;
            assert(x / pow2(dd) == 0);
            assert(x < pow2(dd)) by (nonlinear_arith)
                requires
                    pow2(dd) >= 1,
                    x / pow2(dd) == 0,
            ;
            lemma_top_bit_props(x, dd);
            assert forall|t: nat| top_bit_scan(x, d) < t implies !bit_of(x, t) by {
                if t < d {
                    assert(!bit_of(x, t));
                } else {
                    lemma_pow2_monotone(dd, t);
                    assert(x / pow2(t) == 0) by (nonlinear_arith)
                        requires
                            x < pow2(dd),
                            pow2(dd) <= pow2(t),
                            pow2(t) >= 1,
                    ;
                }
            }
        }
    }
}

/// Splits a byte-range value into its top set bit and the rest: the result
/// is the value with that bit cleared, and the bit's position.
pub fn drop_top_bit(x: usize) -> (r: (usize, usize))
    requires
        1 <= x < 256,
    ensures
        r.1 == top_bit_scan(x as nat, 8),
        r.0 == x - pow2(top_bit_scan(x as nat, 8)),
        r.1 < 8,
{
    proof {
        lemma_pow2_8();
        lemma_top_bit_props(x as nat, 8);
    }
    let mut s: usize = 0;
    let mut i: usize = 0;
    let mut p2i: usize = 1;
    while i < 8
        invariant
            i <= 8,
            p2i as nat == pow2(i as nat),
            1 <= p2i <= 256,
            s == top_bit_scan(x as nat, i as nat),
        decreases 8 - i,
    {
        proof {
            lemma_pow2_monotone((i + 1) as nat, 8);
            lemma_pow2_monotone(0, (i + 1) as nat);
            lemma_pow2_8();
        }
        let bit = (x / p2i) % 2;
        if bit == 1 {
            s = i;
        }
        p2i = p2i * 2;
        i = i + 1;
    }
    let mut ps: usize = 1;
    let mut t: usize = 0;
    while t < s
        invariant
            t <= s,
            s < 8,
            ps as nat == pow2(t as nat),
            ps <= 512,
        decreases s - t,
    {
        proof {
            lemma_pow2_le_512((t + 1) as nat);
        }
        ps = ps * 2;
        t = t + 1;
    }
    (x - ps, s)
}

/// The scan result stays below the bit count.
proof fn lemma_top_bit_scan_range(x: nat, d: nat)
    requires
        d >= 1,
    ensures
        top_bit_scan(x, d) < d,
    decreases d,
{
    if d == 1 {
        assert(top_bit_scan(x, 0) == 0);
    } else if !bit_of(x, (d - 1) as nat) {
        lemma_top_bit_scan_range(x, (d - 1) as nat);
    }
}

/// The sum of the entries of an eight-entry block selected by the set bits
/// of a mask, peeled from the top bit down.
pub open spec fn subset_sum8(vals: Seq<F128>, base: int, m: nat) -> F128
    decreases m,
    via subset_sum8_decreases
{
    if m == 0 {
        zero()
    } else {
        let st = top_bit_scan(m, 8);
        sadd(vals[base + st], subset_sum8(vals, base, (m - pow2(st)) as nat))
    }
}

#[via_fn]
proof fn subset_sum8_decreases(vals: Seq<F128>, base: int, m: nat) {
    if m >= 1 {
        lemma_pow2_8();
        if m < 256 {
            lemma_top_bit_props(m, 8);
            lemma_pow2_monotone(0, top_bit_scan(m, 8));
        } else {
            let st = top_bit_scan(m, 8);
            lemma_top_bit_scan_range(m, 8);
            lemma_pow2_monotone(0, st);
            lemma_pow2_monotone(st, 7);
            lemma_pow2_le_512(7);
        }
    }
}

/// The same sum read off bit by bit from the bottom, over the low `k` bits.
pub open spec fn bitsum8(vals: Seq<F128>, base: int, m: nat, k: nat) -> F128
    decreases k,
{
    if k == 0 {
        zero()
    } else {
        sadd(
            bitsum8(vals, base, m, (k - 1) as nat),
            if bit_of(m, (k - 1) as nat) {
                vals[base + k - 1]
            } else {
                zero()
            },
        )
    }
}

/// Clearing the top set bit leaves every other bit alone.
proof fn lemma_clear_top_bit(m: nat, st: nat, b: nat)
    requires
        bit_of(m, st),
        m < pow2(st + 1),
        b != st,
    ensures
        bit_of((m - pow2(st)) as nat, b) == bit_of(m, b),
{
    lemma_pow2_monotone(0, st);
    lemma_pow2_monotone(0, b);
    vstd::arithmetic::div_mod::lemma_fundamental_div_mod(m as int, pow2(st) as int);
    assert(m / pow2(st) == 1) by (nonlinear_arith)
        requires
            pow2(st) >= 1,
            m < 2 * pow2(st),
            (m / pow2(st)) % 2 == 1,
            m / pow2(st) >= 0,
        ;
    let mp = (m - pow2(st)) as nat;
    assert(mp < pow2(st)) by {
        vstd::arithmetic::div_mod::lemma_mod_bound(m as int, pow2(st) as int);
    }
    if b > st {
        lemma_pow2_monotone(st + 1, b);
        assert(m / pow2(b) == 0) by (nonlinear_arith)
            requires
                m < pow2(st + 1),
                pow2(st + 1) <= pow2(b),
                pow2(b) >= 1,
        ;
        assert(mp / pow2(b) == 0) by (nonlinear_arith)
            requires
                mp < pow2(st),
                pow2(st) < pow2(st + 1),
                pow2(st + 1) <= pow2(b),
                pow2(b) >= 1,
        ;
    } else {
        // b < st: subtracting the top bit leaves the low bits untouched
        lemma_pow2_adds((st - b) as nat, b);
        vstd::arithmetic::div_mod::lemma_hoist_over_denominator(
            mp as int,
            pow2((st - b) as nat) as int,
            pow2(b) as nat,
        );
        assert(m / pow2(b) == mp / pow2(b) + pow2((st - b) as nat));
        assert(pow2((st - b) as nat) == 2 * pow2((st - b - 1) as nat));
        vstd::arithmetic::div_mod::lemma_mod_multiples_vanish(
            pow2((st - b - 1) as nat) as int,
            (mp / pow2(b)) as int,
            2,
        );
    }
}

/// The small powers of two.
proof fn lemma_pow2_small()
    ensures
        pow2(0) == 1,
        pow2(1) == 2,
        pow2(2) == 4,
        pow2(3) == 8,
        pow2(4) == 16,
{
    assert(pow2(0) == 1);
    assert(pow2(1) == 2);
    assert(pow2(2) == 4);
    assert(pow2(3) == 8);
    assert(pow2(4) == 16);
}

/// `2^8` is 256.
proof fn lemma_pow2_8()
    ensures
        pow2(8) == 256,
{
    assert(pow2(0) == 1);
    assert(pow2(1) == 2);
    assert(pow2(2) == 4);
    assert(pow2(3) == 8);
    assert(pow2(4) == 16);
    assert(pow2(5) == 32);
    assert(pow2(6) == 64);
    assert(pow2(7) == 128);
    assert(pow2(8) == 256);
}

/// A zero mask selects nothing.
proof fn lemma_bitsum_zero(vals: Seq<F128>, base: int, k: nat)
    ensures
        bitsum8(vals, base, 0, k) == zero(),
    decreases k,
{
    if k > 0 {
        lemma_bitsum_zero(vals, base, (k - 1) as nat);
        lemma_pow2_monotone(0, (k - 1) as nat);
        assert(!bit_of(0, (k - 1) as nat)) by {
            assert(0nat / pow2((k - 1) as nat) == 0) by (nonlinear_arith)
                requires
                    pow2((k - 1) as nat) >= 1,
            ;
        }
        crate::field::lemma_sadd_basics(zero(), zero(), zero());
    }
}

/// Removing the top set bit removes exactly its term from the bit-by-bit
/// sum.
proof fn lemma_bitsum_insert(vals: Seq<F128>, base: int, m: nat, st: nat, k: nat)
    requires
        bit_of(m, st),
        m < pow2(st + 1),
    ensures
        bitsum8(vals, base, m, k) == (if st < k {
            sadd(vals[base + st], bitsum8(vals, base, (m - pow2(st)) as nat, k))
        } else {
            bitsum8(vals, base, (m - pow2(st)) as nat, k)
        }),
    decreases k,
{
    lemma_pow2_monotone(0, st);
    let mp = (m - pow2(st)) as nat;
    if k == 0 {
    } else {
        let kk = (k - 1) as nat;
        lemma_bitsum_insert(vals, base, m, st, kk);
        if kk != st {
            lemma_clear_top_bit(m, st, kk);
            assert(bit_of(mp, kk) == bit_of(m, kk));
            if st < kk {
                // move the inserted term across the new last summand
                let e = vals[base + st];
                let w = bitsum8(vals, base, mp, kk);
                let t = if bit_of(m, kk) {
                    vals[base + kk]
                } else {
                    zero()
                };
                crate::field::lemma_sadd_basics(e, w, t);
                crate::field::lemma_sadd_basics(w, t, e);
                crate::field::lemma_sadd_basics(w, e, t);
                assert(sadd(sadd(e, w), t) == sadd(e, sadd(w, t)));
            }
        } else {
            // the last summand is the inserted bit itself
            assert(st < k);
            assert(bit_of(m, st));
            assert(!bit_of(mp, st)) by {
                vstd::arithmetic::div_mod::lemma_fundamental_div_mod(m as int, pow2(st) as int);
                assert(m / pow2(st) == 1) by (nonlinear_arith)
                    requires
                        pow2(st) >= 1,
                        m < 2 * pow2(st),
                        (m / pow2(st)) % 2 == 1,
                        m / pow2(st) >= 0,
                ;
                vstd::arithmetic::div_mod::lemma_mod_bound(m as int, pow2(st) as int);
                assert(mp < pow2(st));
                assert(mp / pow2(st) == 0) by (nonlinear_arith)
                    requires
                        mp < pow2(st),
                        pow2(st) >= 1,
                ;
            }
            let w = bitsum8(vals, base, m, kk);
            let e = vals[base + st];
            crate::field::lemma_sadd_basics(w, e, e);
            crate::field::lemma_sadd_basics(e, w, e);
            crate::field::lemma_sadd_basics(bitsum8(vals, base, mp, kk), zero(), zero());
        }
    }
}

/// The table entry built from the top bit down equals the sum read off bit
/// by bit from the bottom.
proof fn lemma_subset_is_bitsum(vals: Seq<F128>, base: int, m: nat)
    requires
        m < 256,
    ensures
        subset_sum8(vals, base, m) == bitsum8(vals, base, m, 8),
    decreases m,
{
    lemma_pow2_8();
    if m == 0 {
        lemma_bitsum_zero(vals, base, 8);
    } else {
        lemma_top_bit_props(m, 8);
        let st = top_bit_scan(m, 8);
        assert(m < pow2(st + 1)) by {
            lemma_bits_above_clear(m, st, 8);
        }
        lemma_subset_is_bitsum(vals, base, (m - pow2(st)) as nat);
        lemma_bitsum_insert(vals, base, m, st, 8);
    }
}

/// A number below `2^d` whose bits above `s` are all clear is below
/// `2^(s+1)`.
proof fn lemma_bits_above_clear(m: nat, s: nat, d: nat)
    requires
        m < pow2(d),
        s < d,
        forall|t: nat| s < t ==> !bit_of(m, t),
    ensures
        m < pow2(s + 1),
    decreases d,
{
    if s + 1 == d {
    } else {
        assert(!bit_of(m, (d - 1) as nat));
        assert(pow2(d) == 2 * pow2((d - 1) as nat));
        assert(m / pow2((d - 1) as nat) < 2) by (nonlinear_arith)
            requires
                pow2((d - 1) as nat) >= 1,
                m < 2 * pow2((d - 1) as nat),
        ;
        assert(m / pow2((d - 1) as nat) == 0);
        assert(m < pow2((d - 1) as nat)) by (nonlinear_arith)
            requires
                pow2((d - 1) as nat) >= 1,
                m / pow2((d - 1) as nat) == 0,
        ;
        lemma_pow2_monotone(0, (d - 1) as nat);
        lemma_bits_above_clear(m, s, (d - 1) as nat);
    }
}

/// For each aligned block of eight entries, the 256 sums of every subset of
/// the block, indexed by the bit mask of the subset.
pub fn byte_sums(vals: &[F128]) -> (r: Vec<F128>)
    requires
        vals@.len() % 8 == 0,
    ensures
        r@.len() == 32 * vals@.len(),
        forall|t: int|
            0 <= t < r@.len() ==> #[trigger] r@[t] == subset_sum8(
                vals@,
                8 * (t / 256),
                (t % 256) as nat,
            ),
{
    let nb = vals.len() / 8;
    let vlen = vals.len();
    let mut r: Vec<F128> = Vec::new();
    let mut bl: usize = 0;
    while bl < nb
        invariant
            bl <= nb,
            nb == vals@.len() / 8,
            vals@.len() == 8 * nb,
            vlen == vals@.len(),
            r@.len() == bl * 256,
            forall|t: int|
                0 <= t < r@.len() ==> #[trigger] r@[t] == subset_sum8(
                    vals@,
                    8 * (t / 256),
                    (t % 256) as nat,
                ),
        decreases nb - bl,
    {
        proof {
            lemma_flat_bound(bl as int, 0, nb as int, 256);
            vstd::arithmetic::div_mod::lemma_fundamental_div_mod_converse(
                (bl * 256) as int,
                256,
                bl as int,
                0,
            );
        }
        r.push(F128::zero());
        let mut m: usize = 1;
        while m < 256
            invariant
                1 <= m <= 256,
                bl < nb,
                nb == vals@.len() / 8,
                vals@.len() == 8 * nb,
                vlen == vals@.len(),
                r@.len() == bl * 256 + m,
                forall|t: int|
                    0 <= t < r@.len() ==> #[trigger] r@[t] == subset_sum8(
                        vals@,
                        8 * (t / 256),
                        (t % 256) as nat,
                    ),
            decreases 256 - m,
        {
            proof {
                lemma_flat_bound(bl as int, m as int, nb as int, 256);
                vstd::arithmetic::div_mod::lemma_fundamental_div_mod_converse(
                    (bl * 256 + m) as int,
                    256,
                    bl as int,
                    m as int,
                );
                lemma_pow2_8();
                lemma_top_bit_props(m as nat, 8);
                vstd::arithmetic::div_mod::lemma_fundamental_div_mod_converse(
                    (bl * 256 + (m - pow2(top_bit_scan(m as nat, 8)))) as int,
                    256,
                    bl as int,
                    (m - pow2(top_bit_scan(m as nat, 8))) as int,
                );
                lemma_flat_bound(bl as int, 7, nb as int, 8);
                vstd::arithmetic::mul::lemma_mul_is_commutative(nb as int, 8);
                lemma_pow2_monotone(0, top_bit_scan(m as nat, 8));
            }
            let dtb = drop_top_bit(m);
            let rlen = r.len();
            proof {
                assert(rlen as int == bl * 256 + m);
            }
            let tmp = vals[bl * 8 + dtb.1].add(r[bl * 256 + dtb.0]);
            r.push(tmp);
            m = m + 1;
        }
        proof {
            assert((bl + 1) * 256 == bl * 256 + 256) by (nonlinear_arith);
        }
        bl = bl + 1;
    }
    proof {
        assert(nb * 256 == 32 * (8 * nb)) by (nonlinear_arith);
    }
    r
}

/// Coordinate `r` of a field element: bit `r` of its raw word.
pub open spec fn coord(v: F128, r: int) -> bool {
    (v.0 >> (r as u128)) & 1u128 == 1u128
}

/// Byte `s` of the little-endian byte view of a field element.
pub open spec fn byte_of(v: F128, s: int) -> u8 {
    (v.0 >> ((8 * s) as u128)) as u8
}

/// The partial restriction sum of one coordinate slice: the XOR over
/// `x in [lo, hi)` of `eqt[x]` wherever coordinate `row` of
/// `poly[shift + x]` is set.
pub open spec fn restrict_range(
    poly: Seq<F128>,
    eqt: Seq<F128>,
    shift: int,
    lo: int,
    hi: int,
    row: int,
) -> F128
    decreases hi - lo,
{
    if hi <= lo {
        zero()
    } else {
        sadd(
            restrict_range(poly, eqt, shift, lo, hi - 1, row),
            if coord(poly[shift + hi - 1], row) {
                eqt[hi - 1]
            } else {
                zero()
            },
        )
    }
}

/// One full cell of the restriction output: the dot product of the equality
/// table with coordinate `row` of chunk `i` of the polynomial.
pub open spec fn restrict_cell(poly: Seq<F128>, eqt: Seq<F128>, i: int, row: int) -> F128 {
    restrict_range(poly, eqt, i * eqt.len(), 0, eqt.len() as int, row)
}

/// The whole flat restriction output, read at flat index `t`: the rows of
/// the 128 coordinate slices of every polynomial, each row holding one value
/// per chunk.
pub open spec fn restrict_spec(polys: Seq<Seq<F128>>, coords: Seq<F128>, t: int) -> F128 {
    let nc = polys[0].len() as int / (pow2(coords.len()) as int);
    restrict_cell(polys[(t / nc) / 128], eq_table(coords), t % nc, (t / nc) % 128)
}

/// A restriction sum over a range splits at any midpoint.
proof fn lemma_restrict_split(
    poly: Seq<F128>,
    eqt: Seq<F128>,
    shift: int,
    lo: int,
    mid: int,
    hi: int,
    row: int,
)
    requires
        lo <= mid <= hi,
    ensures
        restrict_range(poly, eqt, shift, lo, hi, row) == sadd(
            restrict_range(poly, eqt, shift, lo, mid, row),
            restrict_range(poly, eqt, shift, mid, hi, row),
        ),
    decreases hi - mid,
{
    if hi == mid {
        crate::field::lemma_sadd_basics(
            restrict_range(poly, eqt, shift, lo, mid, row),
            zero(),
            zero(),
        );
    } else {
        lemma_restrict_split(poly, eqt, shift, lo, mid, hi - 1, row);
        let a = restrict_range(poly, eqt, shift, lo, mid, row);
        let b = restrict_range(poly, eqt, shift, mid, hi - 1, row);
        let t = if coord(poly[shift + hi - 1], row) {
            eqt[hi - 1]
        } else {
            zero()
        };
        crate::field::lemma_sadd_basics(a, b, t);
    }
}

/// A bit-by-bit mask sum is a restriction sum when the mask bits agree with
/// the coordinate bits.
proof fn lemma_bitsum_is_range(
    poly: Seq<F128>,
    eqt: Seq<F128>,
    shift: int,
    base: int,
    mask: nat,
    row: int,
    k: nat,
)
    requires
        forall|b: nat| b < k ==> #[trigger] bit_of(mask, b) == coord(poly[shift + base + b], row),
    ensures
        bitsum8(eqt, base, mask, k) == restrict_range(poly, eqt, shift, base, base + k, row),
    decreases k,
{
    if k > 0 {
        lemma_bitsum_is_range(poly, eqt, shift, base, mask, row, (k - 1) as nat);
        assert(bit_of(mask, (k - 1) as nat) == coord(poly[shift + base + k - 1], row));
    }
}

/// The two spec powers of two agree with the vstd definition.
proof fn lemma_pow2_agrees(k: nat)
    ensures
        pow2(k) == vstd::arithmetic::power2::pow2(k),
    decreases k,
{
    if k == 0 {
        assert(vstd::arithmetic::power2::pow2(0) == 1) by {
            vstd::arithmetic::power2::lemma2_to64();
        }
    } else {
        lemma_pow2_agrees((k - 1) as nat);
        vstd::arithmetic::power2::lemma_pow2_unfold(k);
    }
}

/// The low and high byte masks of a 16-bit word keep its bits, read through
/// the division view of bits.
proof fn lemma_mask_bits(bits: u16, b: u16)
    requires
        b < 8,
    ensures
        bit_of(((bits & 255) as usize) as nat, b as nat) == crate::backend::bit_u16(bits, b as nat),
        bit_of(((bits >> 8) as usize) as nat, b as nat) == crate::backend::bit_u16(
            bits,
            (8 + b) as nat,
        ),
        (bits & 255) < 256,
        (bits >> 8) < 256,
{
    let lo: u16 = bits & 255;
    let hi: u16 = bits >> 8;
    assert(lo < 256 && hi < 256) by (bit_vector)
        requires
            lo == bits & 255,
            hi == bits >> 8,
    ;
    assert((lo >> b) & 1u16 == (bits >> b) & 1u16) by (bit_vector)
        requires
            b < 8,
            lo == bits & 255,
    ;
    assert((hi >> b) & 1u16 == (bits >> (8 + b) as u16) & 1u16) by (bit_vector)
        requires
            b < 8,
            hi == bits >> 8,
    ;
    vstd::bits::lemma_u16_shr_is_div(lo, b);
    vstd::bits::lemma_u16_shr_is_div(hi, b);
    lemma_pow2_agrees(b as nat);
    assert(((lo >> b) & 1u16 == 1u16) <==> ((lo >> b) % 2 == 1)) by (bit_vector);
    assert(((hi >> b) & 1u16 == 1u16) <==> ((hi >> b) % 2 == 1)) by (bit_vector);
    assert((lo as nat / pow2(b as nat)) % 2 == (lo >> b) % 2);
    assert((hi as nat / pow2(b as nat)) % 2 == (hi >> b) % 2);
}

/// Bit `b` of byte `s` of a field element is coordinate `8 s + b`.
proof fn lemma_byte_coord(x: u128, sb: u128, b: u128)
    by (bit_vector)
    requires
        sb < 16,
        b < 8,
    ensures
        (((x >> (8 * sb)) as u8 >> (b as u8)) & 1u8 == 1u8) <==> ((x >> (8 * sb + b)) & 1u128
            == 1u128),
{
}

/// Shifting a lane byte left by one moves every bit up: bit `v` of the
/// shifted byte is bit `v - 1` of the original, for `v` at least one,
/// whatever carry enters at the bottom.
proof fn lemma_slli_bit(a: u8, carry: u8, v: u8)
    by (bit_vector)
    requires
        1 <= v < 8,
        carry <= 1,
    ensures
        ((((a << 1u8) | carry) >> v) & 1u8 == 1u8) <==> ((a >> (v - 1) as u8) & 1u8 == 1u8),
{
}

/// The carry byte contributed by `v_slli_epi64` is at most one.
proof fn lemma_carry_small(c: u8)
    by (bit_vector)
    ensures
        (c >> 7u8) <= 1,
{
}

/// Computes the 128 coordinate-row values of one chunk of one polynomial:
/// entry `row` is the dot product of the equality table with the bits of
/// coordinate `row` over the chunk.
fn restrict_chunk(
    poly: &[F128],
    eq_sums: &Vec<F128>,
    i: usize,
    chunk_size: usize,
    Ghost(eqt): Ghost<Seq<F128>>,
) -> (r: Vec<F128>)
    requires
        eqt.len() == chunk_size,
        chunk_size % 16 == 0,
        chunk_size >= 16,
        eq_sums@.len() == 32 * chunk_size,
        forall|t: int|
            0 <= t < eq_sums@.len() ==> #[trigger] eq_sums@[t] == subset_sum8(
                eqt,
                8 * (t / 256),
                (t % 256) as nat,
            ),
        (i + 1) * chunk_size <= poly@.len(),
    ensures
        r@.len() == 128,
        forall|row: int|
            0 <= row < 128 ==> #[trigger] r@[row] == restrict_range(
                poly@,
                eqt,
                i * chunk_size,
                0,
                chunk_size as int,
                row,
            ),
{
    let plen = poly.len();
    proof {
        vstd::arithmetic::mul::lemma_mul_inequality(i as int, i as int + 1, chunk_size as int);
    }
    let shift = i * chunk_size;
    let nw = chunk_size / 16;
    let mut accs: Vec<F128> = Vec::new();
    let mut z: usize = 0;
    while z < 128
        invariant
            z <= 128,
            accs@.len() == z,
            forall|row: int| 0 <= row < z ==> #[trigger] accs@[row] == zero(),
        decreases 128 - z,
    {
        accs.push(F128::zero());
        z = z + 1;
    }
    proof {
        assert(chunk_size == 16 * nw);
        assert forall|row: int| 0 <= row < 128 implies #[trigger] accs@[row] == restrict_range(
            poly@,
            eqt,
            shift as int,
            0,
            0,
            row,
        ) by {}
    }
    let mut j: usize = 0;
    while j < nw
        invariant
            j <= nw,
            accs@.len() == 128,
            chunk_size == 16 * nw,
            chunk_size >= 16,
            eqt.len() == chunk_size,
            eq_sums@.len() == 32 * chunk_size,
            forall|t: int|
                0 <= t < eq_sums@.len() ==> #[trigger] eq_sums@[t] == subset_sum8(
                    eqt,
                    8 * (t / 256),
                    (t % 256) as nat,
                ),
            shift == i * chunk_size,
            (i + 1) * chunk_size <= poly@.len(),
            plen == poly@.len(),
            forall|row: int|
                0 <= row < 128 ==> #[trigger] accs@[row] == restrict_range(
                    poly@,
                    eqt,
                    shift as int,
                    0,
                    16 * j,
                    row,
                ),
        decreases nw - j,
    {
        proof {
            assert(j * 16 + 16 <= chunk_size) by (nonlinear_arith)
                requires
                    j < nw,
                    chunk_size == 16 * nw,
            ;
            assert(shift + j * 16 + 16 <= poly@.len()) by (nonlinear_arith)
                requires
                    shift == i * chunk_size,
                    j * 16 + 16 <= chunk_size,
                    (i + 1) * chunk_size <= poly@.len(),
                    i >= 0,
                    chunk_size >= 0,
            ;
        }
        let base = shift + j * 16;
        let mut s: usize = 0;
        while s < 16
            invariant
                s <= 16,
                j < nw,
                accs@.len() == 128,
                chunk_size == 16 * nw,
                chunk_size >= 16,
                eqt.len() == chunk_size,
                eq_sums@.len() == 32 * chunk_size,
                forall|t: int|
                    0 <= t < eq_sums@.len() ==> #[trigger] eq_sums@[t] == subset_sum8(
                        eqt,
                        8 * (t / 256),
                        (t % 256) as nat,
                    ),
                shift == i * chunk_size,
                base == shift + j * 16,
                base + 16 <= poly@.len(),
                plen == poly@.len(),
                16 * j + 16 <= chunk_size,
                forall|row: int|
                    0 <= row < 128 && row < 8 * s ==> #[trigger] accs@[row] == restrict_range(
                        poly@,
                        eqt,
                        shift as int,
                        0,
                        16 * j + 16,
                        row,
                    ),
                forall|row: int|
                    8 * s <= row < 128 ==> #[trigger] accs@[row] == restrict_range(
                        poly@,
                        eqt,
                        shift as int,
                        0,
                        16 * j,
                        row,
                    ),
            decreases 16 - s,
        {
            let sh: u128 = (8 * s) as u128;
            let mut t: [u8; 16] = [
                (poly[base + 0].0 >> sh) as u8,
                (poly[base + 1].0 >> sh) as u8,
                (poly[base + 2].0 >> sh) as u8,
                (poly[base + 3].0 >> sh) as u8,
                (poly[base + 4].0 >> sh) as u8,
                (poly[base + 5].0 >> sh) as u8,
                (poly[base + 6].0 >> sh) as u8,
                (poly[base + 7].0 >> sh) as u8,
                (poly[base + 8].0 >> sh) as u8,
                (poly[base + 9].0 >> sh) as u8,
                (poly[base + 10].0 >> sh) as u8,
                (poly[base + 11].0 >> sh) as u8,
                (poly[base + 12].0 >> sh) as u8,
                (poly[base + 13].0 >> sh) as u8,
                (poly[base + 14].0 >> sh) as u8,
                (poly[base + 15].0 >> sh) as u8,
            ];
            proof {
                assert forall|k: int, v: nat|
                    0 <= k < 16 && v < 8 implies #[trigger] crate::backend::bit_u8(t@[k], v)
                    == coord(poly@[base + k], 8 * (s as int) + v) by {
                    lemma_byte_coord(poly@[base + k].0, s as u128, v as u128);
                }
            }
            let mut u: usize = 0;
            while u < 8
                invariant
                    u <= 8,
                    s < 16,
                    j < nw,
                    accs@.len() == 128,
                    chunk_size == 16 * nw,
                    chunk_size >= 16,
                    eqt.len() == chunk_size,
                    eq_sums@.len() == 32 * chunk_size,
                    forall|tt: int|
                        0 <= tt < eq_sums@.len() ==> #[trigger] eq_sums@[tt] == subset_sum8(
                            eqt,
                            8 * (tt / 256),
                            (tt % 256) as nat,
                        ),
                    shift == i * chunk_size,
                    base == shift + j * 16,
                    base + 16 <= poly@.len(),
                    plen == poly@.len(),
                    16 * j + 16 <= chunk_size,
                    forall|k: int, v: nat|
                        0 <= k < 16 && u <= v < 8 ==> #[trigger] crate::backend::bit_u8(t@[k], v)
                            == coord(poly@[base + k], 8 * (s as int) + v - u),
                    forall|row: int|
                        0 <= row < 128 && row < 8 * s ==> #[trigger] accs@[row] == restrict_range(
                            poly@,
                            eqt,
                            shift as int,
                            0,
                            16 * j + 16,
                            row,
                        ),
                    forall|row: int|
                        8 * s + 8 - u <= row < 8 * s + 8 ==> #[trigger] accs@[row]
                            == restrict_range(poly@, eqt, shift as int, 0, 16 * j + 16, row),
                    forall|row: int|
                        8 * s <= row < 8 * s + 8 - u ==> #[trigger] accs@[row] == restrict_range(
                            poly@,
                            eqt,
                            shift as int,
                            0,
                            16 * j,
                            row,
                        ),
                    forall|row: int|
                        8 * s + 8 <= row < 128 ==> #[trigger] accs@[row] == restrict_range(
                            poly@,
                            eqt,
                            shift as int,
                            0,
                            16 * j,
                            row,
                        ),
                decreases 8 - u,
            {
                let bits = crate::backend::v_movemask_epi8(t);
                let lo = (bits & 255) as usize;
                let hi8 = (bits >> 8u16) as usize;
                let row = s * 8 + 7 - u;
                let eslen = eq_sums.len();
                proof {
                    lemma_mask_bits(bits, 0);
                    assert(j * 512 + 256 + hi8 < 32 * chunk_size) by (nonlinear_arith)
                        requires
                            lo < 256,
                            hi8 < 256,
                            16 * j + 16 <= chunk_size,
                    ;
                    assert(j * 512 + lo < 32 * chunk_size) by (nonlinear_arith)
                        requires
                            lo < 256,
                            16 * j + 16 <= chunk_size,
                    ;
                    assert(eslen as int == 32 * chunk_size);
                }
                let idx0 = j * 512 + lo;
                let idx1 = j * 512 + 256 + hi8;
                proof {
                    lemma_mask_bits(bits, 0);
                    assert(lo < 256 && hi8 < 256);
                    assert(idx0 < 32 * chunk_size && idx1 < 32 * chunk_size) by (nonlinear_arith)
                        requires
                            idx0 == j * 512 + lo,
                            idx1 == j * 512 + 256 + hi8,
                            lo < 256,
                            hi8 < 256,
                            16 * j + 16 <= chunk_size,
                    ;
                    vstd::arithmetic::div_mod::lemma_fundamental_div_mod_converse(
                        idx0 as int,
                        256,
                        2 * j as int,
                        lo as int,
                    );
                    vstd::arithmetic::div_mod::lemma_fundamental_div_mod_converse(
                        idx1 as int,
                        256,
                        2 * j as int + 1,
                        hi8 as int,
                    );
                    // the two table entries are the window's half sums
                    lemma_subset_is_bitsum(eqt, 8 * (2 * j as int), lo as nat);
                    lemma_subset_is_bitsum(eqt, 8 * (2 * j as int) + 8, hi8 as nat);
                }
                let v0 = eq_sums[idx0];
                let v1 = eq_sums[idx1];
                let cur = accs[row];
                accs.set(row, cur.add(v0).add(v1));
                proof {
                    let rowi = row as int;
                    // mask bits match the coordinate bits of the window
                    assert forall|b: nat| b < 8 implies #[trigger] bit_of(lo as nat, b) == coord(
                        poly@[shift + 16 * j + b],
                        rowi,
                    ) by {
                        lemma_mask_bits(bits, b as u16);
                        assert(crate::backend::bit_u16(bits, b) == crate::backend::bit_u8(
                            t@[b as int],
                            7,
                        ));
                        assert(crate::backend::bit_u8(t@[b as int], 7) == coord(
                            poly@[base + b],
                            8 * (s as int) + 7 - u,
                        ));
                    }
                    assert forall|b: nat| b < 8 implies #[trigger] bit_of(hi8 as nat, b) == coord(
                        poly@[shift + 16 * j + 8 + b],
                        rowi,
                    ) by {
                        lemma_mask_bits(bits, b as u16);
                        assert(crate::backend::bit_u16(bits, 8 + b) == crate::backend::bit_u8(
                            t@[8 + b as int],
                            7,
                        ));
                    }
                    lemma_bitsum_is_range(poly@, eqt, shift as int, 16 * j as int, lo as nat, rowi, 8);
                    lemma_bitsum_is_range(
                        poly@,
                        eqt,
                        shift as int,
                        16 * j as int + 8,
                        hi8 as nat,
                        rowi,
                        8,
                    );
                    lemma_restrict_split(poly@, eqt, shift as int, 0, 16 * j as int, 16 * j as int + 8, rowi);
                    lemma_restrict_split(
                        poly@,
                        eqt,
                        shift as int,
                        0,
                        16 * j as int + 8,
                        16 * j as int + 16,
                        rowi,
                    );
                }
                let t2 = crate::backend::v_slli_epi64(t);
                proof {
                    assert forall|k: int, v: nat|
                        0 <= k < 16 && u + 1 <= v < 8 implies #[trigger] crate::backend::bit_u8(
                        t2@[k],
                        v,
                    ) == coord(poly@[base + k], 8 * (s as int) + v - (u + 1)) by {
                        if k % 8 == 0 {
                            let tk = t@[k];
                            lemma_slli_bit(tk, 0, v as u8);
                            assert(t2@[k] == tk << 1u8);
                            assert((tk << 1u8) | 0u8 == tk << 1u8) by (bit_vector);
                        } else {
                            lemma_carry_small(t@[k - 1]);
                            lemma_slli_bit(t@[k], t@[k - 1] >> 7u8, v as u8);
                        }
                        assert(crate::backend::bit_u8(t@[k], (v - 1) as nat) == coord(
                            poly@[base + k],
                            8 * (s as int) + (v - 1) - u,
                        ));
                    }
                }
                t = t2;
                u = u + 1;
            }
            s = s + 1;
        }
        j = j + 1;
    }
    accs
}

/// The bit-sliced restrictor: returns, in one flat array, the restriction
/// of each of the 128 coordinate slices of each input polynomial to the
/// sub-cube where the first `|coords|` variables take the values `coords`.
/// Row `q * 128 + row` holds, chunk by chunk, the dot products of the
/// equality table of `coords` with coordinate `row` of polynomial `q`.
pub fn restrict(polys: &Vec<Vec<F128>>, coords: &[F128], dims: usize) -> (r: Vec<F128>)
    requires
        polys@.len() >= 1,
        forall|z: int| 0 <= z < polys@.len() ==> (#[trigger] polys@[z]@.len()) == pow2(dims as nat),
        4 <= coords@.len(),
        coords@.len() <= dims,
        polys@.len() * (128 * (pow2(dims as nat) / pow2(coords@.len()))) <= usize::MAX,
    ensures
        r@.len() == polys@.len() * (128 * (pow2(dims as nat) / pow2(coords@.len()))),
        forall|t: int|
            0 <= t < r@.len() ==> #[trigger] r@[t] == restrict_spec(views_of(polys@), coords@, t),
{
    let n = polys.len();
    let cl = coords.len();
    let plen = polys[0].len();
    proof {
        lemma_pow2_monotone(cl as nat, dims as nat);
        lemma_pow2_monotone(0, cl as nat);
        lemma_pow2_small();
    }
    let chunk_size = pow2_exec(cl);
    let num_chunks = plen / chunk_size;
    proof {
        lemma_pow2_adds((dims - cl) as nat, cl as nat);
        vstd::arithmetic::div_mod::lemma_div_multiples_vanish(
            pow2((dims - cl) as nat) as int,
            chunk_size as int,
        );
        vstd::arithmetic::mul::lemma_mul_is_commutative(
            pow2((dims - cl) as nat) as int,
            chunk_size as int,
        );
        assert(num_chunks * chunk_size == plen as int);
        assert(chunk_size as nat % 8 == 0) by {
            lemma_pow2_adds((cl - 3) as nat, 3);
            assert(pow2(3) == 8);
            vstd::arithmetic::div_mod::lemma_mod_multiples_vanish(
                pow2((cl - 3) as nat) as int,
                0,
                8,
            );
            vstd::arithmetic::mul::lemma_mul_is_commutative(pow2((cl - 3) as nat) as int, 8);
        }
        assert(chunk_size as nat % 16 == 0) by {
            lemma_pow2_adds((cl - 4) as nat, 4);
            assert(pow2(4) == 16);
            vstd::arithmetic::div_mod::lemma_mod_multiples_vanish(
                pow2((cl - 4) as nat) as int,
                0,
                16,
            );
            vstd::arithmetic::mul::lemma_mul_is_commutative(pow2((cl - 4) as nat) as int, 16);
        }
        assert(pow2(4) <= chunk_size) by {
            lemma_pow2_monotone(4, cl as nat);
        }
        assert(pow2(4) == 16);
    }
    let eq = eq_poly(coords);
    let eq_sums = byte_sums(eq.as_slice());
    proof {
        assert(num_chunks as int == pow2(dims as nat) / pow2(cl as nat));
        lemma_pow2_monotone(0, (dims - cl) as nat);
        assert(n * (128 * num_chunks) <= usize::MAX);
        vstd::arithmetic::mul::lemma_mul_inequality(1, n as int, (128 * num_chunks) as int);
        vstd::arithmetic::mul::lemma_mul_is_commutative(n as int, (128 * num_chunks) as int);
    }
    let total: usize = 128 * num_chunks;
    let total_all: usize = n * total;
    let mut ret: Vec<F128> = Vec::new();
    let mut z: usize = 0;
    while z < total_all
        invariant
            z <= total_all,
            ret@.len() == z,
        decreases total_all - z,
    {
        ret.push(F128::zero());
        z = z + 1;
    }
    let ghost nc: int = num_chunks as int;
    let ghost tviews: Seq<Seq<F128>> = views_of(polys@);
    let mut q: usize = 0;
    while q < n
        invariant
            q <= n,
            n == polys@.len(),
            tviews == views_of(polys@),
            nc == num_chunks as int,
            num_chunks as nat == pow2((dims - cl) as nat),
            num_chunks as int == pow2(dims as nat) / pow2(coords@.len()),
            num_chunks >= 1,
            chunk_size as nat == pow2(cl as nat),
            cl == coords@.len(),
            chunk_size >= 16,
            chunk_size % 16 == 0,
            forall|zz: int|
                0 <= zz < polys@.len() ==> (#[trigger] polys@[zz]@.len()) == pow2(dims as nat),
            plen as int == num_chunks * chunk_size,
            plen as nat == pow2(dims as nat),
            eq@ == eq_table(coords@),
            eq@.len() == chunk_size,
            eq_sums@.len() == 32 * chunk_size,
            forall|t: int|
                0 <= t < eq_sums@.len() ==> #[trigger] eq_sums@[t] == subset_sum8(
                    eq@,
                    8 * (t / 256),
                    (t % 256) as nat,
                ),
            total == 128 * num_chunks,
            total_all as int == n * total,
            ret@.len() == total_all,
            forall|t: int|
                0 <= t < ret@.len() && (t / nc) / 128 < q ==> #[trigger] ret@[t] == restrict_spec(
                    tviews,
                    coords@,
                    t,
                ),
        decreases n - q,
    {
        let mut i: usize = 0;
        while i < num_chunks
            invariant
                i <= num_chunks,
                q < n,
                n == polys@.len(),
                tviews == views_of(polys@),
                nc == num_chunks as int,
                num_chunks as nat == pow2((dims - cl) as nat),
                num_chunks as int == pow2(dims as nat) / pow2(coords@.len()),
                num_chunks >= 1,
                chunk_size as nat == pow2(cl as nat),
                cl == coords@.len(),
                chunk_size >= 16,
                chunk_size % 16 == 0,
                forall|zz: int|
                    0 <= zz < polys@.len() ==> (#[trigger] polys@[zz]@.len()) == pow2(dims as nat),
                plen as int == num_chunks * chunk_size,
                plen as nat == pow2(dims as nat),
                eq@ == eq_table(coords@),
                eq@.len() == chunk_size,
                eq_sums@.len() == 32 * chunk_size,
                forall|t: int|
                    0 <= t < eq_sums@.len() ==> #[trigger] eq_sums@[t] == subset_sum8(
                        eq@,
                        8 * (t / 256),
                        (t % 256) as nat,
                    ),
                total == 128 * num_chunks,
                total_all as int == n * total,
                ret@.len() == total_all,
                forall|t: int|
                    0 <= t < ret@.len() && ((t / nc) / 128 < q || ((t / nc) / 128 == q && t % nc
                        < i)) ==> #[trigger] ret@[t] == restrict_spec(tviews, coords@, t),
            decreases num_chunks - i,
        {
            proof {
                assert((i + 1) * chunk_size <= num_chunks * chunk_size) by (nonlinear_arith)
                    requires
                        i < num_chunks,
                        chunk_size >= 0,
                ;
            }
            let accs = restrict_chunk(polys[q].as_slice(), &eq_sums, i, chunk_size, Ghost(eq@));
            let mut row: usize = 0;
            while row < 128
                invariant
                    row <= 128,
                    i < num_chunks,
                    q < n,
                    n == polys@.len(),
                    tviews == views_of(polys@),
                    nc == num_chunks as int,
                    num_chunks as int == pow2(dims as nat) / pow2(coords@.len()),
                    num_chunks >= 1,
                    chunk_size as nat == pow2(cl as nat),
                    cl == coords@.len(),
                    eq@ == eq_table(coords@),
                    eq@.len() == chunk_size,
                    forall|zz: int|
                        0 <= zz < polys@.len() ==> (#[trigger] polys@[zz]@.len()) == pow2(
                            dims as nat,
                        ),
                    total == 128 * num_chunks,
                    total_all as int == n * total,
                    ret@.len() == total_all,
                    accs@.len() == 128,
                    forall|rr: int|
                        0 <= rr < 128 ==> #[trigger] accs@[rr] == restrict_range(
                            polys@[q as int]@,
                            eq@,
                            i * chunk_size,
                            0,
                            chunk_size as int,
                            rr,
                        ),
                    forall|t: int|
                        0 <= t < ret@.len() && ((t / nc) / 128 < q || ((t / nc) / 128 == q && (t
                            % nc < i || (t % nc == i && (t / nc) % 128 < row)))) ==> #[trigger] ret@[t]
                            == restrict_spec(tviews, coords@, t),
                decreases 128 - row,
            {
                proof {
                    lemma_flat_bound((q * 128 + row) as int, i as int, (n * 128) as int, nc);
                    assert((q * 128 + row) * num_chunks + i < total_all) by (nonlinear_arith)
                        requires
                            q < n,
                            row < 128,
                            i < num_chunks,
                            total_all as int == n * (128 * num_chunks),
                    ;
                    vstd::arithmetic::div_mod::lemma_fundamental_div_mod_converse(
                        ((q * 128 + row) * num_chunks + i) as int,
                        nc,
                        (q * 128 + row) as int,
                        i as int,
                    );
                    vstd::arithmetic::div_mod::lemma_fundamental_div_mod_converse(
                        (q * 128 + row) as int,
                        128,
                        q as int,
                        row as int,
                    );
                }
                proof {
                    lemma_eq_table_len(coords@);
                    assert(tviews[q as int] == polys@[q as int]@);
                    assert(tviews[0] == polys@[0]@);
                }
                let dst = (q * 128 + row) * num_chunks + i;
                ret.set(dst, accs[row]);
                proof {
                    assert forall|t: int|
                        0 <= t < ret@.len() && ((t / nc) / 128 < q || ((t / nc) / 128 == q && (t
                            % nc < i || (t % nc == i && (t / nc) % 128 < row + 1)))) implies #[trigger] ret@[t]
                        == restrict_spec(tviews, coords@, t) by {
                        if !((t / nc) / 128 < q || ((t / nc) / 128 == q && (t % nc < i || (t % nc
                            == i && (t / nc) % 128 < row)))) {
                            vstd::arithmetic::div_mod::lemma_fundamental_div_mod(t, nc);
                            vstd::arithmetic::div_mod::lemma_fundamental_div_mod(t / nc, 128);
                            assert(t / nc == q * 128 + row);
                            vstd::arithmetic::mul::lemma_mul_is_commutative(nc, q * 128 + row);
                            assert(t == dst);
                        }
                    }
                }
                row = row + 1;
            }
            i = i + 1;
        }
        q = q + 1;
    }
    proof {
        assert forall|t: int| 0 <= t < ret@.len() implies #[trigger] ret@[t] == restrict_spec(
            tviews,
            coords@,
            t,
        ) by {
            assert((t / nc) / 128 < n) by (nonlinear_arith)
                requires
                    0 <= t < n * (128 * nc),
                    nc >= 1,
            ;
        }
        vstd::arithmetic::mul::lemma_mul_is_commutative(n as int, total as int);
    }
    ret
}

/// The per-input restrictor: the restriction of each of the 128 coordinate
/// slices of one polynomial, one vector per coordinate.
pub fn restrict_legacy(poly: &[F128], coords: &[F128], dims: usize) -> (r: Vec<Vec<F128>>)
    requires
        poly@.len() == pow2(dims as nat),
        4 <= coords@.len(),
        coords@.len() <= dims,
    ensures
        r@.len() == 128,
        forall|row: int|
            0 <= row < 128 ==> (#[trigger] r@[row])@.len() == pow2(dims as nat) / pow2(
                coords@.len(),
            ),
        forall|row: int, i: int|
            0 <= row < 128 && 0 <= i < pow2(dims as nat) / pow2(coords@.len())
                ==> (#[trigger] r@[row]@[i]) == restrict_cell(
                poly@,
                eq_table(coords@),
                i,
                row,
            ),
{
    let cl = coords.len();
    let plen = poly.len();
    proof {
        lemma_pow2_monotone(cl as nat, dims as nat);
        lemma_pow2_monotone(0, cl as nat);
        lemma_pow2_small();
    }
    let chunk_size = pow2_exec(cl);
    let num_chunks = plen / chunk_size;
    proof {
        lemma_pow2_adds((dims - cl) as nat, cl as nat);
        vstd::arithmetic::div_mod::lemma_div_multiples_vanish(
            pow2((dims - cl) as nat) as int,
            chunk_size as int,
        );
        vstd::arithmetic::mul::lemma_mul_is_commutative(
            pow2((dims - cl) as nat) as int,
            chunk_size as int,
        );
        assert(num_chunks * chunk_size == plen as int);
        assert(chunk_size as nat % 8 == 0) by {
            lemma_pow2_adds((cl - 3) as nat, 3);
            assert(pow2(3) == 8);
            vstd::arithmetic::div_mod::lemma_mod_multiples_vanish(
                pow2((cl - 3) as nat) as int,
                0,
                8,
            );
            vstd::arithmetic::mul::lemma_mul_is_commutative(pow2((cl - 3) as nat) as int, 8);
        }
        assert(chunk_size as nat % 16 == 0) by {
            lemma_pow2_adds((cl - 4) as nat, 4);
            assert(pow2(4) == 16);
            vstd::arithmetic::div_mod::lemma_mod_multiples_vanish(
                pow2((cl - 4) as nat) as int,
                0,
                16,
            );
            vstd::arithmetic::mul::lemma_mul_is_commutative(pow2((cl - 4) as nat) as int, 16);
        }
        assert(pow2(4) <= chunk_size) by {
            lemma_pow2_monotone(4, cl as nat);
        }
        assert(pow2(4) == 16);
    }
    let eq = eq_poly(coords);
    let eq_sums = byte_sums(eq.as_slice());
    let mut cols: Vec<Vec<F128>> = Vec::new();
    let mut i: usize = 0;
    while i < num_chunks
        invariant
            i <= num_chunks,
            num_chunks as nat == pow2((dims - cl) as nat),
            num_chunks as int == pow2(dims as nat) / pow2(coords@.len()),
            chunk_size as nat == pow2(cl as nat),
            cl == coords@.len(),
            chunk_size >= 16,
            chunk_size % 16 == 0,
            poly@.len() == pow2(dims as nat),
            plen as int == num_chunks * chunk_size,
            plen as nat == pow2(dims as nat),
            eq@ == eq_table(coords@),
            eq@.len() == chunk_size,
            eq_sums@.len() == 32 * chunk_size,
            forall|t: int|
                0 <= t < eq_sums@.len() ==> #[trigger] eq_sums@[t] == subset_sum8(
                    eq@,
                    8 * (t / 256),
                    (t % 256) as nat,
                ),
            cols@.len() == i,
            forall|ii: int, rr: int|
                0 <= ii < i && 0 <= rr < 128 ==> (#[trigger] cols@[ii]@[rr]) == restrict_cell(
                    poly@,
                    eq@,
                    ii,
                    rr,
                ),
            forall|ii: int| 0 <= ii < i ==> (#[trigger] cols@[ii])@.len() == 128,
        decreases num_chunks - i,
    {
        proof {
            assert((i + 1) * chunk_size <= num_chunks * chunk_size) by (nonlinear_arith)
                requires
                    i < num_chunks,
                    chunk_size >= 0,
            ;
        }
        let accs = restrict_chunk(poly, &eq_sums, i, chunk_size, Ghost(eq@));
        cols.push(accs);
        i = i + 1;
    }
    let mut ret: Vec<Vec<F128>> = Vec::new();
    let mut row: usize = 0;
    while row < 128
        invariant
            row <= 128,
            num_chunks as int == pow2(dims as nat) / pow2(coords@.len()),
            eq@ == eq_table(coords@),
            cols@.len() == num_chunks,
            forall|ii: int, rr: int|
                0 <= ii < num_chunks && 0 <= rr < 128 ==> (#[trigger] cols@[ii]@[rr])
                    == restrict_cell(poly@, eq@, ii, rr),
            forall|ii: int| 0 <= ii < num_chunks ==> (#[trigger] cols@[ii])@.len() == 128,
            ret@.len() == row,
            forall|rr: int|
                0 <= rr < row ==> (#[trigger] ret@[rr])@.len() == num_chunks,
            forall|rr: int, ii: int|
                0 <= rr < row && 0 <= ii < num_chunks ==> (#[trigger] ret@[rr]@[ii])
                    == restrict_cell(poly@, eq@, ii, rr),
        decreases 128 - row,
    {
        let mut rv: Vec<F128> = Vec::new();
        let mut ii: usize = 0;
        while ii < num_chunks
            invariant
                ii <= num_chunks,
                row < 128,
                cols@.len() == num_chunks,
                eq@ == eq_table(coords@),
                forall|i2: int, rr: int|
                    0 <= i2 < num_chunks && 0 <= rr < 128 ==> (#[trigger] cols@[i2]@[rr])
                        == restrict_cell(poly@, eq@, i2, rr),
                forall|i2: int| 0 <= i2 < num_chunks ==> (#[trigger] cols@[i2])@.len() == 128,
                rv@.len() == ii,
                forall|i2: int|
                    0 <= i2 < ii ==> (#[trigger] rv@[i2]) == restrict_cell(
                        poly@,
                        eq@,
                        i2,
                        row as int,
                    ),
            decreases num_chunks - ii,
        {
            rv.push(cols[ii][row]);
            ii = ii + 1;
        }
        ret.push(rv);
        row = row + 1;
    }
    ret
}

/// Block-wise agreement of the flat restrictor with the per-input one:
/// reading the flat output of `restrict` at the row of polynomial `q`,
/// coordinate `row`, chunk `i` gives exactly the cell the per-input
/// restrictor computes for that polynomial, so concatenating the per-input,
/// per-coordinate vectors yields the flat output.
pub proof fn lemma_restrict_flat_blocks(
    polys: Seq<Seq<F128>>,
    coords: Seq<F128>,
    q: int,
    row: int,
    i: int,
)
    requires
        polys.len() >= 1,
        0 <= q < polys.len(),
        0 <= row < 128,
        0 <= i < polys[0].len() as int / (pow2(coords.len()) as int),
    ensures
        restrict_spec(
            polys,
            coords,
            (q * 128 + row) * (polys[0].len() as int / (pow2(coords.len()) as int)) + i,
        ) == restrict_cell(polys[q], eq_table(coords), i, row),
{
    let nc = polys[0].len() as int / (pow2(coords.len()) as int);
    vstd::arithmetic::div_mod::lemma_fundamental_div_mod_converse(
        (q * 128 + row) * nc + i,
        nc,
        q * 128 + row,
        i,
    );
    vstd::arithmetic::div_mod::lemma_fundamental_div_mod_converse(q * 128 + row, 128, q, row);
}

/// The standard basis element `x^j`.
pub open spec fn basis_spec(j: int) -> F128 {
    F128(1u128 << (j as u128))
}

/// The XOR of `cols[b]` over the set bits `b < k` of the raw word of `x`.
pub open spec fn col_bit_fold(cols: Seq<F128>, x: F128, k: nat) -> F128
    decreases k,
{
    if k == 0 {
        zero()
    } else {
        sadd(
            col_bit_fold(cols, x, (k - 1) as nat),
            if coord(x, k - 1) {
                cols[k - 1]
            } else {
                zero()
            },
        )
    }
}

/// The byte-block form of the same sum: one precomputed subset sum per byte
/// of `x`.
pub open spec fn mat_apply_fold(cols: Seq<F128>, x: F128, k: nat) -> F128
    decreases k,
{
    if k == 0 {
        zero()
    } else {
        sadd(
            mat_apply_fold(cols, x, (k - 1) as nat),
            subset_sum8(cols, 8 * (k - 1), byte_of(x, k - 1) as nat),
        )
    }
}

/// Bit `b` of a byte, read through the division view.
proof fn lemma_u8_bit_div(m: u8, b: u8)
    requires
        b < 8,
    ensures
        bit_of(m as nat, b as nat) == ((m >> b) & 1u8 == 1u8),
{
    let m16: u16 = m as u16;
    assert((m >> b) & 1u8 == 1u8 <==> (m16 >> (b as u16)) & 1u16 == 1u16) by (bit_vector)
        requires
            m16 == m as u16,
            b < 8,
    ;
    vstd::bits::lemma_u16_shr_is_div(m16, b as u16);
    lemma_pow2_agrees(b as nat);
    assert((m16 >> (b as u16)) & 1u16 == 1u16 <==> (m16 >> (b as u16)) % 2 == 1) by (bit_vector);
}

/// Method-of-four-Russians matrices: a 128 x 128 matrix over GF(2), stored
/// as the 256 subset sums of each aligned block of eight columns, applied to
/// a field element by one table lookup per byte.
pub struct EfficientMatrix {
    pub precomp: Vec<F128>,
    pub cols: Ghost<Seq<F128>>,
}

impl EfficientMatrix {
    /// The stored table is exactly the subset-sum table of the columns.
    pub open spec fn wf(&self) -> bool {
        &&& self.cols@.len() == 128
        &&& self.precomp@.len() == 4096
        &&& forall|t: int|
            0 <= t < 4096 ==> #[trigger] self.precomp@[t] == subset_sum8(
                self.cols@,
                8 * (t / 256),
                (t % 256) as nat,
            )
    }

    /// Builds the matrix from its 128 columns.
    pub fn new_from_cols(cols: &[F128]) -> (r: EfficientMatrix)
        requires
            cols@.len() == 128,
        ensures
            r.wf(),
            r.cols@ == cols@,
    {
        let precomp = byte_sums(cols);
        EfficientMatrix { precomp, cols: Ghost(cols@) }
    }

    /// Builds the matrix from its 128 rows, by transposing them into
    /// columns.
    pub fn new_from_rows(rows: &[F128]) -> (r: EfficientMatrix)
        requires
            rows@.len() == 128,
        ensures
            r.wf(),
            r.cols@.len() == 128,
            forall|j: int, i: int|
                0 <= j < 128 && 0 <= i < 128 ==> #[trigger] coord(r.cols@[j], i) == coord(
                    rows@[i],
                    j,
                ),
    {
        let mut colsv: Vec<F128> = Vec::new();
        let mut j: usize = 0;
        while j < 128
            invariant
                j <= 128,
                rows@.len() == 128,
                colsv@.len() == j,
                forall|jj: int, i: int|
                    0 <= jj < j && 0 <= i < 128 ==> #[trigger] coord(colsv@[jj], i) == coord(
                        rows@[i],
                        jj,
                    ),
            decreases 128 - j,
        {
            let mut w: u128 = 0;
            let mut i: usize = 0;
            proof {
                assert(forall|v: u128| v < 128 ==> ((0u128 >> v) & 1u128) == 0u128) by (bit_vector);
            }
            while i < 128
                invariant
                    i <= 128,
                    j < 128,
                    rows@.len() == 128,
                    forall|v: int| 0 <= v < i ==> #[trigger] coord(F128(w), v) == coord(rows@[v], j as int),
                    forall|v: u128| i <= v < 128 ==> ((w >> v) & 1u128) == 0u128,
                decreases 128 - i,
            {
                let bit = (rows[i].0 >> (j as u128)) & 1u128;
                let w2 = w | (bit << (i as u128));
                proof {
                    let rw = rows@[i as int].0;
                    assert(bit == (rw >> (j as u128)) & 1u128);
                    let iu = i as u128;
                    assert(bit <= 1) by (bit_vector)
                        requires
                            bit == (rw >> (j as u128)) & 1u128,
                    ;
                    assert forall|v: u128| v < 128 implies ((w2 >> v) & 1u128) == (if v == (
                    i as u128) {
                        bit
                    } else {
                        (w >> v) & 1u128
                    }) by {
                        assert(((w | (bit << iu)) >> v) & 1u128 == (if v == iu {
                            bit
                        } else {
                            (w >> v) & 1u128
                        })) by (bit_vector)
                            requires
                                v < 128,
                                iu < 128,
                                bit <= 1,
                                (w >> iu) & 1u128 == 0u128,
                        ;
                    }
                    assert forall|v: int| 0 <= v < i + 1 implies #[trigger] coord(F128(w2), v)
                        == coord(rows@[v], j as int) by {
                        let vu = v as u128;
                        assert(((w2 >> vu) & 1u128) == (if vu == iu {
                            bit
                        } else {
                            (w >> vu) & 1u128
                        }));
                        if v < i {
                            assert(coord(F128(w), v) == coord(rows@[v], j as int));
                        }
                    }
                }
                w = w2;
                i = i + 1;
            }
            colsv.push(F128(w));
            j = j + 1;
        }
        Self::new_from_cols(colsv.as_slice())
    }

    /// Applies the matrix to a field element: one precomputed lookup per
    /// byte.
    pub fn apply(&self, elt: F128) -> (r: F128)
        requires
            self.wf(),
        ensures
            r == mat_apply_fold(self.cols@, elt, 16),
    {
        let mut acc = F128::zero();
        let mut k: usize = 0;
        while k < 16
            invariant
                k <= 16,
                self.wf(),
                acc == mat_apply_fold(self.cols@, elt, k as nat),
            decreases 16 - k,
        {
            let sh: u128 = (8 * k) as u128;
            let b = (elt.0 >> sh) as u8;
            let idx = k * 256 + (b as usize);
            proof {
                vstd::arithmetic::div_mod::lemma_fundamental_div_mod_converse(
                    idx as int,
                    256,
                    k as int,
                    b as int,
                );
            }
            acc = acc.add(self.precomp[idx]);
            k = k + 1;
        }
        acc
    }
}

/// The byte-block application equals the plain bit-by-bit combination of the
/// columns: applying the matrix gives the XOR of the columns selected by the
/// set bits of the element.
pub proof fn lemma_apply_is_column_sum(cols: Seq<F128>, x: F128)
    requires
        cols.len() == 128,
    ensures
        mat_apply_fold(cols, x, 16) == col_bit_fold(cols, x, 128),
{
    lemma_apply_blocks(cols, x, 16);
}

/// The first `k` byte blocks cover the first `8 k` bits.
proof fn lemma_apply_blocks(cols: Seq<F128>, x: F128, k: nat)
    requires
        cols.len() == 128,
        k <= 16,
    ensures
        mat_apply_fold(cols, x, k) == col_bit_fold(cols, x, 8 * k),
    decreases k,
{
    if k == 0 {
    } else {
        let kk = (k - 1) as nat;
        lemma_apply_blocks(cols, x, kk);
        let mask = byte_of(x, kk as int) as nat;
        lemma_subset_is_bitsum(cols, 8 * kk as int, mask);
        assert forall|b: nat| b < 8 implies #[trigger] bit_of(mask, b) == coord(
            x,
            (8 * kk + b) as int,
        ) by {
            lemma_byte_coord(x.0, kk as u128, b as u128);
            lemma_u8_bit_div(byte_of(x, kk as int), b as u8);
        }
        lemma_bitsum_cols_range(cols, x, 8 * kk, mask, 8);
        lemma_col_fold_split(cols, x, 8 * kk, 8);
    }
}

/// A masked block sum is the selected-column sum over its bit range.
proof fn lemma_bitsum_cols_range(cols: Seq<F128>, x: F128, base: nat, mask: nat, k: nat)
    requires
        forall|b: nat| b < k ==> #[trigger] bit_of(mask, b) == coord(x, (base + b) as int),
    ensures
        bitsum8(cols, base as int, mask, k) == col_range(cols, x, base as int, (base + k) as int),
    decreases k,
{
    if k > 0 {
        lemma_bitsum_cols_range(cols, x, base, mask, (k - 1) as nat);
        assert(bit_of(mask, (k - 1) as nat) == coord(x, (base + k - 1) as int));
    }
}

/// The selected-column sum over a bit range.
pub open spec fn col_range(cols: Seq<F128>, x: F128, lo: int, hi: int) -> F128
    decreases hi - lo,
{
    if hi <= lo {
        zero()
    } else {
        sadd(
            col_range(cols, x, lo, hi - 1),
            if coord(x, hi - 1) {
                cols[hi - 1]
            } else {
                zero()
            },
        )
    }
}

/// Extending the plain fold by one block appends the block's range sum.
proof fn lemma_col_fold_split(cols: Seq<F128>, x: F128, mid: nat, w: nat)
    ensures
        col_bit_fold(cols, x, mid + w) == sadd(
            col_bit_fold(cols, x, mid),
            col_range(cols, x, mid as int, (mid + w) as int),
        ),
    decreases w,
{
    if w == 0 {
        crate::field::lemma_sadd_basics(col_bit_fold(cols, x, mid), zero(), zero());
    } else {
        lemma_col_fold_split(cols, x, mid, (w - 1) as nat);
        let a = col_bit_fold(cols, x, mid);
        let b = col_range(cols, x, mid as int, (mid + w - 1) as int);
        let t = if coord(x, mid + w - 1) {
            cols[mid + w - 1]
        } else {
            zero()
        };
        crate::field::lemma_sadd_basics(a, b, t);
        assert(col_bit_fold(cols, x, (mid + w - 1) as nat + 1) == sadd(
            col_bit_fold(cols, x, (mid + w - 1) as nat),
            t,
        ));
    }
}

/// The Frobenius power table: row `e` holds `frob^e` of each basis element.
pub open spec fn frob_basis(e: nat, j: int) -> F128 {
    ssq_iter(basis_spec(j), e)
}

/// Builds the 128 x 128 table of Frobenius powers of the basis elements.
fn frobenius_basis_table() -> (r: Vec<Vec<F128>>)
    ensures
        r@.len() == 128,
        forall|e: int| 0 <= e < 128 ==> (#[trigger] r@[e])@.len() == 128,
        forall|e: int, j: int|
            0 <= e < 128 && 0 <= j < 128 ==> (#[trigger] r@[e]@[j]) == frob_basis(e as nat, j),
    {
    let mut tbl: Vec<Vec<F128>> = Vec::new();
    let mut first: Vec<F128> = Vec::new();
    let mut j: usize = 0;
    while j < 128
        invariant
            j <= 128,
            first@.len() == j,
            forall|t: int| 0 <= t < j ==> (#[trigger] first@[t]) == basis_spec(t),
        decreases 128 - j,
    {
        first.push(F128::basis(j));
        j = j + 1;
    }
    tbl.push(first);
    let mut e: usize = 1;
    while e < 128
        invariant
            1 <= e <= 128,
            tbl@.len() == e,
            forall|t: int| 0 <= t < e ==> (#[trigger] tbl@[t])@.len() == 128,
            forall|t: int, jj: int|
                0 <= t < e && 0 <= jj < 128 ==> (#[trigger] tbl@[t]@[jj]) == frob_basis(
                    t as nat,
                    jj,
                ),
        decreases 128 - e,
    {
        let mut nextv: Vec<F128> = Vec::new();
        let mut jj: usize = 0;
        while jj < 128
            invariant
                jj <= 128,
                1 <= e <= 127,
                tbl@.len() == e,
                forall|t: int| 0 <= t < e ==> (#[trigger] tbl@[t])@.len() == 128,
                forall|t: int, j2: int|
                    0 <= t < e && 0 <= j2 < 128 ==> (#[trigger] tbl@[t]@[j2]) == frob_basis(
                        t as nat,
                        j2,
                    ),
                nextv@.len() == jj,
                forall|j2: int|
                    0 <= j2 < jj ==> (#[trigger] nextv@[j2]) == frob_basis(e as nat, j2),
            decreases 128 - jj,
        {
            let v = tbl[e - 1][jj];
            nextv.push(v.mul(v));
            jj = jj + 1;
        }
        tbl.push(nextv);
        e = e + 1;
    }
    tbl
}

/// The column sum `sum_i gammas[i] * frob^(e(i))(x^j)` over the first `k`
/// terms, with the exponent given by `inv` (`i` itself, or `128 - i` modulo
/// 128 for the inverse combination).
pub open spec fn frob_lc_col(gammas: Seq<F128>, j: int, k: nat, inv: bool) -> F128
    decreases k,
{
    if k == 0 {
        zero()
    } else {
        let e: nat = if inv {
            (if k - 1 == 0 {
                0
            } else {
                (128 - (k - 1))
            }) as nat
        } else {
            (k - 1) as nat
        };
        sadd(frob_lc_col(gammas, j, (k - 1) as nat, inv), smul(gammas[k - 1], frob_basis(e, j)))
    }
}

/// The matrix `sum_i gammas[i] Frob^i`, as an `EfficientMatrix` built from
/// its columns.
pub fn frobenius_lc(gammas: &[F128]) -> (r: EfficientMatrix)
    requires
        gammas@.len() == 128,
    ensures
        r.wf(),
        r.cols@.len() == 128,
        forall|j: int| 0 <= j < 128 ==> #[trigger] r.cols@[j] == frob_lc_col(gammas@, j, 128, false),
{
    let tbl = frobenius_basis_table();
    let mut ret: Vec<F128> = Vec::new();
    let mut j: usize = 0;
    while j < 128
        invariant
            j <= 128,
            ret@.len() == j,
            forall|t: int| 0 <= t < j ==> (#[trigger] ret@[t]) == F128(0u128),
        decreases 128 - j,
    {
        ret.push(F128::zero());
        j = j + 1;
    }
    let mut i: usize = 0;
    while i < 128
        invariant
            i <= 128,
            gammas@.len() == 128,
            ret@.len() == 128,
            tbl@.len() == 128,
            forall|e: int| 0 <= e < 128 ==> (#[trigger] tbl@[e])@.len() == 128,
            forall|e: int, jj: int|
                0 <= e < 128 && 0 <= jj < 128 ==> (#[trigger] tbl@[e]@[jj]) == frob_basis(
                    e as nat,
                    jj,
                ),
            forall|jj: int|
                0 <= jj < 128 ==> (#[trigger] ret@[jj]) == frob_lc_col(gammas@, jj, i as nat, false),
        decreases 128 - i,
    {
        let mut jj: usize = 0;
        while jj < 128
            invariant
                jj <= 128,
                i < 128,
                gammas@.len() == 128,
                ret@.len() == 128,
                tbl@.len() == 128,
                forall|e: int| 0 <= e < 128 ==> (#[trigger] tbl@[e])@.len() == 128,
                forall|e: int, j2: int|
                    0 <= e < 128 && 0 <= j2 < 128 ==> (#[trigger] tbl@[e]@[j2]) == frob_basis(
                        e as nat,
                        j2,
                    ),
                forall|j2: int|
                    jj <= j2 < 128 ==> (#[trigger] ret@[j2]) == frob_lc_col(
                        gammas@,
                        j2,
                        i as nat,
                        false,
                    ),
                forall|j2: int|
                    0 <= j2 < jj ==> (#[trigger] ret@[j2]) == frob_lc_col(
                        gammas@,
                        j2,
                        (i + 1) as nat,
                        false,
                    ),
            decreases 128 - jj,
        {
            let cur = ret[jj];
            ret.set(jj, cur.add(gammas[i].mul(tbl[i][jj])));
            jj = jj + 1;
        }
        i = i + 1;
    }
    EfficientMatrix::new_from_cols(ret.as_slice())
}

/// The matrix `sum_i gammas[i] Frob^(-i)`, as an `EfficientMatrix` built
/// from its columns.
pub fn frobenius_inv_lc(gammas: &[F128]) -> (r: EfficientMatrix)
    requires
        gammas@.len() == 128,
    ensures
        r.wf(),
        r.cols@.len() == 128,
        forall|j: int| 0 <= j < 128 ==> #[trigger] r.cols@[j] == frob_lc_col(gammas@, j, 128, true),
{
    let tbl = frobenius_basis_table();
    let mut ret: Vec<F128> = Vec::new();
    let mut j: usize = 0;
    while j < 128
        invariant
            j <= 128,
            ret@.len() == j,
            forall|t: int| 0 <= t < j ==> (#[trigger] ret@[t]) == F128(0u128),
        decreases 128 - j,
    {
        ret.push(F128::zero());
        j = j + 1;
    }
    let mut i: usize = 0;
    while i < 128
        invariant
            i <= 128,
            gammas@.len() == 128,
            ret@.len() == 128,
            tbl@.len() == 128,
            forall|e: int| 0 <= e < 128 ==> (#[trigger] tbl@[e])@.len() == 128,
            forall|e: int, jj: int|
                0 <= e < 128 && 0 <= jj < 128 ==> (#[trigger] tbl@[e]@[jj]) == frob_basis(
                    e as nat,
                    jj,
                ),
            forall|jj: int|
                0 <= jj < 128 ==> (#[trigger] ret@[jj]) == frob_lc_col(gammas@, jj, i as nat, true),
        decreases 128 - i,
    {
        let minus_i: usize = if i == 0 {
            0
        } else {
            128 - i
        };
        let mut jj: usize = 0;
        while jj < 128
            invariant
                jj <= 128,
                i < 128,
                minus_i == (if i == 0 {
                    0usize
                } else {
                    (128 - i) as usize
                }),
                gammas@.len() == 128,
                ret@.len() == 128,
                tbl@.len() == 128,
                forall|e: int| 0 <= e < 128 ==> (#[trigger] tbl@[e])@.len() == 128,
                forall|e: int, j2: int|
                    0 <= e < 128 && 0 <= j2 < 128 ==> (#[trigger] tbl@[e]@[j2]) == frob_basis(
                        e as nat,
                        j2,
                    ),
                forall|j2: int|
                    jj <= j2 < 128 ==> (#[trigger] ret@[j2]) == frob_lc_col(
                        gammas@,
                        j2,
                        i as nat,
                        true,
                    ),
                forall|j2: int|
                    0 <= j2 < jj ==> (#[trigger] ret@[j2]) == frob_lc_col(
                        gammas@,
                        j2,
                        (i + 1) as nat,
                        true,
                    ),
            decreases 128 - jj,
        {
            let cur = ret[jj];
            ret.set(jj, cur.add(gammas[i].mul(tbl[minus_i][jj])));
            jj = jj + 1;
        }
        i = i + 1;
    }
    EfficientMatrix::new_from_cols(ret.as_slice())
}

/// Squares every entry of a sequence.
pub open spec fn sq_seq(s: Seq<F128>) -> Seq<F128> {
    Seq::new(s.len(), |i: int| smul(s[i], s[i]))
}

/// `k`-fold entry-wise squaring.
pub open spec fn sq_seq_iter(s: Seq<F128>, k: nat) -> Seq<F128>
    decreases k,
{
    if k == 0 {
        s
    } else {
        sq_seq(sq_seq_iter(s, (k - 1) as nat))
    }
}

/// Squares every entry of a vector in place, by one pass.
fn square_all(v: &mut Vec<F128>)
    ensures
        final(v)@ == sq_seq(old(v)@),
{
    let n = v.len();
    let mut i: usize = 0;
    while i < n
        invariant
            i <= n,
            v@.len() == n,
            n == old(v)@.len(),
            forall|t: int| i <= t < n ==> #[trigger] v@[t] == old(v)@[t],
            forall|t: int| 0 <= t < i ==> #[trigger] v@[t] == smul(old(v)@[t], old(v)@[t]),
        decreases n - i,
    {
        let x = v[i];
        v.set(i, x.mul(x));
        i = i + 1;
    }
    proof {
        assert(v@ =~= sq_seq(old(v)@));
    }
}

/// The inverse Frobenius orbit of a point: entry `t` holds the point with
/// every coordinate raised to the power `2^(128 - t)`, so entry 0 carries
/// the identity image and later entries walk the orbit backwards.
pub fn inv_frob_orbit(r: &[F128]) -> (res: Vec<Vec<F128>>)
    ensures
        res@.len() == 128,
        forall|t: int| 0 <= t < 128 ==> (#[trigger] res@[t])@ == sq_seq_iter(r@, (128 - t) as nat),
{
    let mut cur: Vec<F128> = Vec::new();
    let n = r.len();
    let mut i: usize = 0;
    while i < n
        invariant
            i <= n,
            n == r@.len(),
            cur@.len() == i,
            forall|t: int| 0 <= t < i ==> #[trigger] cur@[t] == r@[t],
        decreases n - i,
    {
        cur.push(r[i]);
        i = i + 1;
    }
    proof {
        assert(cur@ =~= r@);
    }
    let mut orbit: Vec<Vec<F128>> = Vec::new();
    let mut s: usize = 0;
    while s < 128
        invariant
            s <= 128,
            cur@ == sq_seq_iter(r@, s as nat),
            orbit@.len() == s,
            forall|t: int|
                0 <= t < s ==> (#[trigger] orbit@[t])@ == sq_seq_iter(r@, (t + 1) as nat),
        decreases 128 - s,
    {
        square_all(&mut cur);
        let mut copy: Vec<F128> = Vec::new();
        let m = cur.len();
        let mut i2: usize = 0;
        while i2 < m
            invariant
                i2 <= m,
                m == cur@.len(),
                copy@.len() == i2,
                forall|t: int| 0 <= t < i2 ==> #[trigger] copy@[t] == cur@[t],
            decreases m - i2,
        {
            copy.push(cur[i2]);
            i2 = i2 + 1;
        }
        proof {
            assert(copy@ =~= cur@);
        }
        orbit.push(copy);
        s = s + 1;
    }
    let mut rev: Vec<Vec<F128>> = Vec::new();
    let mut t: usize = 0;
    while t < 128
        invariant
            t <= 128,
            orbit@.len() == 128,
            forall|u: int|
                0 <= u < 128 ==> (#[trigger] orbit@[u])@ == sq_seq_iter(r@, (u + 1) as nat),
            rev@.len() == t,
            forall|u: int|
                0 <= u < t ==> (#[trigger] rev@[u])@ == sq_seq_iter(r@, (128 - u) as nat),
        decreases 128 - t,
    {
        let mut copy: Vec<F128> = Vec::new();
        let src = &orbit[127 - t];
        let m = src.len();
        let mut i2: usize = 0;
        while i2 < m
            invariant
                i2 <= m,
                m == src@.len(),
                copy@.len() == i2,
                forall|u: int| 0 <= u < i2 ==> #[trigger] copy@[u] == src@[u],
            decreases m - i2,
        {
            copy.push(src[i2]);
            i2 = i2 + 1;
        }
        proof {
            assert(copy@ =~= src@);
        }
        rev.push(copy);
        t = t + 1;
    }
    rev
}

/// The basis-weighted sum `sum_i x^i * s[i]` over the first `k` entries.
pub open spec fn basis_weight_fold(s: Seq<F128>, k: nat) -> F128
    decreases k,
{
    if k == 0 {
        zero()
    } else {
        sadd(basis_weight_fold(s, (k - 1) as nat), smul(basis_spec(k - 1), s[k - 1]))
    }
}

/// What one twisted evaluation is: the basis-weighted recombination of the
/// coordinate values squared `128 - t` times.
pub open spec fn twist_entry(e: Seq<F128>, t: int) -> F128 {
    basis_weight_fold(sq_seq_iter(e, (128 - t) as nat), 128)
}

/// Turns the 128 coordinate evaluations of a polynomial at a point into its
/// evaluations on the inverse Frobenius orbit of the point.
pub fn twist_evals(evals: &mut Vec<F128>)
    requires
        old(evals)@.len() == 128,
    ensures
        final(evals)@.len() == 128,
        forall|t: int| 0 <= t < 128 ==> #[trigger] final(evals)@[t] == twist_entry(old(evals)@, t),
{
    let ghost e0 = evals@;
    let mut twisted: Vec<F128> = Vec::new();
    let mut s: usize = 0;
    while s < 128
        invariant
            s <= 128,
            evals@.len() == 128,
            e0.len() == 128,
            evals@ == sq_seq_iter(e0, s as nat),
            twisted@.len() == s,
            forall|u: int|
                0 <= u < s ==> #[trigger] twisted@[u] == basis_weight_fold(
                    sq_seq_iter(e0, (u + 1) as nat),
                    128,
                ),
        decreases 128 - s,
    {
        square_all(evals);
        let mut acc = F128::zero();
        let mut i: usize = 0;
        while i < 128
            invariant
                i <= 128,
                evals@.len() == 128,
                acc == basis_weight_fold(evals@, i as nat),
            decreases 128 - i,
        {
            acc = acc.add(F128::basis(i).mul(evals[i]));
            i = i + 1;
        }
        twisted.push(acc);
        s = s + 1;
    }
    let mut t: usize = 0;
    while t < 128
        invariant
            t <= 128,
            evals@.len() == 128,
            e0.len() == 128,
            twisted@.len() == 128,
            forall|u: int|
                0 <= u < 128 ==> #[trigger] twisted@[u] == basis_weight_fold(
                    sq_seq_iter(e0, (u + 1) as nat),
                    128,
                ),
            forall|u: int| 0 <= u < t ==> #[trigger] evals@[u] == twist_entry(e0, u),
        decreases 128 - t,
    {
        evals.set(t, twisted[127 - t]);
        t = t + 1;
    }
}

/// Recovers the coordinate evaluations from the evaluations on the inverse
/// Frobenius orbit: each entry is twisted back by its own Frobenius power
/// and the dual basis projects out each coordinate slice.
pub fn untwist_evals(twisted_evals: &mut Vec<F128>)
    requires
        old(twisted_evals)@.len() == 128,
    ensures
        final(twisted_evals)@.len() == 128,
        forall|i: int|
            0 <= i < 128 ==> #[trigger] final(twisted_evals)@[i] == pi_rec(
                i,
                Seq::new(128, |t: int| ssq_iter(old(twisted_evals)@[t], t as nat)),
                128,
            ),
{
    let ghost e0 = twisted_evals@;
    let ghost frobbed = Seq::new(128, |t: int| ssq_iter(e0[t], t as nat));
    let mut i: usize = 0;
    while i < 128
        invariant
            i <= 128,
            twisted_evals@.len() == 128,
            e0.len() == 128,
            frobbed == Seq::new(128, |t: int| ssq_iter(e0[t], t as nat)),
            forall|t: int| i <= t < 128 ==> #[trigger] twisted_evals@[t] == e0[t],
            forall|t: int| 0 <= t < i ==> #[trigger] twisted_evals@[t] == frobbed[t],
        decreases 128 - i,
    {
        let v = twisted_evals[i].frob(i as i32);
        proof {
            assert((i as int) % 128 == i as int);
        }
        twisted_evals.set(i, v);
        i = i + 1;
    }
    proof {
        assert(twisted_evals@ =~= frobbed);
    }
    let mut untwisted: Vec<F128> = Vec::new();
    let mut k: usize = 0;
    while k < 128
        invariant
            k <= 128,
            twisted_evals@ == frobbed,
            twisted_evals@.len() == 128,
            untwisted@.len() == k,
            forall|t: int| 0 <= t < k ==> #[trigger] untwisted@[t] == pi_rec(t, frobbed, 128),
        decreases 128 - k,
    {
        untwisted.push(pi(k, twisted_evals));
        k = k + 1;
    }
    let mut t: usize = 0;
    while t < 128
        invariant
            t <= 128,
            twisted_evals@.len() == 128,
            untwisted@.len() == 128,
            forall|u: int| 0 <= u < 128 ==> #[trigger] untwisted@[u] == pi_rec(u, frobbed, 128),
            forall|u: int| 0 <= u < t ==> #[trigger] twisted_evals@[u] == pi_rec(u, frobbed, 128),
        decreases 128 - t,
    {
        twisted_evals.set(t, untwisted[t]);
        t = t + 1;
    }
}

/// The inner phase-one sum of one chunk: the values of the three slots of
/// each boolean sub-index, weighted by the matching equality values, folded
/// over the first `j` sub-indices.
pub open spec fn p1_inner(
    ext: Seq<F128>,
    eq_evs: Seq<F128>,
    bm: Seq<u16>,
    pow3v: int,
    twod: int,
    i: int,
    j: nat,
    s: int,
) -> F128
    decreases j,
{
    if j == 0 {
        zero()
    } else {
        sadd(
            p1_inner(ext, eq_evs, bm, pow3v, twod, i, (j - 1) as nat, s),
            smul(ext[3 * (i * pow3v + bm[j - 1] as int) + s], eq_evs[i * twod + j - 1]),
        )
    }
}

/// The full phase-one sum: the chunk sums folded over the first `ch` chunks.
pub open spec fn p1_sum(
    ext: Seq<F128>,
    eq_evs: Seq<F128>,
    bm: Seq<u16>,
    pow3v: int,
    twod: int,
    ch: nat,
    s: int,
) -> F128
    decreases ch,
{
    if ch == 0 {
        zero()
    } else {
        sadd(
            p1_sum(ext, eq_evs, bm, pow3v, twod, (ch - 1) as nat, s),
            p1_inner(ext, eq_evs, bm, pow3v, twod, ch - 1, (twod as nat), s),
        )
    }
}

/// Computes the three phase-one partial sums: the sums over all chunks and
/// boolean sub-indices of the extended-table slots at 0, 1 and infinity,
/// each weighted by the equality table of the still-free variables.
pub fn phase1_triple_sums(
    ext: &Vec<F128>,
    eq_evs: &Vec<F128>,
    bm: &Vec<u16>,
    pow3v: usize,
    twod: usize,
    chunks: usize,
) -> (r: [F128; 3])
    requires
        pow3v >= 1,
        twod >= 1,
        forall|i: int| 0 <= i < twod ==> (#[trigger] bm@[i]) < pow3v,
        bm@.len() >= twod,
        ext@.len() == 3 * (chunks * pow3v),
        eq_evs@.len() == chunks * twod,
    ensures
        r@[0] == p1_sum(ext@, eq_evs@, bm@, pow3v as int, twod as int, chunks as nat, 0),
        r@[1] == p1_sum(ext@, eq_evs@, bm@, pow3v as int, twod as int, chunks as nat, 1),
        r@[2] == p1_sum(ext@, eq_evs@, bm@, pow3v as int, twod as int, chunks as nat, 2),
{
    let mut a0 = F128::zero();
    let mut a1 = F128::zero();
    let mut a2 = F128::zero();
    let elen = ext.len();
    let qlen = eq_evs.len();
    let mut i: usize = 0;
    while i < chunks
        invariant
            i <= chunks,
            pow3v >= 1,
            twod >= 1,
            forall|z: int| 0 <= z < twod ==> (#[trigger] bm@[z]) < pow3v,
            bm@.len() >= twod,
            ext@.len() == 3 * (chunks * pow3v),
            eq_evs@.len() == chunks * twod,
            elen == ext@.len(),
            qlen == eq_evs@.len(),
            a0 == p1_sum(ext@, eq_evs@, bm@, pow3v as int, twod as int, i as nat, 0),
            a1 == p1_sum(ext@, eq_evs@, bm@, pow3v as int, twod as int, i as nat, 1),
            a2 == p1_sum(ext@, eq_evs@, bm@, pow3v as int, twod as int, i as nat, 2),
        decreases chunks - i,
    {
        let mut b0 = F128::zero();
        let mut b1 = F128::zero();
        let mut b2 = F128::zero();
        let mut j: usize = 0;
        while j < twod
            invariant
                j <= twod,
                i < chunks,
                pow3v >= 1,
                twod >= 1,
                forall|z: int| 0 <= z < twod ==> (#[trigger] bm@[z]) < pow3v,
                bm@.len() >= twod,
                ext@.len() == 3 * (chunks * pow3v),
                eq_evs@.len() == chunks * twod,
                elen == ext@.len(),
                qlen == eq_evs@.len(),
                b0 == p1_inner(ext@, eq_evs@, bm@, pow3v as int, twod as int, i as int, j as nat, 0),
                b1 == p1_inner(ext@, eq_evs@, bm@, pow3v as int, twod as int, i as int, j as nat, 1),
                b2 == p1_inner(ext@, eq_evs@, bm@, pow3v as int, twod as int, i as int, j as nat, 2),
            decreases twod - j,
        {
            proof {
                assert(i * pow3v + bm@[j as int] < chunks * pow3v) by (nonlinear_arith)
                    requires
                        i < chunks,
                        (bm@[j as int] as int) < pow3v,
                        pow3v >= 1,
                ;
                assert(i * twod + j < chunks * twod) by (nonlinear_arith)
                    requires
                        i < chunks,
                        j < twod,
                        twod >= 1,
                ;
            }
            let index = i * twod + j;
            let offset = 3 * (i * pow3v + (bm[j] as usize));
            let multiplier = eq_evs[index];
            b0 = b0.add(ext[offset].mul(multiplier));
            b1 = b1.add(ext[offset + 1].mul(multiplier));
            b2 = b2.add(ext[offset + 2].mul(multiplier));
            j = j + 1;
        }
        a0 = a0.add(b0);
        a1 = a1.add(b1);
        a2 = a2.add(b2);
        i = i + 1;
    }
    [a0, a1, a2]
}

/// The four coefficients of the finished degree-3 round polynomial: the
/// three evaluations at 0, 1 and infinity are turned into coefficients,
/// scaled by the equality value of the already-bound prefix, and multiplied
/// by the remaining linear equality factor `(1 + pt_r) + T`.
pub open spec fn round_poly_coeffs(pd2: Seq<F128>, eq_y: F128, pt_r: F128) -> Seq<F128> {
    let b1 = sadd(sadd(pd2[1], pd2[0]), pd2[2]);
    let c0 = smul(pd2[0], eq_y);
    let c1 = smul(b1, eq_y);
    let c2 = smul(pd2[2], eq_y);
    let eq_t0 = sadd(pt_r, one());
    let eq_t1 = one();
    seq![
        smul(eq_t0, c0),
        sadd(smul(eq_t0, c1), smul(eq_t1, c0)),
        sadd(smul(eq_t0, c2), smul(eq_t1, c1)),
        smul(eq_t1, c2),
    ]
}

/// Builds the round polynomial coefficients from the three partial sums.
pub fn make_round_poly(pd2: [F128; 3], eq_y: F128, pt_r: F128) -> (r: Vec<F128>)
    ensures
        r@ == round_poly_coeffs(pd2@, eq_y, pt_r),
        r@.len() == 4,
{
    let p0 = pd2[0];
    let p1 = pd2[1].add(pd2[0]).add(pd2[2]);
    let p2 = pd2[2];
    let c0 = p0.mul(eq_y);
    let c1 = p1.mul(eq_y);
    let c2 = p2.mul(eq_y);
    let eq_t0 = pt_r.add(F128::one());
    let eq_t1 = F128::one();
    let mut r: Vec<F128> = Vec::new();
    r.push(eq_t0.mul(c0));
    r.push(eq_t0.mul(c1).add(eq_t1.mul(c0)));
    r.push(eq_t0.mul(c2).add(eq_t1.mul(c1)));
    r.push(eq_t1.mul(c2));
    proof {
        assert(r@ =~= round_poly_coeffs(pd2@, eq_y, pt_r));
    }
    r
}

/// One entry of the phase-one fold: the three slots of a trit index
/// collapsed into the univariate's value at the challenge.
pub open spec fn fold3_entry(ext: Seq<F128>, t: F128, k: int) -> F128 {
    sadd(
        sadd(ext[3 * k], smul(sadd(sadd(ext[3 * k], ext[3 * k + 1]), ext[3 * k + 2]), t)),
        smul(ext[3 * k + 2], smul(t, t)),
    )
}

/// Folds the extended table in groups of three by the challenge.
pub fn fold_ext_by3(ext: &Vec<F128>, t: F128) -> (r: Vec<F128>)
    requires
        ext@.len() % 3 == 0,
    ensures
        r@.len() == ext@.len() / 3,
        forall|k: int| 0 <= k < r@.len() ==> #[trigger] r@[k] == fold3_entry(ext@, t, k),
{
    let el = ext.len();
    let n = el / 3;
    let t2 = t.mul(t);
    let mut r: Vec<F128> = Vec::new();
    let mut k: usize = 0;
    while k < n
        invariant
            k <= n,
            el == ext@.len(),
            n == ext@.len() / 3,
            ext@.len() == 3 * n,
            t2 == smul(t, t),
            r@.len() == k,
            forall|z: int| 0 <= z < k ==> #[trigger] r@[z] == fold3_entry(ext@, t, z),
        decreases n - k,
    {
        let c0 = ext[3 * k];
        let c1 = ext[3 * k + 1];
        let c2 = ext[3 * k + 2];
        r.push(c0.add(c0.add(c1).add(c2).mul(t)).add(c2.mul(t2)));
        k = k + 1;
    }
    r
}

/// One entry of the phase-two fold: a pair collapsed into the multilinear's
/// value at the challenge.
pub open spec fn pair_fold_entry(arr: Seq<F128>, t: F128, j: int) -> F128 {
    sadd(arr[2 * j], smul(sadd(arr[2 * j + 1], arr[2 * j]), t))
}

/// Folds an array pairwise by the challenge, producing the first `count`
/// folded entries.
pub fn fold_pairs(arr: &Vec<F128>, t: F128, count: usize) -> (r: Vec<F128>)
    requires
        2 * count <= arr@.len(),
    ensures
        r@.len() == count,
        forall|j: int| 0 <= j < count ==> #[trigger] r@[j] == pair_fold_entry(arr@, t, j),
{
    let al = arr.len();
    let mut r: Vec<F128> = Vec::new();
    let mut j: usize = 0;
    while j < count
        invariant
            j <= count,
            al == arr@.len(),
            2 * count <= arr@.len(),
            r@.len() == j,
            forall|z: int| 0 <= z < j ==> #[trigger] r@[z] == pair_fold_entry(arr@, t, z),
        decreases count - j,
    {
        let a = arr[2 * j];
        let b = arr[2 * j + 1];
        r.push(a.add(b.add(a).mul(t)));
        j = j + 1;
    }
    r
}

/// The value of a cubic with coefficient multipliers on the right, as the
/// specialized AND prover computes its claim update.
pub open spec fn eval_cubic_right(p: Seq<F128>, t: F128) -> F128 {
    sadd(
        sadd(sadd(p[0], smul(p[1], t)), smul(p[2], smul(t, t))),
        smul(p[3], smul(t, smul(t, t))),
    )
}

/// The value of a cubic with coefficient multipliers on the left, as the
/// generic check computes its claim update.
pub open spec fn eval_cubic_left(p: Seq<F128>, t: F128) -> F128 {
    sadd(
        sadd(sadd(p[0], smul(t, p[1])), smul(smul(t, t), p[2])),
        smul(smul(smul(t, t), t), p[3]),
    )
}

/// A boolean slot of the extended table holds the plain table value at the
/// binary index with the same digits: reading the extension at the trit
/// image of a binary index gives back the chunk entry at that index.
pub proof fn lemma_ext_boolean_slot(table: Seq<F128>, c: nat, hi: int, x: nat)
    requires
        x < pow2((c + 1) as nat),
    ensures
        table_ext(table, c, hi, b2t(x)) == table[hi * pow2((c + 1) as nat) + bin_le(
            b2t(x),
            (c + 1) as nat,
        )],
        bin_le(b2t(x), (c + 1) as nat) == x,
{
    lemma_b2t_pure(x, (c + 1) as nat);
    lemma_b2t_of_bin(b2t(x), (c + 1) as nat);
    let y = bin_le(b2t(x), (c + 1) as nat);
    if y < x {
        lemma_b2t_monotone(y, x);
    }
    if x < y {
        lemma_b2t_monotone(x, y);
    }
}

/// A power of two is positive.
pub proof fn lemma_pow2_pos(k: nat)
    ensures
        pow2(k) >= 1,
{
    lemma_pow2_monotone(0, k);
}

/// `pow2` is monotone.
pub proof fn lemma_pow2_monotone(a: nat, b: nat)
    requires
        a <= b,
    ensures
        pow2(a) <= pow2(b),
    decreases b,
{
    if a < b {
        lemma_pow2_monotone(a, (b - 1) as nat);
    }
}

/// `2^d` stays at or below 512 while `d` stays below 10.
proof fn lemma_pow2_le_512(d: nat)
    requires
        d < 10,
    ensures
        pow2(d) <= 512,
{
    lemma_pow2_monotone(d, 9);
    assert(pow2(0) == 1);
    assert(pow2(1) == 2);
    assert(pow2(2) == 4);
    assert(pow2(3) == 8);
    assert(pow2(4) == 16);
    assert(pow2(5) == 32);
    assert(pow2(6) == 64);
    assert(pow2(7) == 128);
    assert(pow2(8) == 256);
    assert(pow2(9) == 512);
}

} // verus!
