use boolcheck::andcheck::evaluate;
use boolcheck::field::F128;
use boolcheck::protocols::utils::{
    frobenius_inv_lc, frobenius_lc, twist_evals, untwist_evals, EfficientMatrix,
};

fn rng_next(state: &mut u64) -> u64 {
    *state = state.wrapping_add(0x9e3779b97f4a7c15);
    let mut z = *state;
    z = (z ^ (z >> 30)).wrapping_mul(0xbf58476d1ce4e5b9);
    z = (z ^ (z >> 27)).wrapping_mul(0x94d049bb133111eb);
    z ^ (z >> 31)
}

fn rand_f128(state: &mut u64) -> F128 {
    let hi = rng_next(state) as u128;
    let lo = rng_next(state) as u128;
    F128::from_raw((hi << 64) | lo)
}

fn rand_vec(state: &mut u64, n: usize) -> Vec<F128> {
    (0..n).map(|_| rand_f128(state)).collect()
}

#[test]
fn field_basics() {
    let mut rng = 0xf1e1d_01u64;
    let a = rand_f128(&mut rng);
    let b = rand_f128(&mut rng);
    let c = rand_f128(&mut rng);
    // xor group
    assert!(a.add(b) == b.add(a));
    assert!(a.add(a) == F128::zero());
    // multiplicative identity and zero
    assert!(a.mul(F128::one()) == a);
    assert!(F128::one().mul(a) == a);
    assert!(a.mul(F128::zero()) == F128::zero());
    // low monomials multiply by adding exponents
    assert!(F128::basis(3).mul(F128::basis(4)) == F128::basis(7));
    // ring laws hold at runtime
    assert!(a.mul(b) == b.mul(a));
    assert!(a.mul(b.add(c)) == a.mul(b).add(a.mul(c)));
    assert!(a.mul(b).mul(c) == a.mul(b.mul(c)));
    // frobenius is additive and 128-periodic
    assert!(a.add(b).frob(1) == a.frob(1).add(b.frob(1)));
    assert!(a.frob(64).frob(64) == a);
    assert!(a.frob(-3).frob(3) == a);
}

#[test]
fn twists_as_expected() {
    let mut rng = 0xf1e1d_02u64;
    let num_vars = 5;
    let pt = rand_vec(&mut rng, num_vars);
    let p = rand_vec(&mut rng, 1 << num_vars);

    for i in 0..128 {
        let inv_twisted_pt: Vec<F128> = pt.iter().map(|x| x.frob(-(i as i32))).collect();
        let ev = evaluate(&p, &inv_twisted_pt);
        let twisted_p: Vec<F128> = p.iter().map(|x| x.frob(i as i32)).collect();
        assert!(ev.frob(i as i32) == evaluate(&twisted_p, &pt));
    }
}

#[test]
fn twist_untwist() {
    let mut rng = 0xf1e1d_03u64;
    let lhs = rand_vec(&mut rng, 128);
    let mut rhs = lhs.clone();

    twist_evals(&mut rhs);
    untwist_evals(&mut rhs);

    assert!(lhs == rhs);

    untwist_evals(&mut rhs);
    twist_evals(&mut rhs);

    assert!(lhs == rhs);
}

#[test]
fn twist_computes_expected_openings() {
    let num_vars = 10;
    let mut rng = 0xf1e1d_04u64;
    let pt = rand_vec(&mut rng, num_vars);
    let poly = rand_vec(&mut rng, 1 << num_vars);

    let mut coord_evs = vec![];

    for i in 0..128 {
        let poly_i: Vec<F128> = poly
            .iter()
            .map(|x| F128::new((x.raw() >> i) & 1 == 1))
            .collect();
        coord_evs.push(evaluate(&poly_i, &pt));
    }

    let mut tmp = F128::zero();
    for i in 0..128 {
        tmp = tmp.add(coord_evs[i].mul(F128::basis(i)));
    }

    assert!(tmp == evaluate(&poly, &pt));

    let mut pt_inv_orbit = vec![];
    for i in 0..128i32 {
        pt_inv_orbit.push(pt.iter().map(|x| x.frob(-i)).collect::<Vec<F128>>());
    }

    let twisted_evs: Vec<F128> = (0..128).map(|i| evaluate(&poly, &pt_inv_orbit[i])).collect();

    twist_evals(&mut coord_evs);
    assert!(twisted_evs == coord_evs);
}

#[test]
fn matrices() {
    let mut rng = 0xf1e1d_05u64;
    let cols = rand_vec(&mut rng, 128);
    let eff = EfficientMatrix::new_from_cols(&cols);
    let test_vec = rand_f128(&mut rng);
    // the naive application: xor of the columns picked by the set bits
    let mut naive = F128::zero();
    for i in 0..128 {
        if (test_vec.raw() >> i) & 1 == 1 {
            naive = naive.add(cols[i]);
        }
    }
    assert!(naive == eff.apply(test_vec));
}

#[test]
fn transposed_rows_match() {
    let mut rng = 0xf1e1d_06u64;
    let rows = rand_vec(&mut rng, 128);
    let m = EfficientMatrix::new_from_rows(&rows);
    let x = rand_f128(&mut rng);
    // applying the transpose-built matrix: entry i of the result is the
    // parity of rows[i] & x, i.e. column combination of the transpose
    let mut naive = F128::zero();
    for j in 0..128 {
        if (x.raw() >> j) & 1 == 1 {
            let mut col = 0u128;
            for i in 0..128 {
                col |= ((rows[i].raw() >> j) & 1) << i;
            }
            naive = naive.add(F128::from_raw(col));
        }
    }
    assert!(naive == m.apply(x));
}

#[test]
fn left_mult() {
    let mut rng = 0xf1e1d_07u64;
    let x = rand_f128(&mut rng);
    let cols: Vec<F128> = (0..128).map(|i| F128::basis(i).mul(x)).collect();

    let mult_by_x = EfficientMatrix::new_from_cols(&cols);

    let mut lhs = rand_f128(&mut rng);
    let mut rhs = lhs;

    for _ in 0..1 << 22 {
        lhs = x.mul(lhs);
    }
    for _ in 0..1 << 22 {
        rhs = mult_by_x.apply(rhs);
    }

    assert!(lhs == rhs);
}

#[test]
fn frobenius_lc_as_expected() {
    let mut rng = 0xf1e1d_08u64;
    let x = rand_f128(&mut rng);
    let gammas = rand_vec(&mut rng, 128);

    let mut lhs = F128::zero();
    for i in 0..128 {
        lhs = lhs.add(gammas[i].mul(x.frob(i as i32)));
    }
    let m = frobenius_lc(&gammas);
    let rhs = m.apply(x);
    assert!(lhs == rhs);

    let mut lhs = F128::zero();
    for i in 0..128 {
        lhs = lhs.add(gammas[i].mul(x.frob(-(i as i32))));
    }
    let m = frobenius_inv_lc(&gammas);
    let rhs = m.apply(x);
    assert!(lhs == rhs);
}
