use boolcheck::andcheck::{bits_to_trits, eq_ev, eq_poly, eq_poly_sequence, evaluate, restrict};
use boolcheck::field::F128;
use boolcheck::protocols::utils::{
    compute_trit_mappings, drop_top_bit, evaluate_univar, extend_table, restrict_legacy,
};
use boolcheck::traits::CompressedPoly;

fn rng_next(state: &mut u64) -> u64 {
    *state = state.wrapping_add(0x9e3779b97f4a7c15);
    let mut z = *state;
    z = (z ^ (z >> 30)).wrapping_mul(0xbf58476d1ce4e5b9);
    z = (z ^ (z >> 27)).wrapping_mul(0x94d049bb133111eb);
    z ^ (z >> 31)
}

fn rand_f128(state: &mut u64) -> F128 {
    let hi = rng_next(state) as u128;
    let lo = rng_next(state) as u128;
    F128::from_raw((hi << 64) | lo)
}

fn rand_vec(state: &mut u64, n: usize) -> Vec<F128> {
    (0..n).map(|_| rand_f128(state)).collect()
}

#[test]
fn test_eq_ev() {
    let mut rng = 0xfeed_0001u64;
    let num_vars = 5;
    let x = rand_vec(&mut rng, num_vars);
    let y = rand_vec(&mut rng, num_vars);
    assert!(eq_ev(&x, &y) == evaluate(&eq_poly(&x), &y));
}

#[test]
fn trits_test() {
    let c = 2;
    println!("{:?}", compute_trit_mappings(c));
}

#[test]
fn trit_mapping_invariants() {
    // every even entry points back through the bit mapping; every odd entry
    // is a power of three
    for c in 0..4usize {
        let (bit_mapping, trit_mapping) = compute_trit_mappings(c);
        let pow3 = 3usize.pow((c + 1) as u32);
        assert_eq!(trit_mapping.len(), pow3);
        assert_eq!(bit_mapping.len(), 1 << (c + 1));
        for j in 0..pow3 {
            let v = trit_mapping[j] as usize;
            if v % 2 == 0 {
                assert_eq!(bit_mapping[v >> 1] as usize, j);
            } else {
                // v is 3^k for the highest digit 2 of j
                let mut k = 0;
                let mut x = j;
                let mut top = None;
                while x > 0 {
                    if x % 3 == 2 {
                        top = Some(k);
                    }
                    x /= 3;
                    k += 1;
                }
                assert_eq!(v, 3usize.pow(top.unwrap() as u32));
            }
        }
        for i in 0..bit_mapping.len() {
            assert_eq!(bit_mapping[i] as usize, bits_to_trits(i));
        }
    }
}

#[test]
fn eq_sequence_matches_eq_poly() {
    let mut rng = 0xfeed_0002u64;
    let num_vars = 6;
    let pt = rand_vec(&mut rng, num_vars);
    let seqs = eq_poly_sequence(&pt);
    assert_eq!(seqs.len(), num_vars + 1);
    for i in 0..=num_vars {
        let suffix = eq_poly(&pt[num_vars - i..]);
        assert!(seqs[i] == suffix);
    }
}

#[test]
fn extension_boolean_slots() {
    let mut rng = 0xfeed_0003u64;
    let num_vars = 7;
    let table = rand_vec(&mut rng, 1 << num_vars);
    for c in 0..4usize {
        let (_, trit_mapping) = compute_trit_mappings(c);
        let ext = extend_table(&table, num_vars, c, &trit_mapping);
        let pow3 = 3usize.pow((c + 1) as u32);
        assert_eq!(ext.len(), pow3 << (num_vars - c - 1));
        for hi in 0..(1usize << (num_vars - c - 1)) {
            for b in 0..(1usize << (c + 1)) {
                let j = bits_to_trits(b);
                assert!(ext[hi * pow3 + j] == table[(hi << (c + 1)) + b]);
            }
        }
    }
}

#[test]
fn restrict_as_expected() {
    let mut rng = 0xfeed_0004u64;
    let num_vars = 8;
    let num_vars_to_restrict = 5;
    let pt = rand_vec(&mut rng, num_vars);
    let poly = rand_vec(&mut rng, 1 << num_vars);

    let mut poly_unzip = vec![];
    for i in 0..128 {
        poly_unzip.push(
            poly.iter()
                .map(|x| F128::new((x.raw() >> i) % 2 == 1))
                .collect::<Vec<_>>(),
        );
    }

    let answer = restrict(&poly, &pt[..num_vars_to_restrict], num_vars);

    for i in 0..128 {
        assert!(
            evaluate(&answer[i], &pt[num_vars_to_restrict..]) == evaluate(&poly_unzip[i], &pt)
        );
    }
}

#[test]
fn restrict_vs_restrict_legacy() {
    let mut rng = 0xfeed_0005u64;
    let num_vars = 8;
    let num_vars_to_restrict = 5;
    let pt = rand_vec(&mut rng, num_vars);
    let poly0 = rand_vec(&mut rng, 1 << num_vars);
    let poly1 = rand_vec(&mut rng, 1 << num_vars);
    let poly2 = rand_vec(&mut rng, 1 << num_vars);

    let polys = vec![poly0.clone(), poly1.clone(), poly2.clone()];

    let new_answer =
        boolcheck::protocols::utils::restrict(&polys, &pt[..num_vars_to_restrict], num_vars);

    let mut old_answer = vec![];
    for p in [&poly0, &poly1, &poly2] {
        old_answer.push(restrict_legacy(p, &pt[..num_vars_to_restrict], num_vars));
    }

    let flat: Vec<F128> = old_answer
        .into_iter()
        .map(|x| x.into_iter().flatten())
        .flatten()
        .collect();
    assert!(flat == new_answer);
}

#[test]
fn drop_top_bit_values() {
    assert_eq!(drop_top_bit(1), (0, 0));
    assert_eq!(drop_top_bit(2), (0, 1));
    assert_eq!(drop_top_bit(3), (1, 1));
    assert_eq!(drop_top_bit(128), (0, 7));
    assert_eq!(drop_top_bit(255), (127, 7));
    assert_eq!(drop_top_bit(0xb3), (0x33, 7));
}

#[test]
fn bits_to_trits_values() {
    assert_eq!(bits_to_trits(0), 0);
    assert_eq!(bits_to_trits(1), 1);
    assert_eq!(bits_to_trits(2), 3);
    assert_eq!(bits_to_trits(3), 4);
    assert_eq!(bits_to_trits(0b1011), 27 + 3 + 1);
}

#[test]
fn evaluate_univar_value() {
    // 1 + 2 t + 3 t^2 at t = 2 over GF(2^128): x * x = x^2, (x + 1) x^2 = x^3 + x^2,
    // and 1 xor x^2 xor (x^3 + x^2) = x^3 + 1
    let poly = vec![F128::from_raw(1), F128::from_raw(2), F128::from_raw(3)];
    let v = evaluate_univar(&poly, F128::from_raw(2));
    assert_eq!(v.raw(), 9);
}

#[test]
fn compress_roundtrip() {
    let mut rng = 0xfeed_0006u64;
    let poly = rand_vec(&mut rng, 4);
    let (compressed, sum) = CompressedPoly::compress(&poly);
    assert_eq!(compressed.compressed_coeffs.len(), 3);
    let recovered = compressed.coeffs(sum);
    assert!(recovered == poly);
}
