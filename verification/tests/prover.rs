use boolcheck::andcheck::{eq_ev, eq_poly, AndcheckProver};
use boolcheck::field::F128;
use boolcheck::protocols::boolcheck::{AndPackage, BoolCheck};

fn rng_next(state: &mut u64) -> u64 {
    *state = state.wrapping_add(0x9e3779b97f4a7c15);
    let mut z = *state;
    z = (z ^ (z >> 30)).wrapping_mul(0xbf58476d1ce4e5b9);
    z = (z ^ (z >> 27)).wrapping_mul(0x94d049bb133111eb);
    z ^ (z >> 31)
}

fn rand_f128(state: &mut u64) -> F128 {
    let hi = rng_next(state) as u128;
    let lo = rng_next(state) as u128;
    F128::from_raw((hi << 64) | lo)
}

fn rand_vec(state: &mut u64, n: usize) -> Vec<F128> {
    (0..n).map(|_| rand_f128(state)).collect()
}

fn and_claim(p: &[F128], q: &[F128], pt: &[F128]) -> F128 {
    let eq = eq_poly(pt);
    let mut acc = F128::zero();
    for x in 0..p.len() {
        acc = acc.add(p[x].bitand(q[x]).mul(eq[x]));
    }
    acc
}

fn run_andcheck(num_vars: usize, phase_switch: usize, seed: u64) {
    let mut rng = seed;
    let pt = rand_vec(&mut rng, num_vars);
    let p = rand_vec(&mut rng, 1 << num_vars);
    let q = rand_vec(&mut rng, 1 << num_vars);

    let evaluation_claim = and_claim(&p, &q, &pt);

    let mut prover = AndcheckProver::new(pt, p, q, evaluation_claim, phase_switch, false);

    for _ in 0..num_vars {
        let round_challenge = rand_f128(&mut rng);
        prover.round(round_challenge);
    }

    assert!(
        prover.finish().apply_algebraic_combinator().mul(eq_ev(&prover.pt, &prover.challenges))
            == prover.evaluation_claim
    );
}

#[test]
fn small_andcheck() {
    run_andcheck(5, 3, 0xab01);
}

#[test]
fn verify_prover() {
    let num_vars = 20;
    let phase_switch = 5;
    run_andcheck(num_vars, phase_switch, 0xab02);
}

#[test]
fn round_msg_idempotent() {
    let mut rng = 0xab03u64;
    let num_vars = 6;
    let c = 3;
    let pt = rand_vec(&mut rng, num_vars);
    let p = rand_vec(&mut rng, 1 << num_vars);
    let q = rand_vec(&mut rng, 1 << num_vars);
    let claim = and_claim(&p, &q, &pt);

    let instance = BoolCheck::new(AndPackage, vec![p, q], c, vec![claim], pt);
    let mut single = instance.folding_challenge(rand_f128(&mut rng));

    for _ in 0..num_vars {
        let m1 = single.round_msg();
        let m2 = single.round_msg();
        assert!(m1.compressed_coeffs == m2.compressed_coeffs);
        single.bind(rand_f128(&mut rng));
    }
}

#[test]
fn new_andcheck() {
    let mut rng = 0xab04u64;
    let num_vars = 16;
    let phase_switch = 5;

    let pt = rand_vec(&mut rng, num_vars);
    let p = rand_vec(&mut rng, 1 << num_vars);
    let q = rand_vec(&mut rng, 1 << num_vars);

    let evaluation_claim = and_claim(&p, &q, &pt);

    let mut legacy_instance = AndcheckProver::new(
        pt.clone(),
        p.clone(),
        q.clone(),
        evaluation_claim,
        phase_switch,
        true,
    );

    let instance = BoolCheck::new(
        AndPackage,
        vec![p, q],
        phase_switch,
        vec![evaluation_claim],
        pt,
    );

    let mut instance = instance.folding_challenge(rand_f128(&mut rng));

    let mut challenges = vec![];
    for _ in 0..num_vars {
        challenges.push(rand_f128(&mut rng));
    }

    for i in 0..num_vars {
        legacy_instance.round(challenges[i]);
    }

    for i in 0..num_vars {
        instance.bind(challenges[i]);
    }

    assert!(legacy_instance.evaluation_claim == instance.claim);
}

#[test]
fn boolcheck_vs_andcheck_small() {
    let mut rng = 0xab05u64;
    let num_vars = 6;
    let phase_switch = 3;

    let pt = rand_vec(&mut rng, num_vars);
    let p = rand_vec(&mut rng, 1 << num_vars);
    let q = rand_vec(&mut rng, 1 << num_vars);

    let evaluation_claim = and_claim(&p, &q, &pt);

    let mut legacy =
        AndcheckProver::new(pt.clone(), p.clone(), q.clone(), evaluation_claim, phase_switch, true);
    let mut single = BoolCheck::new(
        AndPackage,
        vec![p, q],
        phase_switch,
        vec![evaluation_claim],
        pt,
    )
    .folding_challenge(rand_f128(&mut rng));

    for _ in 0..num_vars {
        let t = rand_f128(&mut rng);
        legacy.round(t);
        single.bind(t);
    }

    assert!(legacy.evaluation_claim == single.claim);
}
