use zk_learning::field::Fe;
use zk_learning::fields::random_element;
use zk_learning::qap::{trust_me_bro_verify, QAP};
use zk_learning::r1cs::{Matrix, R1CS};
use zk_learning::spartan::{spartan_naive, spartan_naive_at};

fn fe(v: i64) -> Fe {
    Fe::from_i64(v)
}

fn cast(a: Vec<Vec<i64>>) -> Matrix {
    a.into_iter().map(|v| v.into_iter().map(fe).collect()).collect()
}

/// encodes 3x^2 + 4x + 2, witness [1, out, x]
fn easy_r1cs() -> R1CS {
    let c = vec![vec![fe(-2), fe(1), fe(-4)]];
    let a = vec![vec![fe(0), fe(0), fe(3)]];
    let b = vec![vec![fe(0), fe(0), fe(1)]];
    R1CS::new(a, b, c)
}

fn easy_witness(x: Fe) -> Vec<Fe> {
    let out = fe(2).add(&fe(4).mul(&x)).add(&fe(3).mul(&x).mul(&x));
    vec![fe(1), out, x]
}

/// encodes (x^2 - y^2)^2 + 7xyz, witness [1, out, x, y, z, v1, v2, v3, v4]
fn hard_r1cs() -> R1CS {
    let c = cast(vec![
        vec![0, 0, 0, 0, 0, 1, 0, 0, 0],
        vec![0, 0, 0, 0, 0, 0, 1, 0, 0],
        vec![0, 0, 0, 0, 0, 0, 0, 1, 0],
        vec![0, 0, 0, 0, 0, 0, 0, 0, 1],
        vec![0, 1, 0, 0, 0, 0, 0, 0, -7],
    ]);
    let a = cast(vec![
        vec![0, 0, 1, 0, 0, 0, 0, 0, 0],
        vec![0, 0, 0, 1, 0, 0, 0, 0, 0],
        vec![0, 0, 1, 0, 0, 0, 0, 0, 0],
        vec![0, 0, 0, 0, 0, 0, 0, 1, 0],
        vec![0, 0, 0, 0, 0, 1, -1, 0, 0],
    ]);
    let b = cast(vec![
        vec![0, 0, 1, 0, 0, 0, 0, 0, 0],
        vec![0, 0, 0, 1, 0, 0, 0, 0, 0],
        vec![0, 0, 0, 1, 0, 0, 0, 0, 0],
        vec![0, 0, 0, 0, 1, 0, 0, 0, 0],
        vec![0, 0, 0, 0, 0, 1, -1, 0, 0],
    ]);
    R1CS::new(a, b, c)
}

fn hard_witness(x: Fe, y: Fe, z: Fe) -> Vec<Fe> {
    let v1 = x.mul(&x);
    let v2 = y.mul(&y);
    let v3 = x.mul(&y);
    let v4 = v3.mul(&z);
    let d = v1.sub(&v2);
    let out = d.mul(&d).add(&fe(7).mul(&v4));
    vec![fe(1), out, x, y, z, v1, v2, v3, v4]
}

#[test]
fn easy() {
    let r1cs = easy_r1cs();
    for i in 0..10 {
        let witness = cast(vec![vec![1], vec![3 * i * i + 4 * i + 2], vec![i]]);
        assert!(r1cs.is_satisfied(&witness));

        let bad_witness = cast(vec![vec![1], vec![3 * i * i + 4 * i + 3], vec![i]]);
        assert!(!r1cs.is_satisfied(&bad_witness));
    }
}

#[test]
fn medium() {
    // x^3 + 2xy + y^2 with witness [1, out, x, y, v1, v2, v3]
    let c = cast(vec![
        vec![0, 0, 0, 0, 1, 0, 0],
        vec![0, 0, 0, 0, 0, 1, 0],
        vec![0, 0, 0, 0, 0, 0, 1],
        vec![0, 1, 0, 0, 0, -1, -1],
    ]);
    let a = cast(vec![
        vec![0, 0, 1, 0, 0, 0, 0],
        vec![0, 0, 0, 0, 1, 0, 0],
        vec![0, 0, 0, 1, 0, 0, 0],
        vec![0, 0, 2, 0, 0, 0, 0],
    ]);
    let b = cast(vec![
        vec![0, 0, 1, 0, 0, 0, 0],
        vec![0, 0, 1, 0, 0, 0, 0],
        vec![0, 0, 0, 1, 0, 0, 0],
        vec![0, 0, 0, 1, 0, 0, 0],
    ]);
    let r1cs = R1CS::new(a, b, c);
    for x in 0..10 {
        for y in 0..10 {
            let witness = cast(vec![
                vec![1],
                vec![x * x * x + 2 * x * y + y * y],
                vec![x],
                vec![y],
                vec![x * x],
                vec![x * x * x],
                vec![y * y],
            ]);
            assert!(r1cs.is_satisfied(&witness));

            let bad_witness = cast(vec![
                vec![1],
                vec![x * x * x + 2 * x * y + y * y],
                vec![x],
                vec![y],
                vec![x * x + 1],
                vec![x * x * x],
                vec![y * y],
            ]);
            assert!(!r1cs.is_satisfied(&bad_witness));
        }
    }
}

#[test]
fn hard() {
    let r1cs = hard_r1cs();
    for x in 0i64..10 {
        for y in 0..10 {
            for z in 0..10 {
                let witness = cast(vec![
                    vec![1],
                    vec![(x * x - y * y).pow(2) + 7 * x * y * z],
                    vec![x],
                    vec![y],
                    vec![z],
                    vec![x * x],
                    vec![y * y],
                    vec![x * y],
                    vec![x * y * z],
                ]);
                assert!(r1cs.is_satisfied(&witness));

                let bad_witness = cast(vec![
                    vec![1],
                    vec![(x * x - y * y).pow(2) + 7 * x * y * z],
                    vec![x],
                    vec![y],
                    vec![z],
                    vec![x * x],
                    vec![y * y - 1],
                    vec![x * y],
                    vec![x * y * z],
                ]);
                assert!(!r1cs.is_satisfied(&bad_witness));
            }
        }
    }
}

#[test]
fn fib() {
    // (a, b) -> (b, a + b) with witness [1, a, b, anext, bnext]
    let c = cast(vec![vec![0, 0, -1, 1, 0], vec![0, -1, -1, 0, 1]]);
    let a = cast(vec![vec![0, 0, 0, 0, 0], vec![0, 0, 0, 0, 0]]);
    let b = cast(vec![vec![0, 0, 0, 0, 0], vec![0, 0, 0, 0, 0]]);
    let r1cs = R1CS::new(a, b, c);

    let mut va = 1;
    let mut vb = 1;
    for _ in 0..10 {
        let witness = cast(vec![vec![1], vec![va], vec![vb], vec![vb], vec![va + vb]]);
        assert!(r1cs.is_satisfied(&witness));

        let bad_witness = cast(vec![vec![1], vec![va], vec![vb - 1], vec![vb], vec![va + vb]]);
        assert!(!r1cs.is_satisfied(&bad_witness));

        let c = vb;
        vb = va + vb;
        va = c;
    }
}

#[test]
fn simple_compute_easy_verify() {
    let r1cs = easy_r1cs();
    let qap = QAP::new(&r1cs);
    let mut rng = rand::rng();

    for _ in 0..10 {
        let i = random_element(&mut rng);
        let mut witness = easy_witness(i);
        let prover = qap.create_prover(&witness);

        let r = random_element(&mut rng);
        let (a, b, c) = prover.trust_me_bro_compute(r);
        assert!(trust_me_bro_verify(a, b, c));
        assert!(!trust_me_bro_verify(a.add(&fe(1)), b, c));

        witness[1] = witness[1].add(&fe(1));
        let prover = qap.create_prover(&witness);
        let (a, b, c) = prover.trust_me_bro_compute(r);
        assert!(!trust_me_bro_verify(a, b, c));
    }
}

#[test]
fn simple_compute_hard_verify() {
    let r1cs = hard_r1cs();
    let qap = QAP::new(&r1cs);
    let mut rng = rand::rng();

    for _ in 0..10 {
        let i = random_element(&mut rng);
        let j = random_element(&mut rng);
        let k = random_element(&mut rng);
        let mut witness = hard_witness(i, j, k);
        let prover = qap.create_prover(&witness);

        let r = random_element(&mut rng);
        let (a, b, c) = prover.trust_me_bro_compute(r);
        assert!(trust_me_bro_verify(a, b, c));
        assert!(!trust_me_bro_verify(a.add(&fe(1)), b, c));

        witness[1] = witness[1].add(&fe(1));
        let prover = qap.create_prover(&witness);
        let (a, b, c) = prover.trust_me_bro_compute(r);
        assert!(!trust_me_bro_verify(a, b, c));
    }
}

#[test]
fn spartan_works() {
    let r1cs = hard_r1cs();
    let mut rng = rand::rng();
    let (x, y, z) = (random_element(&mut rng), random_element(&mut rng), random_element(&mut rng));
    let mut witness = hard_witness(x, y, z);
    // iolen = 3: 1, out and x are public, the rest private
    assert!(spartan_naive(r1cs.clone(), witness.clone(), 3));

    witness[1] = witness[1].add(&fe(1));
    assert!(!spartan_naive(r1cs, witness, 3));
}

#[test]
fn spartan_accepts_and_rejects_the_small_circuit() {
    let r1cs = easy_r1cs();
    for i in 0..5 {
        let mut witness = easy_witness(fe(i));
        // only the constant 1 is public
        assert!(spartan_naive(r1cs.clone(), witness.clone(), 0));
        witness[2] = witness[2].add(&fe(1));
        assert!(!spartan_naive(r1cs.clone(), witness, 0));
    }
}

#[test]
fn r1cs_single_constraint_values() {
    // x * x = y with witness [1, x, y]
    let a = cast(vec![vec![0, 1, 0]]);
    let b = cast(vec![vec![0, 1, 0]]);
    let c = cast(vec![vec![0, 0, 1]]);
    let r1cs = R1CS::new(a, b, c);
    assert!(r1cs.is_satisfied(&cast(vec![vec![1], vec![5], vec![25]])));
    assert!(r1cs.is_satisfied(&cast(vec![vec![1], vec![-5], vec![25]])));
    assert!(!r1cs.is_satisfied(&cast(vec![vec![1], vec![5], vec![24]])));
}

#[test]
fn qap_circuit_poly_vanishes_on_the_domain() {
    let t = QAP::circuit_poly(4);
    for i in 1..=4 {
        assert_eq!(zk_learning::poly::evaluate(&t, &fe(i)), fe(0));
    }
    assert_ne!(zk_learning::poly::evaluate(&t, &fe(5)), fe(0));
    // (x - 1)(x - 2)(x - 3)(x - 4) at 0 is 24
    assert_eq!(zk_learning::poly::evaluate(&t, &fe(0)), fe(24));
}

#[test]
fn spartan_at_a_fixed_challenge_accepts_a_satisfying_witness() {
    // 5 constraints and 5 private entries: halves of 8, so 4 variables
    let tau = vec![fe(3), fe(5), fe(7), fe(11)];
    let witness = hard_witness(fe(2), fe(3), fe(4));
    assert!(spartan_naive_at(&hard_r1cs(), &witness, 3, &tau));
    let other = vec![fe(-1), fe(0), fe(1), fe(2)];
    assert!(spartan_naive_at(&hard_r1cs(), &witness, 3, &other));
}
