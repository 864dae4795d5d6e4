use zk_learning::field::Fe;
use zk_learning::mle::MultilinearExtension;
use zk_learning::sumcheck::{run_sum_check, run_sum_check_non_interactive, run_sum_check_with_oracle, SumCheckProver, SumCheckVerifier};

fn fe(v: i64) -> Fe {
    Fe::from_i64(v)
}

fn simple_fn(x0: Fe, x1: Fe) -> Fe {
    x0.add(&fe(2).mul(&x1)).add(&fe(3).mul(&x0).mul(&x1))
}

fn table() -> Vec<Fe> {
    let mut f = vec![fe(0); 4];
    for i in 0i64..4 {
        f[i as usize] = simple_fn(fe((i >> 1) & 1), fe(i & 1));
    }
    f
}

#[test]
fn sum_check_with_interaction_works() {
    let mle = MultilinearExtension::new(table());
    let f = Box::new(|x: &[Fe]| mle.evaluate(x));
    let prover = SumCheckProver::new(f.clone(), 2, 1);
    assert!(run_sum_check(prover.clone(), |sum: Fe| SumCheckVerifier::new(sum, f.clone())).0);

    assert!(!run_sum_check(prover, |sum: Fe| SumCheckVerifier::new(sum.add(&fe(1)), f.clone())).0);
}

#[test]
fn sum_check_without_interaction_works() {
    let mle = MultilinearExtension::new(table());
    let f = Box::new(|x: &[Fe]| mle.evaluate(x));
    let prover = SumCheckProver::new(f.clone(), 2, 1);
    assert!(run_sum_check_non_interactive(prover.clone(), |sum: Fe| SumCheckVerifier::new(sum, f.clone())));

    assert!(!run_sum_check_non_interactive(prover, |sum: Fe| {
        SumCheckVerifier::new(sum.add(&fe(1)), f.clone())
    }));
}

#[test]
fn claimed_sum_is_the_hypercube_sum() {
    // f(0,0) + f(0,1) + f(1,0) + f(1,1) = 0 + 2 + 1 + 6 = 9
    let mle = MultilinearExtension::new(table());
    let f = Box::new(|x: &[Fe]| mle.evaluate(x));
    let prover = SumCheckProver::new(f.clone(), 2, 1);
    assert_eq!(prover.H(), fe(9));
    let (ok, sum) = run_sum_check(prover, |sum: Fe| SumCheckVerifier::new(sum, f.clone()));
    assert!(ok);
    assert_eq!(sum, fe(9));
}

#[test]
fn sum_check_with_a_lying_oracle_fails() {
    let mle = MultilinearExtension::new(table());
    let f = Box::new(|x: &[Fe]| mle.evaluate(x));
    let prover = SumCheckProver::new(f, 2, 1);
    let (ok, sum) = run_sum_check_with_oracle(prover, |x: &[Fe]| mle.evaluate(x).add(&fe(1)));
    assert!(!ok);
    assert_eq!(sum, fe(9));
}

#[test]
fn round_polynomials_sum_to_the_claim() {
    let mle = MultilinearExtension::new(table());
    let f = Box::new(|x: &[Fe]| mle.evaluate(x));
    let mut prover = SumCheckProver::new(f, 2, 1);
    let g = prover.next();
    let at0 = zk_learning::poly::evaluate(&g, &fe(0));
    let at1 = zk_learning::poly::evaluate(&g, &fe(1));
    assert_eq!(at0.add(&at1), fe(9));
    // the first variable fixed to 0: f(0,0) + f(0,1) = 2
    assert_eq!(at0, fe(2));
}
