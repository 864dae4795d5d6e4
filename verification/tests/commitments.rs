use ark_ec::AffineRepr;
use ark_ff::PrimeField;
use rand::RngExt;
use zk_learning::commitments::{
    blinding_curve, inner_product_prover, inner_product_verifier, ipa_prover, ipa_verifier, InnerProductProtocol,
    IpaVerifierStep, PedersenCommitment, PedersenPolynomialCommitment, G1,
};
use zk_learning::field::Fe;
use zk_learning::fields::random_element;
use zk_learning::poly::Poly;

fn fe(v: i64) -> Fe {
    Fe::from_i64(v)
}

fn generator() -> G1 {
    let g = ark_bls12_381::G1Affine::generator();
    G1::from_coordinates(g.x.into_bigint().0, g.y.into_bigint().0).unwrap()
}

#[test]
fn pedersen_poly_comm_works() {
    let mut rng = rand::rng();
    let poly = Poly { coeffs: (0..10).map(|_| random_element(&mut rng)).collect() };

    let committed_poly = PedersenPolynomialCommitment::new(&poly, 1);
    let mut commitment = committed_poly.generate_commitment();
    let r = random_element(&mut rng);
    let (y, proof) = committed_poly.compute(r);

    assert!(PedersenPolynomialCommitment::verify(1, &commitment, r, y, proof));

    // tampering with anything breaks
    assert!(!PedersenPolynomialCommitment::verify(1, &commitment, r.add(&fe(1)), y, proof));
    assert!(!PedersenPolynomialCommitment::verify(1, &commitment, r, y.add(&fe(1)), proof));
    assert!(!PedersenPolynomialCommitment::verify(1, &commitment, r, y, proof.add(&fe(1))));

    commitment[0] = commitment[0].add(&generator());
    assert!(!PedersenPolynomialCommitment::verify(1, &commitment, r, y, proof));
}

#[test]
fn pedersen_commitment_values() {
    let v = vec![fe(3), fe(5)];
    let c = PedersenCommitment { v: v.clone(), s: fe(7), seed: 4 };
    let expected = blinding_curve(3)
        .scale(&fe(7))
        .add(&blinding_curve(4).scale(&fe(3)))
        .add(&blinding_curve(5).scale(&fe(5)));
    assert!(c.compute().equals(&expected));
    // a different blinding factor gives a different commitment
    let c2 = PedersenCommitment { v, s: fe(8), seed: 4 };
    assert!(!c2.compute().equals(&expected));
}

#[test]
fn polynomial_commitment_opening_values() {
    let poly = Poly { coeffs: vec![fe(1), fe(2), fe(3)] };
    let committed = PedersenPolynomialCommitment::new(&poly, 5);
    assert_eq!(committed.coeffs.len(), 3);
    let (y, proof) = committed.compute(fe(2));
    // 1 + 2·2 + 3·4
    assert_eq!(y, fe(17));
    let s = &committed.coeffs;
    let expected = s[0].s.add(&s[1].s.mul(&fe(2))).add(&s[2].s.mul(&fe(4)));
    assert_eq!(proof, expected);
    let commitment = committed.generate_commitment();
    assert!(PedersenPolynomialCommitment::verify(5, &commitment, fe(2), y, proof));
    // the wrong seed breaks the check
    assert!(!PedersenPolynomialCommitment::verify(6, &commitment, fe(2), y, proof));
}

#[test]
fn group_operations() {
    let a = blinding_curve(10);
    let b = blinding_curve(11);
    assert!(!a.equals(&b));
    assert!(a.add(&b).sub(&b).equals(&a));
    assert!(a.add(&b).equals(&b.add(&a)));
    assert!(a.scale(&fe(2)).equals(&a.add(&a)));
    assert!(a.scale(&fe(0)).equals(&G1::identity()));
    assert!(a.add(&G1::identity()).equals(&a));
    assert!(a.sub(&a).equals(&G1::identity()));
    assert!(blinding_curve(10).equals(&a));
}

#[test]
fn coordinates_beyond_the_base_field_or_off_the_curve_are_refused() {
    assert!(G1::from_coordinates([u64::MAX; 6], [0; 6]).is_none());
    assert!(G1::from_coordinates([0; 6], [u64::MAX; 6]).is_none());
    // (1, 2) is no point of y² = x³ + 4
    assert!(G1::from_coordinates([1, 0, 0, 0, 0, 0], [2, 0, 0, 0, 0, 0]).is_none());
    let g = ark_bls12_381::G1Affine::generator();
    let p = G1::from_coordinates(g.x.into_bigint().0, g.y.into_bigint().0).unwrap();
    assert!(p.equals(&G1::generator()));
}

fn perturb(rng: &mut rand::rngs::ThreadRng, val: G1, evil_odds: Option<f64>) -> G1 {
    if let Some(odds) = evil_odds {
        if rng.random::<f64>() < odds {
            return val.add(&blinding_curve(999));
        }
    }
    val
}

fn perturb_fe(rng: &mut rand::rngs::ThreadRng, val: Fe, evil_odds: Option<f64>) -> Fe {
    if let Some(odds) = evil_odds {
        if rng.random::<f64>() < odds {
            return val.add(&fe(1));
        }
    }
    val
}

fn perturb_message(rng: &mut rand::rngs::ThreadRng, m: InnerProductProtocol, odds: Option<f64>) -> InnerProductProtocol {
    match m {
        InnerProductProtocol::CommitPolynomials { c, l, ct, lt, qt, n } => InnerProductProtocol::CommitPolynomials {
            c: perturb(rng, c, odds),
            l: perturb(rng, l, odds),
            ct: perturb(rng, ct, odds),
            lt: perturb(rng, lt, odds),
            qt: perturb(rng, qt, odds),
            n,
        },
        InnerProductProtocol::PolynomialChallengeResponse { p1, p2, p_au, p_bu, p_tu } => {
            InnerProductProtocol::PolynomialChallengeResponse {
                p1: perturb_fe(rng, p1, odds),
                p2: perturb_fe(rng, p2, odds),
                p_au: perturb(rng, p_au, odds),
                p_bu: perturb(rng, p_bu, odds),
                p_tu: perturb(rng, p_tu, odds),
            }
        },
        InnerProductProtocol::CommitIPA { l, r } => {
            InnerProductProtocol::CommitIPA { l: perturb(rng, l, odds), r: perturb(rng, r, odds) }
        },
        other => other,
    }
}

/// Both parties in one thread, in the order of the protocol.
fn run_inner_product(a: Vec<Fe>, b: Vec<Fe>, evil_odds: Option<f64>) -> bool {
    let mut rng = rand::rng();
    let (prover, commit) = inner_product_prover(a, b);
    let commit = perturb_message(&mut rng, commit, evil_odds);
    let u = random_element(&mut rng);
    let (response, mut ipa) = prover.respond(u);
    let response = perturb_message(&mut rng, response, evil_odds);
    let Some(mut verifier) = inner_product_verifier(&commit, u, &response) else {
        return false;
    };
    loop {
        let msg = perturb_message(&mut rng, ipa_prover(&ipa, evil_odds.is_some()), evil_odds);
        let u = random_element(&mut rng);
        match ipa_verifier(&verifier, &msg, u) {
            IpaVerifierStep::Done(verdict) => return verdict,
            IpaVerifierStep::Next(next) => {
                verifier = next;
                ipa = ipa.fold(u).unwrap();
            },
        }
    }
}

#[test]
fn ipa_works() {
    let mut rng = rand::rng();
    for _ in 0..10 {
        let n = rng.random_range(4..10);
        let a: Vec<_> = (0..n).map(|_| random_element(&mut rng)).collect();
        let b: Vec<_> = (0..n).map(|_| random_element(&mut rng)).collect();
        assert!(run_inner_product(a.clone(), b.clone(), None));
        assert!(!run_inner_product(a, b, Some(rng.random())));
    }
}

#[test]
fn ipa_rejects_messages_of_the_wrong_kind() {
    let a = vec![fe(1), fe(2)];
    let b = vec![fe(3), fe(4)];
    let (prover, commit) = inner_product_prover(a, b);
    let u = fe(5);
    let (response, ipa) = prover.respond(u);
    assert!(inner_product_verifier(&response, u, &commit).is_none());
    assert!(inner_product_verifier(&commit, u, &commit).is_none());
    let verifier = inner_product_verifier(&commit, u, &response).unwrap();
    // vectors of length 2 give 2·2 + 1 = 5 entries, padded to 8
    assert_eq!(verifier.n, 8);
    assert_eq!(ipa.a.len(), 8);
    let wrong = InnerProductProtocol::FinishIPA { a: fe(1) };
    assert!(matches!(ipa_verifier(&verifier, &wrong, fe(3)), IpaVerifierStep::Done(false)));
    // a zero challenge cannot be inverted
    let cross = ipa_prover(&ipa, false);
    assert!(matches!(ipa_verifier(&verifier, &cross, fe(0)), IpaVerifierStep::Done(false)));
    assert!(ipa.fold(fe(0)).is_none());
}

#[test]
fn ipa_prover_messages() {
    let a = vec![fe(1), fe(2), fe(3)];
    let b = vec![fe(4), fe(5), fe(6)];
    let (prover, commit) = inner_product_prover(a.clone(), b.clone());
    match commit {
        InnerProductProtocol::CommitPolynomials { ct, n, .. } => {
            assert_eq!(n, 3);
            // ct = ⟨a, b⟩·G' + γ3·B with ⟨a, b⟩ = 32
            let expected = blinding_curve(0).scale(&fe(32)).add(&blinding_curve(1).scale(&prover.g3));
            assert!(ct.equals(&expected));
        },
        _ => panic!("expected the commitments"),
    }
    let u = fe(2);
    let (response, ipa) = prover.respond(u);
    match response {
        InnerProductProtocol::PolynomialChallengeResponse { p1, .. } => {
            assert_eq!(p1, prover.g1.add(&prover.g2.mul(&u)));
        },
        _ => panic!("expected the openings"),
    }
    // a(u) and b(u) come first, then t(u), then zeros up to 8
    assert_eq!(ipa.a[0], a[0].add(&prover.sa[0].mul(&u)));
    assert_eq!(ipa.a[3], b[0].add(&prover.sb[0].mul(&u)));
    assert_eq!(ipa.a[7], fe(0));
    // a last entry is sent as is, or plus one when lying
    let last = zk_learning::commitments::IpaProver { p: G1::identity(), g: vec![G1::identity()], a: vec![fe(9)] };
    assert!(matches!(ipa_prover(&last, false), InnerProductProtocol::FinishIPA { a } if a == fe(9)));
    assert!(matches!(ipa_prover(&last, true), InnerProductProtocol::FinishIPA { a } if a == fe(10)));
}

#[test]
fn verifier_scalars_match_the_folded_basis() {
    let g: Vec<G1> = (20..24).map(blinding_curve).collect();
    let a = vec![fe(1), fe(2), fe(3), fe(4)];
    let p = g.iter().zip(a.iter()).fold(G1::identity(), |acc, (gi, ai)| acc.add(&gi.scale(ai)));
    let prover = zk_learning::commitments::IpaProver { p, g: g.clone(), a };
    let verifier = zk_learning::commitments::IpaVerifier { p, n: 4, g: g.clone(), scalars: vec![fe(1)] };
    let (u0, u1) = (fe(5), fe(7));

    let msg = ipa_prover(&prover, false);
    let IpaVerifierStep::Next(verifier) = ipa_verifier(&verifier, &msg, u0) else { panic!("expected a round") };
    let prover = prover.fold(u0).unwrap();
    let msg = ipa_prover(&prover, false);
    let IpaVerifierStep::Next(verifier) = ipa_verifier(&verifier, &msg, u1) else { panic!("expected a round") };
    let prover = prover.fold(u1).unwrap();

    // [1] → [1, u0] → [1, u0, u1, u0·u1]
    assert_eq!(verifier.scalars, vec![fe(1), fe(5), fe(7), fe(35)]);
    assert_eq!(prover.g.len(), 1);
    let combined = g.iter().zip(verifier.scalars.iter()).fold(G1::identity(), |acc, (gi, si)| acc.add(&gi.scale(si)));
    assert!(prover.g[0].equals(&combined));
    // the honest claim survives the rounds
    let last = ipa_prover(&prover, false);
    assert!(matches!(ipa_verifier(&verifier, &last, fe(1)), IpaVerifierStep::Done(true)));
}

#[test]
fn g1_linearity() {
    let a = fe(5357);
    let b = fe(123123);
    let g = generator();
    assert!(g.scale(&a).add(&g.scale(&b)).equals(&g.scale(&a.add(&b))));
    assert!(g.scale(&a).scale(&b).equals(&g.scale(&a.mul(&b))));
}

#[test]
fn honest_openings_are_accepted_and_hand_on_the_provers_claim() {
    for u in [1i64, 2, 7, -3] {
        let a = vec![fe(1), fe(2), fe(3)];
        let b = vec![fe(4), fe(5), fe(6)];
        let (prover, commit) = inner_product_prover(a, b);
        let (response, ipa) = prover.respond(fe(u));
        let verifier = inner_product_verifier(&commit, fe(u), &response).unwrap();
        assert!(verifier.p.equals(&ipa.p));
        assert_eq!(verifier.n, ipa.a.len());
    }
}

#[test]
fn halving_argument_accepts_an_honest_prover_for_fixed_challenges() {
    // a basis of four generators and p = ⟨a, g⟩
    let g: Vec<G1> = (2..6).map(blinding_curve).collect();
    let a = vec![fe(3), fe(-1), fe(4), fe(10)];
    let mut p = G1::identity();
    for i in 0..4 {
        p = p.add(&g[i].scale(&a[i]));
    }
    let mut prover = zk_learning::commitments::IpaProver { p, g: g.clone(), a };
    let mut verifier = zk_learning::commitments::IpaVerifier { p, n: 4, g, scalars: vec![Fe::one()] };
    for u in [fe(5), fe(-7)] {
        let msg = ipa_prover(&prover, false);
        match ipa_verifier(&verifier, &msg, u) {
            IpaVerifierStep::Next(next) => verifier = next,
            IpaVerifierStep::Done(_) => panic!("the argument ended early"),
        }
        prover = prover.fold(u).unwrap();
        assert!(verifier.p.equals(&prover.p));
    }
    let last = ipa_prover(&prover, false);
    assert!(matches!(ipa_verifier(&verifier, &last, fe(1)), IpaVerifierStep::Done(true)));
    // the same run with the last scalar off by one is rejected
    let lie = ipa_prover(&prover, true);
    assert!(matches!(ipa_verifier(&verifier, &lie, fe(1)), IpaVerifierStep::Done(false)));
}

#[test]
fn polynomial_commitment_opens_at_several_points() {
    let poly = Poly { coeffs: vec![fe(2), fe(0), fe(-5), fe(1)] };
    let pc = PedersenPolynomialCommitment::new(&poly, 7);
    let cm = pc.generate_commitment();
    for x in [0i64, 1, 3, -2] {
        let (y, pi) = pc.compute(fe(x));
        // p(x) = 2 - 5x² + x³
        assert_eq!(y, fe(2 - 5 * x * x + x * x * x));
        assert!(PedersenPolynomialCommitment::verify(7, &cm, fe(x), y, pi));
        assert!(!PedersenPolynomialCommitment::verify(7, &cm, fe(x), y.add(&Fe::one()), pi));
    }
}

#[test]
fn pedersen_commitments_add_up() {
    let v1 = vec![fe(1), fe(2), fe(3)];
    let v2 = vec![fe(10), fe(-4), fe(7)];
    let (s1, s2) = (fe(11), fe(13));
    let c1 = PedersenCommitment { v: v1.clone(), s: s1, seed: 5 }.compute();
    let c2 = PedersenCommitment { v: v2.clone(), s: s2, seed: 5 }.compute();
    let sum: Vec<Fe> = v1.iter().zip(v2.iter()).map(|(x, y)| x.add(y)).collect();
    let c3 = PedersenCommitment { v: sum, s: s1.add(&s2), seed: 5 }.compute();
    assert!(c1.add(&c2).equals(&c3));
    // another seed draws other generators
    let c4 = PedersenCommitment { v: vec![fe(11), fe(-2), fe(10)], s: fe(24), seed: 6 }.compute();
    assert!(!c3.equals(&c4));
}
