use zk_learning::field::Fe;
use zk_learning::fields::random_element;
use zk_learning::mle::MultilinearExtension;
use zk_learning::poly::{agree_at, evaluate, lagrange_interpolate, Poly, PolyChecker};

fn fe(v: i64) -> Fe {
    Fe::from_i64(v)
}

fn cast(a: Vec<i64>) -> Vec<Fe> {
    a.into_iter().map(fe).collect()
}

fn x_to_points(poly: &Poly, xs: Vec<i64>) -> Vec<(Fe, Fe)> {
    cast(xs).into_iter().map(|x| (x, evaluate(poly, &x))).collect()
}

fn simple_fn(x0: Fe, x1: Fe) -> Fe {
    x0.add(&fe(2).mul(&x1))
}

#[test]
fn mle_works() {
    let mut f = vec![fe(0); 4];
    for i in 0i64..4 {
        f[i as usize] = simple_fn(fe((i >> 1) & 1), fe(i & 1));
    }
    let mle = MultilinearExtension::new(f.clone());
    for i in 0..4 {
        assert_eq!(mle.evaluate(&vec![fe((i >> 1) as i64 & 1), fe(i as i64 & 1)]), f[i], "failed at {i}");
    }

    let mut rng = rand::rng();
    let r0 = random_element(&mut rng);
    let r1 = random_element(&mut rng);
    assert_eq!(mle.evaluate(&vec![r0, r1]), simple_fn(r0, r1));
}

fn complex_fn(x0: Fe, x1: Fe, x2: Fe) -> Fe {
    x0.mul(&x0).mul(&x1).mul(&x1)
        .add(&x0.mul(&x2))
        .add(&x1.mul(&x2))
        .add(&x2.mul(&x2).mul(&x2))
        .add(&fe(1))
}

#[test]
fn mle_works_2() {
    let mut f = vec![fe(0); 8];
    for i in 0i64..8 {
        f[i as usize] = complex_fn(fe((i >> 2) & 1), fe((i >> 1) & 1), fe(i & 1));
    }
    let mle = MultilinearExtension::new(f.clone());
    for i in 0..8 {
        assert_eq!(
            mle.evaluate(&vec![fe((i >> 2) as i64 & 1), fe((i >> 1) as i64 & 1), fe(i as i64 & 1)]),
            f[i],
            "failed at {i}"
        );
    }

    let mut rng = rand::rng();
    let r0 = random_element(&mut rng);
    let r1 = random_element(&mut rng);
    let r2 = random_element(&mut rng);
    let expected = r0.mul(&r1).add(&r0.mul(&r2)).add(&r1.mul(&r2)).add(&r2).add(&fe(1));
    assert_eq!(mle.evaluate(&vec![r0, r1, r2]), expected);
}

#[test]
fn mle_eq_indicator_values() {
    assert_eq!(MultilinearExtension::eq(fe(0), fe(0)), fe(1));
    assert_eq!(MultilinearExtension::eq(fe(1), fe(1)), fe(1));
    assert_eq!(MultilinearExtension::eq(fe(0), fe(1)), fe(0));
    assert_eq!(MultilinearExtension::eq(fe(1), fe(0)), fe(0));
    // x·y + (1 - x)(1 - y) at (2, 3) is 6 + 2 = 8
    assert_eq!(MultilinearExtension::eq(fe(2), fe(3)), fe(8));
}

#[test]
fn mle_of_a_single_value_is_constant() {
    let mle = MultilinearExtension::new(vec![fe(42)]);
    assert_eq!(mle.k, 0);
    assert_eq!(mle.evaluate(&[]), fe(42));
}

#[test]
fn lagrange_works() {
    // x^2 + 2x + 3
    let poly = Poly { coeffs: cast(vec![3, 2, 1]) };
    let points = x_to_points(&poly, vec![4, 7, 11]);
    let interp = lagrange_interpolate(&points);
    assert_eq!(poly, interp);

    // 12x^5 + 4x^4 + 7x^3 + 6x^2 + 2x + 3
    let poly = Poly { coeffs: cast(vec![3, 2, 6, 7, 4, 12]) };
    let points = x_to_points(&poly, vec![1, 12, 13, 0, 4, 7]);
    let interp = lagrange_interpolate(&points);
    assert_eq!(poly, interp);
}

#[test]
fn lagrange_through_given_points() {
    let points = vec![(fe(0), fe(5)), (fe(1), fe(-1)), (fe(3), fe(2)), (fe(-2), fe(10))];
    let interp = lagrange_interpolate(&points);
    assert!(interp.coeffs.len() <= points.len());
    for (x, y) in points {
        assert_eq!(evaluate(&interp, &x), y);
    }
}

#[test]
fn lagrange_of_a_constant_is_trimmed() {
    let points = vec![(fe(1), fe(7)), (fe(2), fe(7)), (fe(3), fe(7))];
    let interp = lagrange_interpolate(&points);
    assert_eq!(interp, Poly { coeffs: cast(vec![7]) });
}

#[test]
fn probabilistic_equality() {
    let a = Poly { coeffs: cast(vec![5, 2]) };
    let b = Poly { coeffs: cast(vec![3, 1]) };
    let mut checker = PolyChecker::new();
    assert!(!checker.check(&a, &b));
    assert!(checker.check(&a, &a));
    assert!(checker.check(&b, &b));
}

#[test]
fn agree_at_points() {
    let a = Poly { coeffs: cast(vec![5, 2]) };
    let b = Poly { coeffs: cast(vec![3, 4]) };
    // 5 + 2x = 3 + 4x exactly at x = 1
    assert!(agree_at(&a, &b, &fe(1)));
    assert!(!agree_at(&a, &b, &fe(2)));
}

#[test]
fn polynomial_arithmetic() {
    let a = Poly { coeffs: cast(vec![1, 1]) }; // 1 + x
    let b = Poly { coeffs: cast(vec![-1, 1]) }; // -1 + x
    assert_eq!(a.mul(&b), Poly { coeffs: cast(vec![-1, 0, 1]) });
    assert_eq!(a.add(&b), Poly { coeffs: cast(vec![0, 2]) });
    assert_eq!(a.sub(&b), Poly { coeffs: cast(vec![2]) });
    assert_eq!(a.mul(&b).div(&a), b);
    assert_eq!(a.scale(&fe(3)), Poly { coeffs: cast(vec![3, 3]) });
    assert_eq!(evaluate(&a.mul(&b), &fe(5)), fe(24));
}

#[test]
fn mle_split_on_first_coordinate() {
    let f = cast(vec![3, 1, 4, 1, 5, 9, 2, 6]);
    let point = cast(vec![7, 11, 13]);
    let whole = MultilinearExtension::new(f.clone()).evaluate(&point);
    let lo = MultilinearExtension::new(f[..4].to_vec()).evaluate(&point[1..]);
    let hi = MultilinearExtension::new(f[4..].to_vec()).evaluate(&point[1..]);
    let split = fe(1).sub(&point[0]).mul(&lo).add(&point[0].mul(&hi));
    assert_eq!(whole, split);
}

#[test]
fn interpolating_own_values_recovers_the_polynomial() {
    let p = Poly { coeffs: cast(vec![5, -2, 0, 7]) };
    let points = x_to_points(&p, vec![1, 2, 3, 4]);
    let q = lagrange_interpolate(&points);
    assert_eq!(q.coeffs, p.coeffs);
    let more = x_to_points(&p, vec![10, 20, 30, 40, 50, 60]);
    assert_eq!(lagrange_interpolate(&more).coeffs, p.coeffs);
}
