use zk_learning::field::Fe;
use zk_learning::fields::{inverse, pow, random_element};

fn fe(v: u64) -> Fe {
    Fe::from_u64(v)
}

#[test]
fn zero_power() {
    for i in 0..10 {
        assert_eq!(pow(fe(i), fe(0)), fe(1));
    }
}

#[test]
fn square() {
    assert_eq!(pow(fe(10), fe(2)), fe(100));
}

#[test]
fn large_power() {
    assert_eq!(pow(fe(2), fe(10)), fe(1024));
}

#[test]
fn inverse_correctness() {
    for i in 1i64..10 {
        assert_eq!(inverse(Fe::from_i64(i)).mul(&Fe::from_i64(i)), fe(1));
    }
}

#[test]
fn pow_matches_repeated_multiplication() {
    let mut rng = rand::rng();
    let a = random_element(&mut rng);
    let mut acc = fe(1);
    for e in 0..20u64 {
        assert_eq!(pow(a, fe(e)), acc);
        acc = acc.mul(&a);
    }
}

#[test]
fn pow_of_zero_and_one() {
    assert_eq!(pow(fe(0), fe(0)), fe(1));
    assert_eq!(pow(fe(0), fe(5)), fe(0));
    assert_eq!(pow(fe(1), fe(123456789)), fe(1));
}

#[test]
fn inverse_of_random_elements() {
    let mut rng = rand::rng();
    for _ in 0..10 {
        let a = random_element(&mut rng);
        if a.is_zero() {
            continue;
        }
        assert_eq!(inverse(a).mul(&a), fe(1));
        assert_eq!(a.inverse(), Some(inverse(a)));
    }
}

#[test]
fn inverse_of_zero_is_none() {
    assert_eq!(fe(0).inverse(), None);
}

#[test]
fn field_arithmetic_wraps_around_the_modulus() {
    let minus_one = Fe::from_i64(-1);
    assert_eq!(minus_one.add(&fe(1)), fe(0));
    assert_eq!(fe(0).sub(&fe(1)), minus_one);
    assert_eq!(minus_one.mul(&minus_one), fe(1));
    assert_eq!(fe(3).neg().add(&fe(3)), fe(0));
    assert_eq!(fe(12).div(&fe(4)), fe(3));
    assert_eq!(fe(7).square(), fe(49));
}

#[test]
fn limbs_round_trip() {
    let a = Fe::from_u64(0x1234_5678_9abc_def0);
    assert_eq!(a.limbs(), [0x1234_5678_9abc_def0, 0, 0, 0]);
    assert_eq!(Fe::from_limbs(a.limbs()), a);
    // the modulus itself reduces to zero
    let p = [0xffffffff00000001u64, 0x53bda402fffe5bfe, 0x3339d80809a1d805, 0x73eda753299d7d48];
    assert_eq!(Fe::from_limbs(p), fe(0));
}
