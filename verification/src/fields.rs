//! Exponentiation by square-and-multiply, and inversion through Fermat's
//! little theorem.
use crate::field::{self, bigint_div2, bigint_is_odd, bigint_is_zero, bigint_sub_with_borrow, ark_modulus, ark_from_bigint, Fe};
use vstd::arithmetic::div_mod::*;
use vstd::arithmetic::mul::*;
use vstd::arithmetic::power;
pub use crate::field::random_element;
use vstd::prelude::*;

verus! {

/// Squaring the base and doubling the exponent agree modulo `p`.
proof fn lemma_pow_of_square(x: int, k: nat)
    ensures
        power::pow((x * x) % (field::p() as int), k) % (field::p() as int) == power::pow(x, 2 * k) % (field::p() as int),
{
    field::lemma_p_facts();
    power::lemma_pow_mod_noop(x * x, k, field::p() as int);
    power::lemma_pow_multiplies(x, 2, k);
    reveal_with_fuel(power::pow, 3);
}

/// One step of square-and-multiply keeps `out * base^e` fixed modulo `p`.
proof fn lemma_square_and_multiply_step(out: int, base: int, e: nat, odd: bool)
    requires
        odd == (e % 2 == 1),
    ensures
        ({
            let out2 = if odd { (out * base) % (field::p() as int) } else { out };
            let base2 = (base * base) % (field::p() as int);
            (out2 * power::pow(base2, e / 2)) % (field::p() as int) == (out * power::pow(base, e)) % (field::p() as int)
        }),
{
    let m = field::p() as int;
    field::lemma_p_facts();
    let h = e / 2;
    let x = power::pow((base * base) % m, h);
    lemma_pow_of_square(base, h);
    // x == base^(2h) modulo p
    lemma_mul_mod_noop_right(out, x, m);
    lemma_mul_mod_noop_right(out, power::pow(base, 2 * h), m);
    if odd {
        assert(e == 2 * h + 1);
        lemma_mul_mod_noop_left(out * base, x, m);
        lemma_mul_mod_noop_right(out * base, x, m);
        lemma_mul_mod_noop_right(out * base, power::pow(base, 2 * h), m);
        power::lemma_pow_adds(base, 2 * h, 1);
        power::lemma_pow1(base);
        lemma_mul_is_associative(out, base, power::pow(base, 2 * h));
        lemma_mul_is_commutative(base, power::pow(base, 2 * h));
        assert(out * power::pow(base, e) == out * (base * power::pow(base, 2 * h)));
    } else {
        assert(e == 2 * h);
    }
}

/// `a^b` by square-and-multiply over the bits of `b`'s canonical integer.
pub fn pow(a: Fe, b: Fe) -> (r: Fe)
    ensures
        r@ == field::fpow(a@, b@),
{
    let mut a = a;
    let mut out = Fe::one();
    let mut e = b.limbs();
    let ghost a0 = a@;
    proof {
        field::lemma_p_facts();
        field::lemma_fe_bounded(a);
        lemma_small_mod(a0, field::p());
        lemma_mul_basics(power::pow(a0 as int, field::limbs_val(e)));
    }
    while !bigint_is_zero(e)
        invariant
            (out@ * power::pow(a@ as int, field::limbs_val(e))) % (field::p() as int) == power::pow(a0 as int, b@) % (
            field::p() as int),
        decreases field::limbs_val(e),
    {
        let odd = bigint_is_odd(e);
        proof {
            lemma_square_and_multiply_step(out@ as int, a@ as int, field::limbs_val(e), odd);
        }
        if odd {
            out = out.mul(&a);
        }
        a = a.square();
        e = bigint_div2(e);
    }
    proof {
        power::lemma_pow0(a@ as int);
        field::lemma_fe_bounded(out);
        lemma_small_mod(out@, field::p());
    }
    out
}

/// The inverse of a nonzero element by Fermat's little theorem: `a^(p-2)`.
pub fn inverse(a: Fe) -> (r: Fe)
    ensures
        r@ == field::fpow(a@, (field::p() - 2) as nat),
        a@ != 0 ==> field::fmul(r@, a@) == 1,
{
    let modulus = ark_modulus();
    let (m, _borrow) = bigint_sub_with_borrow(modulus, [2, 0, 0, 0]);
    let e = Fe::from_canonical(ark_from_bigint(m).unwrap());
    let r = pow(a, e);
    proof {
        if a@ != 0 {
            field::lemma_fe_bounded(a);
            lemma_fermat_inverse(a@);
        }
    }
    r
}

/// With `a^(p-1) = 1`, the power `a^(p-2)` is the inverse of `a`.
proof fn lemma_fermat_inverse(a: nat)
    requires
        0 < a < field::p(),
        power::pow(a as int, (field::p() - 1) as nat) % (field::p() as int) == 1,
    ensures
        field::fmul(field::fpow(a, (field::p() - 2) as nat), a) == 1,
{
    let m = field::p() as int;
    let e = (field::p() - 2) as nat;
    field::lemma_p_facts();
    power::lemma_pow_positive(a as int, e);
    power::lemma_pow_adds(a as int, e, 1);
    power::lemma_pow1(a as int);
    lemma_mul_mod_noop_left(power::pow(a as int, e), a as int, m);
    assert(e + 1 == field::p() - 1);
}

} // verus!
