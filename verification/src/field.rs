//! Elements of the BLS12-381 scalar field.
//!
//! A field element is held as its canonical little-endian 256-bit limbs; the
//! arithmetic itself is done by `ark_ff` on `ark_bls12_381::Fr`, behind the
//! small trusted wrappers of this file, whose contracts state the modular
//! arithmetic that they perform.
use ark_ff::{BigInt, BigInteger, Field, PrimeField};
use vstd::arithmetic::div_mod::*;
use vstd::arithmetic::mul::*;
use vstd::prelude::*;

verus! {

/// The order of the BLS12-381 scalar field.
pub open spec fn p() -> nat {
    0x73eda753299d7d483339d80809a1d80553bda402fffe5bfeffffffff00000001nat
}

/// The radix of one limb.
pub open spec fn limb_base() -> nat {
    0x1_0000_0000_0000_0000nat
}

/// The integer that four little-endian 64-bit limbs spell.
pub open spec fn limbs_val(l: [u64; 4]) -> nat {
    l[0] as nat + limb_base() * (l[1] as nat + limb_base() * (l[2] as nat + limb_base() * (
    l[3] as nat)))
}

/// Field addition.
pub open spec fn fadd(a: nat, b: nat) -> nat {
    (a + b) % p()
}

/// Field subtraction.
pub open spec fn fsub(a: nat, b: nat) -> nat {
    ((a - b) % (p() as int)) as nat
}

/// Field multiplication.
pub open spec fn fmul(a: nat, b: nat) -> nat {
    (a * b) % p()
}

/// Field negation.
pub open spec fn fneg(a: nat) -> nat {
    fsub(0, a)
}

/// `a` raised to the `e`-th power in the field.
pub open spec fn fpow(a: nat, e: nat) -> nat {
    (vstd::arithmetic::power::pow(a as int, e) % (p() as int)) as nat
}

/// Field division: multiplication by the inverse `b^(p-2)` of the divisor.
pub open spec fn fdiv(a: nat, b: nat) -> nat {
    fmul(a, fpow(b, (p() - 2) as nat))
}

/// The field element that a machine integer denotes (negative ones wrap around).
pub open spec fn int_to_field(v: int) -> nat {
    (v % (p() as int)) as nat
}

pub proof fn lemma_p_facts()
    ensures
        p() > 1,
{
}

/// Every field operation lands in `[0, p)`.
pub proof fn lemma_field_ops_bounded(a: nat, b: nat)
    ensures
        fadd(a, b) < p(),
        fsub(a, b) < p(),
        fmul(a, b) < p(),
        fneg(a) < p(),
{
    lemma_p_facts();
    lemma_mod_bound((a + b) as int, p() as int);
    lemma_mod_bound(a - b, p() as int);
    lemma_mod_bound((a * b) as int, p() as int);
    lemma_mod_bound(0 - a, p() as int);
}

pub proof fn lemma_fmul_comm(a: nat, b: nat)
    ensures
        fmul(a, b) == fmul(b, a),
{
    lemma_mul_is_commutative(a as int, b as int);
}

pub proof fn lemma_fmul_assoc(a: nat, b: nat, c: nat)
    ensures
        fmul(fmul(a, b), c) == fmul(a, fmul(b, c)),
{
    lemma_p_facts();
    let m = p() as int;
    lemma_mul_mod_noop_left((a * b) as int, c as int, m);
    lemma_mul_mod_noop_right(a as int, (b * c) as int, m);
    lemma_mul_is_associative(a as int, b as int, c as int);
}

/// Multiplication distributes over addition.
pub proof fn lemma_fmul_distrib(a: nat, b: nat, c: nat)
    ensures
        fmul(a, fadd(b, c)) == fadd(fmul(a, b), fmul(a, c)),
{
    lemma_p_facts();
    let m = p() as int;
    lemma_mul_mod_noop_right(a as int, (b + c) as int, m);
    lemma_mul_is_distributive_add(a as int, b as int, c as int);
    lemma_add_mod_noop((a * b) as int, (a * c) as int, m);
}

pub proof fn lemma_fadd_comm(a: nat, b: nat)
    ensures
        fadd(a, b) == fadd(b, a),
{
}

pub proof fn lemma_fadd_assoc(a: nat, b: nat, c: nat)
    ensures
        fadd(fadd(a, b), c) == fadd(a, fadd(b, c)),
{
    lemma_p_facts();
    let m = p() as int;
    let (ai, bi, ci) = (a as int, b as int, c as int);
    lemma_add_mod_noop((ai + bi) % m, ci, m);
    lemma_mod_twice(ai + bi, m);
    lemma_add_mod_noop(ai + bi, ci, m);
    lemma_add_mod_noop(ai, (bi + ci) % m, m);
    lemma_mod_twice(bi + ci, m);
    lemma_add_mod_noop(ai, bi + ci, m);
}

pub proof fn lemma_fmul_zero(a: nat)
    ensures
        fmul(a, 0) == 0,
        fmul(0, a) == 0,
{
    lemma_p_facts();
}

pub proof fn lemma_fmul_one(a: nat)
    requires
        a < p(),
    ensures
        fmul(a, 1) == a,
        fmul(1, a) == a,
{
    lemma_small_mod(a, p());
}

pub proof fn lemma_fadd_zero(a: nat)
    requires
        a < p(),
    ensures
        fadd(a, 0) == a,
        fadd(0, a) == a,
{
    lemma_small_mod(a, p());
}

/// Two distinct residues have a nonzero difference.
pub proof fn lemma_fsub_nonzero(a: nat, b: nat)
    requires
        a < p(),
        b < p(),
        a != b,
    ensures
        fsub(a, b) != 0,
{
    lemma_p_facts();
    let m = p() as int;
    if a > b {
        lemma_small_mod((a - b) as nat, p());
    } else {
        lemma_mod_add_multiples_vanish(a - b, m);
        lemma_small_mod((a - b + m) as nat, p());
    }
}

pub proof fn lemma_fsub_self(a: nat)
    ensures
        fsub(a, a) == 0,
{
    lemma_p_facts();
}

/// Four limbs spell each integer in at most one way.
proof fn lemma_limbs_val_injective(a: [u64; 4], b: [u64; 4])
    requires
        limbs_val(a) == limbs_val(b),
    ensures
        a[0] == b[0],
        a[1] == b[1],
        a[2] == b[2],
        a[3] == b[3],
{
    let m = limb_base() as int;
    let qa2 = a[2] as int + m * (a[3] as int);
    let qb2 = b[2] as int + m * (b[3] as int);
    let qa1 = a[1] as int + m * qa2;
    let qb1 = b[1] as int + m * qb2;
    lemma_mul_nonnegative(m, a[3] as int);
    lemma_mul_nonnegative(m, b[3] as int);
    lemma_mul_nonnegative(m, qa2);
    lemma_mul_nonnegative(m, qb2);
    lemma_mul_nonnegative(m, qa1);
    lemma_mul_nonnegative(m, qb1);
    lemma_mul_is_commutative(m, qa1);
    lemma_mul_is_commutative(m, qb1);
    lemma_fundamental_div_mod_converse(limbs_val(a) as int, m, qa1, a[0] as int);
    lemma_fundamental_div_mod_converse(limbs_val(b) as int, m, qb1, b[0] as int);
    lemma_mul_is_commutative(m, qa2);
    lemma_mul_is_commutative(m, qb2);
    lemma_fundamental_div_mod_converse(qa1, m, qa2, a[1] as int);
    lemma_fundamental_div_mod_converse(qb1, m, qb2, b[1] as int);
    lemma_mul_is_commutative(m, a[3] as int);
    lemma_mul_is_commutative(m, b[3] as int);
    lemma_fundamental_div_mod_converse(qa2, m, a[3] as int, a[2] as int);
    lemma_fundamental_div_mod_converse(qb2, m, b[3] as int, b[2] as int);
}

/// An element of the BLS12-381 scalar field `Z/pZ`.
#[derive(Clone, Copy, PartialEq, Eq, Debug)]
pub struct Fe {
    pub(crate) limbs: [u64; 4],
}

impl Fe {
    /// The limbs are the canonical representative, below `p`.
    #[verifier::type_invariant]
    spec fn canonical(self) -> bool {
        limbs_val(self.limbs) < p()
    }
}

impl View for Fe {
    type V = nat;

    /// The residue that the element stands for.
    closed spec fn view(&self) -> nat {
        limbs_val(self.limbs) % p()
    }
}

/// A field element's value lies in `[0, p)`.
pub proof fn lemma_fe_bounded(x: Fe)
    ensures
        x@ < p(),
{
    lemma_p_facts();
    lemma_mod_bound(limbs_val(x.limbs) as int, p() as int);
}

/// The values of a sequence of field elements.
pub open spec fn fe_vals(s: Seq<Fe>) -> Seq<nat> {
    s.map_values(|x: Fe| x@)
}

// ---------------------------------------------------------------------------
// Trusted wrappers over ark_ff / ark_bls12_381.
// `ark_bls12_381::Fr::new` reads four limbs as an integer and reduces it
// modulo `p`; `into_bigint` returns the canonical representative.
// ---------------------------------------------------------------------------
/// `Fr + Fr` of ark_ff: addition modulo `p`.
#[verifier::external_body]
fn ark_add(a: [u64; 4], b: [u64; 4]) -> (r: [u64; 4])
    ensures
        limbs_val(r) < p(),
        limbs_val(r) == (limbs_val(a) + limbs_val(b)) % p(),
{
    let x = ark_bls12_381::Fr::new(BigInt::new(a));
    let y = ark_bls12_381::Fr::new(BigInt::new(b));
    (x + y).into_bigint().0
}

/// `Fr - Fr` of ark_ff: subtraction modulo `p`.
#[verifier::external_body]
fn ark_sub(a: [u64; 4], b: [u64; 4]) -> (r: [u64; 4])
    ensures
        limbs_val(r) < p(),
        limbs_val(r) == ((limbs_val(a) - limbs_val(b)) % (p() as int)),
{
    let x = ark_bls12_381::Fr::new(BigInt::new(a));
    let y = ark_bls12_381::Fr::new(BigInt::new(b));
    (x - y).into_bigint().0
}

/// `Fr * Fr` of ark_ff: multiplication modulo `p`. As `p` is prime (ark_ff
/// documents `Fr` as a prime field), a product of two nonzero residues is
/// nonzero; the second clause says so.
#[verifier::external_body]
fn ark_mul(a: [u64; 4], b: [u64; 4]) -> (r: [u64; 4])
    ensures
        limbs_val(r) < p(),
        limbs_val(r) == (limbs_val(a) * limbs_val(b)) % p(),
        limbs_val(a) % p() != 0 && limbs_val(b) % p() != 0 ==> limbs_val(r) != 0,
{
    let x = ark_bls12_381::Fr::new(BigInt::new(a));
    let y = ark_bls12_381::Fr::new(BigInt::new(b));
    (x * y).into_bigint().0
}

/// `Field::square_in_place` of ark_ff: squaring modulo `p`.
#[verifier::external_body]
fn ark_square_in_place(a: [u64; 4]) -> (r: [u64; 4])
    ensures
        limbs_val(r) < p(),
        limbs_val(r) == (limbs_val(a) * limbs_val(a)) % p(),
{
    let mut x = ark_bls12_381::Fr::new(BigInt::new(a));
    x.square_in_place();
    x.into_bigint().0
}

/// `-Fr` of ark_ff: negation modulo `p`.
#[verifier::external_body]
fn ark_neg(a: [u64; 4]) -> (r: [u64; 4])
    ensures
        limbs_val(r) < p(),
        limbs_val(r) == ((0 - limbs_val(a)) % (p() as int)),
{
    let x = ark_bls12_381::Fr::new(BigInt::new(a));
    (-x).into_bigint().0
}

/// `Fr / Fr` of ark_ff: multiplication by the inverse of the divisor, which
/// panics on a zero divisor. The inverse of `b` in the prime field is
/// `b^(p-2)`, and the result times the divisor gives the dividend.
#[verifier::external_body]
fn ark_div(a: [u64; 4], b: [u64; 4]) -> (r: [u64; 4])
    requires
        limbs_val(b) % p() != 0,
    ensures
        limbs_val(r) < p(),
        limbs_val(r) == fdiv(limbs_val(a) % p(), limbs_val(b) % p()),
        (limbs_val(r) * limbs_val(b)) % p() == limbs_val(a) % p(),
{
    let x = ark_bls12_381::Fr::new(BigInt::new(a));
    let y = ark_bls12_381::Fr::new(BigInt::new(b));
    (x / y).into_bigint().0
}

/// `Field::inverse` of ark_ff: `None` exactly for zero, otherwise the
/// multiplicative inverse, which in the prime field is `a^(p-2)`.
#[verifier::external_body]
fn ark_inverse(a: [u64; 4]) -> (r: Option<[u64; 4]>)
    ensures
        r is None <==> limbs_val(a) % p() == 0,
        r matches Some(v) ==> limbs_val(v) < p() && (limbs_val(v) * limbs_val(a)) % p() == 1
            && limbs_val(v) == fpow(limbs_val(a) % p(), (p() - 2) as nat),
{
    let x = ark_bls12_381::Fr::new(BigInt::new(a));
    x.inverse().map(|v| v.into_bigint().0)
}

/// `Fr::from(i64)` of ark_ff: the residue of a signed integer.
#[verifier::external_body]
fn ark_from_i64(v: i64) -> (r: [u64; 4])
    ensures
        limbs_val(r) < p(),
        limbs_val(r) == int_to_field(v as int),
{
    ark_bls12_381::Fr::from(v).into_bigint().0
}

/// `Fr::from(u64)` of ark_ff: the residue of an unsigned integer.
#[verifier::external_body]
fn ark_from_u64(v: u64) -> (r: [u64; 4])
    ensures
        limbs_val(r) < p(),
        limbs_val(r) == v as nat,
{
    ark_bls12_381::Fr::from(v).into_bigint().0
}

/// `Fr::new` of ark_ff followed by `into_bigint`: any 256-bit integer,
/// reduced modulo `p`.
#[verifier::external_body]
fn ark_new(a: [u64; 4]) -> (r: [u64; 4])
    ensures
        limbs_val(r) < p(),
        limbs_val(r) == limbs_val(a) % p(),
{
    ark_bls12_381::Fr::new(BigInt::new(a)).into_bigint().0
}

/// `Fr::MODULUS` of ark_ff: the limbs of `p`. ark_ff documents it as the
/// prime modulus of a prime field, and that every residue `0 < a < p`
/// satisfies `a^(p-1) = 1` (the Euler-Fermat theorem); the second clause
/// says so.
#[verifier::external_body]
pub(crate) fn ark_modulus() -> (r: [u64; 4])
    ensures
        limbs_val(r) == p(),
        forall|a: nat|
            0 < a < limbs_val(r) ==> #[trigger] (vstd::arithmetic::power::pow(a as int, (limbs_val(r) - 1) as nat)
                % (limbs_val(r) as int)) == 1,
{
    ark_bls12_381::Fr::MODULUS.0
}

/// `PrimeField::from_bigint` of ark_ff: `Some` exactly for integers below `p`,
/// which it keeps.
#[verifier::external_body]
pub(crate) fn ark_from_bigint(a: [u64; 4]) -> (r: Option<[u64; 4]>)
    ensures
        r is Some <==> limbs_val(a) < p(),
        r matches Some(v) ==> limbs_val(v) == limbs_val(a),
{
    ark_bls12_381::Fr::from_bigint(BigInt::new(a)).map(|v| v.into_bigint().0)
}

/// `BigInteger::sub_with_borrow` of ark_ff: 256-bit subtraction; the flag
/// tells whether it borrowed, and without a borrow the limbs hold the
/// difference.
#[verifier::external_body]
pub(crate) fn bigint_sub_with_borrow(a: [u64; 4], b: [u64; 4]) -> (r: ([u64; 4], bool))
    ensures
        r.1 <==> limbs_val(a) < limbs_val(b),
        !r.1 ==> limbs_val(r.0) == limbs_val(a) - limbs_val(b),
{
    let mut x = BigInt::new(a);
    let borrow = x.sub_with_borrow(&BigInt::new(b));
    (x.0, borrow)
}

/// `BigInteger::div2` of ark_ff: halving, rounding down.
#[verifier::external_body]
pub(crate) fn bigint_div2(a: [u64; 4]) -> (r: [u64; 4])
    ensures
        limbs_val(r) == limbs_val(a) / 2,
{
    let mut x = BigInt::new(a);
    x.div2();
    x.0
}

/// `BigInteger::is_odd` of ark_ff.
#[verifier::external_body]
pub(crate) fn bigint_is_odd(a: [u64; 4]) -> (r: bool)
    ensures
        r == (limbs_val(a) % 2 == 1),
{
    BigInt::new(a).is_odd()
}

/// `BigInteger::is_zero` of ark_ff.
#[verifier::external_body]
pub(crate) fn bigint_is_zero(a: [u64; 4]) -> (r: bool)
    ensures
        r == (limbs_val(a) == 0),
{
    BigInt::new(a).is_zero()
}

#[verifier::external_type_specification]
#[verifier::external_body]
pub struct ExThreadRng(rand::rngs::ThreadRng);

/// `rand::rng`: a handle to the thread-local random generator.
#[verifier::external_body]
pub(crate) fn thread_rng() -> (r: rand::rngs::ThreadRng) {
    rand::rng()
}

/// `RngExt::random::<[u64; 4]>` of rand: four uniformly random 64-bit words.
/// Nothing is promised of them.
#[verifier::external_body]
fn random_limbs(rng: &mut rand::rngs::ThreadRng) -> (r: [u64; 4]) {
    rand::RngExt::random::<[u64; 4]>(rng)
}

// ---------------------------------------------------------------------------
// Verified field element API.
// ---------------------------------------------------------------------------
impl Fe {
    /// Wraps canonical limbs.
    pub(crate) fn from_canonical(l: [u64; 4]) -> (r: Fe)
        requires
            limbs_val(l) < p(),
        ensures
            r@ == limbs_val(l),
            r.limbs == l,
    {
        proof {
            lemma_small_mod(limbs_val(l), p());
        }
        Fe { limbs: l }
    }

    /// The limbs of the canonical representative.
    pub fn limbs(&self) -> (r: [u64; 4])
        ensures
            limbs_val(r) == self@,
    {
        proof {
            use_type_invariant(self);
            lemma_small_mod(limbs_val(self.limbs), p());
        }
        self.limbs
    }

    /// Any four limbs, read as an integer and reduced modulo `p`.
    pub fn from_limbs(l: [u64; 4]) -> (r: Fe)
        ensures
            r@ == limbs_val(l) % p(),
    {
        Fe::from_canonical(ark_new(l))
    }

    /// Zero.
    pub fn zero() -> (r: Fe)
        ensures
            r@ == 0,
    {
        Fe::from_canonical([0, 0, 0, 0])
    }

    /// One.
    pub fn one() -> (r: Fe)
        ensures
            r@ == 1,
    {
        proof {
            lemma_p_facts();
        }
        Fe::from_canonical([1, 0, 0, 0])
    }

    /// The residue of an unsigned integer.
    pub fn from_u64(v: u64) -> (r: Fe)
        ensures
            r@ == v as nat,
    {
        Fe::from_canonical(ark_from_u64(v))
    }

    /// The residue of a signed integer: negative values wrap around `p`.
    pub fn from_i64(v: i64) -> (r: Fe)
        ensures
            r@ == int_to_field(v as int),
    {
        Fe::from_canonical(ark_from_i64(v))
    }

    /// `self + other`.
    pub fn add(&self, other: &Fe) -> (r: Fe)
        ensures
            r@ == fadd(self@, other@),
    {
        proof {
            lemma_p_facts();
            lemma_add_mod_noop(limbs_val(self.limbs) as int, limbs_val(other.limbs) as int, p() as int);
        }
        Fe::from_canonical(ark_add(self.limbs, other.limbs))
    }

    /// `self - other`.
    pub fn sub(&self, other: &Fe) -> (r: Fe)
        ensures
            r@ == fsub(self@, other@),
    {
        proof {
            lemma_p_facts();
            lemma_sub_mod_noop(limbs_val(self.limbs) as int, limbs_val(other.limbs) as int, p() as int);
        }
        Fe::from_canonical(ark_sub(self.limbs, other.limbs))
    }

    /// `self * other`.
    pub fn mul(&self, other: &Fe) -> (r: Fe)
        ensures
            r@ == fmul(self@, other@),
            self@ != 0 && other@ != 0 ==> r@ != 0,
    {
        proof {
            lemma_p_facts();
            lemma_mul_mod_noop_general(limbs_val(self.limbs) as int, limbs_val(other.limbs) as int, p() as int);
        }
        Fe::from_canonical(ark_mul(self.limbs, other.limbs))
    }

    /// `self * self`, computed in place by `square_in_place`.
    pub fn square(&self) -> (r: Fe)
        ensures
            r@ == fmul(self@, self@),
    {
        proof {
            lemma_p_facts();
            lemma_mul_mod_noop_general(limbs_val(self.limbs) as int, limbs_val(self.limbs) as int, p() as int);
        }
        Fe::from_canonical(ark_square_in_place(self.limbs))
    }

    /// `-self`.
    pub fn neg(&self) -> (r: Fe)
        ensures
            r@ == fneg(self@),
    {
        proof {
            lemma_p_facts();
            lemma_sub_mod_noop(0, limbs_val(self.limbs) as int, p() as int);
            lemma_small_mod(0, p());
        }
        Fe::from_canonical(ark_neg(self.limbs))
    }

    /// `self / other` for a nonzero divisor: the element that, times `other`,
    /// gives `self`.
    pub fn div(&self, other: &Fe) -> (r: Fe)
        requires
            other@ != 0,
        ensures
            r@ == fdiv(self@, other@),
            fmul(r@, other@) == self@,
    {
        let l = ark_div(self.limbs, other.limbs);
        proof {
            lemma_p_facts();
            lemma_mul_mod_noop_right(limbs_val(l) as int, limbs_val(other.limbs) as int, p() as int);
            lemma_small_mod(limbs_val(l), p());
        }
        Fe::from_canonical(l)
    }

    /// The multiplicative inverse, `None` for zero.
    pub fn inverse(&self) -> (r: Option<Fe>)
        ensures
            r is None <==> self@ == 0,
            r matches Some(v) ==> fmul(v@, self@) == 1 && v@ == fpow(self@, (p() - 2) as nat),
    {
        match ark_inverse(self.limbs) {
            Some(l) => {
                proof {
                    lemma_p_facts();
                    lemma_mul_mod_noop_right(limbs_val(l) as int, limbs_val(self.limbs) as int, p() as int);
                    lemma_small_mod(limbs_val(l), p());
                }
                Some(Fe::from_canonical(l))
            },
            None => None,
        }
    }

    /// Whether two elements are the same residue.
    pub fn equals(&self, other: &Fe) -> (r: bool)
        ensures
            r == (self@ == other@),
    {
        proof {
            use_type_invariant(self);
            use_type_invariant(other);
            lemma_small_mod(limbs_val(self.limbs), p());
            lemma_small_mod(limbs_val(other.limbs), p());
            if self@ == other@ {
                lemma_limbs_val_injective(self.limbs, other.limbs);
            }
        }
        self.limbs[0] == other.limbs[0] && self.limbs[1] == other.limbs[1] && self.limbs[2]
            == other.limbs[2] && self.limbs[3] == other.limbs[3]
    }

    /// Whether the element is zero.
    pub fn is_zero(&self) -> (r: bool)
        ensures
            r == (self@ == 0),
    {
        let z = Fe::zero();
        self.equals(&z)
    }
}

/// A uniformly random field element: four random words from `rand`, read as
/// an integer and reduced modulo `p`.
pub fn random_element(rng: &mut rand::rngs::ThreadRng) -> (r: Fe)
    ensures
        r@ < p(),
{
    let r = Fe::from_limbs(random_limbs(rng));
    proof {
        lemma_fe_bounded(r);
    }
    r
}

/// A source of random field elements: `random_element` over the thread's
/// generator, with a ghost record of every value it has handed out, in the
/// order it handed them out. Only `draw` extends the record, so a value that
/// a contract reads off the record is one that `random_element` returned.
pub struct Draws {
    rng: rand::rngs::ThreadRng,
    drawn: Ghost<Seq<nat>>,
}

impl View for Draws {
    type V = Seq<nat>;

    /// The values drawn so far, oldest first.
    closed spec fn view(&self) -> Seq<nat> {
        self.drawn@
    }
}

impl Draws {
    /// A source over the thread's generator that has drawn nothing yet.
    pub fn new() -> (r: Draws)
        ensures
            r@ == Seq::<nat>::empty(),
    {
        Draws { rng: thread_rng(), drawn: Ghost(Seq::empty()) }
    }

    /// Draws a random field element and records it.
    pub fn draw(&mut self) -> (r: Fe)
        ensures
            final(self)@ == old(self)@.push(r@),
            r@ < p(),
    {
        let r = random_element(&mut self.rng);
        self.drawn = Ghost(self.drawn@.push(r@));
        r
    }
}

} // verus!
