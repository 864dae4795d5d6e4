//! Univariate polynomials over the scalar field: Lagrange interpolation and a
//! randomized equality check.
//!
//! A polynomial is its coefficient vector, lowest degree first. The
//! polynomial arithmetic is done by `ark_poly`'s `DensePolynomial`, behind the
//! trusted wrappers of this file, whose contracts state what each operation
//! returns pointwise (as a function of the evaluation point) together with
//! the shape of its coefficient vector.
use crate::field::{self, Fe};
use ark_ff::{BigInt, PrimeField};
use ark_poly::univariate::DensePolynomial;
use ark_poly::Polynomial;
use vstd::prelude::*;

verus! {

/// The value of the polynomial with coefficients `c` (lowest first) at `x`,
/// by Horner's rule.
pub open spec fn peval(c: Seq<nat>, x: nat) -> nat
    decreases c.len(),
{
    if c.len() == 0 {
        0
    } else {
        field::fadd(c[0], field::fmul(x, peval(c.drop_first(), x)))
    }
}

/// Every coefficient is zero: the zero polynomial.
pub open spec fn all_zero(c: Seq<nat>) -> bool {
    forall|i: int| 0 <= i < c.len() ==> #[trigger] c[i] == 0
}

/// No zero leading coefficient.
pub open spec fn trimmed(c: Seq<nat>) -> bool {
    c.len() == 0 || c.last() != 0
}

/// `DensePolynomial::degree` panics on a nonzero polynomial with a zero
/// leading coefficient; this is the shape it accepts.
pub open spec fn degree_ok(c: Seq<nat>) -> bool {
    all_zero(c) || trimmed(c)
}

/// The values of a sequence of limb arrays, read modulo `p`.
pub open spec fn limb_vals(s: Seq<[u64; 4]>) -> Seq<nat> {
    s.map_values(|l: [u64; 4]| field::limbs_val(l) % field::p())
}

/// Every limb array is a canonical field element.
pub open spec fn all_canonical(s: Seq<[u64; 4]>) -> bool {
    forall|i: int| 0 <= i < s.len() ==> #[trigger] field::limbs_val(s[i]) < field::p()
}

/// A polynomial with coefficients in the scalar field, lowest degree first.
#[derive(Clone, Debug, PartialEq, Eq)]
pub struct Poly {
    pub coeffs: Vec<Fe>,
}

impl Poly {
    /// The coefficient values.
    pub open spec fn vals(&self) -> Seq<nat> {
        field::fe_vals(self.coeffs@)
    }
}

/// `a = q·d + r` pointwise for some remainder `r` shorter than `d`.
pub open spec fn division_identity(a: Seq<nat>, q: Seq<nat>, d: Seq<nat>) -> bool {
    exists|rem: Seq<nat>|
        rem.len() < d.len() && forall|x: nat|
            #[trigger] peval(a, x) == field::fadd(
                field::fmul(peval(q, x), peval(d, x)),
                peval(rem, x),
            )
}

// ---------------------------------------------------------------------------
// Trusted wrappers over ark_poly.
// ---------------------------------------------------------------------------
/// `Polynomial::evaluate` of ark_poly.
#[verifier::external_body]
fn ark_evaluate(c: &Vec<[u64; 4]>, x: [u64; 4]) -> (r: [u64; 4])
    ensures
        field::limbs_val(r) < field::p(),
        field::limbs_val(r) == peval(limb_vals(c@), field::limbs_val(x) % field::p()),
{
    let poly = DensePolynomial {
        coeffs: c.iter().map(|l| ark_bls12_381::Fr::new(BigInt::new(*l))).collect(),
    };
    poly.evaluate(&ark_bls12_381::Fr::new(BigInt::new(x))).into_bigint().0
}

/// `&DensePolynomial * &DensePolynomial` of ark_poly (by FFT over a domain of
/// at least `a.len() + b.len() - 1` points, which must not exceed the field's
/// `2^32` two-adic subgroup): the product, with no zero leading coefficient.
/// In a prime field the product of two nonzero leading coefficients is
/// nonzero, so trimmed nonzero factors give a product of the summed degree.
#[verifier::external_body]
fn ark_poly_mul(a: &Vec<[u64; 4]>, b: &Vec<[u64; 4]>) -> (r: Vec<[u64; 4]>)
    requires
        a.len() + b.len() <= 0x1_0000_0000,
    ensures
        all_canonical(r@),
        trimmed(limb_vals(r@)),
        r.len() == 0 || r.len() + 1 <= a.len() + b.len(),
        trimmed(limb_vals(a@)) && trimmed(limb_vals(b@)) && a.len() > 0 && b.len() > 0 ==> r.len()
            + 1 == a.len() + b.len(),
        forall|x: nat|
            #[trigger] peval(limb_vals(r@), x) == field::fmul(
                peval(limb_vals(a@), x),
                peval(limb_vals(b@), x),
            ),
{
    let pa = DensePolynomial {
        coeffs: a.iter().map(|l| ark_bls12_381::Fr::new(BigInt::new(*l))).collect(),
    };
    let pb = DensePolynomial {
        coeffs: b.iter().map(|l| ark_bls12_381::Fr::new(BigInt::new(*l))).collect(),
    };
    (&pa * &pb).coeffs.iter().map(|c| c.into_bigint().0).collect()
}

/// `&DensePolynomial / &DensePolynomial` of ark_poly: the quotient of long
/// division, which panics on a zero divisor and (through `degree`) on a
/// nonzero operand with a zero leading coefficient. Some remainder shorter
/// than the divisor completes the division identity.
#[verifier::external_body]
fn ark_poly_div(a: &Vec<[u64; 4]>, d: &Vec<[u64; 4]>) -> (quot: Vec<[u64; 4]>)
    requires
        degree_ok(limb_vals(a@)),
        trimmed(limb_vals(d@)),
        !all_zero(limb_vals(d@)),
    ensures
        all_canonical(quot@),
        trimmed(limb_vals(quot@)),
        quot.len() == 0 || quot.len() + d.len() <= a.len() + 1,
        division_identity(limb_vals(a@), limb_vals(quot@), limb_vals(d@)),
{
    let pa = DensePolynomial {
        coeffs: a.iter().map(|l| ark_bls12_381::Fr::new(BigInt::new(*l))).collect(),
    };
    let pd = DensePolynomial {
        coeffs: d.iter().map(|l| ark_bls12_381::Fr::new(BigInt::new(*l))).collect(),
    };
    (&pa / &pd).coeffs.iter().map(|c| c.into_bigint().0).collect()
}

/// `&DensePolynomial * Fr` of ark_poly: the empty polynomial when the
/// polynomial is zero or the scalar is zero, otherwise each coefficient times
/// the scalar (in a prime field the leading coefficient stays nonzero).
#[verifier::external_body]
fn ark_poly_scale(a: &Vec<[u64; 4]>, s: [u64; 4]) -> (r: Vec<[u64; 4]>)
    ensures
        all_canonical(r@),
        limb_vals(r@) == (if all_zero(limb_vals(a@)) || field::limbs_val(s) % field::p() == 0 {
            Seq::<nat>::empty()
        } else {
            limb_vals(a@).map_values(|c: nat| field::fmul(c, field::limbs_val(s) % field::p()))
        }),
        !all_zero(limb_vals(a@)) && field::limbs_val(s) % field::p() != 0 && trimmed(
            limb_vals(a@),
        ) ==> trimmed(limb_vals(r@)),
{
    let pa = DensePolynomial {
        coeffs: a.iter().map(|l| ark_bls12_381::Fr::new(BigInt::new(*l))).collect(),
    };
    (&pa * ark_bls12_381::Fr::new(BigInt::new(s))).coeffs.iter().map(|c| c.into_bigint().0).collect()
}

/// `DensePolynomial += &DensePolynomial` of ark_poly: the sum, with zero
/// leading coefficients removed; `degree` is consulted (and panics on an
/// untrimmed nonzero operand) only when neither operand is zero.
#[verifier::external_body]
fn ark_poly_add_assign(a: &mut Vec<[u64; 4]>, b: &Vec<[u64; 4]>)
    requires
        !all_zero(limb_vals(old(a)@)) && !all_zero(limb_vals(b@)) ==> trimmed(
            limb_vals(old(a)@),
        ) && trimmed(limb_vals(b@)),
    ensures
        all_canonical(final(a)@),
        trimmed(limb_vals(final(a)@)),
        final(a).len() <= old(a).len() || final(a).len() <= b.len(),
        forall|x: nat|
            #[trigger] peval(limb_vals(final(a)@), x) == field::fadd(
                peval(limb_vals(old(a)@), x),
                peval(limb_vals(b@), x),
            ),
{
    let mut pa = DensePolynomial {
        coeffs: a.iter().map(|l| ark_bls12_381::Fr::new(BigInt::new(*l))).collect(),
    };
    let pb = DensePolynomial {
        coeffs: b.iter().map(|l| ark_bls12_381::Fr::new(BigInt::new(*l))).collect(),
    };
    pa += &pb;
    *a = pa.coeffs.iter().map(|c| c.into_bigint().0).collect();
}

/// `&DensePolynomial + &DensePolynomial` of ark_poly: the sum, with zero
/// leading coefficients removed; `degree` is consulted (and panics on an
/// untrimmed nonzero operand) only when neither operand is zero.
#[verifier::external_body]
fn ark_poly_add(a: &Vec<[u64; 4]>, b: &Vec<[u64; 4]>) -> (r: Vec<[u64; 4]>)
    requires
        !all_zero(limb_vals(a@)) && !all_zero(limb_vals(b@)) ==> trimmed(limb_vals(a@))
            && trimmed(limb_vals(b@)),
    ensures
        all_canonical(r@),
        trimmed(limb_vals(r@)),
        r.len() <= a.len() || r.len() <= b.len(),
        forall|x: nat|
            #[trigger] peval(limb_vals(r@), x) == field::fadd(
                peval(limb_vals(a@), x),
                peval(limb_vals(b@), x),
            ),
{
    let pa = DensePolynomial {
        coeffs: a.iter().map(|l| ark_bls12_381::Fr::new(BigInt::new(*l))).collect(),
    };
    let pb = DensePolynomial {
        coeffs: b.iter().map(|l| ark_bls12_381::Fr::new(BigInt::new(*l))).collect(),
    };
    (&pa + &pb).coeffs.iter().map(|c| c.into_bigint().0).collect()
}

/// `&DensePolynomial - &DensePolynomial` of ark_poly: the difference, with
/// zero leading coefficients removed; `degree` is consulted (and panics on an
/// untrimmed nonzero operand) only when neither operand is zero.
#[verifier::external_body]
fn ark_poly_sub(a: &Vec<[u64; 4]>, b: &Vec<[u64; 4]>) -> (r: Vec<[u64; 4]>)
    requires
        !all_zero(limb_vals(a@)) && !all_zero(limb_vals(b@)) ==> trimmed(limb_vals(a@))
            && trimmed(limb_vals(b@)),
    ensures
        all_canonical(r@),
        trimmed(limb_vals(r@)),
        r.len() <= a.len() || r.len() <= b.len(),
        forall|x: nat|
            #[trigger] peval(limb_vals(r@), x) == field::fsub(
                peval(limb_vals(a@), x),
                peval(limb_vals(b@), x),
            ),
{
    let pa = DensePolynomial {
        coeffs: a.iter().map(|l| ark_bls12_381::Fr::new(BigInt::new(*l))).collect(),
    };
    let pb = DensePolynomial {
        coeffs: b.iter().map(|l| ark_bls12_381::Fr::new(BigInt::new(*l))).collect(),
    };
    (&pa - &pb).coeffs.iter().map(|c| c.into_bigint().0).collect()
}

// ---------------------------------------------------------------------------
// Conversions between field elements and limb arrays.
// ---------------------------------------------------------------------------
pub(crate) fn to_limbs(v: &Vec<Fe>) -> (r: Vec<[u64; 4]>)
    ensures
        limb_vals(r@) == field::fe_vals(v@),
        all_canonical(r@),
        r.len() == v.len(),
{
    let mut r: Vec<[u64; 4]> = Vec::new();
    let mut i: usize = 0;
    while i < v.len()
        invariant
            i <= v.len(),
            r.len() == i,
            forall|j: int| 0 <= j < i ==> #[trigger] field::limbs_val(r@[j]) == v@[j]@,
            forall|j: int| 0 <= j < i ==> #[trigger] field::limbs_val(r@[j]) < field::p(),
        decreases v.len() - i,
    {
        let l = v[i].limbs();
        proof {
            field::lemma_fe_bounded(v@[i as int]);
        }
        r.push(l);
        i = i + 1;
    }
    proof {
        assert forall|j: int| 0 <= j < r.len() implies #[trigger] limb_vals(r@)[j] == field::fe_vals(
            v@,
        )[j] by {
            field::lemma_fe_bounded(v@[j]);
            vstd::arithmetic::div_mod::lemma_small_mod(field::limbs_val(r@[j]), field::p());
        }
        assert(limb_vals(r@) =~= field::fe_vals(v@));
    }
    r
}

pub(crate) fn from_limbs_vec(v: &Vec<[u64; 4]>) -> (r: Vec<Fe>)
    requires
        all_canonical(v@),
    ensures
        field::fe_vals(r@) == limb_vals(v@),
        r.len() == v.len(),
{
    let mut r: Vec<Fe> = Vec::new();
    let mut i: usize = 0;
    while i < v.len()
        invariant
            i <= v.len(),
            all_canonical(v@),
            r.len() == i,
            forall|j: int| 0 <= j < i ==> #[trigger] r@[j]@ == field::limbs_val(v@[j]),
        decreases v.len() - i,
    {
        r.push(Fe::from_canonical(v[i]));
        i = i + 1;
    }
    proof {
        assert forall|j: int| 0 <= j < r.len() implies #[trigger] field::fe_vals(r@)[j] == limb_vals(
            v@,
        )[j] by {
            vstd::arithmetic::div_mod::lemma_small_mod(field::limbs_val(v@[j]), field::p());
        }
        assert(field::fe_vals(r@) =~= limb_vals(v@));
    }
    r
}

/// `p(x)` at a field element.
pub fn evaluate(p: &Poly, x: &Fe) -> (r: Fe)
    ensures
        r@ == peval(p.vals(), x@),
{
    let c = to_limbs(&p.coeffs);
    let l = ark_evaluate(&c, x.limbs());
    proof {
        field::lemma_fe_bounded(*x);
        vstd::arithmetic::div_mod::lemma_small_mod(x@, field::p());
    }
    Fe::from_canonical(l)
}

impl Poly {
    /// The product polynomial; the two lengths together may not exceed
    /// `2^32`.
    pub fn mul(&self, other: &Poly) -> (r: Poly)
        requires
            self.coeffs.len() + other.coeffs.len() <= 0x1_0000_0000,
        ensures
            trimmed(r.vals()),
            r.coeffs.len() == 0 || r.coeffs.len() + 1 <= self.coeffs.len() + other.coeffs.len(),
            trimmed(self.vals()) && trimmed(other.vals()) && self.coeffs.len() > 0
                && other.coeffs.len() > 0 ==> r.coeffs.len() + 1 == self.coeffs.len()
                + other.coeffs.len(),
            forall|x: nat|
                #[trigger] peval(r.vals(), x) == field::fmul(
                    peval(self.vals(), x),
                    peval(other.vals(), x),
                ),
    {
        let a = to_limbs(&self.coeffs);
        let b = to_limbs(&other.coeffs);
        let c = ark_poly_mul(&a, &b);
        Poly { coeffs: from_limbs_vec(&c) }
    }

    /// The sum polynomial, trimmed.
    pub fn add(&self, other: &Poly) -> (r: Poly)
        requires
            !all_zero(self.vals()) && !all_zero(other.vals()) ==> trimmed(self.vals()) && trimmed(
                other.vals(),
            ),
        ensures
            trimmed(r.vals()),
            r.coeffs.len() <= self.coeffs.len() || r.coeffs.len() <= other.coeffs.len(),
            forall|x: nat|
                #[trigger] peval(r.vals(), x) == field::fadd(
                    peval(self.vals(), x),
                    peval(other.vals(), x),
                ),
    {
        let a = to_limbs(&self.coeffs);
        let b = to_limbs(&other.coeffs);
        let c = ark_poly_add(&a, &b);
        Poly { coeffs: from_limbs_vec(&c) }
    }

    /// The difference polynomial, trimmed.
    pub fn sub(&self, other: &Poly) -> (r: Poly)
        requires
            !all_zero(self.vals()) && !all_zero(other.vals()) ==> trimmed(self.vals()) && trimmed(
                other.vals(),
            ),
        ensures
            trimmed(r.vals()),
            r.coeffs.len() <= self.coeffs.len() || r.coeffs.len() <= other.coeffs.len(),
            forall|x: nat|
                #[trigger] peval(r.vals(), x) == field::fsub(
                    peval(self.vals(), x),
                    peval(other.vals(), x),
                ),
    {
        let a = to_limbs(&self.coeffs);
        let b = to_limbs(&other.coeffs);
        let c = ark_poly_sub(&a, &b);
        Poly { coeffs: from_limbs_vec(&c) }
    }

    /// The quotient of long division by a nonzero divisor without a zero
    /// leading coefficient.
    pub fn div(&self, d: &Poly) -> (q: Poly)
        requires
            degree_ok(self.vals()),
            trimmed(d.vals()),
            !all_zero(d.vals()),
        ensures
            trimmed(q.vals()),
            q.coeffs.len() == 0 || q.coeffs.len() + d.coeffs.len() <= self.coeffs.len() + 1,
            division_identity(self.vals(), q.vals(), d.vals()),
    {
        let a = to_limbs(&self.coeffs);
        let b = to_limbs(&d.coeffs);
        let c = ark_poly_div(&a, &b);
        Poly { coeffs: from_limbs_vec(&c) }
    }

    /// The polynomial times a scalar: empty for a zero polynomial or a zero
    /// scalar, otherwise every coefficient scaled.
    pub fn scale(&self, s: &Fe) -> (r: Poly)
        ensures
            r.vals() == (if all_zero(self.vals()) || s@ == 0 {
                Seq::<nat>::empty()
            } else {
                self.vals().map_values(|c: nat| field::fmul(c, s@))
            }),
            !all_zero(self.vals()) && s@ != 0 && trimmed(self.vals()) ==> trimmed(r.vals()),
    {
        let a = to_limbs(&self.coeffs);
        let c = ark_poly_scale(&a, s.limbs());
        proof {
            field::lemma_fe_bounded(*s);
            vstd::arithmetic::div_mod::lemma_small_mod(s@, field::p());
        }
        Poly { coeffs: from_limbs_vec(&c) }
    }
}

// ---------------------------------------------------------------------------
// Lagrange interpolation.
// ---------------------------------------------------------------------------
/// `∏_{i<n} (x - xs[i])`: the value at `x` of the polynomial that vanishes on
/// the first `n` nodes.
pub open spec fn node_poly_value(xs: Seq<nat>, x: nat, n: nat) -> nat
    decreases n,
{
    if n == 0 {
        1
    } else {
        field::fmul(node_poly_value(xs, x, (n - 1) as nat), field::fsub(x, xs[n - 1]))
    }
}

/// `∏_{j<n, xs[j] ≠ xs[i]} (xs[i] - xs[j])`.
pub open spec fn lagrange_denominator(xs: Seq<nat>, i: int, n: nat) -> nat
    decreases n,
{
    if n == 0 {
        1
    } else if xs[n - 1] == xs[i] {
        lagrange_denominator(xs, i, (n - 1) as nat)
    } else {
        field::fmul(lagrange_denominator(xs, i, (n - 1) as nat), field::fsub(xs[i], xs[n - 1]))
    }
}

/// `∑_{i<n} basis[i](x) · scale[i]`.
pub open spec fn weighted_sum(basis: Seq<Seq<nat>>, scale: Seq<nat>, x: nat, n: nat) -> nat
    decreases n,
{
    if n == 0 {
        0
    } else {
        field::fadd(
            weighted_sum(basis, scale, x, (n - 1) as nat),
            field::fmul(peval(basis[n - 1], x), scale[n - 1]),
        )
    }
}

/// The interpolant through `(xs[i], ys[i])` in Lagrange form: pointwise
/// `∑_i ys[i]/d_i · G(x)/(x - xs[i])`, where `G` vanishes on every node and
/// `d_i` is the product of the differences `xs[i] - xs[j]` to the other
/// nodes. `basis[i]` is `G` divided by `x - xs[i]`.
pub open spec fn is_lagrange_form(out: Seq<nat>, xs: Seq<nat>, ys: Seq<nat>) -> bool {
    exists|basis: Seq<Seq<nat>>|
        basis.len() == xs.len() && (forall|i: int, x: nat|
            0 <= i < xs.len() ==> #[trigger] field::fmul(peval(basis[i], x), field::fsub(x, xs[i]))
                == node_poly_value(xs, x, xs.len())) && (forall|x: nat|
            #[trigger] peval(out, x) == weighted_sum(
                basis,
                Seq::new(
                    xs.len(),
                    |i: int| field::fdiv(ys[i], lagrange_denominator(xs, i, xs.len())),
                ),
                x,
                xs.len(),
            ))
}

/// The first coordinates of the points.
pub open spec fn xs_of(points: Seq<(Fe, Fe)>) -> Seq<nat> {
    points.map_values(|pt: (Fe, Fe)| pt.0@)
}

/// The second coordinates of the points.
pub open spec fn ys_of(points: Seq<(Fe, Fe)>) -> Seq<nat> {
    points.map_values(|pt: (Fe, Fe)| pt.1@)
}

pub proof fn lemma_peval_linear(a: nat, b: nat, x: nat)
    requires
        b == 1,
        a < field::p(),
    ensures
        peval(seq![a, b], x) == field::fadd(a, x),
{
    field::lemma_p_facts();
    let m = field::p() as int;
    let s = seq![a, b];
    assert(s.drop_first() =~= seq![b]);
    assert(s.drop_first().drop_first() =~= Seq::<nat>::empty());
    assert(peval(Seq::<nat>::empty(), x) == 0);
    field::lemma_fmul_zero(x);
    vstd::arithmetic::div_mod::lemma_small_mod(1, field::p());
    assert(peval(seq![b], x) == field::fadd(b, field::fmul(x, 0)));
    assert(peval(seq![b], x) == 1);
    assert(peval(s, x) == field::fadd(a, field::fmul(x, 1)));
    vstd::arithmetic::div_mod::lemma_mod_twice(x as int, m);
    vstd::arithmetic::div_mod::lemma_add_mod_noop(a as int, x as int, m);
    vstd::arithmetic::div_mod::lemma_small_mod(a, field::p());
    assert(field::fmul(x, 1) == x % field::p());
}

/// `-a + x` is `x - a`.
pub proof fn lemma_neg_plus(a: nat, x: nat)
    ensures
        field::fadd(field::fneg(a), x) == field::fsub(x, a),
{
    field::lemma_p_facts();
    let m = field::p() as int;
    vstd::arithmetic::div_mod::lemma_add_mod_noop(0 - a, x as int, m);
    vstd::arithmetic::div_mod::lemma_mod_twice(0 - a, m);
    vstd::arithmetic::div_mod::lemma_add_mod_noop((0 - a) % m, x as int, m);
    vstd::arithmetic::div_mod::lemma_mod_twice(x as int, m);
}

/// A product with a zero factor among its first `n` nodes vanishes.
pub proof fn lemma_node_poly_vanishes(xs: Seq<nat>, i: int, n: nat)
    requires
        0 <= i < n <= xs.len(),
    ensures
        node_poly_value(xs, xs[i], n) == 0,
    decreases n,
{
    if i == n - 1 {
        field::lemma_fsub_self(xs[i]);
        field::lemma_fmul_zero(node_poly_value(xs, xs[i], (n - 1) as nat));
    } else {
        lemma_node_poly_vanishes(xs, i, (n - 1) as nat);
        field::lemma_fmul_zero(field::fsub(xs[i], xs[n - 1]));
    }
}

/// The Horner value of a short polynomial is its constant term.
pub proof fn lemma_peval_short(c: Seq<nat>, x: nat)
    requires
        c.len() < 2,
    ensures
        peval(c, x) == (if c.len() == 0 { 0 } else { c[0] % field::p() }),
{
    field::lemma_p_facts();
    if c.len() == 1 {
        assert(c.drop_first().len() == 0);
        assert(peval(c.drop_first(), x) == 0);
        field::lemma_fmul_zero(x);
        assert(peval(c, x) == field::fadd(c[0], field::fmul(x, 0)));
    }
}

/// Horner values are residues.
pub proof fn lemma_peval_bounded(c: Seq<nat>, x: nat)
    ensures
        peval(c, x) < field::p(),
    decreases c.len(),
{
    field::lemma_p_facts();
    if c.len() > 0 {
        field::lemma_field_ops_bounded(c[0], field::fmul(x, peval(c.drop_first(), x)));
    }
}

/// The zero polynomial evaluates to zero.
pub proof fn lemma_peval_all_zero(c: Seq<nat>, x: nat)
    requires
        all_zero(c),
    ensures
        peval(c, x) == 0,
    decreases c.len(),
{
    field::lemma_p_facts();
    if c.len() > 0 {
        assert(all_zero(c.drop_first()));
        lemma_peval_all_zero(c.drop_first(), x);
        field::lemma_fmul_zero(x);
    }
}

/// Scaling every coefficient scales the value.
pub proof fn lemma_peval_scaled(c: Seq<nat>, s: nat, x: nat)
    requires
        s < field::p(),
    ensures
        peval(c.map_values(|v: nat| field::fmul(v, s)), x) == field::fmul(peval(c, x), s),
    decreases c.len(),
{
    field::lemma_p_facts();
    let cs = c.map_values(|v: nat| field::fmul(v, s));
    if c.len() == 0 {
        field::lemma_fmul_zero(s);
    } else {
        assert(cs.drop_first() =~= c.drop_first().map_values(|v: nat| field::fmul(v, s)));
        lemma_peval_scaled(c.drop_first(), s, x);
        let t = peval(c.drop_first(), x);
        // cs(x) = c0 s + x (t s) = (c0 + x t) s
        field::lemma_fmul_assoc(x, t, s);
        field::lemma_fmul_comm(field::fadd(c[0], field::fmul(x, t)), s);
        field::lemma_fmul_distrib(s, c[0], field::fmul(x, t));
        field::lemma_fmul_comm(s, c[0]);
        field::lemma_fmul_comm(s, field::fmul(x, t));
        assert(cs[0] == field::fmul(c[0], s));
        vstd::arithmetic::div_mod::lemma_mul_mod_noop_left(c[0] as int, s as int, field::p() as int);
        vstd::arithmetic::div_mod::lemma_add_mod_noop(
            (c[0] * s) as int,
            field::fmul(x, field::fmul(t, s)) as int,
            field::p() as int,
        );
        vstd::arithmetic::div_mod::lemma_mod_twice((c[0] * s) as int, field::p() as int);
        lemma_peval_bounded(c.drop_first(), x);
        field::lemma_field_ops_bounded(x, field::fmul(t, s));
        vstd::arithmetic::div_mod::lemma_small_mod(field::fmul(x, field::fmul(t, s)), field::p());
        vstd::arithmetic::div_mod::lemma_mul_mod_noop_general(c[0] as int, s as int, field::p() as int);
        vstd::arithmetic::div_mod::lemma_add_mod_noop(
            c[0] as int,
            field::fmul(x, t) as int,
            field::p() as int,
        );
        vstd::arithmetic::div_mod::lemma_mul_mod_noop_left(
            (c[0] + field::fmul(x, t)) as int,
            s as int,
            field::p() as int,
        );
        vstd::arithmetic::mul::lemma_mul_is_distributive_add_other_way(
            s as int,
            c[0] as int,
            field::fmul(x, t) as int,
        );
        vstd::arithmetic::div_mod::lemma_add_mod_noop(
            (c[0] * s) as int,
            (field::fmul(x, t) * s) as int,
            field::p() as int,
        );
        vstd::arithmetic::div_mod::lemma_mul_mod_noop_left(
            field::fmul(x, t) as int,
            s as int,
            field::p() as int,
        );
    }
}

/// Lagrange interpolation through the given points: with `G = ∏ (X - x_i)`,
/// the result is `∑_i y_i / d_i · G / (X - x_i)`, where `d_i` multiplies the
/// differences between `x_i` and every other node value.
#[verifier::spinoff_prover]
pub fn lagrange_interpolate(points: &[(Fe, Fe)]) -> (out: Poly)
    requires
        points.len() > 0,
        points.len() < 0x8000_0000,
    ensures
        is_lagrange_form(out.vals(), xs_of(points@), ys_of(points@)),
        trimmed(out.vals()),
        out.coeffs.len() <= points.len(),
        crate::roots::distinct_nodes(xs_of(points@)) ==> forall|k: int|
            0 <= k < points.len() ==> #[trigger] peval(out.vals(), xs_of(points@)[k]) == ys_of(points@)[k],
        crate::roots::distinct_nodes(xs_of(points@)) ==> forall|c: Seq<nat>|
            #[trigger] interpolates(c, xs_of(points@), ys_of(points@)) ==> out.vals() == c,
{
    let n = points.len();
    let ghost xs = xs_of(points@);
    let ghost ys = ys_of(points@);
    let mut global: Vec<[u64; 4]> = Vec::new();
    global.push(Fe::one().limbs());
    proof {
        field::lemma_p_facts();
        assert forall|x: nat| #[trigger] peval(limb_vals(global@), x) == node_poly_value(xs, x, 0) by {
            assert(limb_vals(global@) =~= seq![1nat]) by {
                vstd::arithmetic::div_mod::lemma_small_mod(1, field::p());
            }
            lemma_peval_short(seq![1nat], x);
            vstd::arithmetic::div_mod::lemma_small_mod(1, field::p());
        }
    }
    let mut i: usize = 0;
    while i < n
        invariant
            n == points.len(),
            n < 0x8000_0000,
            xs == xs_of(points@),
            i <= n,
            global.len() <= i + 1,
            all_canonical(global@),
            trimmed(limb_vals(global@)),
            forall|x: nat| #[trigger] peval(limb_vals(global@), x) == node_poly_value(xs, x, i as nat),
        decreases n - i,
    {
        let xx = points[i].0.neg();
        let mut lin: Vec<[u64; 4]> = Vec::new();
        lin.push(xx.limbs());
        lin.push(Fe::from_u64(1).limbs());
        proof {
            field::lemma_fe_bounded(xx);
            assert(limb_vals(lin@) =~= seq![xx@, 1nat]) by {
                vstd::arithmetic::div_mod::lemma_small_mod(xx@, field::p());
                vstd::arithmetic::div_mod::lemma_small_mod(1, field::p());
            }
            assert forall|x: nat| #[trigger] peval(limb_vals(lin@), x) == field::fsub(x, xs[i as int]) by {
                lemma_peval_linear(xx@, 1, x);
                lemma_neg_plus(xs[i as int], x);
            }
        }
        global = ark_poly_mul(&global, &lin);
        i = i + 1;
    }
    let mut output: Vec<[u64; 4]> = Vec::new();
    let mut i: usize = 0;
    while i < n
        invariant
            i <= n,
            output.len() == i,
            forall|j: int| 0 <= j < i ==> #[trigger] output@[j] == [0u64, 0, 0, 0],
        decreases n - i,
    {
        output.push([0, 0, 0, 0]);
        i = i + 1;
    }
    proof {
        field::lemma_p_facts();
        assert(all_canonical(output@));
        assert(all_zero(limb_vals(output@))) by {
            assert forall|j: int| 0 <= j < output.len() implies #[trigger] limb_vals(output@)[j] == 0 by {
                assert(output@[j] == [0u64, 0, 0, 0]);
            }
        }
        assert forall|x: nat| #[trigger] peval(limb_vals(output@), x) == 0 by {
            lemma_peval_all_zero(limb_vals(output@), x);
        }
    }
    let ghost scales = Seq::new(n as nat, |k: int| field::fdiv(ys[k], lagrange_denominator(xs, k, n as nat)));
    let ghost mut basis: Seq<Seq<nat>> = Seq::empty();
    let mut i: usize = 0;
    while i < n
        invariant
            n == points.len(),
            n < 0x8000_0000,
            xs == xs_of(points@),
            ys == ys_of(points@),
            scales == Seq::new(n as nat, |k: int| field::fdiv(ys[k], lagrange_denominator(xs, k, n as nat))),
            i <= n,
            global.len() <= n + 1,
            all_canonical(global@),
            trimmed(limb_vals(global@)),
            forall|x: nat| #[trigger] peval(limb_vals(global@), x) == node_poly_value(xs, x, n as nat),
            all_canonical(output@),
            output.len() <= n,
            degree_ok(limb_vals(output@)),
            i > 0 ==> trimmed(limb_vals(output@)),
            basis.len() == i,
            forall|k: int| 0 <= k < i ==> #[trigger] basis[k].len() <= n,
            forall|k: int, x: nat|
                0 <= k < i ==> #[trigger] field::fmul(peval(basis[k], x), field::fsub(x, xs[k]))
                    == node_poly_value(xs, x, n as nat),
            forall|x: nat| #[trigger] peval(limb_vals(output@), x) == weighted_sum(basis, scales, x, i as nat),
        decreases n - i,
    {
        let x = points[i].0;
        let y = points[i].1;
        let xx = x.neg();
        let mut frac = Fe::one();
        let mut j: usize = 0;
        while j < n
            invariant
                n == points.len(),
                xs == xs_of(points@),
                i < n,
                x == points@[i as int].0,
                j <= n,
                frac@ == lagrange_denominator(xs, i as int, j as nat),
                frac@ != 0,
            decreases n - j,
        {
            let xj = points[j].0;
            if !xj.equals(&x) {
                let d = x.sub(&xj);
                proof {
                    field::lemma_fe_bounded(x);
                    field::lemma_fe_bounded(xj);
                    field::lemma_fsub_nonzero(x@, xj@);
                }
                frac = frac.mul(&d);
            }
            j = j + 1;
        }
        let scaling = y.div(&frac);
        let mut lin: Vec<[u64; 4]> = Vec::new();
        lin.push(xx.limbs());
        lin.push(Fe::from_u64(1).limbs());
        proof {
            field::lemma_fe_bounded(xx);
            field::lemma_p_facts();
            assert(limb_vals(lin@) =~= seq![xx@, 1nat]) by {
                vstd::arithmetic::div_mod::lemma_small_mod(xx@, field::p());
                vstd::arithmetic::div_mod::lemma_small_mod(1, field::p());
            }
            assert forall|z: nat| #[trigger] peval(limb_vals(lin@), z) == field::fsub(z, xs[i as int]) by {
                lemma_peval_linear(xx@, 1, z);
                lemma_neg_plus(xs[i as int], z);
            }
            assert(!all_zero(limb_vals(lin@))) by {
                assert(limb_vals(lin@)[1] == 1);
            }
        }
        let q = ark_poly_div(&global, &lin);
        let ghost qv = limb_vals(q@);
        proof {
            let rem = choose|rem: Seq<nat>|
                rem.len() < lin.len() && forall|z: nat|
                    #[trigger] peval(limb_vals(global@), z) == field::fadd(
                        field::fmul(peval(limb_vals(q@), z), peval(limb_vals(lin@), z)),
                        peval(rem, z),
                    );
            let xi = xs[i as int];
            lemma_node_poly_vanishes(xs, i as int, n as nat);
            assert(peval(limb_vals(global@), xi) == 0);
            field::lemma_fsub_self(xi);
            field::lemma_fmul_zero(peval(qv, xi));
            lemma_peval_short(rem, xi);
            lemma_peval_bounded(rem, xi);
            vstd::arithmetic::div_mod::lemma_small_mod(peval(rem, xi), field::p());
            assert(peval(rem, xi) == 0);
            assert forall|z: nat| #[trigger] field::fmul(peval(qv, z), field::fsub(z, xi))
                == node_poly_value(xs, z, n as nat) by {
                lemma_peval_short(rem, z);
                lemma_peval_short(rem, xi);
                assert(peval(rem, z) == 0);
                assert(peval(limb_vals(global@), z) == field::fadd(
                    field::fmul(peval(limb_vals(q@), z), peval(limb_vals(lin@), z)),
                    peval(rem, z),
                ));
                assert(peval(limb_vals(lin@), z) == field::fsub(z, xi));
                field::lemma_field_ops_bounded(peval(qv, z), field::fsub(z, xi));
                field::lemma_fadd_zero(field::fmul(peval(qv, z), field::fsub(z, xi)));
            }
        }
        let sel = ark_poly_scale(&q, scaling.limbs());
        proof {
            field::lemma_fe_bounded(scaling);
            vstd::arithmetic::div_mod::lemma_small_mod(scaling@, field::p());
            assert forall|z: nat| #[trigger] peval(limb_vals(sel@), z) == field::fmul(peval(qv, z), scaling@) by {
                if all_zero(qv) {
                    lemma_peval_all_zero(qv, z);
                    field::lemma_fmul_zero(scaling@);
                    assert(limb_vals(sel@) =~= Seq::<nat>::empty());
                } else if scaling@ == 0 {
                    field::lemma_fmul_zero(peval(qv, z));
                    assert(limb_vals(sel@) =~= Seq::<nat>::empty());
                } else {
                    lemma_peval_scaled(qv, scaling@, z);
                }
            }
            assert(all_zero(qv) || scaling@ == 0 ==> all_zero(limb_vals(sel@)));
            assert(sel.len() <= n);
        }
        ark_poly_add_assign(&mut output, &sel);
        proof {
            let ghost old_basis = basis;
            basis = basis.push(qv);
            assert forall|z: nat| #[trigger] peval(limb_vals(output@), z) == weighted_sum(
                basis,
                scales,
                z,
                (i + 1) as nat,
            ) by {
                lemma_weighted_sum_prefix(old_basis, basis, scales, z, i as nat);
            }
            assert forall|k: int, z: nat|
                0 <= k < i + 1 implies #[trigger] field::fmul(peval(basis[k], z), field::fsub(z, xs[k]))
                    == node_poly_value(xs, z, n as nat) by {
                if k < i {
                    assert(basis[k] == old_basis[k]);
                }
            }
        }
        i = i + 1;
    }
    let out = Poly { coeffs: from_limbs_vec(&output) };
    // The modulus of `Fr`, which ark_ff documents as prime: the values of the
    // interpolant at the nodes rest on Fermat's theorem for it.
    let _modulus = field::ark_modulus();
    proof {
        assert(crate::roots::fermat()) by {
            assert forall|a: nat| 0 < a < field::p() implies #[trigger] (vstd::arithmetic::power::pow(
                a as int,
                (field::p() - 1) as nat,
            ) % (field::p() as int)) == 1 by {}
        }
        if crate::roots::distinct_nodes(xs) {
            assert(crate::roots::residues(xs)) by {
                assert forall|k: int| 0 <= k < xs.len() implies #[trigger] xs[k] < field::p() by {
                    field::lemma_fe_bounded(points@[k].0);
                }
            }
            assert(crate::roots::residues(ys)) by {
                assert forall|k: int| 0 <= k < ys.len() implies #[trigger] ys[k] < field::p() by {
                    field::lemma_fe_bounded(points@[k].1);
                }
            }
            assert(scales =~= crate::roots::lagrange_scales(xs, ys));
            assert forall|k: int| 0 <= k < points.len() implies #[trigger] peval(out.vals(), xs[k]) == ys[k] by {
                crate::roots::lemma_interpolant_at_node(out.vals(), xs, ys, basis, k);
            }
        }
        assert(xs.len() == n && ys.len() == n);
        assert(scales =~= Seq::new(
            xs.len(),
            |k: int| field::fdiv(ys[k], lagrange_denominator(xs, k, xs.len())),
        ));
        assert(forall|x: nat| #[trigger] peval(out.vals(), x) == weighted_sum(basis, scales, x, xs.len()));
        assert(forall|k: int, x: nat|
            0 <= k < xs.len() ==> #[trigger] field::fmul(peval(basis[k], x), field::fsub(x, xs[k]))
                == node_poly_value(xs, x, xs.len()));
        if crate::roots::distinct_nodes(xs) {
            assert(crate::roots::residues(out.vals())) by {
                assert forall|k: int| 0 <= k < out.vals().len() implies #[trigger] out.vals()[k] < field::p() by {
                    field::lemma_fe_bounded(out.coeffs@[k]);
                }
            }
            assert(crate::roots::residues(xs)) by {
                assert forall|k: int| 0 <= k < xs.len() implies #[trigger] xs[k] < field::p() by {
                    field::lemma_fe_bounded(points@[k].0);
                }
            }
            assert forall|c: Seq<nat>| #[trigger] interpolates(c, xs, ys) implies out.vals() == c by {
                assert forall|k: int| 0 <= k < xs.len() implies #[trigger] peval(out.vals(), xs[k]) == peval(c, xs[k]) by {
                    assert(peval(out.vals(), xs[k]) == ys[k]);
                }
                crate::roots::lemma_unique_poly(out.vals(), c, xs);
            }
        }
    }
    out
}

/// `c` is a trimmed field polynomial with at most as many coefficients as
/// there are nodes, taking the value `ys[k]` at `xs[k]`.
pub open spec fn interpolates(c: Seq<nat>, xs: Seq<nat>, ys: Seq<nat>) -> bool {
    &&& trimmed(c)
    &&& c.len() <= xs.len()
    &&& crate::roots::residues(c)
    &&& forall|k: int| 0 <= k < xs.len() ==> #[trigger] peval(c, xs[k]) == ys[k]
}

/// Extending the basis past `n` leaves the first `n` terms of the sum alone.
pub proof fn lemma_weighted_sum_prefix(b1: Seq<Seq<nat>>, b2: Seq<Seq<nat>>, s: Seq<nat>, x: nat, n: nat)
    requires
        n <= b1.len(),
        n <= b2.len(),
        forall|k: int| 0 <= k < n ==> b1[k] == b2[k],
    ensures
        weighted_sum(b1, s, x, n) == weighted_sum(b2, s, x, n),
    decreases n,
{
    if n > 0 {
        lemma_weighted_sum_prefix(b1, b2, s, x, (n - 1) as nat);
    }
}

// ---------------------------------------------------------------------------
// Randomized equality check (Schwartz-Zippel).
// ---------------------------------------------------------------------------
/// Whether two polynomials take the same value at `x`.
pub fn agree_at(a: &Poly, b: &Poly, x: &Fe) -> (r: bool)
    ensures
        r == (peval(a.vals(), x@) == peval(b.vals(), x@)),
{
    let va = evaluate(a, x);
    let vb = evaluate(b, x);
    va.equals(&vb)
}

/// Checks polynomial equality with Schwartz-Zippel: compares the two
/// polynomials at a random point.
pub struct PolyChecker {
    rng: field::Draws,
}

impl PolyChecker {
    /// The values this checker has drawn so far, oldest first.
    pub closed spec fn drawn(&self) -> Seq<nat> {
        self.rng@
    }

    pub fn new() -> (r: Self)
        ensures
            r.drawn() == Seq::<nat>::empty(),
    {
        Self { rng: field::Draws::new() }
    }

    /// Evaluates both polynomials at a fresh random field element and
    /// compares; equal polynomials are always reported equal. The point is
    /// the one value that this call draws: the last of `drawn()`.
    pub fn check(&mut self, a: &Poly, b: &Poly) -> (r: bool)
        ensures
            exists|x: Fe| r == (peval(a.vals(), x@) == peval(b.vals(), x@)),
            a.vals() == b.vals() ==> r,
            final(self).drawn().len() == old(self).drawn().len() + 1,
            final(self).drawn().drop_last() == old(self).drawn(),
            final(self).drawn().last() < field::p(),
            r == (peval(a.vals(), final(self).drawn().last()) == peval(b.vals(), final(self).drawn().last())),
    {
        let x = self.rng.draw();
        let r = agree_at(a, b, &x);
        proof {
            assert(self.rng@.drop_last() =~= old(self).rng@);
        }
        r
    }
}

/// Schwartz-Zippel in one variable: two polynomials with at most `d + 1`
/// coefficients that differ at some point of the field agree on at most `d`
/// of its points, so among any `d + 1` distinct field elements there is one
/// where they differ. `PolyChecker::check` answers whether they agree at a
/// fresh uniform draw, so it reports such polynomials equal with
/// probability at most `d / p`. (`fermat()` is Fermat's little theorem for
/// `p`, which `ark_modulus` gives.)
pub proof fn lemma_distinct_polys_rarely_agree(a: Seq<nat>, b: Seq<nat>, d: nat, x: nat, pts: Seq<nat>)
    requires
        crate::roots::fermat(),
        a.len() <= d + 1,
        b.len() <= d + 1,
        x < field::p(),
        peval(a, x) != peval(b, x),
        pts.len() == d + 1,
        crate::roots::distinct_nodes(pts),
        crate::roots::residues(pts),
    ensures
        exists|i: int| 0 <= i < pts.len() && peval(a, pts[i]) != peval(b, pts[i]),
{
    if forall|i: int| 0 <= i < pts.len() ==> #[trigger] peval(a, pts[i]) == peval(b, pts[i]) {
        crate::roots::lemma_agree_everywhere(a, b, pts, x);
    }
}

} // verus!
