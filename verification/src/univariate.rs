//! Functions of one field variable that are polynomials of bounded degree,
//! and the operations that keep them so: the one-variable restrictions that
//! the sum-check's degree bound speaks of.
use crate::field;
use crate::poly::peval;
use crate::roots::{coeff, csub, ipeval, pi, to_int};
use vstd::arithmetic::div_mod::*;
use vstd::prelude::*;

verus! {

/// The polynomial with coefficients `c` agrees with `h` on the field.
pub open spec fn agrees(c: Seq<nat>, h: spec_fn(nat) -> nat) -> bool {
    forall|t: nat| t < field::p() ==> #[trigger] peval(c, t) == h(t)
}

/// On the field, `h` is a polynomial of degree at most `d`.
pub open spec fn poly_fn(h: spec_fn(nat) -> nat, d: nat) -> bool {
    exists|c: Seq<nat>| c.len() <= d + 1 && #[trigger] agrees(c, h)
}

/// Integer coefficients reduced into the field.
pub open spec fn reduce(c: Seq<int>) -> Seq<nat> {
    c.map_values(|v: int| (v % pi()) as nat)
}

/// `u + v` coefficient by coefficient, `n` coefficients long.
pub open spec fn iadd(u: Seq<int>, v: Seq<int>, n: nat) -> Seq<int> {
    Seq::new(n, |i: int| coeff(u, i) + coeff(v, i))
}

/// Every coefficient times `k`.
pub open spec fn iscale(b: Seq<int>, k: int) -> Seq<int> {
    b.map_values(|v: int| v * k)
}

/// The product of two integer polynomials.
pub open spec fn imul(a: Seq<int>, b: Seq<int>) -> Seq<int>
    decreases a.len(),
{
    if a.len() == 0 || b.len() == 0 {
        Seq::empty()
    } else {
        iadd(iscale(b, a[0]), seq![0int] + imul(a.drop_first(), b), (a.len() + b.len() - 1) as nat)
    }
}

/// Reducing the coefficients reduces the value.
pub proof fn lemma_reduce(c: Seq<int>, x: nat)
    ensures
        peval(reduce(c), x) == ipeval(c, x as int) % pi(),
    decreases c.len(),
{
    field::lemma_p_facts();
    let m = pi();
    if c.len() == 0 {
        lemma_small_mod(0, field::p());
    } else {
        let r = reduce(c);
        assert(r.drop_first() =~= reduce(c.drop_first()));
        lemma_reduce(c.drop_first(), x);
        let i1 = ipeval(c.drop_first(), x as int);
        lemma_mul_mod_noop_right(x as int, i1, m);
        lemma_mod_bound(c[0], m);
        lemma_add_mod_noop(c[0], x * i1, m);
        lemma_mod_twice(c[0], m);
        lemma_mod_bound(x * i1, m);
        assert(peval(r, x) == field::fadd(r[0], field::fmul(x, peval(r.drop_first(), x))));
    }
}

proof fn lemma_iadd(u: Seq<int>, v: Seq<int>, n: nat, x: int)
    requires
        u.len() <= n,
        v.len() <= n,
    ensures
        ipeval(iadd(u, v, n), x) == ipeval(u, x) + ipeval(v, x),
    decreases n,
{
    let d = iadd(u, v, n);
    if n == 0 {
        assert(u.len() == 0 && v.len() == 0);
    } else {
        let n1 = (n - 1) as nat;
        let tu = if u.len() == 0 { u } else { u.drop_first() };
        let tv = if v.len() == 0 { v } else { v.drop_first() };
        lemma_iadd(tu, tv, n1, x);
        assert(d.drop_first() =~= iadd(tu, tv, n1));
        let a = ipeval(tu, x);
        let b = ipeval(tv, x);
        if u.len() == 0 {
            assert(x * 0 == 0) by (nonlinear_arith);
        }
        if v.len() == 0 {
            assert(x * 0 == 0) by (nonlinear_arith);
        }
        assert(ipeval(u, x) == coeff(u, 0) + x * a);
        assert(ipeval(v, x) == coeff(v, 0) + x * b);
        assert(ipeval(d, x) == (coeff(u, 0) + coeff(v, 0)) + x * (a + b));
        assert((coeff(u, 0) + coeff(v, 0)) + x * (a + b) == (coeff(u, 0) + x * a) + (coeff(v, 0) + x * b))
            by (nonlinear_arith);
    }
}

proof fn lemma_iscale(b: Seq<int>, k: int, x: int)
    ensures
        ipeval(iscale(b, k), x) == k * ipeval(b, x),
    decreases b.len(),
{
    if b.len() == 0 {
        assert(k * 0 == 0) by (nonlinear_arith);
    } else {
        assert(iscale(b, k).drop_first() =~= iscale(b.drop_first(), k));
        lemma_iscale(b.drop_first(), k, x);
        let t = ipeval(b.drop_first(), x);
        assert(b[0] * k + x * (k * t) == k * (b[0] + x * t)) by (nonlinear_arith);
    }
}

/// The product's value is the product of the values; its length is the sum
/// of the lengths less one.
pub proof fn lemma_imul(a: Seq<int>, b: Seq<int>, x: int)
    ensures
        ipeval(imul(a, b), x) == ipeval(a, x) * ipeval(b, x),
        imul(a, b).len() == (if a.len() == 0 || b.len() == 0 {
            0
        } else {
            a.len() + b.len() - 1
        }),
    decreases a.len(),
{
    if a.len() == 0 {
        assert(0 * ipeval(b, x) == 0) by (nonlinear_arith);
    } else if b.len() == 0 {
        assert(ipeval(a, x) * 0 == 0) by (nonlinear_arith);
    } else {
        let rest = imul(a.drop_first(), b);
        lemma_imul(a.drop_first(), b, x);
        let sh = seq![0int] + rest;
        assert(sh.drop_first() =~= rest);
        let n = (a.len() + b.len() - 1) as nat;
        lemma_iadd(iscale(b, a[0]), sh, n, x);
        lemma_iscale(b, a[0], x);
        let (ia1, ib) = (ipeval(a.drop_first(), x), ipeval(b, x));
        assert(ipeval(sh, x) == 0 + x * (ia1 * ib));
        assert(a[0] * ib + x * (ia1 * ib) == (a[0] + x * ia1) * ib) by (nonlinear_arith);
    }
}

/// Two functions equal on the field have the same degree.
pub proof fn lemma_poly_ext(h1: spec_fn(nat) -> nat, h2: spec_fn(nat) -> nat, d: nat)
    requires
        poly_fn(h1, d),
        forall|t: nat| t < field::p() ==> #[trigger] h1(t) == h2(t),
    ensures
        poly_fn(h2, d),
{
    let c = choose|c: Seq<nat>| c.len() <= d + 1 && #[trigger] agrees(c, h1);
    assert(agrees(c, h2));
}

/// A bound on the degree can be raised.
pub proof fn lemma_poly_mono(h: spec_fn(nat) -> nat, d: nat, e: nat)
    requires
        poly_fn(h, d),
        d <= e,
    ensures
        poly_fn(h, e),
{
    let c = choose|c: Seq<nat>| c.len() <= d + 1 && #[trigger] agrees(c, h);
    assert(c.len() <= e + 1 && agrees(c, h));
}

/// A constant field value.
pub proof fn lemma_poly_const(k: nat)
    requires
        k < field::p(),
    ensures
        poly_fn(|t: nat| k, 0),
{
    let c = seq![k];
    let h = |t: nat| k;
    assert forall|t: nat| t < field::p() implies #[trigger] peval(c, t) == h(t) by {
        assert(c.drop_first() =~= Seq::<nat>::empty());
        assert(peval(c.drop_first(), t) == 0);
        field::lemma_fmul_zero(t);
        field::lemma_fadd_zero(k);
        assert(peval(c, t) == field::fadd(k, field::fmul(t, peval(c.drop_first(), t))));
    }
    assert(agrees(c, h));
}

/// The variable itself.
pub proof fn lemma_poly_var()
    ensures
        poly_fn(|t: nat| t, 1),
{
    let c = seq![0nat, 1nat];
    let h = |t: nat| t;
    field::lemma_p_facts();
    assert forall|t: nat| t < field::p() implies #[trigger] peval(c, t) == h(t) by {
        let c1 = c.drop_first();
        assert(c1 =~= seq![1nat]);
        assert(c1.drop_first() =~= Seq::<nat>::empty());
        assert(peval(c1.drop_first(), t) == 0);
        field::lemma_fmul_zero(t);
        field::lemma_fadd_zero(1);
        assert(peval(c1, t) == field::fadd(1, field::fmul(t, peval(c1.drop_first(), t))));
        assert(peval(c1, t) == 1);
        assert(peval(c, t) == field::fadd(0, field::fmul(t, peval(c1, t))));
        field::lemma_fmul_one(t);
        field::lemma_fadd_zero(t);
    }
    assert(agrees(c, h));
}

/// Sums keep the degree bound.
pub proof fn lemma_poly_add(h1: spec_fn(nat) -> nat, h2: spec_fn(nat) -> nat, d: nat)
    requires
        poly_fn(h1, d),
        poly_fn(h2, d),
    ensures
        poly_fn(|t: nat| field::fadd(h1(t), h2(t)), d),
{
    let c1 = choose|c: Seq<nat>| c.len() <= d + 1 && #[trigger] agrees(c, h1);
    let c2 = choose|c: Seq<nat>| c.len() <= d + 1 && #[trigger] agrees(c, h2);
    let c = crate::roots::cadd(c1, c2);
    let h = |t: nat| field::fadd(h1(t), h2(t));
    assert forall|t: nat| t < field::p() implies #[trigger] peval(c, t) == h(t) by {
        crate::roots::lemma_peval_cadd(c1, c2, t);
    }
    assert(agrees(c, h));
}

/// Differences keep the degree bound.
pub proof fn lemma_poly_sub(h1: spec_fn(nat) -> nat, h2: spec_fn(nat) -> nat, d: nat)
    requires
        poly_fn(h1, d),
        poly_fn(h2, d),
    ensures
        poly_fn(|t: nat| field::fsub(h1(t), h2(t)), d),
{
    field::lemma_p_facts();
    let m = pi();
    let c1 = choose|c: Seq<nat>| c.len() <= d + 1 && #[trigger] agrees(c, h1);
    let c2 = choose|c: Seq<nat>| c.len() <= d + 1 && #[trigger] agrees(c, h2);
    let n = if c1.len() >= c2.len() { c1.len() } else { c2.len() };
    let ci = csub(to_int(c1), to_int(c2), n);
    let c = reduce(ci);
    let h = |t: nat| field::fsub(h1(t), h2(t));
    assert forall|t: nat| t < field::p() implies #[trigger] peval(c, t) == h(t) by {
        crate::roots::lemma_csub(to_int(c1), to_int(c2), n, t as int);
        lemma_reduce(ci, t);
        crate::roots::lemma_peval_mod(c1, t);
        crate::roots::lemma_peval_mod(c2, t);
        let (i1, i2) = (ipeval(to_int(c1), t as int), ipeval(to_int(c2), t as int));
        lemma_sub_mod_noop(i1, i2, m);
    }
    assert(agrees(c, h));
}

/// Products add the degree bounds.
pub proof fn lemma_poly_mul(h1: spec_fn(nat) -> nat, d1: nat, h2: spec_fn(nat) -> nat, d2: nat)
    requires
        poly_fn(h1, d1),
        poly_fn(h2, d2),
    ensures
        poly_fn(|t: nat| field::fmul(h1(t), h2(t)), d1 + d2),
{
    field::lemma_p_facts();
    let m = pi();
    let c1 = choose|c: Seq<nat>| c.len() <= d1 + 1 && #[trigger] agrees(c, h1);
    let c2 = choose|c: Seq<nat>| c.len() <= d2 + 1 && #[trigger] agrees(c, h2);
    let ci = imul(to_int(c1), to_int(c2));
    let c = reduce(ci);
    let h = |t: nat| field::fmul(h1(t), h2(t));
    lemma_imul(to_int(c1), to_int(c2), 0);
    assert forall|t: nat| t < field::p() implies #[trigger] peval(c, t) == h(t) by {
        lemma_imul(to_int(c1), to_int(c2), t as int);
        lemma_reduce(ci, t);
        crate::roots::lemma_peval_mod(c1, t);
        crate::roots::lemma_peval_mod(c2, t);
        let (i1, i2) = (ipeval(to_int(c1), t as int), ipeval(to_int(c2), t as int));
        lemma_mul_mod_noop(i1, i2, m);
    }
    assert(c.len() <= d1 + d2 + 1);
    assert(agrees(c, h));
}

/// `eq(t, b)` for a fixed field value `b` is affine in `t`.
pub proof fn lemma_poly_eq(b: nat)
    requires
        b < field::p(),
    ensures
        poly_fn(|t: nat| crate::mle::eq_spec(t, b), 1),
{
    let nb = field::fsub(1, b);
    field::lemma_field_ops_bounded(1, b);
    lemma_poly_var();
    lemma_poly_const(b);
    lemma_poly_const(1);
    lemma_poly_const(nb);
    lemma_poly_mul(|t: nat| t, 1, |t: nat| b, 0);
    lemma_poly_mono(|t: nat| 1nat, 0, 1);
    lemma_poly_sub(|t: nat| 1nat, |t: nat| t, 1);
    let one_minus = |t: nat| field::fsub(1, t);
    lemma_poly_ext(|t: nat| field::fsub((|t: nat| 1nat)(t), (|t: nat| t)(t)), one_minus, 1);
    lemma_poly_mul(one_minus, 1, |t: nat| nb, 0);
    let left = |t: nat| field::fmul(t, b);
    let right = |t: nat| field::fmul(field::fsub(1, t), nb);
    lemma_poly_ext(|t: nat| field::fmul((|t: nat| t)(t), (|t: nat| b)(t)), left, 1);
    lemma_poly_ext(|t: nat| field::fmul(one_minus(t), (|t: nat| nb)(t)), right, 1);
    lemma_poly_add(left, right, 1);
    lemma_poly_ext(|t: nat| field::fadd(left(t), right(t)), |t: nat| crate::mle::eq_spec(t, b), 1);
}

} // verus!
