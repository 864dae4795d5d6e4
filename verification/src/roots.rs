//! Root counting for polynomials over the field, and what it gives for
//! Lagrange interpolation: the interpolant passes through its points.
//!
//! Identities of polynomials are proved over the integers (Horner's rule
//! without reduction, `ipeval`) and read modulo `p` afterwards; that the
//! field has no zero divisors comes from Fermat's theorem for `p`, which the
//! callers obtain from `ark_ff` (see `field::ark_modulus`).
use crate::field;
use crate::poly::{self, peval};
use vstd::arithmetic::div_mod::*;
use vstd::arithmetic::mul::*;
use vstd::arithmetic::power;
use vstd::prelude::*;

verus! {

/// Every nonzero residue `a` has `a^(p-1) = 1` (Fermat's little theorem for
/// `p`).
pub open spec fn fermat() -> bool {
    forall|a: nat|
        0 < a < field::p() ==> #[trigger] (power::pow(a as int, (field::p() - 1) as nat) % (field::p() as int)) == 1
}

/// `p` as an integer.
pub open spec fn pi() -> int {
    field::p() as int
}

/// Horner's rule over the integers, without reduction.
pub open spec fn ipeval(c: Seq<int>, x: int) -> int
    decreases c.len(),
{
    if c.len() == 0 {
        0
    } else {
        c[0] + x * ipeval(c.drop_first(), x)
    }
}

/// The coefficients as integers.
pub open spec fn to_int(c: Seq<nat>) -> Seq<int> {
    c.map_values(|v: nat| v as int)
}

/// The field value of a polynomial is its integer value reduced.
pub(crate) proof fn lemma_peval_mod(c: Seq<nat>, x: nat)
    ensures
        peval(c, x) == ipeval(to_int(c), x as int) % pi(),
    decreases c.len(),
{
    field::lemma_p_facts();
    if c.len() > 0 {
        assert(to_int(c).drop_first() =~= to_int(c.drop_first()));
        lemma_peval_mod(c.drop_first(), x);
        let i1 = ipeval(to_int(c.drop_first()), x as int);
        let p1 = peval(c.drop_first(), x);
        assert(p1 == i1 % pi());
        lemma_mul_mod_noop_right(x as int, i1, pi());
        assert(field::fmul(x, p1) == (x * i1) % pi());
        lemma_add_mod_noop_right(c[0] as int, x * i1, pi());
        assert(peval(c, x) == field::fadd(c[0], field::fmul(x, p1)));
        assert(ipeval(to_int(c), x as int) == c[0] + x * i1);
    } else {
        lemma_small_mod(0, field::p());
    }
}

/// No zero divisors: `u·v ≡ 0` with `u ≢ 0` forces `v ≡ 0`.
pub(crate) proof fn lemma_no_zero_divisors(u: int, v: int)
    requires
        fermat(),
        (u * v) % pi() == 0,
        u % pi() != 0,
    ensures
        v % pi() == 0,
{
    field::lemma_p_facts();
    let m = pi();
    let a = u % m;
    let e = (field::p() - 2) as nat;
    assert(0 < a < m) by {
        lemma_mod_bound(u, m);
    }
    assert(power::pow(a, (field::p() - 1) as nat) % m == 1);
    power::lemma_pow_adds(a, e, 1);
    power::lemma_pow1(a);
    assert(e + 1 == field::p() - 1);
    let w = power::pow(a, e);
    assert(power::pow(a, (field::p() - 1) as nat) == w * a);
    // a·v ≡ u·v ≡ 0
    lemma_mul_mod_noop_left(u, v, m);
    assert((a * v) % m == 0);
    // v ≡ v·(w·a) ≡ (a·v)·w ≡ 0
    lemma_mul_mod_noop_right(v, w * a, m);
    assert((v * (w * a)) % m == (v * 1) % m);
    assert(v * (w * a) == (a * v) * w) by (nonlinear_arith);
    lemma_mul_mod_noop_left(a * v, w, m);
    assert(((a * v) * w) % m == (0 * w) % m);
}

/// Synthetic division by `X - a`: the coefficients of the quotient.
pub open spec fn syn_div(c: Seq<int>, a: int) -> Seq<int>
    decreases c.len(),
{
    if c.len() <= 1 {
        Seq::empty()
    } else {
        seq![ipeval(c.drop_first(), a)] + syn_div(c.drop_first(), a)
    }
}

/// `c(x) = (x - a)·q(x) + c(a)` for the quotient `q` of synthetic division.
proof fn lemma_syn_div(c: Seq<int>, a: int, x: int)
    ensures
        ipeval(c, x) == (x - a) * ipeval(syn_div(c, a), x) + ipeval(c, a),
        syn_div(c, a).len() == (if c.len() == 0 { 0 } else { c.len() - 1 }),
    decreases c.len(),
{
    if c.len() == 1 {
        assert(c.drop_first().len() == 0);
        assert(ipeval(c.drop_first(), x) == 0);
        assert(ipeval(c.drop_first(), a) == 0);
        assert(ipeval(c, x) == c[0] + x * ipeval(c.drop_first(), x));
        assert(x * 0 == 0 && a * 0 == 0) by (nonlinear_arith);
        assert(ipeval(syn_div(c, a), x) == 0);
        assert((x - a) * 0 == 0) by (nonlinear_arith);
    } else if c.len() >= 2 {
        let c1 = c.drop_first();
        let s1 = syn_div(c1, a);
        let v = ipeval(c1, a);
        lemma_syn_div(c1, a, x);
        let s = syn_div(c, a);
        assert(s == seq![v] + s1);
        assert(s.drop_first() =~= s1);
        assert(ipeval(s, x) == v + x * ipeval(s1, x));
        let q1 = ipeval(s1, x);
        let cx = ipeval(c1, x);
        assert(cx == (x - a) * q1 + v);
        assert(c[0] + x * cx == (x - a) * (v + x * q1) + (c[0] + a * v)) by (nonlinear_arith)
            requires
                cx == (x - a) * q1 + v,
        ;
    }
}

/// Distinct residues.
pub open spec fn distinct_residues(pts: Seq<int>) -> bool {
    &&& forall|i: int| 0 <= i < pts.len() ==> 0 <= #[trigger] pts[i] < pi()
    &&& forall|i: int, j: int| 0 <= i < j < pts.len() ==> #[trigger] pts[i] != #[trigger] pts[j]
}

/// `(u + w) ≡ 0` and `w ≡ 0` give `u ≡ 0`.
proof fn lemma_mod_cancel_add(u: int, w: int)
    requires
        (u + w) % pi() == 0,
        w % pi() == 0,
    ensures
        u % pi() == 0,
{
    field::lemma_p_facts();
    lemma_add_mod_noop(u, w, pi());
    lemma_small_mod(0, field::p());
    lemma_mod_twice(u, pi());
    lemma_add_mod_noop(u % pi(), 0, pi());
}

/// `v ≡ 0` gives `u·v ≡ 0`.
proof fn lemma_mod_mul_zero(u: int, v: int)
    requires
        v % pi() == 0,
    ensures
        (u * v) % pi() == 0,
{
    field::lemma_p_facts();
    lemma_mul_mod_noop_right(u, v, pi());
    assert(u * 0 == 0) by (nonlinear_arith);
    lemma_small_mod(0, field::p());
}

/// The difference of two distinct residues is not a multiple of `p`.
proof fn lemma_diff_nonzero(a: int, b: int)
    requires
        0 <= a < pi(),
        0 <= b < pi(),
        a != b,
    ensures
        (a - b) % pi() != 0,
{
    field::lemma_p_facts();
    if a > b {
        lemma_small_mod((a - b) as nat, field::p());
    } else {
        lemma_fundamental_div_mod(a - b, pi());
        lemma_mod_bound(a - b, pi());
        let q = (a - b) / pi();
        assert(a - b == pi() * q + (a - b) % pi());
        if (a - b) % pi() == 0 {
            assert(pi() * q == a - b);
            assert(-pi() < a - b < 0);
            assert(false) by (nonlinear_arith)
                requires
                    pi() * q == a - b,
                    -pi() < a - b < 0,
                    pi() > 1,
            ;
        }
    }
}

/// A polynomial with no more coefficients than it has roots among distinct
/// residues vanishes everywhere modulo `p`.
proof fn lemma_roots(c: Seq<int>, pts: Seq<int>, x: int)
    requires
        fermat(),
        c.len() <= pts.len(),
        distinct_residues(pts),
        forall|i: int| 0 <= i < pts.len() ==> #[trigger] ipeval(c, pts[i]) % pi() == 0,
    ensures
        ipeval(c, x) % pi() == 0,
    decreases pts.len(),
{
    field::lemma_p_facts();
    if c.len() == 0 {
        lemma_small_mod(0, field::p());
    } else {
        let a = pts[0];
        let q = syn_div(c, a);
        let rest = pts.drop_first();
        lemma_syn_div(c, a, a);
        assert(ipeval(c, a) % pi() == 0);
        assert forall|j: int| 0 <= j < rest.len() implies #[trigger] ipeval(q, rest[j]) % pi() == 0 by {
            let y = rest[j];
            assert(y == pts[j + 1]);
            lemma_syn_div(c, a, y);
            assert(ipeval(c, y) % pi() == 0);
            lemma_mod_cancel_add((y - a) * ipeval(q, y), ipeval(c, a));
            lemma_diff_nonzero(y, a);
            lemma_no_zero_divisors(y - a, ipeval(q, y));
        }
        assert(distinct_residues(rest)) by {
            assert forall|i: int, j: int| 0 <= i < j < rest.len() implies #[trigger] rest[i] != #[trigger] rest[j] by {
                assert(rest[i] == pts[i + 1] && rest[j] == pts[j + 1]);
            }
            assert forall|i: int| 0 <= i < rest.len() implies 0 <= #[trigger] rest[i] < pi() by {
                assert(rest[i] == pts[i + 1]);
            }
        }
        lemma_roots(q, rest, x);
        lemma_syn_div(c, a, x);
        lemma_mod_mul_zero(x - a, ipeval(q, x));
        lemma_add_mod_noop((x - a) * ipeval(q, x), ipeval(c, a), pi());
        lemma_small_mod(0, field::p());
    }
}

/// `e` with `v` added to its constant term.
pub open spec fn add_const(e: Seq<int>, v: int) -> Seq<int> {
    if e.len() == 0 {
        seq![v]
    } else {
        e.update(0, e[0] + v)
    }
}

/// The coefficients of `c(X)·(X - a)`.
pub open spec fn mul_linear(c: Seq<int>, a: int) -> Seq<int>
    decreases c.len(),
{
    if c.len() == 0 {
        Seq::empty()
    } else {
        seq![-a * c[0]] + add_const(mul_linear(c.drop_first(), a), c[0])
    }
}

proof fn lemma_add_const(e: Seq<int>, v: int, x: int)
    ensures
        ipeval(add_const(e, v), x) == v + ipeval(e, x),
        add_const(e, v).len() == (if e.len() == 0 { 1 } else { e.len() }),
{
    if e.len() == 0 {
        assert(seq![v].drop_first().len() == 0);
        assert(ipeval(seq![v].drop_first(), x) == 0);
        assert(x * 0 == 0) by (nonlinear_arith);
    } else {
        assert(add_const(e, v).drop_first() =~= e.drop_first());
    }
}

proof fn lemma_mul_linear(c: Seq<int>, a: int, x: int)
    ensures
        ipeval(mul_linear(c, a), x) == ipeval(c, x) * (x - a),
        mul_linear(c, a).len() == (if c.len() == 0 { 0 } else { c.len() + 1 }),
    decreases c.len(),
{
    if c.len() == 0 {
        assert(0 * (x - a) == 0) by (nonlinear_arith);
    } else {
        let c1 = c.drop_first();
        let m1 = mul_linear(c1, a);
        lemma_mul_linear(c1, a, x);
        lemma_add_const(m1, c[0], x);
        let t = add_const(m1, c[0]);
        let m = mul_linear(c, a);
        assert(m.drop_first() =~= t);
        let cx = ipeval(c1, x);
        assert(ipeval(m, x) == -a * c[0] + x * (c[0] + cx * (x - a)));
        assert(-a * c[0] + x * (c[0] + cx * (x - a)) == (c[0] + x * cx) * (x - a)) by (nonlinear_arith);
    }
}

/// `∏_{j<m, j≠k} (x - xs[j])` over the integers.
pub open spec fn prod_except(xs: Seq<int>, k: int, x: int, m: nat) -> int
    decreases m,
{
    if m == 0 {
        1
    } else if m - 1 == k {
        prod_except(xs, k, x, (m - 1) as nat)
    } else {
        prod_except(xs, k, x, (m - 1) as nat) * (x - xs[m - 1])
    }
}

/// The coefficients of `∏_{j<m, j≠k} (X - xs[j])`.
pub open spec fn prod_coeffs(xs: Seq<int>, k: int, m: nat) -> Seq<int>
    decreases m,
{
    if m == 0 {
        seq![1int]
    } else if m - 1 == k {
        prod_coeffs(xs, k, (m - 1) as nat)
    } else {
        mul_linear(prod_coeffs(xs, k, (m - 1) as nat), xs[m - 1])
    }
}

proof fn lemma_prod_coeffs(xs: Seq<int>, k: int, m: nat, x: int)
    requires
        0 <= k,
    ensures
        ipeval(prod_coeffs(xs, k, m), x) == prod_except(xs, k, x, m),
        prod_coeffs(xs, k, m).len() == (if k < m { m } else { m + 1 }),
    decreases m,
{
    if m == 0 {
        assert(seq![1int].drop_first().len() == 0);
        assert(ipeval(seq![1int].drop_first(), x) == 0);
        assert(x * 0 == 0) by (nonlinear_arith);
    } else {
        lemma_prod_coeffs(xs, k, (m - 1) as nat, x);
        if m - 1 != k {
            lemma_mul_linear(prod_coeffs(xs, k, (m - 1) as nat), xs[m - 1], x);
        }
    }
}

/// `∏_{j<m} (x - xs[j])` over the integers.
pub open spec fn inode(xs: Seq<int>, x: int, m: nat) -> int
    decreases m,
{
    if m == 0 {
        1
    } else {
        inode(xs, x, (m - 1) as nat) * (x - xs[m - 1])
    }
}

/// Taking the factor `x - xs[k]` out of the product.
proof fn lemma_inode_split(xs: Seq<int>, k: int, x: int, m: nat)
    requires
        0 <= k,
    ensures
        k < m ==> inode(xs, x, m) == prod_except(xs, k, x, m) * (x - xs[k]),
        k >= m ==> inode(xs, x, m) == prod_except(xs, k, x, m),
    decreases m,
{
    if m > 0 {
        lemma_inode_split(xs, k, x, (m - 1) as nat);
        let pe = prod_except(xs, k, x, (m - 1) as nat);
        let d = x - xs[m - 1];
        let dk = x - xs[k];
        if k < m - 1 {
            assert(inode(xs, x, m) == (pe * dk) * d);
            assert((pe * dk) * d == (pe * d) * dk) by (nonlinear_arith);
        }
    }
}

/// The field product of the node differences is the integer one, reduced.
proof fn lemma_node_mod(xs: Seq<nat>, x: nat, m: nat)
    requires
        m <= xs.len(),
    ensures
        poly::node_poly_value(xs, x, m) == inode(to_int(xs), x as int, m) % pi(),
    decreases m,
{
    field::lemma_p_facts();
    if m == 0 {
        lemma_small_mod(1, field::p());
    } else {
        lemma_node_mod(xs, x, (m - 1) as nat);
        let prev = inode(to_int(xs), x as int, (m - 1) as nat);
        let d = x - xs[m - 1];
        assert(to_int(xs)[m - 1] == xs[m - 1]);
        lemma_mul_mod_noop_left(prev, d, pi());
        lemma_mul_mod_noop_right(prev % pi(), d, pi());
        lemma_mul_mod_noop_right(prev, d, pi());
        assert(field::fsub(x, xs[m - 1]) == d % pi());
    }
}

/// The nodes are distinct.
pub open spec fn distinct_nodes(xs: Seq<nat>) -> bool {
    forall|i: int, j: int| 0 <= i < j < xs.len() ==> #[trigger] xs[i] != #[trigger] xs[j]
}

/// Every node is a residue.
pub open spec fn residues(xs: Seq<nat>) -> bool {
    forall|i: int| 0 <= i < xs.len() ==> #[trigger] xs[i] < field::p()
}

/// For distinct nodes the Lagrange denominator is the product over the other
/// nodes, reduced; and it is not zero.
proof fn lemma_denominator(xs: Seq<nat>, k: int, m: nat)
    requires
        fermat(),
        m <= xs.len(),
        0 <= k < xs.len(),
        distinct_nodes(xs),
        residues(xs),
    ensures
        poly::lagrange_denominator(xs, k, m) == prod_except(to_int(xs), k, xs[k] as int, m) % pi(),
        poly::lagrange_denominator(xs, k, m) != 0,
    decreases m,
{
    field::lemma_p_facts();
    if m == 0 {
        lemma_small_mod(1, field::p());
    } else {
        lemma_denominator(xs, k, (m - 1) as nat);
        let j = m - 1;
        assert(to_int(xs)[j] == xs[j]);
        if j != k {
            assert(xs[j] != xs[k]) by {
                if j < k {
                    assert(xs[j] != xs[k]);
                } else {
                    assert(xs[k] != xs[j]);
                }
            }
            let prev = prod_except(to_int(xs), k, xs[k] as int, (m - 1) as nat);
            let d = xs[k] - xs[j];
            lemma_mul_mod_noop_left(prev, d, pi());
            lemma_mul_mod_noop_right(prev % pi(), d, pi());
            lemma_mul_mod_noop_right(prev, d, pi());
            let ld = poly::lagrange_denominator(xs, k, (m - 1) as nat);
            assert(field::fsub(xs[k], xs[j]) == d % pi());
            assert(poly::lagrange_denominator(xs, k, m) == field::fmul(ld, field::fsub(xs[k], xs[j])));
            if poly::lagrange_denominator(xs, k, m) == 0 {
                lemma_diff_nonzero(xs[k] as int, xs[j] as int);
                lemma_mul_mod_noop_right(ld as int, d, pi());
                lemma_no_zero_divisors(d, ld as int);
                lemma_small_mod(ld, field::p());
                assert(false);
            }
        } else {
            assert(xs[j] == xs[k]);
        }
    }
}

/// The `i`-th coefficient, zero past the end.
pub open spec fn coeff(s: Seq<int>, i: int) -> int {
    if 0 <= i < s.len() {
        s[i]
    } else {
        0
    }
}

/// `a - b` coefficient by coefficient, `n` coefficients long.
pub open spec fn csub(a: Seq<int>, b: Seq<int>, n: nat) -> Seq<int> {
    Seq::new(n, |i: int| coeff(a, i) - coeff(b, i))
}

/// All but the first coefficient, or nothing.
pub open spec fn tail(s: Seq<int>) -> Seq<int> {
    if s.len() == 0 {
        s
    } else {
        s.drop_first()
    }
}

proof fn lemma_ipeval_tail(s: Seq<int>, x: int)
    ensures
        ipeval(s, x) == coeff(s, 0) + x * ipeval(tail(s), x),
{
    if s.len() == 0 {
        assert(x * 0 == 0) by (nonlinear_arith);
    }
}

pub(crate) proof fn lemma_csub(a: Seq<int>, b: Seq<int>, n: nat, x: int)
    requires
        a.len() <= n,
        b.len() <= n,
    ensures
        ipeval(csub(a, b, n), x) == ipeval(a, x) - ipeval(b, x),
    decreases n,
{
    let d = csub(a, b, n);
    if n == 0 {
        assert(a.len() == 0 && b.len() == 0);
    } else {
        let n1 = (n - 1) as nat;
        lemma_csub(tail(a), tail(b), n1, x);
        assert(d.drop_first() =~= csub(tail(a), tail(b), n1));
        lemma_ipeval_tail(a, x);
        lemma_ipeval_tail(b, x);
        let ta = ipeval(tail(a), x);
        let tb = ipeval(tail(b), x);
        assert(ipeval(d, x) == (coeff(a, 0) - coeff(b, 0)) + x * (ta - tb));
        assert((coeff(a, 0) - coeff(b, 0)) + x * (ta - tb) == (coeff(a, 0) + x * ta) - (coeff(b, 0) + x * tb))
            by (nonlinear_arith);
    }
}

/// `n` distinct residues `0, 1, ..., n`, skipping `a`.
pub open spec fn points_avoiding(n: nat, a: int) -> Seq<int> {
    Seq::new(n, |i: int| if i < a { i } else { i + 1 })
}

/// `a - b ≡ 0` gives `a ≡ b`.
proof fn lemma_mod_eq_of_diff(a: int, b: int)
    requires
        (a - b) % pi() == 0,
    ensures
        a % pi() == b % pi(),
{
    field::lemma_p_facts();
    lemma_add_mod_noop(a - b, b, pi());
    lemma_mod_twice(b, pi());
    lemma_small_mod(0, field::p());
    assert((a - b) + b == a);
}

/// `d·(y/d) = y` for a nonzero residue `d`.
proof fn lemma_div_cancel(y: nat, d: nat)
    requires
        fermat(),
        y < field::p(),
        0 < d < field::p(),
    ensures
        field::fmul(d, field::fdiv(y, d)) == y,
{
    field::lemma_p_facts();
    let m = pi();
    let e = (field::p() - 2) as nat;
    let w = power::pow(d as int, e);
    power::lemma_pow_positive(d as int, e);
    power::lemma_pow_adds(d as int, e, 1);
    power::lemma_pow1(d as int);
    assert(e + 1 == field::p() - 1);
    assert(power::pow(d as int, (field::p() - 1) as nat) == w * d);
    assert((w * d) % m == 1);
    assert(field::fpow(d, e) == w % m);
    let q = field::fdiv(y, d);
    lemma_mul_mod_noop_right(y as int, w, m);
    assert(q == (y * w) % m);
    lemma_mul_mod_noop_right(d as int, y * w, m);
    assert(field::fmul(d, q) == (d * (y * w)) % m);
    assert(d * (y * w) == y * (w * d)) by (nonlinear_arith);
    lemma_mul_mod_noop_right(y as int, w * d, m);
    assert(((y as int) * 1) % m == y) by {
        lemma_small_mod(y, field::p());
    }
}

/// A weighted sum whose terms other than the `k`-th vanish at `x` is that
/// term.
proof fn lemma_weighted_single(basis: Seq<Seq<nat>>, scale: Seq<nat>, x: nat, m: nat, k: int)
    requires
        0 <= k,
        forall|i: int| 0 <= i < m && i != k ==> #[trigger] peval(basis[i], x) == 0,
    ensures
        poly::weighted_sum(basis, scale, x, m) == (if k < m {
            field::fmul(peval(basis[k], x), scale[k])
        } else {
            0
        }),
    decreases m,
{
    field::lemma_p_facts();
    if m > 0 {
        lemma_weighted_single(basis, scale, x, (m - 1) as nat, k);
        let prev = poly::weighted_sum(basis, scale, x, (m - 1) as nat);
        let i = m - 1;
        if i != k {
            assert(peval(basis[i], x) == 0);
            field::lemma_fmul_zero(scale[i]);
            if k < m - 1 {
                field::lemma_field_ops_bounded(peval(basis[k], x), scale[k]);
            }
            field::lemma_fadd_zero(prev);
        } else {
            field::lemma_field_ops_bounded(peval(basis[k], x), scale[k]);
            field::lemma_fadd_zero(field::fmul(peval(basis[k], x), scale[k]));
        }
    }
}

/// The scales of the Lagrange form: `ys[i] / d_i`.
pub open spec fn lagrange_scales(xs: Seq<nat>, ys: Seq<nat>) -> Seq<nat> {
    Seq::new(xs.len(), |i: int| field::fdiv(ys[i], poly::lagrange_denominator(xs, i, xs.len())))
}

/// The other basis polynomials vanish at node `k`.
proof fn lemma_other_basis_vanishes(xs: Seq<nat>, b: Seq<nat>, i: int, k: int)
    requires
        fermat(),
        distinct_nodes(xs),
        residues(xs),
        0 <= i < xs.len(),
        0 <= k < xs.len(),
        i != k,
        field::fmul(peval(b, xs[k]), field::fsub(xs[k], xs[i])) == poly::node_poly_value(xs, xs[k], xs.len()),
    ensures
        peval(b, xs[k]) == 0,
{
    field::lemma_p_facts();
    let v = peval(b, xs[k]) as int;
    let u = xs[k] - xs[i];
    poly::lemma_node_poly_vanishes(xs, k, xs.len());
    assert(xs[k] != xs[i]) by {
        if i < k {
            assert(xs[i] != xs[k]);
        } else {
            assert(xs[k] != xs[i]);
        }
    }
    lemma_diff_nonzero(xs[k] as int, xs[i] as int);
    lemma_mul_mod_noop_right(v, u, pi());
    assert((v * u) % pi() == 0);
    lemma_mul_is_commutative(v, u);
    lemma_no_zero_divisors(u, v);
    poly::lemma_peval_bounded(b, xs[k]);
    lemma_small_mod(v as nat, field::p());
}

/// The basis polynomial of node `k`, with at most as many coefficients as
/// there are nodes, takes the value `d_k` at `xs[k]`.
proof fn lemma_own_basis_value(xs: Seq<nat>, b: Seq<nat>, k: int)
    requires
        fermat(),
        distinct_nodes(xs),
        residues(xs),
        xs.len() + 1 < field::p(),
        0 <= k < xs.len(),
        b.len() <= xs.len(),
        forall|x: nat| #[trigger] field::fmul(peval(b, x), field::fsub(x, xs[k])) == poly::node_poly_value(xs, x, xs.len()),
    ensures
        peval(b, xs[k]) == poly::lagrange_denominator(xs, k, xs.len()),
{
    field::lemma_p_facts();
    let n = xs.len();
    let xi = to_int(xs);
    let xk = xs[k] as int;
    let bk = to_int(b);
    let r = prod_coeffs(xi, k, n);
    lemma_prod_coeffs(xi, k, n, 0);
    let d = csub(bk, r, n);
    let pts = points_avoiding(n, xk);
    assert(distinct_residues(pts));
    assert forall|j: int| 0 <= j < pts.len() implies #[trigger] ipeval(d, pts[j]) % pi() == 0 by {
        let y = pts[j];
        assert(y != xk);
        assert(0 <= y < pi());
        let yn = y as nat;
        lemma_csub(bk, r, n, y);
        lemma_peval_mod(b, yn);
        lemma_prod_coeffs(xi, k, n, y);
        lemma_inode_split(xi, k, y, n);
        lemma_node_mod(xs, yn, n);
        assert(xi[k] == xk);
        let by = ipeval(bk, y);
        let ry = ipeval(r, y);
        let u = y - xk;
        // b(y)·(y - x_k) ≡ node(y) = r(y)·(y - x_k)
        assert(field::fmul(peval(b, yn), field::fsub(yn, xs[k])) == poly::node_poly_value(xs, yn, n));
        assert(field::fsub(yn, xs[k]) == u % pi());
        lemma_mul_mod_noop_left(by, u, pi());
        lemma_mul_mod_noop_right(by % pi(), u, pi());
        assert(peval(b, yn) == by % pi());
        assert((by * u) % pi() == (ry * u) % pi());
        lemma_mul_is_distributive_sub_other_way(u, by, ry);
        lemma_sub_mod_noop(by * u, ry * u, pi());
        lemma_small_mod(0, field::p());
        assert(((by - ry) * u) % pi() == 0);
        lemma_mul_is_commutative(by - ry, u);
        lemma_diff_nonzero(y, xk);
        lemma_no_zero_divisors(u, by - ry);
    }
    lemma_roots(d, pts, xk);
    lemma_csub(bk, r, n, xk);
    lemma_mod_eq_of_diff(ipeval(bk, xk), ipeval(r, xk));
    lemma_peval_mod(b, xs[k]);
    lemma_prod_coeffs(xi, k, n, xk);
    lemma_denominator(xs, k, n);
}

/// At every node the Lagrange form through distinct nodes takes the given
/// value.
pub(crate) proof fn lemma_interpolant_at_node(
    out: Seq<nat>,
    xs: Seq<nat>,
    ys: Seq<nat>,
    basis: Seq<Seq<nat>>,
    k: int,
)
    requires
        fermat(),
        distinct_nodes(xs),
        residues(xs),
        residues(ys),
        xs.len() == ys.len(),
        xs.len() + 1 < field::p(),
        0 <= k < xs.len(),
        basis.len() == xs.len(),
        forall|i: int| 0 <= i < basis.len() ==> #[trigger] basis[i].len() <= xs.len(),
        forall|i: int, x: nat|
            0 <= i < xs.len() ==> #[trigger] field::fmul(peval(basis[i], x), field::fsub(x, xs[i]))
                == poly::node_poly_value(xs, x, xs.len()),
        forall|x: nat| #[trigger] peval(out, x) == poly::weighted_sum(basis, lagrange_scales(xs, ys), x, xs.len()),
    ensures
        peval(out, xs[k]) == ys[k],
{
    let n = xs.len();
    let x = xs[k];
    assert forall|i: int| 0 <= i < n && i != k implies #[trigger] peval(basis[i], x) == 0 by {
        assert(field::fmul(peval(basis[i], x), field::fsub(x, xs[i])) == poly::node_poly_value(xs, x, n));
        lemma_other_basis_vanishes(xs, basis[i], i, k);
    }
    lemma_weighted_single(basis, lagrange_scales(xs, ys), x, n, k);
    assert forall|z: nat| #[trigger] field::fmul(peval(basis[k], z), field::fsub(z, xs[k]))
        == poly::node_poly_value(xs, z, n) by {}
    lemma_own_basis_value(xs, basis[k], k);
    lemma_denominator(xs, k, n);
    let dk = poly::lagrange_denominator(xs, k, n);
    assert(dk < field::p()) by {
        lemma_mod_bound(prod_except(to_int(xs), k, xs[k] as int, n), pi());
    }
    lemma_div_cancel(ys[k], dk);
}

/// A polynomial with no more coefficients than it has roots among distinct
/// residues is zero everywhere.
pub(crate) proof fn lemma_vanishes_everywhere(c: Seq<nat>, pts: Seq<nat>, x: nat)
    requires
        fermat(),
        c.len() <= pts.len(),
        distinct_nodes(pts),
        residues(pts),
        forall|i: int| 0 <= i < pts.len() ==> #[trigger] peval(c, pts[i]) == 0,
    ensures
        peval(c, x) == 0,
{
    let ip = to_int(pts);
    assert(distinct_residues(ip)) by {
        assert forall|i: int, j: int| 0 <= i < j < ip.len() implies #[trigger] ip[i] != #[trigger] ip[j] by {
            assert(pts[i] != pts[j]);
        }
        assert forall|i: int| 0 <= i < ip.len() implies 0 <= #[trigger] ip[i] < pi() by {
            assert(pts[i] < field::p());
        }
    }
    assert forall|i: int| 0 <= i < ip.len() implies #[trigger] ipeval(to_int(c), ip[i]) % pi() == 0 by {
        lemma_peval_mod(c, pts[i]);
        assert(ip[i] == pts[i] as int);
    }
    lemma_roots(to_int(c), ip, x as int);
    lemma_peval_mod(c, x);
}

/// The `i`-th coefficient of a field polynomial, zero past the end.
pub open spec fn ncoeff(s: Seq<nat>, i: int) -> nat {
    if 0 <= i < s.len() {
        s[i]
    } else {
        0
    }
}

/// The coefficients of the sum of two polynomials (unreduced).
pub open spec fn cadd(a: Seq<nat>, b: Seq<nat>) -> Seq<nat> {
    Seq::new(if a.len() >= b.len() { a.len() } else { b.len() }, |i: int| ncoeff(a, i) + ncoeff(b, i))
}

/// The value of a sum of polynomials is the sum of their values.
pub(crate) proof fn lemma_peval_cadd(a: Seq<nat>, b: Seq<nat>, x: nat)
    ensures
        peval(cadd(a, b), x) == field::fadd(peval(a, x), peval(b, x)),
{
    field::lemma_p_facts();
    let n = if a.len() >= b.len() { a.len() } else { b.len() };
    let ia = to_int(a);
    let ib = to_int(b);
    // a + b = a - (0 - b), coefficient by coefficient
    let nb = Seq::new(b.len(), |i: int| 0 - ib[i]);
    lemma_csub(ia, nb, n, x as int);
    assert(to_int(cadd(a, b)) =~= csub(ia, nb, n));
    lemma_neg_ipeval(ib, x as int);
    lemma_peval_mod(cadd(a, b), x);
    lemma_peval_mod(a, x);
    lemma_peval_mod(b, x);
    lemma_add_mod_noop(ipeval(ia, x as int), ipeval(ib, x as int), pi());
}

/// Negating every coefficient negates the value.
proof fn lemma_neg_ipeval(c: Seq<int>, x: int)
    ensures
        ipeval(Seq::new(c.len(), |i: int| 0 - c[i]), x) == 0 - ipeval(c, x),
    decreases c.len(),
{
    let n = Seq::new(c.len(), |i: int| 0 - c[i]);
    if c.len() > 0 {
        lemma_neg_ipeval(c.drop_first(), x);
        assert(n.drop_first() =~= Seq::new(c.drop_first().len(), |i: int| 0 - c.drop_first()[i]));
        let t = ipeval(c.drop_first(), x);
        assert(x * (0 - t) == 0 - x * t) by (nonlinear_arith);
    }
}

/// Two polynomials with at most `pts.len()` coefficients that agree on the
/// distinct residues `pts` agree everywhere.
pub(crate) proof fn lemma_agree_everywhere(a: Seq<nat>, b: Seq<nat>, pts: Seq<nat>, x: nat)
    requires
        fermat(),
        a.len() <= pts.len(),
        b.len() <= pts.len(),
        distinct_nodes(pts),
        residues(pts),
        forall|i: int| 0 <= i < pts.len() ==> #[trigger] peval(a, pts[i]) == peval(b, pts[i]),
    ensures
        peval(a, x) == peval(b, x),
{
    field::lemma_p_facts();
    let l = pts.len();
    let ip = to_int(pts);
    let d = csub(to_int(a), to_int(b), l);
    assert(distinct_residues(ip)) by {
        assert forall|i: int, j: int| 0 <= i < j < ip.len() implies #[trigger] ip[i] != #[trigger] ip[j] by {
            assert(pts[i] != pts[j]);
        }
        assert forall|i: int| 0 <= i < ip.len() implies 0 <= #[trigger] ip[i] < pi() by {
            assert(pts[i] < field::p());
        }
    }
    assert forall|i: int| 0 <= i < ip.len() implies #[trigger] ipeval(d, ip[i]) % pi() == 0 by {
        let y = pts[i];
        assert(ip[i] == y as int);
        lemma_csub(to_int(a), to_int(b), l, y as int);
        lemma_peval_mod(a, y);
        lemma_peval_mod(b, y);
        lemma_sub_mod_noop(ipeval(to_int(a), y as int), ipeval(to_int(b), y as int), pi());
        lemma_small_mod(0, field::p());
    }
    lemma_roots(d, ip, x as int);
    lemma_csub(to_int(a), to_int(b), l, x as int);
    lemma_mod_eq_of_diff(ipeval(to_int(a), x as int), ipeval(to_int(b), x as int));
    lemma_peval_mod(a, x);
    lemma_peval_mod(b, x);
}

/// A polynomial with fewer than `2^32` coefficients that vanishes modulo `p`
/// at every integer has every coefficient divisible by `p`.
proof fn lemma_zero_coeffs(c: Seq<int>)
    requires
        fermat(),
        c.len() < 0x1_0000_0000,
        forall|x: int| #[trigger] ipeval(c, x) % pi() == 0,
    ensures
        forall|i: int| 0 <= i < c.len() ==> #[trigger] c[i] % pi() == 0,
    decreases c.len(),
{
    field::lemma_p_facts();
    if c.len() > 0 {
        let t = c.drop_first();
        assert(ipeval(c, 0) % pi() == 0);
        assert(0 * ipeval(t, 0) == 0) by (nonlinear_arith);
        assert(c[0] % pi() == 0);
        let pts = Seq::new(t.len(), |i: int| i + 1);
        assert(distinct_residues(pts));
        assert forall|i: int| 0 <= i < pts.len() implies #[trigger] ipeval(t, pts[i]) % pi() == 0 by {
            let u = i + 1;
            let v = ipeval(t, u);
            assert(ipeval(c, u) % pi() == 0);
            assert(ipeval(c, u) == c[0] + u * v);
            lemma_add_mod_noop(c[0], u * v, pi());
            lemma_mod_twice(u * v, pi());
            lemma_small_mod(0, field::p());
            lemma_small_mod(u as nat, field::p());
            lemma_no_zero_divisors(u, v);
        }
        assert forall|x: int| #[trigger] ipeval(t, x) % pi() == 0 by {
            lemma_roots(t, pts, x);
        }
        lemma_zero_coeffs(t);
        assert forall|i: int| 0 <= i < c.len() implies #[trigger] c[i] % pi() == 0 by {
            if i > 0 {
                assert(c[i] == t[i - 1]);
            }
        }
    }
}

/// Interpolation is unique: two trimmed field polynomials with at most `n`
/// coefficients that agree on `n` distinct residues are the same
/// coefficient sequence.
pub(crate) proof fn lemma_unique_poly(a: Seq<nat>, b: Seq<nat>, pts: Seq<nat>)
    requires
        fermat(),
        a.len() <= pts.len(),
        b.len() <= pts.len(),
        pts.len() < 0x1_0000_0000,
        distinct_nodes(pts),
        residues(pts),
        residues(a),
        residues(b),
        poly::trimmed(a),
        poly::trimmed(b),
        forall|i: int| 0 <= i < pts.len() ==> #[trigger] peval(a, pts[i]) == peval(b, pts[i]),
    ensures
        a == b,
{
    field::lemma_p_facts();
    let l = pts.len();
    let ip = to_int(pts);
    let d = csub(to_int(a), to_int(b), l);
    assert(distinct_residues(ip)) by {
        assert forall|i: int, j: int| 0 <= i < j < ip.len() implies #[trigger] ip[i] != #[trigger] ip[j] by {
            assert(pts[i] != pts[j]);
        }
        assert forall|i: int| 0 <= i < ip.len() implies 0 <= #[trigger] ip[i] < pi() by {
            assert(pts[i] < field::p());
        }
    }
    assert forall|i: int| 0 <= i < ip.len() implies #[trigger] ipeval(d, ip[i]) % pi() == 0 by {
        let y = pts[i];
        assert(ip[i] == y as int);
        lemma_csub(to_int(a), to_int(b), l, y as int);
        lemma_peval_mod(a, y);
        lemma_peval_mod(b, y);
        lemma_sub_mod_noop(ipeval(to_int(a), y as int), ipeval(to_int(b), y as int), pi());
        lemma_small_mod(0, field::p());
    }
    assert forall|x: int| #[trigger] ipeval(d, x) % pi() == 0 by {
        lemma_roots(d, ip, x);
    }
    lemma_zero_coeffs(d);
    assert forall|i: int| 0 <= i < l implies #[trigger] ncoeff(a, i) == ncoeff(b, i) by {
        let (u, w) = (coeff(to_int(a), i), coeff(to_int(b), i));
        assert(d[i] % pi() == 0);
        assert(d[i] == u - w);
        assert(0 <= u < pi() && 0 <= w < pi()) by {
            if i < a.len() {
                assert(a[i] < field::p());
            }
            if i < b.len() {
                assert(b[i] < field::p());
            }
        }
        if u != w {
            if u > w {
                lemma_small_mod((u - w) as nat, field::p());
            } else {
                lemma_mod_add_multiples_vanish(u - w, pi());
                lemma_small_mod((u - w + pi()) as nat, field::p());
            }
        }
    }
    if a.len() > b.len() {
        assert(ncoeff(a, a.len() - 1) == ncoeff(b, a.len() - 1));
    } else if b.len() > a.len() {
        assert(ncoeff(a, b.len() - 1) == ncoeff(b, b.len() - 1));
    }
    assert forall|i: int| 0 <= i < a.len() implies a[i] == b[i] by {
        assert(ncoeff(a, i) == ncoeff(b, i));
    }
    assert(a =~= b);
}

} // verus!
