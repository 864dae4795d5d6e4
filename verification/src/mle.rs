//! Multilinear extensions of functions on the Boolean hypercube.
use crate::field::{self, Fe};
use crate::univariate;
use vstd::arithmetic::power2;
use vstd::prelude::*;

verus! {

/// `2^e`.
pub open spec fn pow2(e: nat) -> nat {
    power2::pow2(e)
}

/// Some power of two equals `n`.
pub open spec fn is_pow2(n: nat) -> bool {
    exists|k: nat| pow2(k) == n
}

/// `eq(x, y) = x·y + (1 - x)(1 - y)`, the multilinear equality indicator.
pub open spec fn eq_spec(x: nat, y: nat) -> nat {
    field::fadd(field::fmul(x, y), field::fmul(field::fsub(1, x), field::fsub(1, y)))
}

/// The weight of hypercube vertex `i` at `point`, over the first `t`
/// coordinates: `∏_{j<t} eq(point[j], bit_{t-1-j}(i))`. The first coordinate
/// is the most significant bit of `i`.
pub open spec fn chi(point: Seq<nat>, t: nat, i: nat) -> nat
    decreases t,
{
    if t == 0 {
        1
    } else {
        field::fmul(chi(point, (t - 1) as nat, i / 2), eq_spec(point[t - 1], i % 2))
    }
}

/// `∑_{i<n} f[i]·chi(point, i)`, summed from the front.
pub open spec fn mle_sum(f: Seq<nat>, point: Seq<nat>, n: nat) -> nat
    decreases n,
{
    if n == 0 {
        0
    } else {
        field::fadd(
            mle_sum(f, point, (n - 1) as nat),
            field::fmul(f[n - 1], chi(point, point.len(), (n - 1) as nat)),
        )
    }
}

/// The multilinear extension of the table `f` evaluated at `point`.
pub open spec fn mle_eval(f: Seq<nat>, point: Seq<nat>) -> nat {
    mle_sum(f, point, f.len())
}

/// The hypercube vertex that a Boolean point names, first coordinate most
/// significant.
pub open spec fn vertex_index(point: Seq<nat>, t: nat) -> nat
    decreases t,
{
    if t == 0 {
        0
    } else {
        2 * vertex_index(point, (t - 1) as nat) + point[t - 1]
    }
}

/// Every coordinate is 0 or 1.
pub open spec fn is_boolean(point: Seq<nat>) -> bool {
    forall|j: int| 0 <= j < point.len() ==> #[trigger] point[j] == 0 || point[j] == 1
}

/// The exponent of the least power of two that is at least `n`.
pub open spec fn ceil_log2(n: nat) -> nat
    decreases n,
{
    if n <= 1 {
        0
    } else {
        ceil_log2(((n + 1) / 2) as nat) + 1
    }
}

pub proof fn lemma_ceil_log2(n: nat)
    ensures
        pow2(ceil_log2(n)) >= n,
        ceil_log2(n) > 0 ==> pow2((ceil_log2(n) - 1) as nat) < n,
    decreases n,
{
    power2::lemma2_to64();
    if n > 1 {
        let h = ((n + 1) / 2) as nat;
        lemma_ceil_log2(h);
        power2::lemma_pow2_unfold(ceil_log2(h) + 1);
        if ceil_log2(h) > 0 {
            power2::lemma_pow2_unfold(ceil_log2(h));
        }
    }
}

/// The least power of two `2^k` that is at least `x`, and `k`.
pub(crate) fn next_pow2(x: usize) -> (r: (usize, usize))
    requires
        x <= 0x4000_0000,
    ensures
        r.0 == pow2(r.1 as nat),
        r.1 == ceil_log2(x as nat),
        r.0 >= x,
        r.1 > 0 ==> pow2((r.1 - 1) as nat) < x,
        r.1 <= 30,
        r.0 <= 0x4000_0000,
{
    let ghost c = ceil_log2(x as nat);
    proof {
        lemma_ceil_log2(x as nat);
        power2::lemma2_to64();
        if c > 30 {
            lemma_pow2_le(30, (c - 1) as nat);
        }
    }
    let mut m: usize = 1;
    let mut k: usize = 0;
    while m < x
        invariant
            m == pow2(k as nat),
            k <= c <= 30,
            c == ceil_log2(x as nat),
            pow2(c) >= x,
            c > 0 ==> pow2((c - 1) as nat) < x,
            x <= 0x4000_0000,
        decreases 31 - k,
    {
        proof {
            if k >= c {
                lemma_pow2_le(c, k as nat);
            }
            power2::lemma_pow2_unfold((k + 1) as nat);
            lemma_pow2_le((k + 1) as nat, 30);
            power2::lemma2_to64();
        }
        m = m * 2;
        k = k + 1;
    }
    proof {
        if k < c {
            lemma_pow2_le(k as nat, (c - 1) as nat);
        }
        lemma_pow2_le(k as nat, 30);
        power2::lemma2_to64();
    }
    (m, k)
}

proof fn lemma_pow2_le(a: nat, b: nat)
    requires
        a <= b,
    ensures
        pow2(a) <= pow2(b),
{
    if a < b {
        power2::lemma_pow2_strictly_increases(a, b);
    }
}

/// The exponent of a power of two.
pub(crate) fn log2_exact(n: usize) -> (k: usize)
    requires
        exists|k: nat| pow2(k) == n,
    ensures
        pow2(k as nat) == n,
{
    let ghost kk = choose|k: nat| pow2(k) == n;
    let mut m: usize = 1;
    let mut k: usize = 0;
    proof {
        power2::lemma2_to64();
        lemma_pow2_le(0, kk);
    }
    while m < n
        invariant
            pow2(k as nat) == m,
            m <= n,
            m > 0,
            k <= m,
            n == pow2(kk),
        decreases n - m,
    {
        proof {
            if kk <= k {
                lemma_pow2_le(kk, k as nat);
            }
            lemma_pow2_le((k + 1) as nat, kk);
            power2::lemma_pow2_unfold((k + 1) as nat);
        }
        m = m * 2;
        k = k + 1;
    }
    k
}

/// A multilinear extension: a table of `2^k` values over `{0,1}^k`.
#[derive(Clone, Debug)]
pub struct MultilinearExtension {
    pub f: Vec<Fe>,
    pub k: usize,
}

impl MultilinearExtension {
    /// The table holds exactly `2^k` values.
    pub open spec fn wf(&self) -> bool {
        self.f.len() == pow2(self.k as nat)
    }

    /// The extension of a table whose length is a power of two.
    pub fn new(f: Vec<Fe>) -> (r: Self)
        requires
            exists|k: nat| pow2(k) == f.len(),
        ensures
            r.f == f,
            r.wf(),
    {
        let ghost kk = choose|k: nat| pow2(k) == f.len();
        let n = f.len();
        let mut m: usize = 1;
        let mut k: usize = 0;
        proof {
            power2::lemma2_to64();
            lemma_pow2_le(0, kk);
        }
        while m < n
            invariant
                pow2(k as nat) == m,
                m <= n,
                m > 0,
                k <= m,
                n == pow2(kk),
                n == f.len(),
            decreases n - m,
        {
            proof {
                if kk <= k {
                    lemma_pow2_le(kk, k as nat);
                }
                lemma_pow2_le((k + 1) as nat, kk);
                power2::lemma_pow2_unfold((k + 1) as nat);
            }
            m = m * 2;
            k = k + 1;
        }
        Self { f, k }
    }

    /// A copy of the table.
    pub fn duplicate(&self) -> (r: Self)
        ensures
            r.f@ == self.f@,
            r.k == self.k,
    {
        Self { f: self.f.clone(), k: self.k }
    }

    /// `eq(x, y) = x·y + (1 - x)(1 - y)`.
    pub fn eq(x: Fe, y: Fe) -> (r: Fe)
        ensures
            r@ == eq_spec(x@, y@),
    {
        let one = Fe::one();
        let xy = x.mul(&y);
        let nx = one.sub(&x);
        let ny = one.sub(&y);
        let t = nx.mul(&ny);
        xy.add(&t)
    }

    /// Evaluates the extension at `point` (first coordinate most significant):
    /// a table of hypercube weights is built one coordinate at a time, then
    /// dotted with the values.
    pub fn evaluate(&self, point: &[Fe]) -> (r: Fe)
        requires
            self.wf(),
            point.len() == self.k,
        ensures
            r@ == mle_eval(field::fe_vals(self.f@), field::fe_vals(point@)),
    {
        let ghost pt = field::fe_vals(point@);
        let n = self.f.len();
        let mut dp: Vec<Fe> = Vec::new();
        let mut i: usize = 0;
        while i < n
            invariant
                i <= n,
                dp.len() == i,
                forall|m: int| 0 <= m < i ==> #[trigger] dp@[m]@ == 1,
            decreases n - i,
        {
            dp.push(Fe::one());
            i = i + 1;
        }
        let mut sz: usize = 1;
        let mut j: usize = 0;
        proof {
            power2::lemma2_to64();
            power2::lemma_pow2_pos(self.k as nat);
            assert(dp@[0]@ == 1);
        }
        while j < self.k
            invariant
                self.wf(),
                point.len() == self.k,
                pt == field::fe_vals(point@),
                n == self.f.len(),
                dp.len() == n,
                j <= self.k,
                sz == pow2(j as nat),
                forall|m: int| 0 <= m < sz ==> #[trigger] dp@[m]@ == chi(pt, j as nat, m as nat),
            decreases self.k - j,
        {
            proof {
                lemma_pow2_le((j + 1) as nat, self.k as nat);
                power2::lemma_pow2_unfold((j + 1) as nat);
            }
            let ghost old_dp = dp@;
            let mut cur: usize = sz;
            while cur > 0
                invariant
                    self.wf(),
                    point.len() == self.k,
                    pt == field::fe_vals(point@),
                    j < self.k,
                    dp.len() == n,
                    2 * sz <= n,
                    sz == pow2(j as nat),
                    cur <= sz,
                    old_dp.len() == n,
                    forall|m: int| 0 <= m < sz ==> #[trigger] old_dp[m]@ == chi(pt, j as nat, m as nat),
                    forall|m: int| 0 <= m < cur ==> #[trigger] dp@[m] == old_dp[m],
                    forall|m: int|
                        cur <= m < sz ==> #[trigger] dp@[2 * m]@ == chi(pt, (j + 1) as nat, (2 * m) as nat)
                            && dp@[2 * m + 1]@ == chi(pt, (j + 1) as nat, (2 * m + 1) as nat),
                decreases cur,
            {
                let i = cur - 1;
                let v = dp[i];
                let e1 = Self::eq(point[j], Fe::one());
                let e0 = Self::eq(point[j], Fe::zero());
                proof {
                    assert((2 * i + 1) / 2 == i && (2 * i + 1) % 2 == 1);
                    assert((2 * i) / 2 == i && (2 * i) % 2 == 0);
                    assert(pt[j as int] == point@[j as int]@);
                    assert(v == old_dp[i as int]);
                    assert(chi(pt, (j + 1) as nat, (2 * i) as nat) == field::fmul(
                        chi(pt, j as nat, i as nat),
                        eq_spec(pt[j as int], 0),
                    ));
                    assert(chi(pt, (j + 1) as nat, (2 * i + 1) as nat) == field::fmul(
                        chi(pt, j as nat, i as nat),
                        eq_spec(pt[j as int], 1),
                    ));
                }
                let ghost before = dp@;
                let w1 = v.mul(&e1);
                let w0 = v.mul(&e0);
                dp.set(2 * i + 1, w1);
                dp.set(2 * i, w0);
                proof {
                    assert(dp@[2 * i as int]@ == chi(pt, (j + 1) as nat, (2 * i) as nat));
                    assert(dp@[2 * i as int + 1]@ == chi(pt, (j + 1) as nat, (2 * i + 1) as nat));
                    assert forall|m: int| i < m < sz implies #[trigger] dp@[2 * m] == before[2 * m]
                        && dp@[2 * m + 1] == before[2 * m + 1] by {}
                    assert forall|m: int| 0 <= m < i implies #[trigger] dp@[m] == before[m] by {}
                }
                cur = i;
            }
            proof {
                assert forall|m: int| 0 <= m < 2 * sz implies #[trigger] dp@[m]@ == chi(
                    pt,
                    (j + 1) as nat,
                    m as nat,
                ) by {
                    let h = m / 2;
                    assert(m == 2 * h || m == 2 * h + 1);
                    assert(0 <= h < sz);
                    assert(dp@[2 * h]@ == chi(pt, (j + 1) as nat, (2 * h) as nat));
                }
            }
            sz = sz * 2;
            j = j + 1;
        }
        let ghost fv = field::fe_vals(self.f@);
        let mut acc = Fe::zero();
        let mut i: usize = 0;
        while i < n
            invariant
                self.wf(),
                point.len() == self.k,
                pt == field::fe_vals(point@),
                fv == field::fe_vals(self.f@),
                n == self.f.len(),
                dp.len() == n,
                i <= n,
                sz == pow2(self.k as nat),
                forall|m: int| 0 <= m < sz ==> #[trigger] dp@[m]@ == chi(pt, self.k as nat, m as nat),
                acc@ == mle_sum(fv, pt, i as nat),
            decreases n - i,
        {
            let t = self.f[i].mul(&dp[i]);
            acc = acc.add(&t);
            i = i + 1;
        }
        acc
    }
}

/// `eq` is the indicator of equality on bits.
pub(crate) proof fn lemma_eq_on_bits(x: nat, y: nat)
    requires
        x == 0 || x == 1,
        y == 0 || y == 1,
    ensures
        eq_spec(x, y) == (if x == y { 1nat } else { 0nat }),
{
    field::lemma_p_facts();
    let m = field::p() as int;
    vstd::arithmetic::div_mod::lemma_small_mod(0, field::p());
    vstd::arithmetic::div_mod::lemma_small_mod(1, field::p());
    assert(field::fsub(1, 0) == 1);
    assert(field::fsub(1, 1) == 0);
    assert(field::fmul(0, 0) == 0);
    assert(field::fmul(1, 0) == 0);
    assert(field::fmul(0, 1) == 0);
    assert(field::fmul(1, 1) == 1);
    assert(field::fadd(0, 0) == 0);
    assert(field::fadd(0, 1) == 1);
    assert(field::fadd(1, 0) == 1);
}

/// On a Boolean point, the weight of vertex `i` is 1 at the named vertex and 0
/// elsewhere.
proof fn lemma_chi_on_hypercube(point: Seq<nat>, t: nat, i: nat)
    requires
        is_boolean(point),
        t <= point.len(),
        i < pow2(t),
    ensures
        chi(point, t, i) == (if i == vertex_index(point, t) { 1nat } else { 0nat }),
        vertex_index(point, t) < pow2(t),
    decreases t,
{
    field::lemma_p_facts();
    if t == 0 {
        power2::lemma2_to64();
    } else {
        power2::lemma_pow2_unfold(t);
        let h = i / 2;
        assert(h < pow2((t - 1) as nat));
        lemma_chi_on_hypercube(point, (t - 1) as nat, h);
        assert(point[t - 1] == 0 || point[t - 1] == 1);
        lemma_eq_on_bits(point[t - 1], i % 2);
        let v = vertex_index(point, (t - 1) as nat);
        assert(i == 2 * h + i % 2);
        let c = chi(point, (t - 1) as nat, h);
        let e = eq_spec(point[t - 1], i % 2);
        assert(chi(point, t, i) == field::fmul(c, e));
        assert(vertex_index(point, t) == 2 * v + point[t - 1]);
        field::lemma_fmul_zero(c);
        field::lemma_fmul_zero(e);
        field::lemma_fmul_one(1);
        if i == vertex_index(point, t) {
            assert(h == v);
            assert(i % 2 == point[t - 1]);
        } else if h == v {
            assert(i % 2 != point[t - 1]);
            assert(e == 0);
        } else {
            assert(c == 0);
        }
    }
}

/// Summing weighted table values up to `n` picks out the value at the named
/// vertex when it lies below `n`.
proof fn lemma_mle_sum_picks(f: Seq<nat>, point: Seq<nat>, n: nat)
    requires
        is_boolean(point),
        f.len() == pow2(point.len()),
        n <= f.len(),
        forall|i: int| 0 <= i < f.len() ==> #[trigger] f[i] < field::p(),
    ensures
        mle_sum(f, point, n) == (if vertex_index(point, point.len()) < n {
            f[vertex_index(point, point.len()) as int]
        } else {
            0
        }),
    decreases n,
{
    field::lemma_p_facts();
    if n > 0 {
        lemma_mle_sum_picks(f, point, (n - 1) as nat);
        lemma_chi_on_hypercube(point, point.len(), (n - 1) as nat);
        let idx = vertex_index(point, point.len());
        vstd::arithmetic::div_mod::lemma_small_mod(f[n - 1], field::p());
        vstd::arithmetic::div_mod::lemma_small_mod(0, field::p());
        if idx < n - 1 {
            vstd::arithmetic::div_mod::lemma_small_mod(f[idx as int], field::p());
        }
    }
}

/// A multilinear extension agrees with its table on the Boolean hypercube:
/// at a point whose coordinates are bits, it returns the table entry that
/// those bits index (first coordinate most significant).
pub proof fn lemma_mle_agrees_on_hypercube(f: Seq<nat>, point: Seq<nat>)
    requires
        is_boolean(point),
        f.len() == pow2(point.len()),
        forall|i: int| 0 <= i < f.len() ==> #[trigger] f[i] < field::p(),
    ensures
        vertex_index(point, point.len()) < f.len(),
        mle_eval(f, point) == f[vertex_index(point, point.len()) as int],
{
    power2::lemma_pow2_pos(point.len());
    lemma_chi_on_hypercube(point, point.len(), 0);
    lemma_mle_sum_picks(f, point, f.len());
}

// ---------------------------------------------------------------------------
// Degree in each coordinate: an extension is affine in every coordinate.
// ---------------------------------------------------------------------------

/// The weight of a vertex over the first `tt` coordinates, with every
/// coordinate but the one after `q` fixed, is a polynomial in that
/// coordinate: affine once `tt` reaches it, constant before.
pub proof fn lemma_chi_poly(q: Seq<nat>, s: Seq<nat>, tt: nat, i: nat)
    requires
        tt <= q.len() + 1 + s.len(),
    ensures
        univariate::poly_fn(|t: nat| chi(q + seq![t] + s, tt, i), if tt > q.len() { 1nat } else { 0nat }),
    decreases tt,
{
    field::lemma_p_facts();
    let h = |t: nat| chi(q + seq![t] + s, tt, i);
    if tt == 0 {
        univariate::lemma_poly_const(1);
        univariate::lemma_poly_ext(|t: nat| 1nat, h, 0);
    } else {
        let d0: nat = if (tt - 1) as nat > q.len() { 1nat } else { 0nat };
        lemma_chi_poly(q, s, (tt - 1) as nat, i / 2);
        let prev = |t: nat| chi(q + seq![t] + s, (tt - 1) as nat, i / 2);
        let b = i % 2;
        let e = |t: nat| eq_spec((q + seq![t] + s)[tt - 1], b);
        let de: nat = if tt - 1 == q.len() { 1nat } else { 0nat };
        if tt - 1 == q.len() {
            univariate::lemma_poly_eq(b);
            assert forall|t: nat| t < field::p() implies #[trigger] eq_spec(t, b) == e(t) by {
                assert((q + seq![t] + s)[tt - 1] == t);
            }
            univariate::lemma_poly_ext(|t: nat| eq_spec(t, b), e, 1);
        } else {
            let k = eq_spec((q + seq![0nat] + s)[tt - 1], b);
            field::lemma_field_ops_bounded(0, 0);
            assert(k < field::p()) by {
                field::lemma_field_ops_bounded(
                    field::fmul((q + seq![0nat] + s)[tt - 1], b),
                    field::fmul(field::fsub(1, (q + seq![0nat] + s)[tt - 1]), field::fsub(1, b)),
                );
            }
            univariate::lemma_poly_const(k);
            assert forall|t: nat| t < field::p() implies k == #[trigger] e(t) by {
                assert((q + seq![t] + s)[tt - 1] == (q + seq![0nat] + s)[tt - 1]);
            }
            univariate::lemma_poly_ext(|t: nat| k, e, 0);
        }
        univariate::lemma_poly_mul(prev, d0, e, de);
        assert(d0 + de == (if tt > q.len() { 1nat } else { 0nat }));
        univariate::lemma_poly_ext(|t: nat| field::fmul(prev(t), e(t)), h, d0 + de);
    }
}

/// The sum of the first `n` weighted table entries is affine in the
/// coordinate after `q`.
pub proof fn lemma_mle_sum_poly(f: Seq<nat>, q: Seq<nat>, s: Seq<nat>, n: nat)
    requires
        n <= f.len(),
        forall|i: int| 0 <= i < f.len() ==> #[trigger] f[i] < field::p(),
    ensures
        univariate::poly_fn(|t: nat| mle_sum(f, q + seq![t] + s, n), 1),
    decreases n,
{
    field::lemma_p_facts();
    let h = |t: nat| mle_sum(f, q + seq![t] + s, n);
    let len = q.len() + 1 + s.len();
    if n == 0 {
        univariate::lemma_poly_const(0);
        univariate::lemma_poly_mono(|t: nat| 0nat, 0, 1);
        univariate::lemma_poly_ext(|t: nat| 0nat, h, 1);
    } else {
        lemma_mle_sum_poly(f, q, s, (n - 1) as nat);
        let prev = |t: nat| mle_sum(f, q + seq![t] + s, (n - 1) as nat);
        let w = |t: nat| chi(q + seq![t] + s, len, (n - 1) as nat);
        lemma_chi_poly(q, s, len, (n - 1) as nat);
        assert forall|t: nat| #[trigger] (q + seq![t] + s).len() == len by {}
        univariate::lemma_poly_ext(|t: nat| chi(q + seq![t] + s, len, (n - 1) as nat), w, 1);
        let k = f[n - 1];
        univariate::lemma_poly_const(k);
        univariate::lemma_poly_mul(|t: nat| k, 0, w, 1);
        let term = |t: nat| field::fmul(k, w(t));
        univariate::lemma_poly_ext(|t: nat| field::fmul((|t: nat| k)(t), w(t)), term, 1);
        univariate::lemma_poly_add(prev, term, 1);
        assert forall|t: nat| t < field::p() implies #[trigger] field::fadd(prev(t), term(t)) == h(t) by {
            assert((q + seq![t] + s).len() == len);
        }
        univariate::lemma_poly_ext(|t: nat| field::fadd(prev(t), term(t)), h, 1);
    }
}

/// A multilinear extension is affine in each coordinate.
pub proof fn lemma_mle_poly(f: Seq<nat>, q: Seq<nat>, s: Seq<nat>)
    requires
        forall|i: int| 0 <= i < f.len() ==> #[trigger] f[i] < field::p(),
    ensures
        univariate::poly_fn(|t: nat| mle_eval(f, q + seq![t] + s), 1),
{
    lemma_mle_sum_poly(f, q, s, f.len());
    univariate::lemma_poly_ext(|t: nat| mle_sum(f, q + seq![t] + s, f.len()), |t: nat| mle_eval(f, q + seq![t] + s), 1);
}

} // verus!
