//! The sum-check protocol: a prover that sends, round by round, the
//! univariate restriction of a function summed over the remaining Boolean
//! variables, and a verifier that checks each round against the previous one
//! and finishes with one oracle query.
//!
//! The summed function is a closure supplied by the caller; contracts speak
//! of the values it may return (`call_ensures`), so they hold for every
//! closure, deterministic or not.
use crate::field::{self, Fe};
use crate::mle::pow2;
use crate::poly::{self, lagrange_interpolate, Poly};
use vstd::prelude::*;

verus! {

/// `f` accepts every input of length `n`.
pub open spec fn accepts_len<F: Fn(&[Fe]) -> Fe>(f: F, n: nat) -> bool {
    forall|s: &[Fe]| s@.len() == n ==> #[trigger] call_requires(f, (s,))
}

/// `f` may return `v` on an input whose values are `x`.
pub open spec fn may_return<F: Fn(&[Fe]) -> Fe>(f: F, x: Seq<nat>, v: Fe) -> bool {
    exists|s: &[Fe]| #[trigger] call_ensures(f, (s,), v) && field::fe_vals(s@) == x
}

/// The field sum of a sequence, from the front.
pub open spec fn fsum(v: Seq<nat>) -> nat
    decreases v.len(),
{
    if v.len() == 0 {
        0
    } else {
        field::fadd(fsum(v.drop_last()), v.last())
    }
}

/// `y` is `f` summed over `pts`: one value that `f` may return per point,
/// added up in order.
pub open spec fn sums_over<F: Fn(&[Fe]) -> Fe>(f: F, pts: Seq<Seq<nat>>, y: nat) -> bool {
    exists|vs: Seq<Fe>|
        vs.len() == pts.len() && (forall|i: int|
            0 <= i < pts.len() ==> #[trigger] may_return(f, pts[i], vs[i])) && y == fsum(
            field::fe_vals(vs),
        )
}

/// Vertex `i` of `{0,1}^n`, coordinate `j` being bit `j` of `i`.
pub open spec fn lsb_point(i: nat, n: nat) -> Seq<nat> {
    Seq::new(n, |j: int| (i / pow2(j as nat)) % 2)
}

/// All `2^n` vertices of the hypercube, in the order of their index.
pub open spec fn hypercube(n: nat) -> Seq<Seq<nat>> {
    Seq::new(pow2(n), |i: int| lsb_point(i as nat, n))
}

/// The inputs summed in one round: the fixed challenges `q`, then `p`, then
/// vertex `i` of the remaining `m` variables (most significant bit first).
pub open spec fn round_points(q: Seq<nat>, p: nat, m: nat) -> Seq<Seq<nat>> {
    Seq::new(pow2(m), |i: int| q + seq![p] + lsb_point(i as nat, m).reverse())
}

/// `0, 1, ..., n - 1`.
pub open spec fn nat_range(n: nat) -> Seq<nat> {
    Seq::new(n, |i: int| i as nat)
}

pub(crate) proof fn lemma_fsum_push(v: Seq<nat>, x: nat)
    ensures
        fsum(v.push(x)) == field::fadd(fsum(v), x),
{
    assert(v.push(x).drop_last() =~= v);
}

proof fn lemma_fe_vals_push(v: Seq<Fe>, x: Fe)
    ensures
        field::fe_vals(v.push(x)) == field::fe_vals(v).push(x@),
{
    assert(field::fe_vals(v.push(x)) =~= field::fe_vals(v).push(x@));
}

/// The bits of `i`, least significant first, as field elements.
pub(crate) fn bits_of(i: u64, n: usize) -> (r: Vec<Fe>)
    requires
        n < 64,
    ensures
        field::fe_vals(r@) == lsb_point(i as nat, n as nat),
{
    let mut out: Vec<Fe> = Vec::new();
    let mut t = i;
    let mut j: usize = 0;
    proof {
        vstd::arithmetic::power2::lemma2_to64();
        assert(pow2(0) == 1);
        assert(i as nat / 1 == i as nat);
    }
    while j < n
        invariant
            j <= n,
            n < 64,
            out.len() == j,
            t == i as nat / pow2(j as nat),
            forall|s: int| 0 <= s < j ==> #[trigger] out@[s]@ == (i as nat / pow2(s as nat)) % 2,
        decreases n - j,
    {
        let b = t % 2;
        proof {
            field::lemma_p_facts();
            vstd::arithmetic::div_mod::lemma_small_mod(b as nat, field::p());
            vstd::arithmetic::power2::lemma_pow2_pos(j as nat);
            vstd::arithmetic::div_mod::lemma_div_denominator(i as int, pow2(j as nat) as int, 2);
            vstd::arithmetic::power2::lemma_pow2_unfold((j + 1) as nat);
            vstd::arithmetic::mul::lemma_mul_is_commutative(2, pow2(j as nat) as int);
        }
        out.push(Fe::from_i64(b as i64));
        t = t / 2;
        j = j + 1;
    }
    proof {
        assert(field::fe_vals(out@) =~= lsb_point(i as nat, n as nat));
    }
    out
}

/// The elements in reverse order.
pub(crate) fn reversed(v: &Vec<Fe>) -> (r: Vec<Fe>)
    ensures
        r@ == v@.reverse(),
{
    let mut out: Vec<Fe> = Vec::new();
    let mut k = v.len();
    while k > 0
        invariant
            k <= v.len(),
            out@ == v@.subrange(k as int, v.len() as int).reverse(),
        decreases k,
    {
        k = k - 1;
        proof {
            assert(v@.subrange(k as int, v.len() as int).reverse() =~= v@.subrange(
                (k + 1) as int,
                v.len() as int,
            ).reverse().push(v@[k as int]));
        }
        out.push(v[k]);
    }
    proof {
        assert(v@.subrange(0, v.len() as int) =~= v@);
    }
    out
}

/// The sum-check prover for a function `f` of `input_len` variables whose
/// restriction to one variable has degree at most `degree`.
#[derive(Clone)]
pub struct SumCheckProver<F: Fn(&[Fe]) -> Fe> {
    pub f: Box<F>,
    pub input_len: usize,
    pub queries: Vec<Fe>,
    pub degree: usize,
}

impl<F: Fn(&[Fe]) -> Fe> SumCheckProver<F> {
    pub fn new(f: Box<F>, input_len: usize, degree: usize) -> (r: Self)
        ensures
            r.f == f,
            r.input_len == input_len,
            r.queries@.len() == 0,
            r.degree == degree,
    {
        Self { f, input_len, queries: Vec::new(), degree }
    }

    /// The sum of `f` over the Boolean hypercube `{0,1}^input_len`
    /// (coordinate `j` of vertex `i` is bit `j` of `i`).
    #[allow(non_snake_case)]
    pub fn H(&self) -> (r: Fe)
        requires
            self.input_len < 31,
            accepts_len(*self.f, self.input_len as nat),
        ensures
            sums_over(*self.f, hypercube(self.input_len as nat), r@),
    {
        let n = self.input_len;
        let mut count: u64 = 1;
        let mut j: usize = 0;
        proof {
            vstd::arithmetic::power2::lemma2_to64();
        }
        while j < n
            invariant
                j <= n,
                n < 31,
                count == pow2(j as nat),
                count <= pow2(31),
            decreases n - j,
        {
            proof {
                vstd::arithmetic::power2::lemma2_to64();
                vstd::arithmetic::power2::lemma_pow2_unfold((j + 1) as nat);
                if j + 1 < 31 {
                    vstd::arithmetic::power2::lemma_pow2_strictly_increases((j + 1) as nat, 31);
                }
            }
            count = count * 2;
            j = j + 1;
        }
        let ghost pts = hypercube(n as nat);
        let ghost mut vs: Seq<Fe> = Seq::empty();
        let mut sum = Fe::zero();
        let mut i: u64 = 0;
        while i < count
            invariant
                n == self.input_len,
                n < 31,
                accepts_len(*self.f, n as nat),
                count == pow2(n as nat),
                pts == hypercube(n as nat),
                i <= count,
                vs.len() == i,
                forall|t: int| 0 <= t < i ==> #[trigger] may_return(*self.f, pts[t], vs[t]),
                sum@ == fsum(field::fe_vals(vs)),
            decreases count - i,
        {
            let x = bits_of(i, n);
            let xs = x.as_slice();
            assert(xs@.len() == field::fe_vals(xs@).len());
            assert(call_requires(*self.f, (xs,)));
            let v = (self.f)(xs);
            proof {
                assert(field::fe_vals(xs@) == pts[i as int]);
                assert(may_return(*self.f, pts[i as int], v));
                lemma_fe_vals_push(vs, v);
                lemma_fsum_push(field::fe_vals(vs), v@);
                vs = vs.push(v);
            }
            sum = sum.add(&v);
            i = i + 1;
        }
        proof {
            assert(sums_over(*self.f, pts, sum@));
        }
        sum
    }

    /// The round polynomial `g_j(X)`: with the challenges so far fixed, `f`
    /// is summed over the Boolean values of the remaining variables at
    /// `X = 0, 1, ..., degree`, and those sums are interpolated.
    pub fn next(&mut self) -> (r: Poly)
        requires
            old(self).queries.len() < old(self).input_len,
            old(self).input_len < 31,
            old(self).degree < 0x4000_0000,
            accepts_len(*old(self).f, old(self).input_len as nat),
        ensures
            *final(self) == *old(self),
            poly::trimmed(r.vals()),
            r.coeffs.len() <= old(self).degree + 1,
            exists|ys: Seq<nat>|
                ys.len() == old(self).degree + 1 && (forall|p: int|
                    0 <= p <= old(self).degree ==> #[trigger] sums_over(
                        *old(self).f,
                        round_points(
                            field::fe_vals(old(self).queries@),
                            p as nat,
                            (old(self).input_len - old(self).queries.len() - 1) as nat,
                        ),
                        ys[p],
                    )) && poly::is_lagrange_form(
                    r.vals(),
                    nat_range((old(self).degree + 1) as nat),
                    ys,
                ) && forall|p: int| 0 <= p <= old(self).degree ==> #[trigger] poly::peval(r.vals(), p as nat) == ys[p],
            forall|g: spec_fn(Seq<nat>) -> nat|
                #[trigger] low_degree_model(*old(self).f, g, old(self).input_len as nat, old(self).degree as nat)
                    ==> forall|x: nat|
                    x < field::p() ==> #[trigger] poly::peval(r.vals(), x) == cube_sum(
                        g,
                        field::fe_vals(old(self).queries@).push(x),
                        (old(self).input_len - old(self).queries.len() - 1) as nat,
                    ),
    {
        let left = self.input_len - self.queries.len();
        let m = left - 1;
        let d = self.degree;
        let ghost q = field::fe_vals(self.queries@);
        let mut count: u64 = 1;
        let mut j: usize = 0;
        proof {
            vstd::arithmetic::power2::lemma2_to64();
        }
        while j < m
            invariant
                j <= m,
                m < 31,
                count == pow2(j as nat),
                count <= pow2(31),
            decreases m - j,
        {
            proof {
                vstd::arithmetic::power2::lemma2_to64();
                vstd::arithmetic::power2::lemma_pow2_unfold((j + 1) as nat);
                if j + 1 < 31 {
                    vstd::arithmetic::power2::lemma_pow2_strictly_increases((j + 1) as nat, 31);
                }
            }
            count = count * 2;
            j = j + 1;
        }
        let mut sums: Vec<Fe> = Vec::new();
        let mut p: usize = 0;
        while p <= d
            invariant
                d < 0x4000_0000,
                p <= d + 1,
                sums.len() == p,
                forall|t: int| 0 <= t < p ==> #[trigger] sums@[t]@ == 0,
            decreases d + 1 - p,
        {
            sums.push(Fe::zero());
            p = p + 1;
        }
        let ghost mut vss: Seq<Seq<Fe>> = Seq::new((d + 1) as nat, |t: int| Seq::<Fe>::empty());
        let mut i: u64 = 0;
        while i < count
            invariant
                *self == *old(self),
                left == self.input_len - self.queries.len(),
                m == left - 1,
                m < 31,
                d == self.degree,
                d < 0x4000_0000,
                q == field::fe_vals(self.queries@),
                accepts_len(*self.f, self.input_len as nat),
                count == pow2(m as nat),
                i <= count,
                sums.len() == d + 1,
                vss.len() == d + 1,
                forall|t: int|
                    0 <= t <= d ==> (#[trigger] vss[t]).len() == i && sums@[t]@ == fsum(
                        field::fe_vals(vss[t]),
                    ) && forall|s: int|
                        0 <= s < i ==> #[trigger] may_return(
                            *self.f,
                            round_points(q, t as nat, m as nat)[s],
                            vss[t][s],
                        ),
            decreases count - i,
        {
            let bits = bits_of(i, m);
            let i_decomp = reversed(&bits);
            let mut p: usize = 0;
            while p <= d
                invariant
                    *self == *old(self),
                    left == self.input_len - self.queries.len(),
                    m == left - 1,
                    m < 31,
                    d == self.degree,
                    d < 0x4000_0000,
                    q == field::fe_vals(self.queries@),
                    accepts_len(*self.f, self.input_len as nat),
                    count == pow2(m as nat),
                    i < count,
                    p <= d + 1,
                    field::fe_vals(i_decomp@) == lsb_point(i as nat, m as nat).reverse(),
                    sums.len() == d + 1,
                    vss.len() == d + 1,
                    forall|t: int|
                        0 <= t <= d ==> (#[trigger] vss[t]).len() == (if t < p {
                            i + 1
                        } else {
                            i as int
                        }) && sums@[t]@ == fsum(field::fe_vals(vss[t])) && forall|s: int|
                            0 <= s < vss[t].len() ==> #[trigger] may_return(
                                *self.f,
                                round_points(q, t as nat, m as nat)[s],
                                vss[t][s],
                            ),
                decreases d + 1 - p,
            {
                let mut x: Vec<Fe> = self.queries.clone();
                x.push(Fe::from_i64(p as i64));
                let mut tail = i_decomp.clone();
                x.append(&mut tail);
                let xs = x.as_slice();
                proof {
                    field::lemma_p_facts();
                    vstd::arithmetic::div_mod::lemma_small_mod(p as nat, field::p());
                    assert(field::fe_vals(xs@) =~= round_points(q, p as nat, m as nat)[i as int]);
                }
                let v = (self.f)(xs);
                let s = sums[p].add(&v);
                sums.set(p, s);
                proof {
                    let old_vs = vss[p as int];
                    assert(may_return(*self.f, round_points(q, p as nat, m as nat)[i as int], v));
                    lemma_fe_vals_push(old_vs, v);
                    lemma_fsum_push(field::fe_vals(old_vs), v@);
                    vss = vss.update(p as int, old_vs.push(v));
                }
                p = p + 1;
            }
            i = i + 1;
        }
        let mut points: Vec<(Fe, Fe)> = Vec::new();
        let mut p: usize = 0;
        while p <= d
            invariant
                d < 0x4000_0000,
                p <= d + 1,
                sums.len() == d + 1,
                points.len() == p,
                forall|t: int|
                    0 <= t < p ==> (#[trigger] points@[t]).0@ == t && points@[t].1 == sums@[t],
            decreases d + 1 - p,
        {
            proof {
                field::lemma_p_facts();
                vstd::arithmetic::div_mod::lemma_small_mod(p as nat, field::p());
            }
            points.push((Fe::from_i64(p as i64), sums[p]));
            p = p + 1;
        }
        let ghost ys = field::fe_vals(sums@);
        proof {
            assert(poly::xs_of(points@) =~= nat_range((d + 1) as nat));
            assert(poly::ys_of(points@) =~= ys);
            assert forall|t: int| 0 <= t <= d implies #[trigger] sums_over(
                *self.f,
                round_points(q, t as nat, m as nat),
                ys[t],
            ) by {
                let vs = vss[t];
                assert(vs.len() == round_points(q, t as nat, m as nat).len());
                assert(forall|s: int|
                    0 <= s < vs.len() ==> #[trigger] may_return(
                        *self.f,
                        round_points(q, t as nat, m as nat)[s],
                        vs[s],
                    ));
            }
            assert(crate::roots::distinct_nodes(nat_range((d + 1) as nat)));
        }
        let r = lagrange_interpolate(points.as_slice());
        proof {
            assert forall|p: int| 0 <= p <= d implies #[trigger] poly::peval(r.vals(), p as nat) == ys[p] by {
                assert(poly::xs_of(points@)[p] == p);
            }
        }
        // The modulus of `Fr`, which ark_ff documents as prime: a round
        // polynomial of a low-degree model is pinned down by its values at
        // `0..=degree`.
        let _modulus = field::ark_modulus();
        proof {
            assert(crate::roots::fermat()) by {
                assert forall|a: nat| 0 < a < field::p() implies #[trigger] (vstd::arithmetic::power::pow(
                    a as int,
                    (field::p() - 1) as nat,
                ) % (field::p() as int)) == 1 by {}
            }
            assert(crate::roots::residues(q)) by {
                assert forall|i: int| 0 <= i < q.len() implies #[trigger] q[i] < field::p() by {
                    field::lemma_fe_bounded(self.queries@[i]);
                }
            }
            assert forall|g: spec_fn(Seq<nat>) -> nat|
                #[trigger] low_degree_model(*self.f, g, self.input_len as nat, d as nat) implies forall|x: nat|
                x < field::p() ==> #[trigger] poly::peval(r.vals(), x) == cube_sum(g, q.push(x), m as nat) by {
                lemma_honest_round(*self.f, g, self.input_len as nat, d as nat, q, r.vals(), ys);
            }
        }
        r
    }

    /// Fixes the next variable to the verifier's challenge `r`.
    pub fn challenge(&mut self, r: Fe)
        requires
            old(self).queries.len() < old(self).input_len,
        ensures
            final(self).queries@ == old(self).queries@.push(r),
            final(self).f == old(self).f,
            final(self).input_len == old(self).input_len,
            final(self).degree == old(self).degree,
    {
        self.queries.push(r);
    }

    /// One query of `f`.
    pub fn oracle(&self, p: &[Fe]) -> (r: Fe)
        requires
            call_requires(*self.f, (p,)),
        ensures
            call_ensures(*self.f, (p,), r),
    {
        (self.f)(p)
    }
}

/// The sum-check verifier. The order of calls is `new`, then
/// `verify_challenge` and `produce_challenge` (or `add_challenge`) in turn,
/// then `finish`.
pub struct SumCheckVerifier<F: FnOnce(&[Fe]) -> Fe> {
    pub rng: field::Draws,
    pub queries: Vec<Fe>,
    pub polys: Vec<Poly>,
    pub sum: Fe,
    pub oracle: Box<F>,
}

/// The oracle accepts its query: the challenges, as a slice.
pub open spec fn oracle_accepts<F: FnOnce(&[Fe]) -> Fe>(f: F, q: Seq<Fe>) -> bool {
    forall|s: &[Fe]| s@ == q ==> #[trigger] call_requires(f, (s,))
}

/// What a round check compares: `g(0) + g(1)` against the claimed sum in the
/// first round, and against the previous polynomial at the last challenge
/// afterwards.
pub open spec fn round_ok(g: Seq<nat>, queries: Seq<Fe>, polys: Seq<Poly>, sum: nat) -> bool {
    field::fadd(poly::peval(g, 0), poly::peval(g, 1)) == (if queries.len() == 0 {
        sum
    } else {
        poly::peval(polys.last().vals(), queries.last()@)
    })
}

impl<F: FnOnce(&[Fe]) -> Fe> SumCheckVerifier<F> {
    pub fn new(sum: Fe, oracle: Box<F>) -> (r: Self)
        ensures
            r.queries@.len() == 0,
            r.polys@.len() == 0,
            r.sum == sum,
            r.oracle == oracle,
            r.rng@ == Seq::<nat>::empty(),
    {
        Self { rng: field::Draws::new(), queries: Vec::new(), polys: Vec::new(), sum, oracle }
    }

    /// Draws a random challenge and records it. The challenge is the one
    /// value this call draws from the verifier's source, whatever the
    /// transcript holds.
    pub fn produce_challenge(&mut self) -> (r: Fe)
        ensures
            final(self).queries@ == old(self).queries@.push(r),
            final(self).polys == old(self).polys,
            final(self).sum == old(self).sum,
            final(self).oracle == old(self).oracle,
            final(self).rng@ == old(self).rng@.push(r@),
    {
        let x = self.rng.draw();
        self.queries.push(x);
        x
    }

    /// Records a challenge fixed elsewhere (Fiat-Shamir).
    pub fn add_challenge(&mut self, r: Fe)
        ensures
            final(self).queries@ == old(self).queries@.push(r),
            final(self).polys == old(self).polys,
            final(self).sum == old(self).sum,
            final(self).oracle == old(self).oracle,
            final(self).rng@ == old(self).rng@,
    {
        self.queries.push(r);
    }

    /// Records the round polynomial and checks `g(0) + g(1)` against the
    /// claimed sum (first round) or against the previous polynomial at the
    /// last challenge.
    pub fn verify_challenge(&mut self, poly: Poly) -> (r: bool)
        requires
            old(self).queries.len() > 0 ==> old(self).polys.len() > 0,
        ensures
            final(self).polys@ == old(self).polys@.push(poly),
            final(self).queries == old(self).queries,
            final(self).sum == old(self).sum,
            final(self).oracle == old(self).oracle,
            final(self).rng@ == old(self).rng@,
            r == round_ok(poly.vals(), old(self).queries@, old(self).polys@, old(self).sum@),
    {
        let zero = Fe::zero();
        let one = Fe::one();
        let e0 = poly::evaluate(&poly, &zero);
        let e1 = poly::evaluate(&poly, &one);
        let s = e0.add(&e1);
        let ghost g = poly.vals();
        let ghost old_polys = self.polys@;
        if self.queries.len() == 0 {
            self.polys.push(poly);
            s.equals(&self.sum)
        } else {
            let last_index = self.polys.len() - 1;
            let last_query = self.queries.len() - 1;
            let prev = poly::evaluate(&self.polys[last_index], &self.queries[last_query]);
            self.polys.push(poly);
            s.equals(&prev)
        }
    }

    /// The final check: the oracle at the challenges against the last round
    /// polynomial at the last challenge.
    pub fn finish(self) -> (r: bool)
        requires
            self.polys.len() > 0,
            self.queries.len() > 0,
            oracle_accepts(*self.oracle, self.queries@),
        ensures
            exists|s: &[Fe], v: Fe|
                s@ == self.queries@ && #[trigger] call_ensures(*self.oracle, (s,), v) && r == (v@
                    == poly::peval(self.polys@.last().vals(), self.queries@.last()@)),
    {
        let last_index = self.polys.len() - 1;
        let last_query = self.queries.len() - 1;
        let expected = poly::evaluate(&self.polys[last_index], &self.queries[last_query]);
        let q = self.queries.as_slice();
        let v = (self.oracle)(q);
        v.equals(&expected)
    }
}

/// The final check catches a lying prover: `finish` compares the oracle at
/// the challenges `q ‖ r` with the last round polynomial `g` at `r`, where
/// `r` is the last challenge, drawn after `g` was sent. When the oracle,
/// with the earlier challenges `q` fixed, is a polynomial `h` of degree at
/// most `d` in the last variable that differs from `g` somewhere, the two
/// agree on at most `d` field values: among any `d + 1` distinct values of
/// `r` there is one where the check fails, so a fresh uniform `r` passes it
/// with probability at most `d / p`. `fermat()` is Fermat's little theorem
/// for `p`, which `ark_modulus` gives.
pub proof fn lemma_final_check_catches_lies(
    h: spec_fn(Seq<nat>) -> nat,
    q: Seq<nat>,
    g: Seq<nat>,
    d: nat,
    x: nat,
    pts: Seq<nat>,
)
    requires
        crate::roots::fermat(),
        crate::univariate::poly_fn(|t: nat| h(q.push(t)), d),
        g.len() <= d + 1,
        x < field::p(),
        poly::peval(g, x) != h(q.push(x)),
        pts.len() == d + 1,
        crate::roots::distinct_nodes(pts),
        crate::roots::residues(pts),
    ensures
        exists|i: int| 0 <= i < pts.len() && poly::peval(g, pts[i]) != h(q.push(pts[i])),
{
    let hr = |t: nat| h(q.push(t));
    let c = choose|c: Seq<nat>| c.len() <= d + 1 && #[trigger] crate::univariate::agrees(c, hr);
    assert(poly::peval(c, x) == hr(x));
    poly::lemma_distinct_polys_rarely_agree(g, c, d, x, pts);
    let i = choose|i: int| 0 <= i < pts.len() && poly::peval(g, pts[i]) != poly::peval(c, pts[i]);
    assert(pts[i] < field::p());
    assert(poly::peval(c, pts[i]) == hr(pts[i]));
}

/// A freshly created verifier: no challenges or polynomials yet, and an
/// oracle that accepts every query of `n` challenges.
pub open spec fn fresh_verifier<G: FnOnce(&[Fe]) -> Fe>(v: SumCheckVerifier<G>, n: nat) -> bool {
    &&& v.queries@.len() == 0
    &&& v.polys@.len() == 0
    &&& forall|x: &[Fe]| x@.len() == n ==> #[trigger] call_requires(*v.oracle, (x,))
}

/// What both drivers need of the prover and of the verifier factory.
pub open spec fn run_ok<F: Fn(&[Fe]) -> Fe, G: FnOnce(&[Fe]) -> Fe, T: FnOnce(Fe) -> SumCheckVerifier<G>>(
    prover: SumCheckProver<F>,
    create_verifier: T,
) -> bool {
    &&& 0 < prover.input_len < 31
    &&& prover.degree < 0x4000_0000
    &&& prover.queries@.len() == 0
    &&& accepts_len(*prover.f, prover.input_len as nat)
    &&& forall|s: Fe| #[trigger] call_requires(create_verifier, (s,))
    &&& forall|s: Fe, v: SumCheckVerifier<G>|
        #[trigger] call_ensures(create_verifier, (s,), v) ==> fresh_verifier(
            v,
            prover.input_len as nat,
        )
}

/// The first round's check held for an honest prover of `f` over `n`
/// variables with degree bound `d`: its sums `ys[t]` over the points with
/// first coordinate `t` are such that `ys[0] + ys[1]` is the claimed `sum`
/// (when `d ≥ 1`, so that `t = 1` is among them).
pub open spec fn first_round_ok<F: Fn(&[Fe]) -> Fe>(f: F, n: nat, d: nat, sum: nat) -> bool {
    exists|ys: Seq<nat>|
        ys.len() == d + 1 && (forall|t: int|
            0 <= t <= d ==> #[trigger] sums_over(f, round_points(Seq::empty(), t as nat, (n - 1) as nat), ys[t]))
            && (d >= 1 ==> field::fadd(ys[0], ys[1]) == sum)
}

/// The polynomial `g` is one the prover may send for `f` over `n` variables
/// with degree bound `d`, once the challenges `q` are fixed: it interpolates,
/// at `0, 1, ..., d`, sums of `f` over the remaining Boolean variables.
pub open spec fn round_poly<F: Fn(&[Fe]) -> Fe>(f: F, n: nat, d: nat, q: Seq<nat>, g: Seq<nat>) -> bool {
    &&& poly::trimmed(g)
    &&& g.len() <= d + 1
    &&& exists|ys: Seq<nat>|
        ys.len() == d + 1 && (forall|p: int|
            0 <= p <= d ==> #[trigger] sums_over(f, round_points(q, p as nat, (n - q.len() - 1) as nat), ys[p]))
            && poly::is_lagrange_form(g, nat_range(d + 1), ys) && forall|p: int|
            0 <= p <= d ==> #[trigger] poly::peval(g, p as nat) == ys[p]
}

/// The polynomials `ps` and challenges `qs` of a run against the prover of
/// `f`: polynomial `i` was sent once the first `i` challenges were fixed, and
/// a challenge follows every polynomial but possibly the last.
pub open spec fn prover_transcript<F: Fn(&[Fe]) -> Fe>(f: F, n: nat, d: nat, qs: Seq<Fe>, ps: Seq<Poly>) -> bool {
    &&& ps.len() <= n
    &&& (qs.len() == ps.len() || qs.len() + 1 == ps.len())
    &&& forall|i: int| 0 <= i < ps.len() ==> #[trigger] round_poly(f, n, d, field::fe_vals(qs.take(i)), ps[i].vals())
}

/// Every one of the first `m` round checks held.
pub open spec fn rounds_ok(qs: Seq<Fe>, ps: Seq<Poly>, sum: nat, m: nat) -> bool {
    forall|i: int| 0 <= i < m ==> #[trigger] round_ok(ps[i].vals(), qs.take(i), ps.take(i), sum)
}

/// `r` is the verifier's verdict on the run `qs`, `ps` against the prover of
/// `f` for the claimed `sum`: when all `n` round checks held, the oracle was
/// queried at the challenges and `r` says whether its answer is the last
/// polynomial at the last challenge; otherwise `r` is false.
pub open spec fn verdict_of<F: Fn(&[Fe]) -> Fe, G: FnOnce(&[Fe]) -> Fe>(
    r: bool,
    f: F,
    n: nat,
    d: nat,
    sum: nat,
    oracle: G,
    qs: Seq<Fe>,
    ps: Seq<Poly>,
) -> bool {
    &&& prover_transcript(f, n, d, qs, ps)
    &&& if ps.len() == n && rounds_ok(qs, ps, sum, n) {
        &&& qs.len() == n
        &&& exists|s: &[Fe], v: Fe|
            s@ == qs && #[trigger] call_ensures(oracle, (s,), v) && r == (v@ == poly::peval(
                ps.last().vals(),
                qs.last()@,
            ))
    } else {
        !r
    }
}

/// The rounds of the interactive protocol against a fresh verifier: each
/// round the prover sends its polynomial, the verifier checks it and answers
/// with a random challenge. Returns whether every round check held, and the
/// verifier, ready for its final oracle check when they did. For an honest
/// claim every round check holds, and the last polynomial at the last
/// challenge is the function's value at the challenges.
pub(crate) fn play_rounds<F: Fn(&[Fe]) -> Fe, G: FnOnce(&[Fe]) -> Fe>(
    prover: SumCheckProver<F>,
    verifier: SumCheckVerifier<G>,
    Ghost(g): Ghost<spec_fn(Seq<nat>) -> nat>,
) -> (r: (bool, SumCheckVerifier<G>))
    requires
        0 < prover.input_len < 31,
        prover.degree < 0x4000_0000,
        prover.queries@.len() == 0,
        accepts_len(*prover.f, prover.input_len as nat),
        verifier.queries@.len() == 0,
        verifier.polys@.len() == 0,
    ensures
        r.1.oracle == verifier.oracle,
        r.1.sum == verifier.sum,
        r.1.rng@ == verifier.rng@ + field::fe_vals(r.1.queries@),
        r.0 ==> r.1.queries@.len() == prover.input_len && r.1.polys@.len() == prover.input_len,
        prover_transcript(*prover.f, prover.input_len as nat, prover.degree as nat, r.1.queries@, r.1.polys@),
        r.0 == (r.1.polys@.len() == prover.input_len && rounds_ok(
            r.1.queries@,
            r.1.polys@,
            verifier.sum@,
            prover.input_len as nat,
        )),
        r.0 ==> first_round_ok(*prover.f, prover.input_len as nat, prover.degree as nat, verifier.sum@),
        honest_claim(*prover.f, g, prover.input_len as nat, prover.degree as nat, verifier.sum@) ==> r.0
            && poly::peval(r.1.polys@.last().vals(), r.1.queries@.last()@) == g(field::fe_vals(r.1.queries@)),
{
    let ghost f0 = *prover.f;
    let ghost d0 = prover.degree;
    let mut pv = prover;
    let mut v = verifier;
    let ghost oracle = v.oracle;
    let ghost sum = v.sum;
    let n = pv.input_len;
    let ghost honest = honest_claim(f0, g, n as nat, d0 as nat, sum@);
    // The modulus of `Fr`, which ark_ff documents as prime: an honest round
    // polynomial is pinned down by its values at `0..=degree`.
    let _modulus = field::ark_modulus();
    proof {
        assert(crate::roots::fermat()) by {
            assert forall|a: nat| 0 < a < field::p() implies #[trigger] (vstd::arithmetic::power::pow(
                a as int,
                (field::p() - 1) as nat,
            ) % (field::p() as int)) == 1 by {}
        }
    }
    let mut k: usize = 0;
    while k < n
        invariant
            n == pv.input_len,
            0 < n < 31,
            pv.degree < 0x4000_0000,
            accepts_len(*pv.f, n as nat),
            k <= n,
            pv.queries.len() == k,
            v.queries.len() == k,
            v.polys.len() == k,
            v.queries@ == pv.queries@,
            v.rng@ == verifier.rng@ + field::fe_vals(v.queries@),
            prover_transcript(f0, n as nat, d0 as nat, v.queries@, v.polys@),
            rounds_ok(v.queries@, v.polys@, sum@, k as nat),
            v.oracle == oracle,
            v.sum == sum,
            oracle == verifier.oracle,
            sum == verifier.sum,
            *pv.f == f0,
            pv.degree == d0,
            honest == honest_claim(f0, g, n as nat, d0 as nat, sum@),
            f0 == *prover.f,
            d0 == prover.degree,
            n == prover.input_len,
            crate::roots::fermat(),
            k > 0 ==> first_round_ok(f0, n as nat, d0 as nat, sum@),
            honest && k > 0 ==> poly::peval(v.polys@.last().vals(), v.queries@.last()@) == cube_sum(
                g,
                field::fe_vals(v.queries@),
                (n - k) as nat,
            ),
        decreases n - k,
    {
        let ghost q = field::fe_vals(pv.queries@);
        let ghost old_v = v;
        let poly = pv.next();
        let ghost first = k == 0;
        let passed = v.verify_challenge(poly);
        let ghost ys = choose|ys: Seq<nat>|
            ys.len() == pv.degree + 1 && (forall|p: int|
                0 <= p <= pv.degree ==> #[trigger] sums_over(
                    *pv.f,
                    round_points(
                        field::fe_vals(pv.queries@),
                        p as nat,
                        (pv.input_len - pv.queries.len() - 1) as nat,
                    ),
                    ys[p],
                )) && poly::is_lagrange_form(poly.vals(), nat_range((pv.degree + 1) as nat), ys)
                && forall|p: int| 0 <= p <= pv.degree ==> #[trigger] poly::peval(poly.vals(), p as nat) == ys[p];
        proof {
            let qs = v.queries@;
            let ps = v.polys@;
            assert(ps =~= old_v.polys@.push(poly));
            assert(round_poly(f0, n as nat, d0 as nat, q, poly.vals()));
            assert forall|i: int| 0 <= i < ps.len() implies #[trigger] round_poly(
                f0,
                n as nat,
                d0 as nat,
                field::fe_vals(qs.take(i)),
                ps[i].vals(),
            ) by {
                if i == k {
                    assert(qs.take(i) =~= qs);
                }
            }
            assert(ps.take(k as int) =~= old_v.polys@);
            assert(qs.take(k as int) =~= qs);
            assert forall|i: int| 0 <= i < k implies #[trigger] round_ok(ps[i].vals(), qs.take(i), ps.take(i), sum@) by {
                assert(ps.take(i) =~= old_v.polys@.take(i));
            }
            assert(passed == round_ok(ps[k as int].vals(), qs.take(k as int), ps.take(k as int), sum@));
            if first && passed {
                assert(field::fe_vals(pv.queries@) =~= Seq::<nat>::empty());
                if d0 >= 1 {
                    assert(poly::peval(poly.vals(), 0int as nat) == ys[0]);
                    assert(poly::peval(poly.vals(), 1int as nat) == ys[1]);
                }
                assert(first_round_ok(f0, n as nat, d0 as nat, sum@));
            }
            if honest {
                lemma_honest_round_check(f0, g, n as nat, d0 as nat, sum@, old_v.queries@, old_v.polys@, poly.vals(), ys);
            }
            assert(honest ==> passed && forall|x: nat| x < field::p() ==> #[trigger] poly::peval(poly.vals(), x)
                == cube_sum(g, q.push(x), (n - k - 1) as nat));
        }
        if !passed {
            return (false, v);
        }
        let ghost ps_now = v.polys@;
        let ghost qs_before = v.queries@;
        let challenge = v.produce_challenge();
        pv.challenge(challenge);
        proof {
            let qs = v.queries@;
            assert forall|i: int| 0 <= i <= k implies #[trigger] qs.take(i) =~= qs_before.take(i) by {}
            assert forall|i: int| 0 <= i < v.polys@.len() implies #[trigger] round_poly(
                f0,
                n as nat,
                d0 as nat,
                field::fe_vals(qs.take(i)),
                v.polys@[i].vals(),
            ) by {
                assert(qs.take(i) =~= qs_before.take(i));
            }
            assert forall|i: int| 0 <= i < k + 1 implies #[trigger] round_ok(
                v.polys@[i].vals(),
                qs.take(i),
                v.polys@.take(i),
                sum@,
            ) by {
                assert(qs.take(i) =~= qs_before.take(i));
            }
            lemma_fe_vals_push(pv.queries@.drop_last(), challenge);
            assert(pv.queries@.drop_last() =~= old_v.queries@);
            lemma_fe_vals_push(qs_before, challenge);
            assert(qs =~= qs_before.push(challenge));
            assert(verifier.rng@ + field::fe_vals(qs) =~= (verifier.rng@ + field::fe_vals(qs_before)).push(challenge@));
            field::lemma_fe_bounded(challenge);
        }
        k = k + 1;
    }
    proof {
        assert(honest ==> poly::peval(v.polys@.last().vals(), v.queries@.last()@) == g(field::fe_vals(v.queries@))) by {
            if honest {
                assert(cube_sum(g, field::fe_vals(v.queries@), 0) == g(field::fe_vals(v.queries@)));
            }
        }
    }
    (true, v)
}

/// The rounds, then the verifier's final oracle check.
fn run_rounds<F: Fn(&[Fe]) -> Fe, G: FnOnce(&[Fe]) -> Fe>(
    prover: SumCheckProver<F>,
    verifier: SumCheckVerifier<G>,
    Ghost(g): Ghost<spec_fn(Seq<nat>) -> nat>,
) -> (r: bool)
    requires
        0 < prover.input_len < 31,
        prover.degree < 0x4000_0000,
        prover.queries@.len() == 0,
        accepts_len(*prover.f, prover.input_len as nat),
        fresh_verifier(verifier, prover.input_len as nat),
    ensures
        r ==> first_round_ok(*prover.f, prover.input_len as nat, prover.degree as nat, verifier.sum@),
        honest_claim(*prover.f, g, prover.input_len as nat, prover.degree as nat, verifier.sum@) && oracle_agrees(
            *verifier.oracle,
            g,
        ) ==> r,
        exists|qs: Seq<Fe>, ps: Seq<Poly>|
            #[trigger] verdict_of(
                r,
                *prover.f,
                prover.input_len as nat,
                prover.degree as nat,
                verifier.sum@,
                *verifier.oracle,
                qs,
                ps,
            ),
{
    let ghost f = *prover.f;
    let ghost n = prover.input_len as nat;
    let ghost d = prover.degree as nat;
    let ghost sum = verifier.sum@;
    let ghost oracle = *verifier.oracle;
    let (passed, checked) = play_rounds(prover, verifier, Ghost(g));
    let ghost qs = checked.queries@;
    let ghost ps = checked.polys@;
    if !passed {
        proof {
            assert(verdict_of(false, f, n, d, sum, oracle, qs, ps));
        }
        return false;
    }
    let r = checked.finish();
    proof {
        assert(verdict_of(r, f, n, d, sum, oracle, qs, ps));
    }
    r
}

/// Runs the interactive protocol: the prover's claimed sum creates the
/// verifier, then each round the prover sends its polynomial, the verifier
/// checks it and answers with a random challenge; the verifier's final oracle
/// check decides. Returns the verdict and the claimed sum: the verdict is
/// true exactly when every round check held and the oracle, queried at the
/// challenges drawn, matched the last polynomial at the last challenge. A
/// prover whose
/// function has a model of degree at most `degree` in each variable, checked
/// by verifiers whose oracle answers with that model, is accepted.
pub fn run_sum_check<F: Fn(&[Fe]) -> Fe, G: FnOnce(&[Fe]) -> Fe, T: FnOnce(Fe) -> SumCheckVerifier<G>>(
    prover: SumCheckProver<F>,
    create_verifier: T,
) -> (r: (bool, Fe))
    requires
        run_ok(prover, create_verifier),
    ensures
        sums_over(*prover.f, hypercube(prover.input_len as nat), r.1@),
        r.0 && prover.degree >= 1 && deterministic(*prover.f) ==> exists|v: SumCheckVerifier<G>|
            #[trigger] call_ensures(create_verifier, (r.1,), v) && v.sum@ == r.1@,
        (exists|g: spec_fn(Seq<nat>) -> nat|
            #[trigger] low_degree_model(*prover.f, g, prover.input_len as nat, prover.degree as nat)
                && faithful_factory(create_verifier, g)) ==> r.0,
        exists|v: SumCheckVerifier<G>, qs: Seq<Fe>, ps: Seq<Poly>|
            call_ensures(create_verifier, (r.1,), v) && #[trigger] verdict_of(
                r.0,
                *prover.f,
                prover.input_len as nat,
                prover.degree as nat,
                v.sum@,
                *v.oracle,
                qs,
                ps,
            ),
{
    let ghost g = choose|g: spec_fn(Seq<nat>) -> nat|
        #[trigger] low_degree_model(*prover.f, g, prover.input_len as nat, prover.degree as nat)
            && faithful_factory(create_verifier, g);
    let sum = prover.H();
    let verifier = create_verifier(sum);
    let ghost made = verifier;
    let ghost f = *prover.f;
    let ghost n = prover.input_len;
    let ghost d = prover.degree;
    proof {
        if low_degree_model(f, g, n as nat, d as nat) {
            lemma_total_sum(f, g, n as nat, sum@);
        }
    }
    let accepted = run_rounds(prover, verifier, Ghost(g));
    proof {
        assert(accepted && d >= 1 && deterministic(f) ==> made.sum@ == sum@) by {
            if accepted && d >= 1 && deterministic(f) {
                lemma_accepted_sum(f, n as nat, d as nat, sum@, made.sum@);
            }
        }
        assert(call_ensures(create_verifier, (sum,), made));
    }
    let r = (accepted, sum);
    proof {
        let witness = made;
        assert(r.0 && d >= 1 && deterministic(f) ==> call_ensures(create_verifier, (r.1,), witness) && witness.sum@
            == r.1@);
        let (qs, ps) = choose|qs: Seq<Fe>, ps: Seq<Poly>|
            #[trigger] verdict_of(accepted, f, n as nat, d as nat, made.sum@, *made.oracle, qs, ps);
        assert(call_ensures(create_verifier, (r.1,), witness) && verdict_of(
            r.0,
            f,
            n as nat,
            d as nat,
            witness.sum@,
            *witness.oracle,
            qs,
            ps,
        ));
    }
    r
}

/// An accepted first round of an honest prover of a function of its inputs
/// was checked against the sum over the whole cube.
proof fn lemma_accepted_sum<F: Fn(&[Fe]) -> Fe>(f: F, n: nat, d: nat, h: nat, claimed: nat)
    requires
        deterministic(f),
        n >= 1,
        d >= 1,
        sums_over(f, hypercube(n), h),
        first_round_ok(f, n, d, claimed),
    ensures
        claimed == h,
{
    let ys = choose|ys: Seq<nat>|
        ys.len() == d + 1 && (forall|t: int|
            0 <= t <= d ==> #[trigger] sums_over(f, round_points(Seq::empty(), t as nat, (n - 1) as nat), ys[t]))
            && (d >= 1 ==> field::fadd(ys[0], ys[1]) == claimed);
    assert(sums_over(f, round_points(Seq::empty(), 0int as nat, (n - 1) as nat), ys[0]));
    assert(sums_over(f, round_points(Seq::empty(), 1int as nat, (n - 1) as nat), ys[1]));
    lemma_first_round_sum(f, n, h, ys[0], ys[1]);
}

/// `run_sum_check` with the verifier made from the claimed sum and the given
/// oracle. The verdict is that of the rounds and the oracle check; it is
/// true when the oracle answers with a low-degree model of the prover's
/// function.
pub fn run_sum_check_with_oracle<F: Fn(&[Fe]) -> Fe, G: FnOnce(&[Fe]) -> Fe>(
    prover: SumCheckProver<F>,
    oracle: G,
) -> (r: (bool, Fe))
    requires
        0 < prover.input_len < 31,
        prover.degree < 0x4000_0000,
        prover.queries@.len() == 0,
        accepts_len(*prover.f, prover.input_len as nat),
        forall|x: &[Fe]| x@.len() == prover.input_len ==> #[trigger] call_requires(oracle, (x,)),
    ensures
        sums_over(*prover.f, hypercube(prover.input_len as nat), r.1@),
        (exists|g: spec_fn(Seq<nat>) -> nat|
            #[trigger] low_degree_model(*prover.f, g, prover.input_len as nat, prover.degree as nat)
                && oracle_agrees(oracle, g)) ==> r.0,
        exists|qs: Seq<Fe>, ps: Seq<Poly>|
            #[trigger] verdict_of(
                r.0,
                *prover.f,
                prover.input_len as nat,
                prover.degree as nat,
                r.1@,
                oracle,
                qs,
                ps,
            ),
{
    let ghost g = choose|g: spec_fn(Seq<nat>) -> nat|
        #[trigger] low_degree_model(*prover.f, g, prover.input_len as nat, prover.degree as nat)
            && oracle_agrees(oracle, g);
    let ghost f = *prover.f;
    let ghost n = prover.input_len;
    let ghost d = prover.degree;
    let sum = prover.H();
    let verifier = SumCheckVerifier::new(sum, Box::new(oracle));
    proof {
        if low_degree_model(f, g, n as nat, d as nat) {
            lemma_total_sum(f, g, n as nat, sum@);
        }
    }
    let ghost vo = *verifier.oracle;
    proof {
        assert(vo == oracle);
        assert(verifier.sum == sum);
    }
    let accepted = run_rounds(prover, verifier, Ghost(g));
    proof {
        let (qs, ps) = choose|qs: Seq<Fe>, ps: Seq<Poly>|
            #[trigger] verdict_of(accepted, f, n as nat, d as nat, sum@, vo, qs, ps);
        assert(verdict_of(accepted, f, n as nat, d as nat, sum@, oracle, qs, ps));
    }
    let r = (accepted, sum);
    proof {
        let (qs, ps) = choose|qs: Seq<Fe>, ps: Seq<Poly>|
            #[trigger] verdict_of(accepted, f, n as nat, d as nat, sum@, vo, qs, ps);
        assert(verdict_of(r.0, f, n as nat, d as nat, r.1@, oracle, qs, ps));
    }
    r
}

/// For a function whose every result is `g` of its input values, a sum over
/// points is the sum of `g` over them.
pub proof fn lemma_sums_over_function<F: Fn(&[Fe]) -> Fe>(
    f: F,
    g: spec_fn(Seq<nat>) -> nat,
    pts: Seq<Seq<nat>>,
    y: nat,
)
    requires
        forall|s: &[Fe], v: Fe| #[trigger] call_ensures(f, (s,), v) ==> v@ == g(field::fe_vals(s@)),
        sums_over(f, pts, y),
    ensures
        y == fsum(pts.map_values(g)),
{
    let vs = choose|vs: Seq<Fe>|
        vs.len() == pts.len() && (forall|i: int|
            0 <= i < pts.len() ==> #[trigger] may_return(f, pts[i], vs[i])) && y == fsum(
            field::fe_vals(vs),
        );
    assert forall|i: int| 0 <= i < pts.len() implies #[trigger] field::fe_vals(vs)[i] == pts.map_values(
        g,
    )[i] by {
        assert(may_return(f, pts[i], vs[i]));
        let s = choose|s: &[Fe]| #[trigger] call_ensures(f, (s,), vs[i]) && field::fe_vals(s@) == pts[i];
    }
    assert(field::fe_vals(vs) =~= pts.map_values(g));
}

/// A stand-in hash for Fiat-Shamir: the transcript's entries are read as the
/// coefficients of a polynomial, evaluated at the transcript length.
fn hash(coeffs: Vec<Fe>) -> (r: Fe)
    ensures
        r@ == poly::peval(field::fe_vals(coeffs@), field::int_to_field((coeffs.len() as i32) as int)),
{
    let n = coeffs.len() as i32;
    let len = Fe::from_i64(n as i64);
    let p = Poly { coeffs };
    poly::evaluate(&p, &len)
}

/// The Fiat-Shamir transcript after `m` rounds: the claimed sum `h`, then
/// the coefficients of the first `m` round polynomials.
pub open spec fn transcript_of(h: Fe, ps: Seq<Poly>, m: nat) -> Seq<Fe>
    decreases m,
{
    if m == 0 {
        seq![h]
    } else {
        transcript_of(h, ps, (m - 1) as nat) + ps[m - 1].coeffs@
    }
}

/// Challenge `i` is the hash of the transcript after round `i`: the
/// transcript's entries read as a polynomial, evaluated at its length.
pub open spec fn fiat_shamir(h: Fe, qs: Seq<Fe>, ps: Seq<Poly>) -> bool {
    forall|i: int|
        0 <= i < qs.len() ==> #[trigger] qs[i]@ == poly::peval(
            field::fe_vals(transcript_of(h, ps, (i + 1) as nat)),
            field::int_to_field((transcript_of(h, ps, (i + 1) as nat).len() as i32) as int),
        )
}

/// A later polynomial leaves the transcript of the earlier rounds alone.
proof fn lemma_transcript_prefix(h: Fe, ps: Seq<Poly>, q: Poly, m: nat)
    requires
        m <= ps.len(),
    ensures
        transcript_of(h, ps.push(q), m) == transcript_of(h, ps, m),
    decreases m,
{
    if m > 0 {
        lemma_transcript_prefix(h, ps, q, (m - 1) as nat);
    }
}

/// Runs the protocol non-interactively: each challenge is the hash of the
/// transcript so far (the claimed sum, then every round polynomial's
/// coefficients). Returns whether every round check held and the oracle at
/// the challenges matched the last polynomial at the last challenge. As for `run_sum_check`, an honest prover
/// of a low-degree function is accepted.
#[verifier::spinoff_prover]
pub fn run_sum_check_non_interactive<F: Fn(&[Fe]) -> Fe, G: Fn(&[Fe]) -> Fe, T: Fn(Fe) -> SumCheckVerifier<G>>(
    prover: SumCheckProver<F>,
    create_verifier: T,
) -> (r: bool)
    requires
        run_ok(prover, create_verifier),
    ensures
        r && prover.degree >= 1 && deterministic(*prover.f) ==> exists|h: Fe, v: SumCheckVerifier<G>|
            sums_over(*prover.f, hypercube(prover.input_len as nat), h@) && #[trigger] call_ensures(
                create_verifier,
                (h,),
                v,
            ) && v.sum@ == h@,
        (exists|g: spec_fn(Seq<nat>) -> nat|
            #[trigger] low_degree_model(*prover.f, g, prover.input_len as nat, prover.degree as nat)
                && faithful_factory(create_verifier, g)) ==> r,
        exists|h: Fe, v: SumCheckVerifier<G>, qs: Seq<Fe>, ps: Seq<Poly>|
            sums_over(*prover.f, hypercube(prover.input_len as nat), h@) && call_ensures(create_verifier, (h,), v)
                && #[trigger] fiat_shamir(h, qs, ps) && #[trigger] verdict_of(
                r,
                *prover.f,
                prover.input_len as nat,
                prover.degree as nat,
                v.sum@,
                *v.oracle,
                qs,
                ps,
            ),
{
    let ghost g = choose|g: spec_fn(Seq<nat>) -> nat|
        #[trigger] low_degree_model(*prover.f, g, prover.input_len as nat, prover.degree as nat)
            && faithful_factory(create_verifier, g);
    let ghost f0 = *prover.f;
    let ghost d0 = prover.degree;
    let mut pv = prover;
    let sum = pv.H();
    let mut transcript: Vec<Fe> = Vec::new();
    transcript.push(sum);
    let mut verifier = create_verifier(sum);
    let ghost made = verifier;
    let n = pv.input_len;
    proof {
        if low_degree_model(f0, g, n as nat, d0 as nat) {
            lemma_total_sum(f0, g, n as nat, sum@);
        }
    }
    let ghost honest = honest_claim(f0, g, n as nat, d0 as nat, made.sum@) && oracle_agrees(*made.oracle, g);
    proof {
        assert(call_ensures(create_verifier, (sum,), made));
    }
    let ghost complete = low_degree_model(*prover.f, g, prover.input_len as nat, prover.degree as nat)
        && faithful_factory(create_verifier, g);
    // The modulus of `Fr`, which ark_ff documents as prime: an honest round
    // polynomial is pinned down by its values at `0..=degree`.
    let _modulus = field::ark_modulus();
    proof {
        assert(crate::roots::fermat()) by {
            assert forall|a: nat| 0 < a < field::p() implies #[trigger] (vstd::arithmetic::power::pow(
                a as int,
                (field::p() - 1) as nat,
            ) % (field::p() as int)) == 1 by {}
        }
    }
    let mut k: usize = 0;
    while k < n
        invariant
            n == pv.input_len,
            0 < n < 31,
            pv.degree < 0x4000_0000,
            accepts_len(*pv.f, n as nat),
            k <= n,
            pv.queries.len() == k,
            verifier.queries.len() == k,
            verifier.polys.len() == k,
            forall|x: &[Fe]| x@.len() == n ==> #[trigger] call_requires(*verifier.oracle, (x,)),
            *pv.f == f0,
            pv.degree == d0,
            verifier.sum == made.sum,
            verifier.oracle == made.oracle,
            verifier.queries@ == pv.queries@,
            f0 == *prover.f,
            d0 == prover.degree,
            n == prover.input_len,
            sums_over(f0, hypercube(n as nat), sum@),
            call_ensures(create_verifier, (sum,), made),
            transcript@ == transcript_of(sum, verifier.polys@, k as nat),
            fiat_shamir(sum, verifier.queries@, verifier.polys@),
            prover_transcript(f0, n as nat, d0 as nat, verifier.queries@, verifier.polys@),
            rounds_ok(verifier.queries@, verifier.polys@, made.sum@, k as nat),
            complete == (low_degree_model(*prover.f, g, prover.input_len as nat, prover.degree as nat)
                && faithful_factory(create_verifier, g)),
            complete ==> honest,
            (exists|g2: spec_fn(Seq<nat>) -> nat|
                #[trigger] low_degree_model(*prover.f, g2, prover.input_len as nat, prover.degree as nat)
                    && faithful_factory(create_verifier, g2)) ==> complete,
            honest == (honest_claim(f0, g, n as nat, d0 as nat, made.sum@) && oracle_agrees(*made.oracle, g)),
            crate::roots::fermat(),
            k > 0 ==> first_round_ok(f0, n as nat, d0 as nat, made.sum@),
            honest && k > 0 ==> poly::peval(verifier.polys@.last().vals(), verifier.queries@.last()@) == cube_sum(
                g,
                field::fe_vals(verifier.queries@),
                (n - k) as nat,
            ),
        decreases n - k,
    {
        let ghost q = field::fe_vals(pv.queries@);
        let ghost old_v = verifier;
        let poly = pv.next();
        let coeffs = poly.coeffs.clone();
        let ghost first = k == 0;
        let passed = verifier.verify_challenge(poly);
        let ghost ys = choose|ys: Seq<nat>|
            ys.len() == pv.degree + 1 && (forall|p: int|
                0 <= p <= pv.degree ==> #[trigger] sums_over(
                    *pv.f,
                    round_points(
                        field::fe_vals(pv.queries@),
                        p as nat,
                        (pv.input_len - pv.queries.len() - 1) as nat,
                    ),
                    ys[p],
                )) && poly::is_lagrange_form(poly.vals(), nat_range((pv.degree + 1) as nat), ys)
                && forall|p: int| 0 <= p <= pv.degree ==> #[trigger] poly::peval(poly.vals(), p as nat) == ys[p];
        proof {
            let qs = verifier.queries@;
            let ps = verifier.polys@;
            assert(ps =~= old_v.polys@.push(poly));
            assert(round_poly(f0, n as nat, d0 as nat, q, poly.vals()));
            assert forall|i: int| 0 <= i < ps.len() implies #[trigger] round_poly(
                f0,
                n as nat,
                d0 as nat,
                field::fe_vals(qs.take(i)),
                ps[i].vals(),
            ) by {
                if i == k {
                    assert(qs.take(i) =~= qs);
                }
            }
            assert(ps.take(k as int) =~= old_v.polys@);
            assert(qs.take(k as int) =~= qs);
            assert forall|i: int| 0 <= i < k implies #[trigger] round_ok(ps[i].vals(), qs.take(i), ps.take(i), made.sum@) by {
                assert(ps.take(i) =~= old_v.polys@.take(i));
            }
            assert(passed == round_ok(ps[k as int].vals(), qs.take(k as int), ps.take(k as int), made.sum@));
            assert forall|i: int| 0 <= i < qs.len() implies #[trigger] qs[i]@ == poly::peval(
                field::fe_vals(transcript_of(sum, ps, (i + 1) as nat)),
                field::int_to_field((transcript_of(sum, ps, (i + 1) as nat).len() as i32) as int),
            ) by {
                lemma_transcript_prefix(sum, old_v.polys@, poly, (i + 1) as nat);
            }
            lemma_transcript_prefix(sum, old_v.polys@, poly, k as nat);
            if first && passed {
                assert(field::fe_vals(pv.queries@) =~= Seq::<nat>::empty());
                if d0 >= 1 {
                    assert(poly::peval(poly.vals(), 0int as nat) == ys[0]);
                    assert(poly::peval(poly.vals(), 1int as nat) == ys[1]);
                }
                assert(first_round_ok(f0, n as nat, d0 as nat, made.sum@));
            }
            if honest {
                lemma_honest_round_check(
                    f0,
                    g,
                    n as nat,
                    d0 as nat,
                    made.sum@,
                    old_v.queries@,
                    old_v.polys@,
                    poly.vals(),
                    ys,
                );
            }
            assert(honest ==> passed && forall|x: nat| x < field::p() ==> #[trigger] poly::peval(poly.vals(), x)
                == cube_sum(g, q.push(x), (n - k - 1) as nat));
        }
        if !passed {
            proof {
                let (hw, vw, qw, pw) = (sum, made, verifier.queries@, verifier.polys@);
                assert(verdict_of(false, f0, n as nat, d0 as nat, vw.sum@, *vw.oracle, qw, pw));
                assert(sums_over(f0, hypercube(n as nat), hw@) && call_ensures(create_verifier, (hw,), vw)
                    && fiat_shamir(hw, qw, pw));
            }
            return false;
        }
        let ghost t0 = transcript@;
        let mut i: usize = 0;
        while i < coeffs.len()
            invariant
                i <= coeffs.len(),
                transcript@ == t0 + coeffs@.take(i as int),
            decreases coeffs.len() - i,
        {
            transcript.push(coeffs[i]);
            proof {
                assert(coeffs@.take(i + 1) =~= coeffs@.take(i as int).push(coeffs@[i as int]));
            }
            i = i + 1;
        }
        proof {
            assert(coeffs@.take(coeffs.len() as int) =~= coeffs@);
            assert(coeffs@ == verifier.polys@[k as int].coeffs@);
            assert(transcript@ == transcript_of(sum, verifier.polys@, (k + 1) as nat));
        }
        let ghost ps_now = verifier.polys@;
        let ghost qs_before = verifier.queries@;
        let copy = transcript.clone();
        proof {
            assert(copy@ =~= transcript@);
        }
        let challenge = hash(copy);
        verifier.add_challenge(challenge);
        pv.challenge(challenge);
        proof {
            let qs = verifier.queries@;
            assert(qs[k as int] == challenge);
            assert forall|i: int| 0 <= i <= k implies #[trigger] qs.take(i) =~= qs_before.take(i) by {}
            assert forall|i: int| 0 <= i < verifier.polys@.len() implies #[trigger] round_poly(
                f0,
                n as nat,
                d0 as nat,
                field::fe_vals(qs.take(i)),
                verifier.polys@[i].vals(),
            ) by {
                assert(qs.take(i) =~= qs_before.take(i));
            }
            assert forall|i: int| 0 <= i < k + 1 implies #[trigger] round_ok(
                verifier.polys@[i].vals(),
                qs.take(i),
                verifier.polys@.take(i),
                made.sum@,
            ) by {
                assert(qs.take(i) =~= qs_before.take(i));
            }
            assert(fiat_shamir(sum, qs, verifier.polys@));
            lemma_fe_vals_push(pv.queries@.drop_last(), challenge);
            assert(pv.queries@.drop_last() =~= old_v.queries@);
            lemma_fe_vals_push(qs_before, challenge);
            assert(qs =~= qs_before.push(challenge));
            assert(verifier.rng@ + field::fe_vals(qs) =~= (verifier.rng@ + field::fe_vals(qs_before)).push(challenge@));
            field::lemma_fe_bounded(challenge);
        }
        k = k + 1;
    }
    proof {
        if honest {
            assert(cube_sum(g, field::fe_vals(verifier.queries@), 0) == g(field::fe_vals(verifier.queries@)));
        }
    }
    let ghost qf = verifier.queries@;
    let ghost pf = verifier.polys@;
    let accepted = verifier.finish();
    proof {
        assert(verdict_of(accepted, f0, n as nat, d0 as nat, made.sum@, *made.oracle, qf, pf));
        let (hw, vw, qw, pw) = (sum, made, qf, pf);
        assert(sums_over(f0, hypercube(n as nat), hw@) && call_ensures(create_verifier, (hw,), vw) && fiat_shamir(
            hw,
            qw,
            pw,
        ) && verdict_of(accepted, f0, n as nat, d0 as nat, vw.sum@, *vw.oracle, qw, pw));
        assert(accepted && d0 >= 1 && deterministic(f0) ==> made.sum@ == sum@) by {
            if accepted && d0 >= 1 && deterministic(f0) {
                lemma_accepted_sum(f0, n as nat, d0 as nat, sum@, made.sum@);
            }
        }
        let (hw, vw) = (sum, made);
        assert(accepted && d0 >= 1 && deterministic(f0) ==> sums_over(f0, hypercube(n as nat), hw@) && call_ensures(
            create_verifier,
            (hw,),
            vw,
        ) && vw.sum@ == hw@);
    }
    accepted
}

// ---------------------------------------------------------------------------
// Sums over the cube in the two orders that `H` and `next` use.
// ---------------------------------------------------------------------------

/// The sum of `g` over all points `pre ++ x` with `x ∈ {0,1}^m`, splitting on
/// the first free coordinate.
pub open spec fn cube_sum(g: spec_fn(Seq<nat>) -> nat, pre: Seq<nat>, m: nat) -> nat
    decreases m,
{
    if m == 0 {
        g(pre)
    } else {
        field::fadd(cube_sum(g, pre.push(0), (m - 1) as nat), cube_sum(g, pre.push(1), (m - 1) as nat))
    }
}

/// `g` takes field values.
pub open spec fn bounded(g: spec_fn(Seq<nat>) -> nat) -> bool {
    forall|x: Seq<nat>| #[trigger] g(x) < field::p()
}

pub(crate) proof fn lemma_fsum_bounded(v: Seq<nat>)
    ensures
        fsum(v) < field::p(),
    decreases v.len(),
{
    field::lemma_p_facts();
    if v.len() > 0 {
        field::lemma_field_ops_bounded(fsum(v.drop_last()), v.last());
    }
}

pub(crate) proof fn lemma_fsum_concat(a: Seq<nat>, b: Seq<nat>)
    ensures
        fsum(a + b) == field::fadd(fsum(a), fsum(b)),
    decreases b.len(),
{
    field::lemma_p_facts();
    if b.len() == 0 {
        assert(a + b =~= a);
        lemma_fsum_bounded(a);
        field::lemma_fadd_zero(fsum(a));
    } else {
        lemma_fsum_concat(a, b.drop_last());
        assert((a + b).drop_last() =~= a + b.drop_last());
        assert((a + b).last() == b.last());
        field::lemma_fadd_assoc(fsum(a), fsum(b.drop_last()), b.last());
    }
}

/// Termwise sums add up.
pub(crate) proof fn lemma_fsum_add(u: spec_fn(int) -> nat, v: spec_fn(int) -> nat, n: nat)
    ensures
        fsum(Seq::new(n, |i: int| field::fadd(u(i), v(i)))) == field::fadd(fsum(Seq::new(n, u)), fsum(Seq::new(n, v))),
    decreases n,
{
    field::lemma_p_facts();
    let w = Seq::new(n, |i: int| field::fadd(u(i), v(i)));
    if n == 0 {
        assert(field::fadd(0, 0) == 0);
    } else {
        let n1 = (n - 1) as nat;
        lemma_fsum_add(u, v, n1);
        assert(w.drop_last() =~= Seq::new(n1, |i: int| field::fadd(u(i), v(i))));
        assert(Seq::new(n, u).drop_last() =~= Seq::new(n1, u));
        assert(Seq::new(n, v).drop_last() =~= Seq::new(n1, v));
        let (a, b) = (fsum(Seq::new(n1, u)), fsum(Seq::new(n1, v)));
        let (x, y) = (u(n1 as int), v(n1 as int));
        // (a + b) + (x + y) = (a + x) + (b + y)
        field::lemma_fadd_assoc(field::fadd(a, b), x, y);
        field::lemma_fadd_assoc(a, b, x);
        field::lemma_fadd_comm(b, x);
        field::lemma_fadd_assoc(a, x, b);
        field::lemma_fadd_assoc(field::fadd(a, x), b, y);
        assert(field::fadd(field::fadd(a, b), field::fadd(x, y)) == field::fadd(field::fadd(field::fadd(a, b), x), y));
        assert(field::fadd(field::fadd(a, b), x) == field::fadd(field::fadd(a, x), b));
        assert(field::fadd(field::fadd(field::fadd(a, x), b), y) == field::fadd(field::fadd(a, x), field::fadd(b, y)));
    }
}

/// A common factor comes out of a sum.
pub(crate) proof fn lemma_fsum_scale(c: nat, u: spec_fn(int) -> nat, n: nat)
    ensures
        fsum(Seq::new(n, |i: int| field::fmul(c, u(i)))) == field::fmul(c, fsum(Seq::new(n, u))),
    decreases n,
{
    field::lemma_p_facts();
    if n == 0 {
        field::lemma_fmul_zero(c);
    } else {
        let n1 = (n - 1) as nat;
        lemma_fsum_scale(c, u, n1);
        assert(Seq::new(n, |i: int| field::fmul(c, u(i))).drop_last() =~= Seq::new(n1, |i: int| field::fmul(c, u(i))));
        assert(Seq::new(n, u).drop_last() =~= Seq::new(n1, u));
        field::lemma_fmul_distrib(c, fsum(Seq::new(n1, u)), u(n1 as int));
    }
}

/// Zero terms past `l` do not count.
pub(crate) proof fn lemma_fsum_zero_tail(u: spec_fn(int) -> nat, l: nat, n: nat)
    requires
        l <= n,
        forall|i: int| l <= i < n ==> #[trigger] u(i) == 0,
    ensures
        fsum(Seq::new(n, u)) == fsum(Seq::new(l, u)),
    decreases n,
{
    if n == l {
        assert(Seq::new(n, u) =~= Seq::new(l, u));
    } else {
        let n1 = (n - 1) as nat;
        lemma_fsum_zero_tail(u, l, n1);
        assert(Seq::new(n, u).drop_last() =~= Seq::new(n1, u));
        assert(u(n1 as int) == 0);
        lemma_fsum_bounded(Seq::new(n1, u));
        field::lemma_fadd_zero(fsum(Seq::new(n1, u)));
    }
}

/// Splitting a sum of `2n` terms into its even and odd terms.
proof fn lemma_fsum_interleave(h: spec_fn(int) -> nat, n: nat)
    ensures
        fsum(Seq::new(2 * n, |i: int| h(i))) == field::fadd(
            fsum(Seq::new(n, |j: int| h(2 * j))),
            fsum(Seq::new(n, |j: int| h(2 * j + 1))),
        ),
    decreases n,
{
    field::lemma_p_facts();
    let all = Seq::new(2 * n, |i: int| h(i));
    let ev = Seq::new(n, |j: int| h(2 * j));
    let od = Seq::new(n, |j: int| h(2 * j + 1));
    if n == 0 {
        field::lemma_fadd_zero(0);
    } else {
        let n1 = (n - 1) as nat;
        lemma_fsum_interleave(h, n1);
        let all1 = Seq::new(2 * n1, |i: int| h(i));
        let ev1 = Seq::new(n1, |j: int| h(2 * j));
        let od1 = Seq::new(n1, |j: int| h(2 * j + 1));
        assert(all.drop_last().drop_last() =~= all1);
        assert(ev.drop_last() =~= ev1);
        assert(od.drop_last() =~= od1);
        let (e, o) = (fsum(ev1), fsum(od1));
        let (x, y) = (h(2 * n1 as int), h(2 * n1 as int + 1));
        assert(all.last() == y);
        assert(all.drop_last().last() == x);
        assert(fsum(all.drop_last()) == field::fadd(fsum(all1), x));
        assert(fsum(all) == field::fadd(field::fadd(fsum(all1), x), y));
        assert(ev.last() == x && od.last() == y);
        // ((e + o) + x) + y = (e + x) + (o + y)
        field::lemma_fadd_assoc(e, o, x);
        field::lemma_fadd_comm(o, x);
        field::lemma_fadd_assoc(e, x, o);
        field::lemma_fadd_assoc(field::fadd(e, x), o, y);
    }
}

/// Bit `0` of `2j + b` is `b`; the others are the bits of `j`.
proof fn lemma_lsb_split(j: nat, b: nat, m: nat)
    requires
        b < 2,
        m >= 1,
    ensures
        lsb_point(2 * j + b, m) == seq![b] + lsb_point(j, (m - 1) as nat),
{
    let x = (2 * j + b) as int;
    let l = lsb_point(2 * j + b, m);
    let r = seq![b] + lsb_point(j, (m - 1) as nat);
    vstd::arithmetic::power2::lemma2_to64();
    assert forall|k: int| 0 <= k < m implies #[trigger] l[k] == r[k] by {
        vstd::arithmetic::div_mod::lemma_fundamental_div_mod_converse_mod(x, 2, j as int, b as int);
        vstd::arithmetic::div_mod::lemma_fundamental_div_mod_converse_div(x, 2, j as int, b as int);
        if k == 0 {
            assert(pow2(0) == 1);
            assert(x / 1 == x);
        } else {
            let d = pow2((k - 1) as nat);
            vstd::arithmetic::power2::lemma_pow2_unfold(k as nat);
            vstd::arithmetic::power2::lemma_pow2_pos((k - 1) as nat);
            vstd::arithmetic::div_mod::lemma_div_denominator(x, 2, d as int);
            assert(pow2(k as nat) == 2 * d);
        }
    }
    assert(l =~= r);
}

/// The top bit of `i + b·2^(m-1)` is `b`; the others are the bits of `i`.
proof fn lemma_msb_split(i: nat, b: nat, m: nat)
    requires
        b < 2,
        m >= 1,
        i < pow2((m - 1) as nat),
    ensures
        lsb_point(i + b * pow2((m - 1) as nat), m) == lsb_point(i, (m - 1) as nat).push(b),
{
    let h = pow2((m - 1) as nat);
    let x = i + b * h;
    let l = lsb_point(x, m);
    let r = lsb_point(i, (m - 1) as nat).push(b);
    assert forall|k: int| 0 <= k < m implies #[trigger] l[k] == r[k] by {
        let dk = pow2(k as nat);
        vstd::arithmetic::power2::lemma_pow2_pos(k as nat);
        if k == m - 1 {
            vstd::arithmetic::div_mod::lemma_fundamental_div_mod_converse_div(x as int, h as int, b as int, i as int);
            assert(b * h == h * b) by (nonlinear_arith);
        } else {
            let e = (m - 1 - k) as nat;
            vstd::arithmetic::power2::lemma_pow2_adds(k as nat, e);
            assert(h == dk * pow2(e));
            vstd::arithmetic::power2::lemma_pow2_unfold(e);
            let c = b * pow2((e - 1) as nat);
            assert(b * h == (2 * c) * dk) by (nonlinear_arith)
                requires
                    h == dk * pow2(e),
                    pow2(e) == 2 * pow2((e - 1) as nat),
                    c == b * pow2((e - 1) as nat),
            ;
            vstd::arithmetic::div_mod::lemma_hoist_over_denominator(i as int, 2 * (c as int), dk);
            vstd::arithmetic::div_mod::lemma_mod_multiples_vanish(c as int, (i / dk) as int, 2);
            assert((i / dk) as int + 2 * c == 2 * c + (i / dk) as int);
        }
    }
    assert(l =~= r);
}

/// Summing over `{0,1}^m` with the first free coordinate the lowest bit of
/// the index (the order of `H`).
pub(crate) proof fn lemma_lsb_order(g: spec_fn(Seq<nat>) -> nat, pre: Seq<nat>, m: nat)
    requires
        bounded(g),
    ensures
        fsum(Seq::new(pow2(m), |i: int| g(pre + lsb_point(i as nat, m)))) == cube_sum(g, pre, m),
    decreases m,
{
    field::lemma_p_facts();
    let s = Seq::new(pow2(m), |i: int| g(pre + lsb_point(i as nat, m)));
    if m == 0 {
        vstd::arithmetic::power2::lemma2_to64();
        assert(pre + lsb_point(0, 0) =~= pre);
        assert(s[0] == g(pre));
        assert(s.drop_last().len() == 0);
        assert(fsum(s.drop_last()) == 0);
        assert(g(pre) < field::p());
        field::lemma_fadd_zero(g(pre));
        assert(fsum(s) == field::fadd(0, g(pre)));
    } else {
        let n = pow2((m - 1) as nat);
        vstd::arithmetic::power2::lemma_pow2_unfold(m);
        let h = |i: int| g(pre + lsb_point(i as nat, m));
        assert(s =~= Seq::new(2 * n, |i: int| h(i)));
        lemma_fsum_interleave(h, n);
        assert forall|j: int| 0 <= j < n implies #[trigger] h(2 * j + 0) == g(pre.push(0) + lsb_point(j as nat, (m - 1) as nat)) by {
            lemma_lsb_split(j as nat, 0, m);
            assert(pre + (seq![0nat] + lsb_point(j as nat, (m - 1) as nat)) =~= pre.push(0) + lsb_point(
                j as nat,
                (m - 1) as nat,
            ));
        }
        lemma_lsb_order(g, pre.push(0), (m - 1) as nat);
        assert(Seq::new(n, |j: int| h(2 * j + 0)) =~= Seq::new(
            pow2((m - 1) as nat),
            |i: int| g(pre.push(0) + lsb_point(i as nat, (m - 1) as nat)),
        ));
        assert forall|j: int| 0 <= j < n implies #[trigger] h(2 * j + 1) == g(pre.push(1) + lsb_point(j as nat, (m - 1) as nat)) by {
            lemma_lsb_split(j as nat, 1, m);
            assert(pre + (seq![1nat] + lsb_point(j as nat, (m - 1) as nat)) =~= pre.push(1) + lsb_point(
                j as nat,
                (m - 1) as nat,
            ));
        }
        lemma_lsb_order(g, pre.push(1), (m - 1) as nat);
        assert(Seq::new(n, |j: int| h(2 * j + 1)) =~= Seq::new(
            pow2((m - 1) as nat),
            |i: int| g(pre.push(1) + lsb_point(i as nat, (m - 1) as nat)),
        ));
        assert(Seq::new(n, |j: int| h(2 * j)) =~= Seq::new(n, |j: int| h(2 * j + 0)));
        assert(fsum(s) == field::fadd(
            fsum(Seq::new(n, |j: int| h(2 * j))),
            fsum(Seq::new(n, |j: int| h(2 * j + 1))),
        ));
    }
}

/// Summing over `{0,1}^m` with the first free coordinate the highest bit of
/// the index (the order of `next`).
pub(crate) proof fn lemma_msb_order(g: spec_fn(Seq<nat>) -> nat, pre: Seq<nat>, m: nat)
    requires
        bounded(g),
    ensures
        fsum(Seq::new(pow2(m), |i: int| g(pre + lsb_point(i as nat, m).reverse()))) == cube_sum(g, pre, m),
    decreases m,
{
    field::lemma_p_facts();
    let s = Seq::new(pow2(m), |i: int| g(pre + lsb_point(i as nat, m).reverse()));
    if m == 0 {
        vstd::arithmetic::power2::lemma2_to64();
        assert(pre + lsb_point(0, 0).reverse() =~= pre);
        assert(s[0] == g(pre));
        assert(s.drop_last().len() == 0);
        assert(fsum(s.drop_last()) == 0);
        assert(g(pre) < field::p());
        field::lemma_fadd_zero(g(pre));
        assert(fsum(s) == field::fadd(0, g(pre)));
    } else {
        let n = pow2((m - 1) as nat);
        vstd::arithmetic::power2::lemma_pow2_unfold(m);
        let s0 = Seq::new(n, |i: int| g(pre.push(0) + lsb_point(i as nat, (m - 1) as nat).reverse()));
        let s1 = Seq::new(n, |i: int| g(pre.push(1) + lsb_point(i as nat, (m - 1) as nat).reverse()));
        assert forall|i: int| 0 <= i < 2 * n implies #[trigger] s[i] == (s0 + s1)[i] by {
            let b: nat = if i < n { 0 } else { 1 };
            let k: nat = if i < n { i as nat } else { (i - n) as nat };
            assert(k < n);
            lemma_msb_split(k, b, m);
            assert(b * n == (if i < n { 0 } else { n as int }));
            assert(i == k + b * n);
            let t = lsb_point(k, (m - 1) as nat);
            assert(t.push(b).reverse() =~= seq![b] + t.reverse());
            assert(pre + (seq![b] + t.reverse()) =~= pre.push(b) + t.reverse());
        }
        assert(s =~= s0 + s1);
        lemma_fsum_concat(s0, s1);
        lemma_msb_order(g, pre.push(0), (m - 1) as nat);
        lemma_msb_order(g, pre.push(1), (m - 1) as nat);
    }
}

/// `f` gives one value per input: calls on slices of the same values return
/// the same value.
pub open spec fn deterministic<F: Fn(&[Fe]) -> Fe>(f: F) -> bool {
    forall|s1: &[Fe], s2: &[Fe], v1: Fe, v2: Fe|
        #[trigger] call_ensures(f, (s1,), v1) && #[trigger] call_ensures(f, (s2,), v2) && field::fe_vals(s1@)
            == field::fe_vals(s2@) ==> v1@ == v2@
}

/// The value that `f` returns on inputs with the values `x`.
pub open spec fn value_of<F: Fn(&[Fe]) -> Fe>(f: F, x: Seq<nat>) -> nat {
    (choose|v: Fe| may_return(f, x, v))@
}

pub(crate) proof fn lemma_sums_over_deterministic<F: Fn(&[Fe]) -> Fe>(f: F, pts: Seq<Seq<nat>>, y: nat)
    requires
        deterministic(f),
        sums_over(f, pts, y),
    ensures
        y == fsum(pts.map_values(|x: Seq<nat>| value_of(f, x))),
{
    let vs = choose|vs: Seq<Fe>|
        vs.len() == pts.len() && (forall|i: int|
            0 <= i < pts.len() ==> #[trigger] may_return(f, pts[i], vs[i])) && y == fsum(
            field::fe_vals(vs),
        );
    assert forall|i: int| 0 <= i < pts.len() implies #[trigger] field::fe_vals(vs)[i] == value_of(f, pts[i]) by {
        assert(may_return(f, pts[i], vs[i]));
        let w = choose|v: Fe| may_return(f, pts[i], v);
        assert(may_return(f, pts[i], w));
        let s1 = choose|s: &[Fe]| #[trigger] call_ensures(f, (s,), vs[i]) && field::fe_vals(s@) == pts[i];
        let s2 = choose|s: &[Fe]| #[trigger] call_ensures(f, (s,), w) && field::fe_vals(s@) == pts[i];
        assert(call_ensures(f, (s1,), vs[i]) && call_ensures(f, (s2,), w));
    }
    assert(field::fe_vals(vs) =~= pts.map_values(|x: Seq<nat>| value_of(f, x)));
}

/// For a function of its input values, the first round's sums at `0` and at
/// `1` add up to the sum over the whole cube.
proof fn lemma_first_round_sum<F: Fn(&[Fe]) -> Fe>(f: F, n: nat, h: nat, y0: nat, y1: nat)
    requires
        deterministic(f),
        n >= 1,
        sums_over(f, hypercube(n), h),
        sums_over(f, round_points(Seq::empty(), 0, (n - 1) as nat), y0),
        sums_over(f, round_points(Seq::empty(), 1, (n - 1) as nat), y1),
    ensures
        field::fadd(y0, y1) == h,
{
    let g = |x: Seq<nat>| value_of(f, x);
    assert(bounded(g)) by {
        assert forall|x: Seq<nat>| #[trigger] g(x) < field::p() by {
            field::lemma_fe_bounded(choose|v: Fe| may_return(f, x, v));
        }
    }
    let e = Seq::<nat>::empty();
    lemma_sums_over_deterministic(f, hypercube(n), h);
    assert(hypercube(n).map_values(g) =~= Seq::new(pow2(n), |i: int| g(e + lsb_point(i as nat, n)))) by {
        assert forall|i: int| 0 <= i < pow2(n) implies #[trigger] (e + lsb_point(i as nat, n)) =~= lsb_point(i as nat, n) by {}
    }
    lemma_lsb_order(g, e, n);
    assert forall|b: nat| b < 2 implies #[trigger] round_points(e, b, (n - 1) as nat).map_values(g) =~= Seq::new(
        pow2((n - 1) as nat),
        |i: int| g(e.push(b) + lsb_point(i as nat, (n - 1) as nat).reverse()),
    ) by {
        assert forall|i: int| 0 <= i < pow2((n - 1) as nat) implies #[trigger] (e + seq![b] + lsb_point(
            i as nat,
            (n - 1) as nat,
        ).reverse()) =~= e.push(b) + lsb_point(i as nat, (n - 1) as nat).reverse() by {}
    }
    lemma_sums_over_deterministic(f, round_points(e, 0, (n - 1) as nat), y0);
    lemma_sums_over_deterministic(f, round_points(e, 1, (n - 1) as nat), y1);
    assert(round_points(e, 0, (n - 1) as nat).map_values(g) =~= Seq::new(
        pow2((n - 1) as nat),
        |i: int| g(e.push(0) + lsb_point(i as nat, (n - 1) as nat).reverse()),
    ));
    assert(round_points(e, 1, (n - 1) as nat).map_values(g) =~= Seq::new(
        pow2((n - 1) as nat),
        |i: int| g(e.push(1) + lsb_point(i as nat, (n - 1) as nat).reverse()),
    ));
    lemma_msb_order(g, e.push(0), (n - 1) as nat);
    lemma_msb_order(g, e.push(1), (n - 1) as nat);
}

// ---------------------------------------------------------------------------
// Completeness: an honest prover of a low-degree function is accepted.
// ---------------------------------------------------------------------------

/// Every value that `f` returns is `g` of the input's values.
pub open spec fn computes<F: Fn(&[Fe]) -> Fe>(f: F, g: spec_fn(Seq<nat>) -> nat) -> bool {
    forall|s: &[Fe], v: Fe| #[trigger] call_ensures(f, (s,), v) ==> v@ == g(field::fe_vals(s@))
}

/// With the coordinates before and after fixed to `q` and `s`, `g` is a
/// polynomial of degree at most `d` in the remaining coordinate.
pub open spec fn restricted_poly(g: spec_fn(Seq<nat>) -> nat, q: Seq<nat>, s: Seq<nat>, d: nat) -> bool {
    exists|c: Seq<nat>|
        c.len() <= d + 1 && forall|t: nat| t < field::p() ==> #[trigger] poly::peval(c, t) == g(q + seq![t] + s)
}

/// `g` has degree at most `d` in each of its `n` coordinates, the others
/// being field elements.
pub open spec fn degree_at_most(g: spec_fn(Seq<nat>) -> nat, n: nat, d: nat) -> bool {
    forall|q: Seq<nat>, s: Seq<nat>|
        q.len() + 1 + s.len() == n && crate::roots::residues(q) && crate::roots::residues(s)
            ==> #[trigger] restricted_poly(g, q, s, d)
}

/// `f` computes `g`, a function into the field of degree at most `d` in
/// each of its `n` coordinates.
pub open spec fn low_degree_model<F: Fn(&[Fe]) -> Fe>(f: F, g: spec_fn(Seq<nat>) -> nat, n: nat, d: nat) -> bool {
    &&& computes(f, g)
    &&& bounded(g)
    &&& degree_at_most(g, n, d)
}

/// The claimed `sum` is the sum over `{0,1}^n` of `g`, a model of `f` of
/// degree at most `d`.
pub open spec fn honest_claim<F: Fn(&[Fe]) -> Fe>(f: F, g: spec_fn(Seq<nat>) -> nat, n: nat, d: nat, sum: nat) -> bool {
    &&& low_degree_model(f, g, n, d)
    &&& sum == cube_sum(g, Seq::empty(), n)
}

/// The oracle answers with the values of `g`.
pub open spec fn oracle_agrees<G: FnOnce(&[Fe]) -> Fe>(oracle: G, g: spec_fn(Seq<nat>) -> nat) -> bool {
    forall|s: &[Fe], v: Fe| #[trigger] call_ensures(oracle, (s,), v) ==> v@ == g(field::fe_vals(s@))
}

/// Every verifier that `create_verifier` makes from a sum keeps that sum, and
/// its oracle answers with the values of `g`.
pub open spec fn faithful_factory<G: FnOnce(&[Fe]) -> Fe, T: FnOnce(Fe) -> SumCheckVerifier<G>>(
    create_verifier: T,
    g: spec_fn(Seq<nat>) -> nat,
) -> bool {
    forall|s: Fe, v: SumCheckVerifier<G>|
        #[trigger] call_ensures(create_verifier, (s,), v) ==> v.sum == s && oracle_agrees(*v.oracle, g)
}

/// The sum over the cube with the coordinate after `q` free and `u` fixed
/// after it is a polynomial of degree at most `d` in that coordinate.
proof fn lemma_cube_sum_poly(g: spec_fn(Seq<nat>) -> nat, n: nat, d: nat, q: Seq<nat>, u: Seq<nat>, m: nat) -> (c: Seq<nat>)
    requires
        degree_at_most(g, n, d),
        q.len() + 1 + u.len() + m == n,
        crate::roots::residues(q),
        crate::roots::residues(u),
    ensures
        c.len() <= d + 1,
        forall|t: nat| t < field::p() ==> #[trigger] poly::peval(c, t) == cube_sum(g, q.push(t) + u, m),
    decreases m,
{
    if m == 0 {
        assert(restricted_poly(g, q, u, d));
        let c = choose|c: Seq<nat>|
            c.len() <= d + 1 && forall|t: nat| t < field::p() ==> #[trigger] poly::peval(c, t) == g(q + seq![t] + u);
        assert forall|t: nat| t < field::p() implies #[trigger] poly::peval(c, t) == cube_sum(g, q.push(t) + u, m) by {
            assert(q + seq![t] + u =~= q.push(t) + u);
        }
        c
    } else {
        field::lemma_p_facts();
        let c0 = lemma_cube_sum_poly(g, n, d, q, u.push(0), (m - 1) as nat);
        let c1 = lemma_cube_sum_poly(g, n, d, q, u.push(1), (m - 1) as nat);
        let c = crate::roots::cadd(c0, c1);
        assert forall|t: nat| t < field::p() implies #[trigger] poly::peval(c, t) == cube_sum(g, q.push(t) + u, m) by {
            crate::roots::lemma_peval_cadd(c0, c1, t);
            assert((q.push(t) + u).push(0) =~= q.push(t) + u.push(0));
            assert((q.push(t) + u).push(1) =~= q.push(t) + u.push(1));
        }
        c
    }
}

/// The sum of a function that computes `g` over the points of a round is
/// the cube sum of `g` with that round's coordinate fixed.
proof fn lemma_round_sum<F: Fn(&[Fe]) -> Fe>(f: F, g: spec_fn(Seq<nat>) -> nat, q: Seq<nat>, t: nat, m: nat, y: nat)
    requires
        computes(f, g),
        bounded(g),
        sums_over(f, round_points(q, t, m), y),
    ensures
        y == cube_sum(g, q.push(t), m),
{
    lemma_sums_over_function(f, g, round_points(q, t, m), y);
    assert(round_points(q, t, m).map_values(g) =~= Seq::new(
        pow2(m),
        |i: int| g(q.push(t) + lsb_point(i as nat, m).reverse()),
    )) by {
        assert forall|i: int| 0 <= i < pow2(m) implies #[trigger] (q + seq![t] + lsb_point(i as nat, m).reverse())
            =~= q.push(t) + lsb_point(i as nat, m).reverse() by {}
    }
    lemma_msb_order(g, q.push(t), m);
}

/// The whole-cube sum of a function that computes `g`, in the order of `H`.
pub(crate) proof fn lemma_total_sum<F: Fn(&[Fe]) -> Fe>(f: F, g: spec_fn(Seq<nat>) -> nat, n: nat, h: nat)
    requires
        computes(f, g),
        bounded(g),
        sums_over(f, hypercube(n), h),
    ensures
        h == cube_sum(g, Seq::empty(), n),
{
    let e = Seq::<nat>::empty();
    lemma_sums_over_function(f, g, hypercube(n), h);
    assert(hypercube(n).map_values(g) =~= Seq::new(pow2(n), |i: int| g(e + lsb_point(i as nat, n)))) by {
        assert forall|i: int| 0 <= i < pow2(n) implies #[trigger] (e + lsb_point(i as nat, n)) =~= lsb_point(i as nat, n) by {}
    }
    lemma_lsb_order(g, e, n);
}

/// In a round of an honest prover, the round polynomial is, at every field
/// point `x`, the cube sum with the round's coordinate fixed to `x`.
proof fn lemma_honest_round<F: Fn(&[Fe]) -> Fe>(
    f: F,
    g: spec_fn(Seq<nat>) -> nat,
    n: nat,
    d: nat,
    q: Seq<nat>,
    r: Seq<nat>,
    ys: Seq<nat>,
)
    requires
        crate::roots::fermat(),
        low_degree_model(f, g, n, d),
        q.len() < n,
        crate::roots::residues(q),
        d < 0x4000_0000,
        r.len() <= d + 1,
        ys.len() == d + 1,
        forall|t: int| 0 <= t <= d ==> #[trigger] sums_over(f, round_points(q, t as nat, (n - q.len() - 1) as nat), ys[t]),
        forall|t: int| 0 <= t <= d ==> #[trigger] poly::peval(r, t as nat) == ys[t],
    ensures
        forall|x: nat| x < field::p() ==> #[trigger] poly::peval(r, x) == cube_sum(g, q.push(x), (n - q.len() - 1) as nat),
{
    let m = (n - q.len() - 1) as nat;
    let e = Seq::<nat>::empty();
    assert(field::p() > 0x4000_0000);
    let c = lemma_cube_sum_poly(g, n, d, q, e, m);
    let nodes = nat_range(d + 1);
    assert forall|i: int| 0 <= i < nodes.len() implies #[trigger] poly::peval(r, nodes[i]) == poly::peval(c, nodes[i]) by {
        assert(poly::peval(r, i as nat) == ys[i]);
        assert(sums_over(f, round_points(q, i as nat, m), ys[i]));
        lemma_round_sum(f, g, q, i as nat, m, ys[i]);
        assert(q.push(i as nat) + e =~= q.push(i as nat));
    }
    assert forall|x: nat| x < field::p() implies #[trigger] poly::peval(r, x) == cube_sum(g, q.push(x), m) by {
        crate::roots::lemma_agree_everywhere(r, c, nodes, x);
        assert(q.push(x) + e =~= q.push(x));
    }
}

/// A round of an honest prover passes the verifier's check, and its
/// polynomial is, at every field point `x`, the cube sum with the round's
/// coordinate fixed to `x`.
proof fn lemma_honest_round_check<F: Fn(&[Fe]) -> Fe>(
    f: F,
    g: spec_fn(Seq<nat>) -> nat,
    n: nat,
    d: nat,
    sum: nat,
    queries: Seq<Fe>,
    polys: Seq<Poly>,
    rp: Seq<nat>,
    ys: Seq<nat>,
)
    requires
        crate::roots::fermat(),
        honest_claim(f, g, n, d, sum),
        queries.len() == polys.len(),
        queries.len() < n,
        d < 0x4000_0000,
        rp.len() <= d + 1,
        ys.len() == d + 1,
        forall|t: int|
            0 <= t <= d ==> #[trigger] sums_over(
                f,
                round_points(field::fe_vals(queries), t as nat, (n - queries.len() - 1) as nat),
                ys[t],
            ),
        forall|t: int| 0 <= t <= d ==> #[trigger] poly::peval(rp, t as nat) == ys[t],
        queries.len() > 0 ==> poly::peval(polys.last().vals(), queries.last()@) == cube_sum(
            g,
            field::fe_vals(queries),
            (n - queries.len()) as nat,
        ),
    ensures
        round_ok(rp, queries, polys, sum),
        forall|x: nat| x < field::p() ==> #[trigger] poly::peval(rp, x) == cube_sum(
            g,
            field::fe_vals(queries).push(x),
            (n - queries.len() - 1) as nat,
        ),
{
    let q = field::fe_vals(queries);
    assert(crate::roots::residues(q)) by {
        assert forall|i: int| 0 <= i < q.len() implies #[trigger] q[i] < field::p() by {
            field::lemma_fe_bounded(queries[i]);
        }
    }
    lemma_honest_round(f, g, n, d, q, rp, ys);
    field::lemma_p_facts();
    let m = (n - queries.len() - 1) as nat;
    assert(cube_sum(g, q, (m + 1) as nat) == field::fadd(cube_sum(g, q.push(0), m), cube_sum(g, q.push(1), m)));
    assert(poly::peval(rp, 0) == cube_sum(g, q.push(0), m));
    assert(poly::peval(rp, 1) == cube_sum(g, q.push(1), m));
    if queries.len() == 0 {
        assert(q =~= Seq::<nat>::empty());
    }
}

/// Round chaining: when the polynomial of a round is, at every field point,
/// the cube sum of a model `g` with that round's coordinate fixed there
/// (what `SumCheckProver::next` ensures of a low-degree model), the next
/// round's `g₂(0) + g₂(1)` is this round's `g₁(r)` at the challenge `r`.
pub proof fn lemma_rounds_chain(
    g: spec_fn(Seq<nat>) -> nat,
    q: Seq<nat>,
    r: nat,
    m: nat,
    g1: Seq<nat>,
    g2: Seq<nat>,
)
    requires
        r < field::p(),
        forall|x: nat| x < field::p() ==> #[trigger] poly::peval(g1, x) == cube_sum(g, q.push(x), m + 1),
        forall|x: nat| x < field::p() ==> #[trigger] poly::peval(g2, x) == cube_sum(g, q.push(r).push(x), m),
    ensures
        field::fadd(poly::peval(g2, 0), poly::peval(g2, 1)) == poly::peval(g1, r),
{
    field::lemma_p_facts();
    assert(poly::peval(g2, 0) == cube_sum(g, q.push(r).push(0), m));
    assert(poly::peval(g2, 1) == cube_sum(g, q.push(r).push(1), m));
    assert(poly::peval(g1, r) == cube_sum(g, q.push(r), m + 1));
}

/// The first round: when the first polynomial is the cube sum of a model
/// `g` with the first coordinate fixed, `g₁(0) + g₁(1)` is the sum of `g`
/// over the whole cube, which `SumCheckProver::H` returns for a prover that
/// computes `g` into the field.
pub proof fn lemma_first_round_is_total<F: Fn(&[Fe]) -> Fe>(
    f: F,
    g: spec_fn(Seq<nat>) -> nat,
    n: nat,
    h: nat,
    g1: Seq<nat>,
)
    requires
        n >= 1,
        computes(f, g),
        bounded(g),
        sums_over(f, hypercube(n), h),
        forall|x: nat| x < field::p() ==> #[trigger] poly::peval(g1, x) == cube_sum(
            g,
            Seq::<nat>::empty().push(x),
            (n - 1) as nat,
        ),
    ensures
        field::fadd(poly::peval(g1, 0), poly::peval(g1, 1)) == h,
{
    field::lemma_p_facts();
    lemma_total_sum(f, g, n, h);
    assert(poly::peval(g1, 0) == cube_sum(g, Seq::<nat>::empty().push(0), (n - 1) as nat));
    assert(poly::peval(g1, 1) == cube_sum(g, Seq::<nat>::empty().push(1), (n - 1) as nat));
}

} // verus!
