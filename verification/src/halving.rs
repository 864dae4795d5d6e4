//! Completeness of the halving argument: an honest prover is accepted for
//! every sequence of nonzero challenges. The proof goes through the group
//! laws of G1 that `cyclic_generator` states: every point of the basis is a
//! multiple of one generator, so each round of the argument is an identity
//! of field elements.
use crate::commitments::{
    all_below_p, comb_add, comb_scale, cross_l, cross_r, cyclic_generator, doubled, doubled_all, evens,
    fold_combs, fold_combs_all, fold_commitment, fold_points, fold_scalars, g1_identity, g1_sum, g1_times,
    in_g1, inv, lemma_g1_multiple, lemma_g1_multiple_in, lemma_g1_sum_multiples, lemma_g1_times_multiple,
    lemma_verifier_scalars_fold_basis, msm, msm_upto, odds, unit_combs,
};
use crate::field::{self, fadd, fmul};
use crate::r1cs::dot_upto;
use vstd::prelude::*;

verus! {

/// A state of the prover in the halving argument over the basis `vg`: its
/// basis `pg` holds the formal sums `c` of `vg` (`pg_i = ⟨c_i, vg⟩`), and its
/// vector `pa` is as long, of field elements.
pub open spec fn halving_state(
    vg: Seq<(Seq<u64>, Seq<u64>, bool)>,
    c: Seq<Seq<nat>>,
    pg: Seq<(Seq<u64>, Seq<u64>, bool)>,
    pa: Seq<nat>,
) -> bool {
    &&& pg.len() == c.len()
    &&& pa.len() == c.len()
    &&& forall|i: int|
        0 <= i < c.len() ==> (#[trigger] c[i]).len() == vg.len() && all_below_p(c[i]) && pg[i] == msm(vg, c[i])
    &&& crate::roots::residues(pa)
}

/// The verdict of the halving argument when the prover answers honestly:
/// the verifier holds the basis `vg`, its scalars `vs` and its claim `vp`;
/// the prover holds its basis `pg` and vector `pa`. While more than one
/// entry is left, the prover sends the cross terms (`ipa_prover`), the
/// verifier folds its claim and doubles its scalars with the next challenge
/// (`ipa_verifier`), and the prover folds its basis and vector (`fold`).
/// With one entry left the prover sends it and the verifier checks
/// `⟨vs, vg⟩·a = vp`. Running out of challenges first rejects.
pub open spec fn halving_verdict(
    vg: Seq<(Seq<u64>, Seq<u64>, bool)>,
    vs: Seq<nat>,
    vp: (Seq<u64>, Seq<u64>, bool),
    pg: Seq<(Seq<u64>, Seq<u64>, bool)>,
    pa: Seq<nat>,
    us: Seq<nat>,
) -> bool
    decreases us.len(),
{
    if pg.len() <= 1 {
        g1_times(msm(vg, vs), pa[0]) == vp
    } else if us.len() == 0 {
        false
    } else {
        let u = us[0];
        halving_verdict(
            vg,
            doubled(vs, u),
            fold_commitment(vp, cross_l(pg, pa), cross_r(pg, pa), u),
            fold_points(pg, u),
            fold_scalars(pa, inv(u)),
            us.drop_first(),
        )
    }
}

/// Completeness of the halving argument: for a basis `vg` of `2^k` points of
/// G1 and a vector `a` of field elements, the prover that starts from
/// `p = ⟨a, vg⟩` and the verifier that starts from the same `p` with the
/// scalars `[1]` end in acceptance, for every sequence `us` of `k`
/// challenges that are invertible (`u·u⁻¹ = 1`, which holds of every
/// nonzero `u`). `g` is the generator of G1 that `G1::generator` gives.
pub proof fn lemma_ipa_halving_complete(
    g: (Seq<u64>, Seq<u64>, bool),
    vg: Seq<(Seq<u64>, Seq<u64>, bool)>,
    a: Seq<nat>,
    us: Seq<nat>,
)
    requires
        cyclic_generator(g),
        forall|j: int| 0 <= j < vg.len() ==> in_g1(#[trigger] vg[j]),
        vg.len() == crate::mle::pow2(us.len()),
        a.len() == vg.len(),
        crate::roots::residues(a),
        forall|k: int| 0 <= k < us.len() ==> #[trigger] us[k] < field::p() && fmul(inv(us[k]), us[k]) == 1,
    ensures
        halving_verdict(vg, seq![1nat], msm(vg, a), vg, a, us),
{
    field::lemma_p_facts();
    let n = vg.len();
    let kv = Seq::new(n, |j: int| g1_log(g, vg[j]));
    assert forall|j: int| 0 <= j < n implies #[trigger] kv[j] < field::p() && vg[j] == g1_times(g, kv[j]) by {
        lemma_g1_log(g, vg[j]);
    }
    let c = unit_combs(n);
    assert forall|i: int| 0 <= i < c.len() implies (#[trigger] c[i]).len() == vg.len() && all_below_p(c[i])
        && vg[i] == msm(vg, c[i]) by {
        assert(all_below_p(c[i]));
        lemma_msm_multiple(g, vg, kv, c[i], n);
        lemma_dot_unit(kv, i, n, n);
    }
    lemma_verifier_scalars_fold_basis(us);
    assert(logs_of(g, vg, kv));
    lemma_halving_accepts(g, vg, kv, c, seq![1nat], vg, a, us);
}

/// The logarithm of a point of G1 to the base `g`.
pub open spec fn g1_log(g: (Seq<u64>, Seq<u64>, bool), a: (Seq<u64>, Seq<u64>, bool)) -> nat {
    choose|k: nat| k < field::p() && a == g1_times(g, k)
}

pub(crate) proof fn lemma_g1_log(g: (Seq<u64>, Seq<u64>, bool), a: (Seq<u64>, Seq<u64>, bool))
    requires
        cyclic_generator(g),
        in_g1(a),
    ensures
        g1_log(g, a) < field::p(),
        a == g1_times(g, g1_log(g, a)),
{
    let k = lemma_g1_multiple(g, a);
    assert(k < field::p() && a == g1_times(g, k));
}

/// A multi-scalar product of multiples of `g` is the multiple by the dot
/// product of the logarithms with the scalars.
pub(crate) proof fn lemma_msm_multiple(
    g: (Seq<u64>, Seq<u64>, bool),
    pts: Seq<(Seq<u64>, Seq<u64>, bool)>,
    ks: Seq<nat>,
    s: Seq<nat>,
    n: nat,
)
    requires
        cyclic_generator(g),
        n <= pts.len(),
        n <= ks.len(),
        n <= s.len(),
        forall|i: int| 0 <= i < n ==> #[trigger] ks[i] < field::p() && pts[i] == g1_times(g, ks[i]),
        forall|i: int| 0 <= i < n ==> #[trigger] s[i] < field::p(),
    ensures
        msm_upto(pts, s, n) == g1_times(g, dot_upto(ks, s, n)),
        dot_upto(ks, s, n) < field::p(),
    decreases n,
{
    field::lemma_p_facts();
    if n == 0 {
        lemma_g1_multiple_in(g, 0);
    } else {
        let n1 = (n - 1) as nat;
        lemma_msm_multiple(g, pts, ks, s, n1);
        let d = dot_upto(ks, s, n1);
        let (k, x) = (ks[n1 as int], s[n1 as int]);
        lemma_g1_times_multiple(g, k, x);
        field::lemma_field_ops_bounded(k, x);
        lemma_g1_sum_multiples(g, d, fmul(k, x));
        field::lemma_field_ops_bounded(d, fmul(k, x));
    }
}

/// The dot product with a unit vector picks one entry.
proof fn lemma_dot_unit(kv: Seq<nat>, i: int, n: nat, m: nat)
    requires
        0 <= i < m,
        n <= m,
        m <= kv.len(),
        forall|j: int| 0 <= j < kv.len() ==> #[trigger] kv[j] < field::p(),
    ensures
        dot_upto(kv, unit_combs(m)[i], n) == if i < n {
            kv[i]
        } else {
            0
        },
    decreases n,
{
    field::lemma_p_facts();
    if n > 0 {
        let n1 = (n - 1) as nat;
        lemma_dot_unit(kv, i, n1, m);
        let e = unit_combs(m)[i];
        if n1 == i {
            assert(e[n1 as int] == 1);
            field::lemma_fmul_one(kv[i]);
            field::lemma_fadd_zero(kv[i]);
        } else {
            assert(e[n1 as int] == 0);
            field::lemma_fmul_zero(kv[n1 as int]);
            if i < n1 {
                field::lemma_fadd_zero(kv[i]);
            }
        }
    }
}

/// `(a + b) + c` in the field is the sum reduced once.
proof fn lemma_fadd3(a: nat, b: nat, c: nat)
    ensures
        fadd(fadd(a, b), c) == (a + b + c) % field::p(),
{
    field::lemma_p_facts();
    let m = field::p() as int;
    vstd::arithmetic::div_mod::lemma_add_mod_noop(((a + b) as int) % m, c as int, m);
    vstd::arithmetic::div_mod::lemma_mod_twice((a + b) as int, m);
    vstd::arithmetic::div_mod::lemma_add_mod_noop((a + b) as int, c as int, m);
}

/// Adding residues and reducing once reduces the plain sum.
proof fn lemma_mod_sum2(x: nat, y: nat)
    ensures
        ((x % field::p()) + (y % field::p())) % field::p() == (x + y) % field::p(),
{
    field::lemma_p_facts();
    vstd::arithmetic::div_mod::lemma_add_mod_noop(x as int, y as int, field::p() as int);
}

/// One step of the dot product with a folded formal sum:
/// `⟨k, a + b·u⟩ = ⟨k, a⟩ + ⟨k, b⟩·u`.
pub(crate) proof fn lemma_dot_fold(k: Seq<nat>, a: Seq<nat>, b: Seq<nat>, u: nat, n: nat)
    requires
        n <= k.len(),
        n <= a.len(),
        a.len() == b.len(),
    ensures
        dot_upto(k, comb_add(a, comb_scale(b, u)), n) == fadd(dot_upto(k, a, n), fmul(dot_upto(k, b, n), u)),
    decreases n,
{
    field::lemma_p_facts();
    let p = field::p();
    if n == 0 {
        field::lemma_fmul_zero(u);
    } else {
        let n1 = (n - 1) as nat;
        lemma_dot_fold(k, a, b, u, n1);
        let (kj, aj, bj) = (k[n1 as int], a[n1 as int], b[n1 as int]);
        let (da, db) = (dot_upto(k, a, n1), dot_upto(k, b, n1));
        // k·(a + b·u) = k·a + (k·b)·u
        field::lemma_fmul_distrib(kj, aj, fmul(bj, u));
        field::lemma_fmul_assoc(kj, bj, u);
        let (ka, kbu) = (fmul(kj, aj), fmul(fmul(kj, bj), u));
        // (db + k·b)·u = db·u + (k·b)·u
        field::lemma_fmul_comm(fadd(db, fmul(kj, bj)), u);
        field::lemma_fmul_distrib(u, db, fmul(kj, bj));
        field::lemma_fmul_comm(u, db);
        field::lemma_fmul_comm(u, fmul(kj, bj));
        let dbu = fmul(db, u);
        // both sides are da + db·u + k·a + (k·b)·u, reduced
        vstd::arithmetic::div_mod::lemma_add_mod_noop((da + dbu) as int, (ka + kbu) as int, p as int);
        vstd::arithmetic::div_mod::lemma_add_mod_noop((da + ka) as int, (dbu + kbu) as int, p as int);
        assert(da + dbu + (ka + kbu) == da + ka + (dbu + kbu));
    }
}

/// The product of a folded logarithm and a folded scalar:
/// `(k0 + k1·u)(a0 + a1·v) = (k0·a0 + k1·a1) + ((k1·a0)·u + (k0·a1)·v)`
/// when `v·u = 1`.
proof fn lemma_pair_product(k0: nat, k1: nat, a0: nat, a1: nat, u: nat, v: nat)
    requires
        k1 < field::p(),
        fmul(v, u) == 1,
    ensures
        fmul(fadd(k0, fmul(k1, u)), fadd(a0, fmul(a1, v))) == fadd(
            fadd(fmul(k0, a0), fmul(k1, a1)),
            fadd(fmul(fmul(k1, a0), u), fmul(fmul(k0, a1), v)),
        ),
{
    field::lemma_p_facts();
    let x = fadd(k0, fmul(k1, u));
    let m1 = fmul(k1, u);
    let n1 = fmul(a1, v);
    field::lemma_fmul_distrib(x, a0, n1);
    // x·a0 = k0·a0 + (k1·a0)·u
    field::lemma_fmul_comm(x, a0);
    field::lemma_fmul_distrib(a0, k0, m1);
    field::lemma_fmul_comm(a0, k0);
    field::lemma_fmul_assoc(a0, k1, u);
    field::lemma_fmul_comm(a0, k1);
    let t1 = fmul(k0, a0);
    let t2 = fmul(fmul(k1, a0), u);
    assert(fmul(x, a0) == fadd(t1, t2));
    // x·(a1·v) = (k0·a1)·v + k1·a1
    field::lemma_fmul_comm(x, n1);
    field::lemma_fmul_distrib(n1, k0, m1);
    field::lemma_fmul_comm(n1, k0);
    field::lemma_fmul_assoc(k0, a1, v);
    let t3 = fmul(fmul(k0, a1), v);
    assert(fmul(n1, k0) == t3);
    field::lemma_fmul_assoc(a1, v, m1);
    field::lemma_fmul_assoc(v, k1, u);
    field::lemma_fmul_comm(v, k1);
    field::lemma_fmul_assoc(k1, v, u);
    field::lemma_fmul_one(k1);
    field::lemma_fmul_comm(a1, k1);
    let t4 = fmul(k1, a1);
    assert(fmul(n1, m1) == t4);
    assert(fmul(x, n1) == fadd(t3, t4));
    // regroup the four terms
    vstd::arithmetic::div_mod::lemma_add_mod_noop((t1 + t2) as int, (t3 + t4) as int, field::p() as int);
    vstd::arithmetic::div_mod::lemma_add_mod_noop((t1 + t4) as int, (t2 + t3) as int, field::p() as int);
    assert(t1 + t2 + (t3 + t4) == t1 + t4 + (t2 + t3));
}

/// One round of the halving argument on field elements:
/// `⟨k', a'⟩ = ⟨k, a⟩ + L·u + R·v` over the first `h` pairs, for the folded
/// logarithms `k'_i = k_{2i} + k_{2i+1}·u`, the folded vector
/// `a'_i = a_{2i} + a_{2i+1}·v`, `L = ⟨k_odd, a_even⟩`,
/// `R = ⟨k_even, a_odd⟩` and `v·u = 1`.
proof fn lemma_fold_pairs(k: Seq<nat>, a: Seq<nat>, u: nat, v: nat, h: nat)
    requires
        2 * h <= k.len(),
        k.len() == a.len(),
        forall|j: int| 0 <= j < k.len() ==> #[trigger] k[j] < field::p(),
        fmul(v, u) == 1,
    ensures
        dot_upto(fold_scalars(k, u), fold_scalars(a, v), h) == fadd(
            fadd(dot_upto(k, a, 2 * h), fmul(dot_upto(odds(k), evens(a), h), u)),
            fmul(dot_upto(evens(k), odds(a), h), v),
        ),
    decreases h,
{
    field::lemma_p_facts();
    let p = field::p();
    if h == 0 {
        field::lemma_fmul_zero(u);
        field::lemma_fmul_zero(v);
    } else {
        let h1 = (h - 1) as nat;
        lemma_fold_pairs(k, a, u, v, h1);
        let j = 2 * h1 as int;
        let (k0, k1, a0, a1) = (k[j], k[j + 1], a[j], a[j + 1]);
        let s = dot_upto(k, a, 2 * h1);
        let l = dot_upto(odds(k), evens(a), h1);
        let r = dot_upto(evens(k), odds(a), h1);
        let (t1, t4) = (fmul(k0, a0), fmul(k1, a1));
        let (t2, t3) = (fmul(fmul(k1, a0), u), fmul(fmul(k0, a1), v));
        lemma_pair_product(k0, k1, a0, a1, u, v);
        assert(fold_scalars(k, u)[h1 as int] == fadd(k0, fmul(k1, u)));
        assert(fold_scalars(a, v)[h1 as int] == fadd(a0, fmul(a1, v)));
        // the unfolded dot products
        assert(dot_upto(k, a, (2 * h1 + 1) as nat) == fadd(s, t1));
        assert(dot_upto(k, a, 2 * h) == fadd(fadd(s, t1), t4));
        assert(odds(k)[h1 as int] == k1 && evens(a)[h1 as int] == a0);
        assert(evens(k)[h1 as int] == k0 && odds(a)[h1 as int] == a1);
        let l2 = fadd(l, fmul(k1, a0));
        let r2 = fadd(r, fmul(k0, a1));
        assert(dot_upto(odds(k), evens(a), h) == l2);
        assert(dot_upto(evens(k), odds(a), h) == r2);
        // (l + k1·a0)·u = l·u + t2, and likewise for v
        field::lemma_fmul_comm(l2, u);
        field::lemma_fmul_distrib(u, l, fmul(k1, a0));
        field::lemma_fmul_comm(u, l);
        field::lemma_fmul_comm(u, fmul(k1, a0));
        field::lemma_fmul_comm(r2, v);
        field::lemma_fmul_distrib(v, r, fmul(k0, a1));
        field::lemma_fmul_comm(v, r);
        field::lemma_fmul_comm(v, fmul(k0, a1));
        let (lu, rv) = (fmul(l, u), fmul(r, v));
        assert(fmul(l2, u) == fadd(lu, t2));
        assert(fmul(r2, v) == fadd(rv, t3));
        // both sides are the sum of s, l·u, r·v and the four terms, reduced
        lemma_fadd3(s, t1, t4);
        lemma_fadd3(fadd(fadd(s, t1), t4), fadd(lu, t2), fadd(rv, t3));
        lemma_mod_sum2(s + t1 + t4, lu + t2);
        lemma_mod_sum2(s + t1 + t4 + lu + t2, rv + t3);
        vstd::arithmetic::div_mod::lemma_add_mod_noop(
            (fadd(fadd(s, t1), t4) + fadd(lu, t2)) as int,
            fadd(rv, t3) as int,
            p as int,
        );
        vstd::arithmetic::div_mod::lemma_mod_twice(
            (fadd(fadd(s, t1), t4) + fadd(lu, t2)) as int,
            p as int,
        );
        lemma_fadd3(s, lu, rv);
        lemma_mod_sum2(t1 + t4, t2 + t3);
        lemma_mod_sum2(s + lu + rv, t1 + t4 + t2 + t3);
        assert(s + t1 + t4 + lu + t2 + (rv + t3) == s + lu + rv + (t1 + t4 + t2 + t3));
    }
}

/// The logarithms of the points `⟨c_i, vg⟩` when `kv` are those of `vg`.
spec fn sum_logs(kv: Seq<nat>, c: Seq<Seq<nat>>) -> Seq<nat> {
    Seq::new(c.len(), |i: int| dot_upto(kv, c[i], kv.len()))
}

/// The logarithms of the basis points are those of the verifier's basis.
spec fn logs_of(g: (Seq<u64>, Seq<u64>, bool), vg: Seq<(Seq<u64>, Seq<u64>, bool)>, kv: Seq<nat>) -> bool {
    &&& kv.len() == vg.len()
    &&& forall|j: int| 0 <= j < vg.len() ==> #[trigger] kv[j] < field::p() && vg[j] == g1_times(g, kv[j])
}

/// The prover's basis points are the multiples of `g` by `sum_logs`, and
/// its claim is the multiple by their dot product with its vector.
proof fn lemma_state_logs(
    g: (Seq<u64>, Seq<u64>, bool),
    vg: Seq<(Seq<u64>, Seq<u64>, bool)>,
    kv: Seq<nat>,
    c: Seq<Seq<nat>>,
    pg: Seq<(Seq<u64>, Seq<u64>, bool)>,
    pa: Seq<nat>,
)
    requires
        cyclic_generator(g),
        logs_of(g, vg, kv),
        halving_state(vg, c, pg, pa),
    ensures
        forall|i: int|
            0 <= i < c.len() ==> #[trigger] sum_logs(kv, c)[i] < field::p() && pg[i] == g1_times(g, sum_logs(kv, c)[i]),
        msm(pg, pa) == g1_times(g, dot_upto(sum_logs(kv, c), pa, c.len())),
        dot_upto(sum_logs(kv, c), pa, c.len()) < field::p(),
{
    let ks = sum_logs(kv, c);
    assert forall|i: int| 0 <= i < c.len() implies #[trigger] ks[i] < field::p() && pg[i] == g1_times(g, ks[i]) by {
        lemma_msm_multiple(g, vg, kv, c[i], kv.len());
    }
    lemma_msm_multiple(g, pg, ks, pa, c.len());
}

/// A round keeps the prover's state: the folded basis holds the folded
/// formal sums.
proof fn lemma_fold_state(
    g: (Seq<u64>, Seq<u64>, bool),
    vg: Seq<(Seq<u64>, Seq<u64>, bool)>,
    kv: Seq<nat>,
    c: Seq<Seq<nat>>,
    pg: Seq<(Seq<u64>, Seq<u64>, bool)>,
    pa: Seq<nat>,
    u: nat,
    v: nat,
)
    requires
        cyclic_generator(g),
        logs_of(g, vg, kv),
        halving_state(vg, c, pg, pa),
        c.len() % 2 == 0,
        u < field::p(),
    ensures
        halving_state(vg, fold_combs(c, u), fold_points(pg, u), fold_scalars(pa, v)),
        forall|i: int|
            0 <= i < c.len() / 2 ==> #[trigger] fold_points(pg, u)[i] == g1_times(
                g,
                fold_scalars(sum_logs(kv, c), u)[i],
            ),
{
    field::lemma_p_facts();
    let n = vg.len();
    let h = c.len() / 2;
    let ks = sum_logs(kv, c);
    lemma_state_logs(g, vg, kv, c, pg, pa);
    let c2 = fold_combs(c, u);
    let pg2 = fold_points(pg, u);
    let pa2 = fold_scalars(pa, v);
    let ks2 = fold_scalars(ks, u);
    assert forall|i: int| 0 <= i < h implies (#[trigger] c2[i]).len() == vg.len() && all_below_p(c2[i])
        && pg2[i] == msm(vg, c2[i]) && pg2[i] == g1_times(g, ks2[i]) by {
        let (ce, co) = (c[2 * i], c[2 * i + 1]);
        assert(c2[i] == comb_add(ce, comb_scale(co, u)));
        assert forall|j: int| 0 <= j < c2[i].len() implies #[trigger] c2[i][j] < field::p() by {
            field::lemma_field_ops_bounded(ce[j], comb_scale(co, u)[j]);
        }
        lemma_msm_multiple(g, vg, kv, c2[i], n);
        lemma_dot_fold(kv, ce, co, u, n);
        assert(ks[2 * i] < field::p() && pg[2 * i] == g1_times(g, ks[2 * i]));
        assert(ks[2 * i + 1] < field::p() && pg[2 * i + 1] == g1_times(g, ks[2 * i + 1]));
        lemma_g1_times_multiple(g, ks[2 * i + 1], u);
        field::lemma_field_ops_bounded(ks[2 * i + 1], u);
        lemma_g1_sum_multiples(g, ks[2 * i], fmul(ks[2 * i + 1], u));
    }
    assert forall|i: int| 0 <= i < pa2.len() implies #[trigger] pa2[i] < field::p() by {
        field::lemma_field_ops_bounded(pa[2 * i], fmul(pa[2 * i + 1], v));
    }
    assert forall|i: int| 0 <= i < h implies #[trigger] pg2[i] == g1_times(g, ks2[i]) by {
        assert(c2[i].len() == vg.len());
    }
}

/// A round keeps the claim: the prover's folded commitment
/// `p + L·u + R·u⁻¹` is `⟨a', g'⟩` of its folded vector and basis.
proof fn lemma_fold_claim(
    g: (Seq<u64>, Seq<u64>, bool),
    vg: Seq<(Seq<u64>, Seq<u64>, bool)>,
    kv: Seq<nat>,
    c: Seq<Seq<nat>>,
    pg: Seq<(Seq<u64>, Seq<u64>, bool)>,
    pa: Seq<nat>,
    u: nat,
)
    requires
        cyclic_generator(g),
        logs_of(g, vg, kv),
        halving_state(vg, c, pg, pa),
        c.len() % 2 == 0,
        u < field::p(),
        fmul(inv(u), u) == 1,
    ensures
        msm(fold_points(pg, u), fold_scalars(pa, inv(u))) == fold_commitment(
            msm(pg, pa),
            cross_l(pg, pa),
            cross_r(pg, pa),
            u,
        ),
{
    field::lemma_p_facts();
    let v = inv(u);
    let m = c.len();
    let h = m / 2;
    let ks = sum_logs(kv, c);
    lemma_state_logs(g, vg, kv, c, pg, pa);
    lemma_fold_state(g, vg, kv, c, pg, pa, u, v);
    let big = dot_upto(ks, pa, m);
    let pg2 = fold_points(pg, u);
    let pa2 = fold_scalars(pa, v);
    let ks2 = fold_scalars(ks, u);
    let (kl, kr) = (dot_upto(odds(ks), evens(pa), h), dot_upto(evens(ks), odds(pa), h));
    assert forall|i: int| 0 <= i < h implies #[trigger] odds(ks)[i] < field::p() && odds(pg)[i] == g1_times(
        g,
        odds(ks)[i],
    ) by {
        assert(ks[2 * i + 1] < field::p() && pg[2 * i + 1] == g1_times(g, ks[2 * i + 1]));
    }
    assert forall|i: int| 0 <= i < h implies #[trigger] evens(ks)[i] < field::p() && evens(pg)[i] == g1_times(
        g,
        evens(ks)[i],
    ) by {
        assert(ks[2 * i] < field::p() && pg[2 * i] == g1_times(g, ks[2 * i]));
    }
    assert forall|i: int| 0 <= i < h implies #[trigger] evens(pa)[i] < field::p() by {
        assert(pa[2 * i] < field::p());
    }
    assert forall|i: int| 0 <= i < h implies #[trigger] odds(pa)[i] < field::p() by {
        assert(pa[2 * i + 1] < field::p());
    }
    lemma_msm_multiple(g, odds(pg), odds(ks), evens(pa), h);
    lemma_msm_multiple(g, evens(pg), evens(ks), odds(pa), h);
    assert forall|i: int| 0 <= i < h implies #[trigger] ks2[i] < field::p() && pg2[i] == g1_times(g, ks2[i]) by {
        field::lemma_field_ops_bounded(ks[2 * i], fmul(ks[2 * i + 1], u));
    }
    assert forall|i: int| 0 <= i < h implies #[trigger] pa2[i] < field::p() by {
        field::lemma_field_ops_bounded(pa[2 * i], fmul(pa[2 * i + 1], v));
    }
    lemma_msm_multiple(g, pg2, ks2, pa2, h);
    assert(forall|j: int| 0 <= j < ks.len() ==> #[trigger] ks[j] < field::p());
    lemma_fold_pairs(ks, pa, u, v, h);
    vstd::arithmetic::div_mod::lemma_mod_bound(
        vstd::arithmetic::power::pow(u as int, (field::p() - 2) as nat),
        field::p() as int,
    );
    lemma_g1_times_multiple(g, kl, u);
    lemma_g1_times_multiple(g, kr, v);
    field::lemma_field_ops_bounded(kl, u);
    field::lemma_field_ops_bounded(kr, v);
    lemma_g1_sum_multiples(g, big, fmul(kl, u));
    field::lemma_field_ops_bounded(big, fmul(kl, u));
    lemma_g1_sum_multiples(g, fadd(big, fmul(kl, u)), fmul(kr, v));
}

/// The induction behind `lemma_ipa_halving_complete`: the prover's basis
/// holds the formal sums `c` of the verifier's basis, its claim is
/// `⟨pa, pg⟩`, and folding `c` by the remaining challenges leaves the one
/// formal sum that the verifier's scalars `vs` become.
proof fn lemma_halving_accepts(
    g: (Seq<u64>, Seq<u64>, bool),
    vg: Seq<(Seq<u64>, Seq<u64>, bool)>,
    kv: Seq<nat>,
    c: Seq<Seq<nat>>,
    vs: Seq<nat>,
    pg: Seq<(Seq<u64>, Seq<u64>, bool)>,
    pa: Seq<nat>,
    us: Seq<nat>,
)
    requires
        cyclic_generator(g),
        logs_of(g, vg, kv),
        halving_state(vg, c, pg, pa),
        c.len() == crate::mle::pow2(us.len()),
        fold_combs_all(c, us) == seq![doubled_all(vs, us)],
        forall|k: int| 0 <= k < us.len() ==> #[trigger] us[k] < field::p() && fmul(inv(us[k]), us[k]) == 1,
    ensures
        halving_verdict(vg, vs, msm(pg, pa), pg, pa, us),
    decreases us.len(),
{
    field::lemma_p_facts();
    if us.len() == 0 {
        lemma_halving_last(g, vg, kv, c, vs, pg, pa);
    } else {
        let u = us[0];
        let rest = us.drop_first();
        vstd::arithmetic::power2::lemma_pow2_unfold(us.len());
        vstd::arithmetic::power2::lemma_pow2_pos((us.len() - 1) as nat);
        lemma_fold_state(g, vg, kv, c, pg, pa, u, inv(u));
        lemma_fold_claim(g, vg, kv, c, pg, pa, u);
        assert(fold_combs_all(c, us) == fold_combs_all(fold_combs(c, u), rest));
        assert(doubled_all(vs, us) == doubled_all(doubled(vs, u), rest));
        assert forall|k: int| 0 <= k < rest.len() implies #[trigger] rest[k] < field::p() && fmul(
            inv(rest[k]),
            rest[k],
        ) == 1 by {
            assert(rest[k] == us[k + 1]);
        }
        lemma_halving_accepts(
            g,
            vg,
            kv,
            fold_combs(c, u),
            doubled(vs, u),
            fold_points(pg, u),
            fold_scalars(pa, inv(u)),
            rest,
        );
    }
}

/// With one entry left the verifier's check `⟨vs, vg⟩·a = ⟨pa, pg⟩` holds.
proof fn lemma_halving_last(
    g: (Seq<u64>, Seq<u64>, bool),
    vg: Seq<(Seq<u64>, Seq<u64>, bool)>,
    kv: Seq<nat>,
    c: Seq<Seq<nat>>,
    vs: Seq<nat>,
    pg: Seq<(Seq<u64>, Seq<u64>, bool)>,
    pa: Seq<nat>,
)
    requires
        cyclic_generator(g),
        logs_of(g, vg, kv),
        halving_state(vg, c, pg, pa),
        c == seq![vs],
    ensures
        g1_times(msm(vg, vs), pa[0]) == msm(pg, pa),
{
    field::lemma_p_facts();
    let n = vg.len();
    let ks = sum_logs(kv, c);
    lemma_state_logs(g, vg, kv, c, pg, pa);
    assert(c[0] == vs);
    lemma_msm_multiple(g, vg, kv, vs, n);
    assert(msm(vg, vs) == g1_times(g, ks[0]));
    let a0 = pa[0];
    lemma_g1_times_multiple(g, ks[0], a0);
    field::lemma_field_ops_bounded(ks[0], a0);
    lemma_g1_multiple_in(g, 0);
    lemma_g1_sum_multiples(g, 0, fmul(ks[0], a0));
    field::lemma_fadd_zero(fmul(ks[0], a0));
    assert(pg.len() == 1 && pa.len() == 1);
    assert(msm_upto(pg, pa, 0) == g1_identity());
    assert(msm_upto(pg, pa, 1) == g1_sum(msm_upto(pg, pa, 0), g1_times(pg[0], a0)));
    assert(msm(pg, pa) == msm_upto(pg, pa, 1));
}

} // verus!
