//! Completeness of the openings of the inner-product argument: the verifier
//! of `inner_product_verifier` accepts the answer of an honest prover to
//! every challenge, and the claim it hands to the halving argument is the
//! prover's own `⟨a(u) ‖ b(u) ‖ t(u), G ‖ H ‖ G'⟩`. As in `halving`, the
//! proof goes through the logarithms of the generators to the base of the
//! generator of G1.
use crate::commitments::{
    g1_views, blend, blinding_point, comb_add, comb_scale, cyclic_generator, g1_diff, g1_identity, g1_sum, g1_times,
    generator_run, in_g1, ipa_basis, ipa_len_ok, ipa_vector, ipa_width, is_commit_message, is_response,
    lemma_g1_diff_multiples, lemma_g1_multiple_in, lemma_g1_sum_multiples, lemma_g1_times_multiple,
    msm, msm_upto, openings_ok, pedersen, pedersen_upto, vlr, vt, InnerProductProtocol, InnerProductProver,
    IpaProver,
};
use crate::field::{self, fadd, fmul, fsub};
use crate::halving::{g1_log, lemma_dot_fold, lemma_g1_log, lemma_msm_multiple};
use crate::r1cs::{dot_spec, dot_upto};
use vstd::prelude::*;

verus! {

/// The claim that the verifier hands to the halving argument after the
/// openings: `P = V_lr + p_tu - p1·B`.
pub open spec fn ipa_start_claim(commit: InnerProductProtocol, u: nat, response: InnerProductProtocol) -> (
    Seq<u64>,
    Seq<u64>,
    bool,
) {
    match (commit, response) {
        (
            InnerProductProtocol::CommitPolynomials { c, l, ct, lt, qt, n },
            InnerProductProtocol::PolynomialChallengeResponse { p1, p2, p_au, p_bu, p_tu },
        ) => g1_diff(g1_sum(vlr(c, l, u), p_tu@), g1_times(blinding_point(1), p1@)),
        _ => g1_identity(),
    }
}

/// Completeness of the openings: when the commitments are those of
/// `inner_product_prover` for the prover state `s` and the answer is that of
/// `respond` to the challenge `u`, the verifier's checks of the openings
/// hold, and its claim for the halving argument is the prover's `next.p`.
/// The generators `blinding_point(0..2n+2)` lie in G1 (as `blinding_curve`
/// gives), and `g` is the generator of G1 that `G1::generator` gives.
pub proof fn lemma_ipa_openings_complete(
    g: (Seq<u64>, Seq<u64>, bool),
    s: InnerProductProver,
    commit: InnerProductProtocol,
    u: nat,
    response: InnerProductProtocol,
    next: IpaProver,
)
    requires
        cyclic_generator(g),
        s.a.len() == s.b.len(),
        s.sa.len() == s.a.len() && s.sb.len() == s.a.len(),
        ipa_len_ok(s.a.len() as nat),
        u < field::p(),
        forall|j: u64| j < 2 * s.a.len() + 2 ==> in_g1(#[trigger] blinding_point(j)),
        is_commit_message(commit, s),
        is_response(response, next, s, u),
    ensures
        openings_ok(commit, u, response),
        ipa_start_claim(commit, u, response) == next.p@,
{
    field::lemma_p_facts();
    let n = s.a.len() as nat;
    let a = field::fe_vals(s.a@);
    let b = field::fe_vals(s.b@);
    let sa = field::fe_vals(s.sa@);
    let sb = field::fe_vals(s.sb@);
    lemma_fe_vals_residues(s.a@);
    lemma_fe_vals_residues(s.b@);
    lemma_fe_vals_residues(s.sa@);
    lemma_fe_vals_residues(s.sb@);
    // the logarithms of the generators: G' = bp(0), B = bp(1), G_i = bp(2 + i)
    lemma_g1_log(g, blinding_point(0));
    lemma_g1_log(g, blinding_point(1));
    let gp = g1_log(g, blinding_point(0));
    let beta = g1_log(g, blinding_point(1));
    let kg = Seq::new(2 * n, |i: int| g1_log(g, blinding_point((2 + i) as u64)));
    assert forall|i: int| 0 <= i < 2 * n implies #[trigger] kg[i] < field::p() && blinding_point((2 + i) as u64)
        == g1_times(g, kg[i]) by {
        assert(in_g1(blinding_point((2 + i) as u64)));
        lemma_g1_log(g, blinding_point((2 + i) as u64));
    }
    let kh = kg.skip(n as int);
    assert forall|i: int| 0 <= i < n implies #[trigger] kh[i] < field::p() && blinding_point((n + 2 + i) as u64)
        == g1_times(g, kh[i]) by {
        assert(kh[i] == kg[n + i]);
        assert((2 + (n + i)) as u64 == (n + 2 + i) as u64);
    }
    let (au, bu) = (blend(a, sa, u), blend(b, sb, u));
    let tu = dot_spec(au, bu);
    lemma_blend_residues(a, sa, u);
    lemma_blend_residues(b, sb, u);
    match (commit, response) {
        (
            InnerProductProtocol::CommitPolynomials { c, l, ct, lt, qt, n: len },
            InnerProductProtocol::PolynomialChallengeResponse { p1, p2, p_au, p_bu, p_tu },
        ) => {
            let (g1v, g2v, g3v, g4v, g5v) = (s.g1@, s.g2@, s.g3@, s.g4@, s.g5@);
            field::lemma_fe_bounded(s.g1);
            field::lemma_fe_bounded(s.g2);
            field::lemma_fe_bounded(s.g3);
            field::lemma_fe_bounded(s.g4);
            field::lemma_fe_bounded(s.g5);
            // the commitments as multiples of g
            let (da, db, dsa, dsb) = (
                dot_upto(kg, a, n),
                dot_upto(kh, b, n),
                dot_upto(kg, sa, n),
                dot_upto(kh, sb, n),
            );
            lemma_pedersen_split(g, beta, kg, a, b, g1v, n);
            lemma_pedersen_split(g, beta, kg, sa, sb, g2v, n);
            let cc = fadd(fmul(beta, g1v), fadd(da, db));
            let ll = fadd(fmul(beta, g2v), fadd(dsa, dsb));
            assert(c@ == g1_times(g, cc));
            assert(l@ == g1_times(g, ll));
            // the openings of a(u) and b(u)
            let gr = generator_run(2, n);
            let hr = generator_run(n + 2, n);
            assert forall|i: int| 0 <= i < n implies #[trigger] kg[i] < field::p() && gr[i] == g1_times(g, kg[i]) by {}
            assert forall|i: int| 0 <= i < n implies #[trigger] kh[i] < field::p() && hr[i] == g1_times(g, kh[i]) by {}
            lemma_msm_multiple(g, gr, kg, au, n);
            lemma_msm_multiple(g, hr, kh, bu, n);
            assert(au =~= comb_add(a, comb_scale(sa, u)));
            assert(bu =~= comb_add(b, comb_scale(sb, u)));
            lemma_dot_fold(kg, a, sa, u, n);
            lemma_dot_fold(kh, b, sb, u, n);
            let (dau, dbu) = (fadd(da, fmul(dsa, u)), fadd(db, fmul(dsb, u)));
            assert(p_au@ == g1_times(g, dau));
            assert(p_bu@ == g1_times(g, dbu));
            // the first check: c + l·u = p_au + p_bu + p1·B
            lemma_dot_bounded(kg, a, n);
            lemma_dot_bounded(kh, b, n);
            lemma_dot_bounded(kg, sa, n);
            lemma_dot_bounded(kh, sb, n);
            field::lemma_field_ops_bounded(beta, g1v);
            field::lemma_field_ops_bounded(beta, g2v);
            field::lemma_field_ops_bounded(fmul(beta, g1v), fadd(da, db));
            field::lemma_field_ops_bounded(fmul(beta, g2v), fadd(dsa, dsb));
            lemma_g1_times_multiple(g, ll, u);
            field::lemma_field_ops_bounded(ll, u);
            lemma_g1_sum_multiples(g, cc, fmul(ll, u));
            let p1v = fadd(g1v, fmul(g2v, u));
            assert(p1@ == p1v);
            field::lemma_field_ops_bounded(g1v, fmul(g2v, u));
            lemma_g1_times_multiple(g, beta, p1v);
            field::lemma_field_ops_bounded(da, fmul(dsa, u));
            field::lemma_field_ops_bounded(db, fmul(dsb, u));
            lemma_g1_sum_multiples(g, dau, dbu);
            field::lemma_field_ops_bounded(dau, dbu);
            field::lemma_field_ops_bounded(beta, p1v);
            lemma_g1_sum_multiples(g, fadd(dau, dbu), fmul(beta, p1v));
            lemma_vlr_identity(beta, g1v, g2v, da, db, dsa, dsb, u);
            assert(vlr(c, l, u) == g1_sum(g1_sum(p_au@, p_bu@), g1_times(blinding_point(1), p1@)));
            // the second check: ct + lt·u + qt·u² = p_tu + p2·B
            let (dab, das, dbs, dss) = (dot_spec(a, b), dot_spec(a, sb), dot_spec(b, sa), dot_spec(sa, sb));
            lemma_dot_blend(a, sa, b, sb, u, n);
            lemma_dot_bounded(a, b, n);
            lemma_dot_bounded(a, sb, n);
            lemma_dot_bounded(b, sa, n);
            lemma_dot_bounded(sa, sb, n);
            lemma_dot_bounded(au, bu, n);
            lemma_hiding_logs(g, gp, beta, dab, g3v);
            lemma_hiding_logs(g, gp, beta, fadd(das, dbs), g4v);
            lemma_hiding_logs(g, gp, beta, dss, g5v);
            field::lemma_field_ops_bounded(das, dbs);
            lemma_vt_identity(g, gp, beta, dab, fadd(das, dbs), dss, g3v, g4v, g5v, u);
            assert(tu == fadd(fadd(dab, fmul(fadd(das, dbs), u)), fmul(fmul(dss, u), u)));
            lemma_g1_times_multiple(g, gp, tu);
            assert(vt(ct, lt, qt, u) == g1_sum(p_tu@, g1_times(blinding_point(1), p2@)));
            assert(openings_ok(commit, u, response));
            // the claim handed on
            field::lemma_field_ops_bounded(gp, tu);
            lemma_g1_sum_multiples(g, fadd(fadd(dau, dbu), fmul(beta, p1v)), fmul(gp, tu));
            field::lemma_field_ops_bounded(fadd(dau, dbu), fmul(beta, p1v));
            field::lemma_field_ops_bounded(fadd(fadd(dau, dbu), fmul(beta, p1v)), fmul(gp, tu));
            lemma_g1_diff_multiples(g, fadd(fadd(fadd(dau, dbu), fmul(beta, p1v)), fmul(gp, tu)), fmul(beta, p1v));
            lemma_claim_identity(fadd(dau, dbu), fmul(beta, p1v), fmul(gp, tu));
            lemma_basis_claim(g, gp, kg, au, bu, tu, n);
            assert(next.p@ == g1_times(g, fadd(fadd(dau, dbu), fmul(gp, tu))));
        },
        _ => {},
    }
}

/// Completeness of the inner-product argument: for the commitments of
/// `inner_product_prover` with the prover state `s`, the answer of `respond`
/// to the challenge `u` and the halving argument that follows it, the
/// verifier accepts the openings and then the halving argument, for every
/// challenge `u` and every sequence `us` of nonzero challenges of the
/// halving rounds (one per halving of the padded width). The generators
/// `blinding_point(0..2n+2)` lie in G1 (as `blinding_curve` gives), and `g`
/// is the generator of G1 that `G1::generator` gives.
pub proof fn lemma_ipa_complete(
    g: (Seq<u64>, Seq<u64>, bool),
    s: InnerProductProver,
    commit: InnerProductProtocol,
    u: nat,
    response: InnerProductProtocol,
    next: IpaProver,
    us: Seq<nat>,
)
    requires
        cyclic_generator(g),
        s.a.len() == s.b.len(),
        s.sa.len() == s.a.len() && s.sb.len() == s.a.len(),
        ipa_len_ok(s.a.len() as nat),
        u < field::p(),
        forall|j: u64| j < 2 * s.a.len() + 2 ==> in_g1(#[trigger] blinding_point(j)),
        is_commit_message(commit, s),
        is_response(response, next, s, u),
        us.len() == crate::mle::ceil_log2((2 * s.a.len() + 1) as nat),
        forall|k: int| 0 <= k < us.len() ==> #[trigger] us[k] < field::p() && fmul(crate::commitments::inv(us[k]), us[k]) == 1,
    ensures
        openings_ok(commit, u, response),
        crate::halving::halving_verdict(
            ipa_basis(s.a.len() as nat, ipa_width(s.a.len() as nat)),
            seq![1nat],
            ipa_start_claim(commit, u, response),
            g1_views(next.g@),
            field::fe_vals(next.a@),
            us,
        ),
{
    let n = s.a.len() as nat;
    let w = ipa_width(n);
    lemma_ipa_openings_complete(g, s, commit, u, response, next);
    let vg = ipa_basis(n, w);
    crate::mle::lemma_ceil_log2(2 * n + 1);
    assert(vg.len() == w);
    assert forall|j: int| 0 <= j < vg.len() implies in_g1(#[trigger] vg[j]) by {
        if j < 2 * n {
            assert(vg[j] == generator_run(2, 2 * n)[j]);
            assert(in_g1(blinding_point((2 + j) as u64)));
        } else if j == 2 * n {
            assert(in_g1(blinding_point(0)));
        } else {
            assert(vg[j] == g1_identity());
        }
    }
    lemma_fe_vals_residues(next.a@);
    crate::halving::lemma_ipa_halving_complete(g, vg, field::fe_vals(next.a@), us);
}

/// The values of a vector of field elements are residues.
proof fn lemma_fe_vals_residues(v: Seq<field::Fe>)
    ensures
        forall|i: int| 0 <= i < v.len() ==> #[trigger] field::fe_vals(v)[i] < field::p(),
{
    assert forall|i: int| 0 <= i < v.len() implies #[trigger] field::fe_vals(v)[i] < field::p() by {
        field::lemma_fe_bounded(v[i]);
    }
}

/// `x + s·u` of residues is made of residues.
proof fn lemma_blend_residues(x: Seq<nat>, s: Seq<nat>, u: nat)
    ensures
        blend(x, s, u).len() == x.len(),
        forall|i: int| 0 <= i < x.len() ==> #[trigger] blend(x, s, u)[i] < field::p(),
{
    assert forall|i: int| 0 <= i < x.len() implies #[trigger] blend(x, s, u)[i] < field::p() by {
        field::lemma_field_ops_bounded(x[i], fmul(s[i], u));
    }
}

/// A dot product is a field element.
pub(crate) proof fn lemma_dot_bounded(x: Seq<nat>, y: Seq<nat>, n: nat)
    ensures
        dot_upto(x, y, n) < field::p(),
        x.len() == n && y.len() == n ==> dot_spec(x, y) == dot_upto(x, y, n),
{
    field::lemma_p_facts();
    if n > 0 {
        let n1 = (n - 1) as nat;
        field::lemma_field_ops_bounded(dot_upto(x, y, n1), fmul(x[n1 as int], y[n1 as int]));
    }
}

/// Reducing before an addition or a multiplication changes nothing.
proof fn lemma_reduce(x: int, y: int)
    ensures
        ((x % (field::p() as int)) + (y % (field::p() as int))) % (field::p() as int) == (x + y) % (field::p() as int),
        ((x % (field::p() as int)) * (y % (field::p() as int))) % (field::p() as int) == (x * y) % (field::p() as int),
        (x % (field::p() as int)) % (field::p() as int) == x % (field::p() as int),
        0 <= x % (field::p() as int) < field::p(),
{
    field::lemma_p_facts();
    let m = field::p() as int;
    vstd::arithmetic::div_mod::lemma_add_mod_noop(x, y, m);
    vstd::arithmetic::div_mod::lemma_mul_mod_noop(x, y, m);
    vstd::arithmetic::div_mod::lemma_mod_twice(x, m);
    vstd::arithmetic::div_mod::lemma_mod_bound(x, m);
}

/// A residue is its own reduction.
proof fn lemma_residue(x: nat)
    requires
        x < field::p(),
    ensures
        (x as int) % (field::p() as int) == x,
{
    vstd::arithmetic::div_mod::lemma_small_mod(x, field::p());
}

/// `B·s + ⟨v, G⟩` for the generators of `seed` is the multiple of `g` by
/// `β·s + ⟨v, k⟩`, for the logarithms `β` of `B` and `k` of `G`.
pub(crate) proof fn lemma_pedersen_logs(
    g: (Seq<u64>, Seq<u64>, bool),
    beta: nat,
    kg: Seq<nat>,
    v: Seq<nat>,
    sv: nat,
    seed: nat,
    n: nat,
)
    requires
        cyclic_generator(g),
        seed >= 1,
        beta < field::p(),
        blinding_point((seed - 1) as u64) == g1_times(g, beta),
        n <= v.len(),
        n <= kg.len(),
        forall|i: int|
            0 <= i < n ==> #[trigger] kg[i] < field::p() && blinding_point((seed + i) as u64) == g1_times(g, kg[i]),
        forall|i: int| 0 <= i < n ==> #[trigger] v[i] < field::p(),
        sv < field::p(),
    ensures
        pedersen_upto(v, sv, seed, n) == g1_times(g, fadd(fmul(beta, sv), dot_upto(kg, v, n))),
        fadd(fmul(beta, sv), dot_upto(kg, v, n)) < field::p(),
    decreases n,
{
    field::lemma_p_facts();
    field::lemma_field_ops_bounded(beta, sv);
    lemma_dot_bounded(kg, v, n);
    field::lemma_field_ops_bounded(fmul(beta, sv), dot_upto(kg, v, n));
    if n == 0 {
        lemma_g1_times_multiple(g, beta, sv);
        field::lemma_fadd_zero(fmul(beta, sv));
    } else {
        let n1 = (n - 1) as nat;
        lemma_pedersen_logs(g, beta, kg, v, sv, seed, n1);
        lemma_dot_bounded(kg, v, n1);
        let x = fadd(fmul(beta, sv), dot_upto(kg, v, n1));
        field::lemma_field_ops_bounded(fmul(beta, sv), dot_upto(kg, v, n1));
        assert(blinding_point((seed + n1) as u64) == g1_times(g, kg[n1 as int]));
        assert((seed + n - 1) as u64 == (seed + n1) as u64);
        lemma_g1_times_multiple(g, kg[n1 as int], v[n1 as int]);
        field::lemma_field_ops_bounded(kg[n1 as int], v[n1 as int]);
        lemma_g1_sum_multiples(g, x, fmul(kg[n1 as int], v[n1 as int]));
        field::lemma_fadd_assoc(fmul(beta, sv), dot_upto(kg, v, n1), fmul(kg[n1 as int], v[n1 as int]));
    }
}

/// Dot products that agree on their first `n` entries agree.
proof fn lemma_dot_agree(x1: Seq<nat>, y1: Seq<nat>, x2: Seq<nat>, y2: Seq<nat>, n: nat)
    requires
        forall|i: int| 0 <= i < n ==> #[trigger] x1[i] == x2[i] && y1[i] == y2[i],
    ensures
        dot_upto(x1, y1, n) == dot_upto(x2, y2, n),
    decreases n,
{
    if n > 0 {
        lemma_dot_agree(x1, y1, x2, y2, (n - 1) as nat);
        assert(x1[n - 1] == x2[n - 1]);
    }
}

/// A dot product splits after its first `m` entries.
proof fn lemma_dot_split(k: Seq<nat>, x: Seq<nat>, m: nat, j: nat)
    requires
        m + j <= k.len(),
        m + j <= x.len(),
    ensures
        dot_upto(k, x, m + j) == fadd(dot_upto(k, x, m), dot_upto(k.skip(m as int), x.skip(m as int), j)),
    decreases j,
{
    field::lemma_p_facts();
    lemma_dot_bounded(k, x, m);
    if j == 0 {
        field::lemma_fadd_zero(dot_upto(k, x, m));
    } else {
        let j1 = (j - 1) as nat;
        lemma_dot_split(k, x, m, j1);
        let e = dot_upto(k.skip(m as int), x.skip(m as int), j1);
        let q = (m + j1) as int;
        let f = fmul(k[q], x[q]);
        assert(k.skip(m as int)[j1 as int] == k[q]);
        assert(x.skip(m as int)[j1 as int] == x[q]);
        assert(dot_upto(k, x, m + j) == fadd(dot_upto(k, x, (m + j1) as nat), f));
        field::lemma_fadd_assoc(dot_upto(k, x, m), e, f);
    }
}

/// The commitment to `x ‖ y` with the blinding factor `sv` is the multiple
/// of `g` by `β·sv + ⟨x, k_0..⟩ + ⟨y, k_n..⟩`.
proof fn lemma_pedersen_split(
    g: (Seq<u64>, Seq<u64>, bool),
    beta: nat,
    kg: Seq<nat>,
    x: Seq<nat>,
    y: Seq<nat>,
    sv: nat,
    n: nat,
)
    requires
        cyclic_generator(g),
        beta < field::p(),
        blinding_point(1) == g1_times(g, beta),
        kg.len() == 2 * n,
        forall|i: int|
            0 <= i < 2 * n ==> #[trigger] kg[i] < field::p() && blinding_point((2 + i) as u64) == g1_times(g, kg[i]),
        x.len() == n && y.len() == n,
        forall|i: int| 0 <= i < n ==> #[trigger] x[i] < field::p(),
        forall|i: int| 0 <= i < n ==> #[trigger] y[i] < field::p(),
        sv < field::p(),
    ensures
        pedersen(x + y, sv, 2) == g1_times(
            g,
            fadd(fmul(beta, sv), fadd(dot_upto(kg, x, n), dot_upto(kg.skip(n as int), y, n))),
        ),
{
    let v = x + y;
    assert forall|i: int| 0 <= i < 2 * n implies #[trigger] v[i] < field::p() by {
        if i >= n {
            assert(v[i] == y[i - n]);
        }
    }
    lemma_pedersen_logs(g, beta, kg, v, sv, 2, 2 * n);
    lemma_dot_split(kg, v, n, n);
    lemma_dot_agree(kg, v, kg, x, n);
    assert forall|i: int| 0 <= i < n implies #[trigger] v.skip(n as int)[i] == y[i] by {}
    lemma_dot_agree(kg.skip(n as int), v.skip(n as int), kg.skip(n as int), y, n);
}

/// `x·G' + y·B` is the multiple of `g` by `γ'·x + β·y`.
proof fn lemma_hiding_logs(g: (Seq<u64>, Seq<u64>, bool), gp: nat, beta: nat, x: nat, y: nat)
    requires
        cyclic_generator(g),
        gp < field::p() && beta < field::p(),
        blinding_point(0) == g1_times(g, gp),
        blinding_point(1) == g1_times(g, beta),
        x < field::p() && y < field::p(),
    ensures
        crate::commitments::hiding_value(x, y) == g1_times(g, fadd(fmul(gp, x), fmul(beta, y))),
        fadd(fmul(gp, x), fmul(beta, y)) < field::p(),
{
    lemma_g1_times_multiple(g, gp, x);
    lemma_g1_times_multiple(g, beta, y);
    field::lemma_field_ops_bounded(gp, x);
    field::lemma_field_ops_bounded(beta, y);
    lemma_g1_sum_multiples(g, fmul(gp, x), fmul(beta, y));
    field::lemma_field_ops_bounded(fmul(gp, x), fmul(beta, y));
}

/// `c + l·u = p_au + p_bu + p1·B` on the logarithms.
#[verifier::spinoff_prover]
#[verifier::rlimit(60)]
proof fn lemma_vlr_identity(beta: nat, g1v: nat, g2v: nat, da: nat, db: nat, dsa: nat, dsb: nat, u: nat)
    requires
        beta < field::p() && g1v < field::p() && g2v < field::p() && u < field::p(),
        da < field::p() && db < field::p() && dsa < field::p() && dsb < field::p(),
    ensures
        fadd(fadd(fmul(beta, g1v), fadd(da, db)), fmul(fadd(fmul(beta, g2v), fadd(dsa, dsb)), u)) == fadd(
            fadd(fadd(da, fmul(dsa, u)), fadd(db, fmul(dsb, u))),
            fmul(beta, fadd(g1v, fmul(g2v, u))),
        ),
{
    let (bi, g1i, g2i, ui) = (beta as int, g1v as int, g2v as int, u as int);
    let (dai, dbi, dsai, dsbi) = (da as int, db as int, dsa as int, dsb as int);
    let pp = field::p() as int;
    let e1 = bi * g1i + dai + dbi;
    let e2 = bi * g2i + dsai + dsbi;
    assert(fadd(fmul(beta, g1v), fadd(da, db)) == e1 % pp) by {
        lemma_reduce(bi * g1i, dai + dbi);
    }
    assert(fmul(fadd(fmul(beta, g2v), fadd(dsa, dsb)), u) == (e2 * ui) % pp) by {
        lemma_reduce(bi * g2i, dsai + dsbi);
        lemma_residue(u);
        lemma_reduce(e2, ui);
    }
    assert(fadd(fadd(fmul(beta, g1v), fadd(da, db)), fmul(fadd(fmul(beta, g2v), fadd(dsa, dsb)), u)) == (e1 + e2
        * ui) % pp) by {
        lemma_reduce(e1, e2 * ui);
    }
    let r1 = dai + dsai * ui;
    let r2 = dbi + dsbi * ui;
    assert(fadd(da, fmul(dsa, u)) == r1 % pp) by {
        lemma_residue(da);
        lemma_reduce(dai, dsai * ui);
    }
    assert(fadd(db, fmul(dsb, u)) == r2 % pp) by {
        lemma_residue(db);
        lemma_reduce(dbi, dsbi * ui);
    }
    assert(fadd(fadd(da, fmul(dsa, u)), fadd(db, fmul(dsb, u))) == (r1 + r2) % pp) by {
        lemma_reduce(r1, r2);
    }
    let q = g1i + g2i * ui;
    assert(fmul(beta, fadd(g1v, fmul(g2v, u))) == (bi * q) % pp) by {
        lemma_residue(g1v);
        lemma_reduce(g1i, g2i * ui);
        lemma_residue(beta);
        lemma_reduce(bi, q);
    }
    assert(fadd(fadd(fadd(da, fmul(dsa, u)), fadd(db, fmul(dsb, u))), fmul(beta, fadd(g1v, fmul(g2v, u)))) == (r1
        + r2 + bi * q) % pp) by {
        lemma_reduce(r1 + r2, bi * q);
    }
    lemma_poly_vlr(bi, g1i, g2i, dai, dbi, dsai, dsbi, ui);
}

/// `⟨a + s_a·u, b + s_b·u⟩ = ⟨a, b⟩ + (⟨a, s_b⟩ + ⟨b, s_a⟩)·u + ⟨s_a, s_b⟩·u²`.
proof fn lemma_dot_blend(a: Seq<nat>, sa: Seq<nat>, b: Seq<nat>, sb: Seq<nat>, u: nat, n: nat)
    requires
        n <= a.len() && a.len() == sa.len() && a.len() == b.len() && a.len() == sb.len(),
        forall|i: int| 0 <= i < a.len() ==> #[trigger] a[i] < field::p(),
        forall|i: int| 0 <= i < a.len() ==> #[trigger] sa[i] < field::p(),
        forall|i: int| 0 <= i < a.len() ==> #[trigger] b[i] < field::p(),
        forall|i: int| 0 <= i < a.len() ==> #[trigger] sb[i] < field::p(),
        u < field::p(),
    ensures
        dot_upto(blend(a, sa, u), blend(b, sb, u), n) == fadd(
            fadd(dot_upto(a, b, n), fmul(fadd(dot_upto(a, sb, n), dot_upto(b, sa, n)), u)),
            fmul(fmul(dot_upto(sa, sb, n), u), u),
        ),
    decreases n,
{
    field::lemma_p_facts();
    let ui = u as int;
    lemma_residue(u);
    if n == 0 {
        field::lemma_fmul_zero(u);
        field::lemma_fmul_zero(0);
    } else {
        let n1 = (n - 1) as nat;
        let i = n1 as int;
        lemma_dot_blend(a, sa, b, sb, u, n1);
        lemma_dot_bounded(a, b, n1);
        lemma_dot_bounded(a, sb, n1);
        lemma_dot_bounded(b, sa, n1);
        lemma_dot_bounded(sa, sb, n1);
        let (dab, das, dbs, dss) = (
            dot_upto(a, b, n1) as int,
            dot_upto(a, sb, n1) as int,
            dot_upto(b, sa, n1) as int,
            dot_upto(sa, sb, n1) as int,
        );
        lemma_residue(dot_upto(a, b, n1));
        lemma_residue(dot_upto(a, sb, n1));
        lemma_residue(dot_upto(b, sa, n1));
        lemma_residue(dot_upto(sa, sb, n1));
        let (ai, sai, bi, sbi) = (a[i] as int, sa[i] as int, b[i] as int, sb[i] as int);
        lemma_residue(a[i]);
        lemma_residue(sa[i]);
        lemma_residue(b[i]);
        lemma_residue(sb[i]);
        // the sum so far
        lemma_reduce(das, dbs);
        lemma_reduce(das + dbs, ui);
        lemma_reduce(dab, (das + dbs) * ui);
        lemma_reduce(dss, ui);
        lemma_reduce(dss * ui, ui);
        lemma_reduce(dab + (das + dbs) * ui, dss * ui * ui);
        let x0 = dab + (das + dbs) * ui + dss * ui * ui;
        // the new term
        lemma_reduce(ai, sai * ui);
        lemma_reduce(bi, sbi * ui);
        lemma_reduce(ai + sai * ui, bi + sbi * ui);
        let t = (ai + sai * ui) * (bi + sbi * ui);
        assert(blend(a, sa, u)[i] == fadd(a[i], fmul(sa[i], u)));
        assert(blend(b, sb, u)[i] == fadd(b[i], fmul(sb[i], u)));
        lemma_reduce(x0, t);
        // the new dot products
        lemma_reduce(dab, ai * bi);
        lemma_reduce(das, ai * sbi);
        lemma_reduce(dbs, bi * sai);
        lemma_reduce(dss, sai * sbi);
        let (nab, nas, nbs, nss) = (dab + ai * bi, das + ai * sbi, dbs + bi * sai, dss + sai * sbi);
        lemma_reduce(nas, nbs);
        lemma_reduce(nas + nbs, ui);
        lemma_reduce(nab, (nas + nbs) * ui);
        lemma_reduce(nss, ui);
        lemma_reduce(nss * ui, ui);
        lemma_reduce(nab + (nas + nbs) * ui, nss * ui * ui);
        lemma_poly_blend(dab, das, dbs, dss, ai, sai, bi, sbi, ui);
    }
}

/// `ct + lt·u + qt·u² = p_tu + p2·B` on the logarithms, for
/// `ct = d0·G' + h3·B`, `lt = d1·G' + h4·B`, `qt = d2·G' + h5·B` and
/// `t(u) = d0 + d1·u + d2·u²`.
proof fn lemma_vt_identity(
    g: (Seq<u64>, Seq<u64>, bool),
    gp: nat,
    beta: nat,
    d0: nat,
    d1: nat,
    d2: nat,
    h3: nat,
    h4: nat,
    h5: nat,
    u: nat,
)
    requires
        cyclic_generator(g),
        gp < field::p() && beta < field::p() && u < field::p(),
        d0 < field::p() && d1 < field::p() && d2 < field::p(),
        h3 < field::p() && h4 < field::p() && h5 < field::p(),
    ensures
        ({
            let hh0 = fadd(fmul(gp, d0), fmul(beta, h3));
            let hh1 = fadd(fmul(gp, d1), fmul(beta, h4));
            let hh2 = fadd(fmul(gp, d2), fmul(beta, h5));
            let t = fadd(fadd(d0, fmul(d1, u)), fmul(fmul(d2, u), u));
            let p2 = fadd(fadd(h3, fmul(h4, u)), fmul(fmul(h5, u), u));
            g1_sum(g1_sum(g1_times(g, hh0), g1_times(g1_times(g, hh1), u)), g1_times(g1_times(g1_times(g, hh2), u), u))
                == g1_sum(g1_times(g, fmul(gp, t)), g1_times(g1_times(g, beta), p2))
        }),
{
    field::lemma_p_facts();
    let hh0 = fadd(fmul(gp, d0), fmul(beta, h3));
    let hh1 = fadd(fmul(gp, d1), fmul(beta, h4));
    let hh2 = fadd(fmul(gp, d2), fmul(beta, h5));
    let t = fadd(fadd(d0, fmul(d1, u)), fmul(fmul(d2, u), u));
    let p2 = fadd(fadd(h3, fmul(h4, u)), fmul(fmul(h5, u), u));
    field::lemma_field_ops_bounded(fmul(gp, d0), fmul(beta, h3));
    field::lemma_field_ops_bounded(fmul(gp, d1), fmul(beta, h4));
    field::lemma_field_ops_bounded(fmul(gp, d2), fmul(beta, h5));
    field::lemma_field_ops_bounded(hh1, u);
    field::lemma_field_ops_bounded(hh2, u);
    field::lemma_field_ops_bounded(fmul(hh2, u), u);
    lemma_g1_times_multiple(g, hh1, u);
    lemma_g1_times_multiple(g, hh2, u);
    lemma_g1_times_multiple(g, fmul(hh2, u), u);
    lemma_g1_sum_multiples(g, hh0, fmul(hh1, u));
    field::lemma_field_ops_bounded(hh0, fmul(hh1, u));
    lemma_g1_sum_multiples(g, fadd(hh0, fmul(hh1, u)), fmul(fmul(hh2, u), u));
    field::lemma_field_ops_bounded(fadd(d0, fmul(d1, u)), fmul(fmul(d2, u), u));
    field::lemma_field_ops_bounded(fadd(h3, fmul(h4, u)), fmul(fmul(h5, u), u));
    field::lemma_field_ops_bounded(gp, t);
    field::lemma_field_ops_bounded(beta, p2);
    lemma_g1_times_multiple(g, beta, p2);
    lemma_g1_sum_multiples(g, fmul(gp, t), fmul(beta, p2));
    // the field identity
    let (gi, bi, ui) = (gp as int, beta as int, u as int);
    let (d0i, d1i, d2i, h3i, h4i, h5i) = (d0 as int, d1 as int, d2 as int, h3 as int, h4 as int, h5 as int);
    lemma_residue(u);
    lemma_residue(d0);
    lemma_residue(h3);
    lemma_residue(gp);
    lemma_residue(beta);
    lemma_reduce(gi * d0i, bi * h3i);
    lemma_reduce(gi * d1i, bi * h4i);
    lemma_reduce(gi * d2i, bi * h5i);
    let (e0, e1, e2) = (gi * d0i + bi * h3i, gi * d1i + bi * h4i, gi * d2i + bi * h5i);
    lemma_reduce(e1, ui);
    lemma_reduce(e2, ui);
    lemma_reduce(e2 * ui, ui);
    lemma_reduce(e0, e1 * ui);
    lemma_reduce(e0 + e1 * ui, e2 * ui * ui);
    lemma_reduce(d1i, ui);
    lemma_reduce(d0i, d1i * ui);
    lemma_reduce(d2i, ui);
    lemma_reduce(d2i * ui, ui);
    lemma_reduce(d0i + d1i * ui, d2i * ui * ui);
    lemma_reduce(h4i, ui);
    lemma_reduce(h3i, h4i * ui);
    lemma_reduce(h5i, ui);
    lemma_reduce(h5i * ui, ui);
    lemma_reduce(h3i + h4i * ui, h5i * ui * ui);
    let tt = d0i + d1i * ui + d2i * ui * ui;
    let pp = h3i + h4i * ui + h5i * ui * ui;
    lemma_reduce(gi, tt);
    lemma_reduce(bi, pp);
    lemma_reduce(gi * tt, bi * pp);
    lemma_poly_vt(gi, bi, d0i, d1i, d2i, h3i, h4i, h5i, ui);
}

/// `(x + q + t) - q = x + t` in the field.
proof fn lemma_claim_identity(x: nat, q: nat, t: nat)
    requires
        x < field::p() && q < field::p() && t < field::p(),
    ensures
        fsub(fadd(fadd(x, q), t), q) == fadd(x, t),
{
    field::lemma_p_facts();
    let m = field::p() as int;
    lemma_residue(x);
    lemma_residue(q);
    lemma_residue(t);
    lemma_reduce((x + q) as int, t as int);
    lemma_reduce(x as int, q as int);
    vstd::arithmetic::div_mod::lemma_sub_mod_noop((x + q + t) as int, q as int, m);
    assert(x + q + t - q == x + t);
}

/// A dot product with zeros is zero.
proof fn lemma_dot_zero(x: Seq<nat>, y: Seq<nat>, j: nat)
    requires
        forall|i: int| 0 <= i < j ==> #[trigger] y[i] == 0,
    ensures
        dot_upto(x, y, j) == 0,
    decreases j,
{
    field::lemma_p_facts();
    if j > 0 {
        lemma_dot_zero(x, y, (j - 1) as nat);
        field::lemma_fmul_zero(x[j - 1]);
        assert(y[j - 1] == 0);
    }
}

/// The prover's claim for the halving argument, `⟨a(u) ‖ b(u) ‖ t(u), G ‖ H ‖ G'⟩`
/// padded with zeros, is the multiple of `g` by `⟨a(u), k_G⟩ + ⟨b(u), k_H⟩ + γ'·t(u)`.
proof fn lemma_basis_claim(
    g: (Seq<u64>, Seq<u64>, bool),
    gp: nat,
    kg: Seq<nat>,
    au: Seq<nat>,
    bu: Seq<nat>,
    tu: nat,
    n: nat,
)
    requires
        cyclic_generator(g),
        gp < field::p(),
        blinding_point(0) == g1_times(g, gp),
        kg.len() == 2 * n,
        forall|i: int|
            0 <= i < 2 * n ==> #[trigger] kg[i] < field::p() && blinding_point((2 + i) as u64) == g1_times(g, kg[i]),
        au.len() == n && bu.len() == n,
        forall|i: int| 0 <= i < n ==> #[trigger] au[i] < field::p(),
        forall|i: int| 0 <= i < n ==> #[trigger] bu[i] < field::p(),
        tu < field::p(),
        ipa_len_ok(n),
    ensures
        msm(ipa_basis(n, ipa_width(n)), ipa_vector(au, bu, tu, ipa_width(n))) == g1_times(
            g,
            fadd(fadd(dot_upto(kg, au, n), dot_upto(kg.skip(n as int), bu, n)), fmul(gp, tu)),
        ),
{
    field::lemma_p_facts();
    let w = ipa_width(n);
    crate::mle::lemma_ceil_log2(2 * n + 1);
    assert(w >= 2 * n + 1);
    let z = (w - 2 * n - 1) as nat;
    let bs = ipa_basis(n, w);
    let vs = ipa_vector(au, bu, tu, w);
    assert(bs.len() == w && vs.len() == w);
    let kb = Seq::new(w, |i: int| if i < 2 * n { kg[i] } else if i == 2 * n { gp } else { 0nat });
    lemma_g1_multiple_in(g, 0);
    assert forall|i: int| 0 <= i < w implies #[trigger] kb[i] < field::p() && bs[i] == g1_times(g, kb[i]) by {
        if i < 2 * n {
            assert(bs[i] == generator_run(2, 2 * n)[i]);
        } else if i == 2 * n {
        } else {
            assert(bs[i] == g1_identity());
        }
    }
    assert forall|i: int| 0 <= i < w implies #[trigger] vs[i] < field::p() by {
        if i < n {
            assert(vs[i] == au[i]);
        } else if i < 2 * n {
            assert(vs[i] == bu[i - n]);
        } else if i == 2 * n {
        } else {
            assert(vs[i] == 0);
        }
    }
    lemma_msm_multiple(g, bs, kb, vs, w);
    assert(msm(bs, vs) == msm_upto(bs, vs, w));
    // split off the zeros, then t(u), then b(u)
    let h = (2 * n + 1) as int;
    lemma_dot_split(kb, vs, (2 * n + 1) as nat, z);
    assert forall|i: int| 0 <= i < z implies #[trigger] vs.skip(h)[i] == 0 by {
        assert(vs.skip(h)[i] == vs[h + i]);
    }
    lemma_dot_zero(kb.skip(h), vs.skip(h), z);
    lemma_dot_bounded(kb, vs, (2 * n + 1) as nat);
    field::lemma_fadd_zero(dot_upto(kb, vs, (2 * n + 1) as nat));
    assert(kb[h - 1] == gp && vs[h - 1] == tu);
    assert(dot_upto(kb, vs, (2 * n + 1) as nat) == fadd(dot_upto(kb, vs, 2 * n), fmul(gp, tu)));
    lemma_dot_split(kb, vs, n, n);
    assert forall|i: int| 0 <= i < n implies #[trigger] kb[i] == kg[i] && vs[i] == au[i] by {}
    lemma_dot_agree(kb, vs, kg, au, n);
    assert forall|i: int| 0 <= i < n implies #[trigger] kb.skip(n as int)[i] == kg.skip(n as int)[i]
        && vs.skip(n as int)[i] == bu[i] by {
        assert(vs[n + i] == bu[i]);
    }
    lemma_dot_agree(kb.skip(n as int), vs.skip(n as int), kg.skip(n as int), bu, n);
}

/// The ring identity behind `lemma_vlr_identity`.
proof fn lemma_poly_vlr(b: int, g1: int, g2: int, da: int, db: int, dsa: int, dsb: int, u: int)
    by (nonlinear_arith)
    ensures
        (b * g1 + da + db) + (b * g2 + dsa + dsb) * u == da + dsa * u + (db + dsb * u) + b * (g1 + g2 * u),
{
}

/// The ring identity behind `lemma_dot_blend`.
proof fn lemma_poly_blend(dab: int, das: int, dbs: int, dss: int, a: int, sa: int, b: int, sb: int, u: int)
    ensures
        (dab + (das + dbs) * u + dss * u * u) + (a + sa * u) * (b + sb * u) == (dab + a * b) + ((das + a * sb) + (
        dbs + b * sa)) * u + (dss + sa * sb) * u * u,
{
    assert((a + sa * u) * (b + sb * u) == a * b + a * (sb * u) + (sa * u) * b + (sa * u) * (sb * u)) by (nonlinear_arith);
    assert(a * (sb * u) == (a * sb) * u) by (nonlinear_arith);
    assert((sa * u) * b == (b * sa) * u) by (nonlinear_arith);
    assert((sa * u) * (sb * u) == (sa * sb) * u * u) by (nonlinear_arith);
    assert(((das + a * sb) + (dbs + b * sa)) * u == das * u + (a * sb) * u + dbs * u + (b * sa) * u) by (nonlinear_arith);
    assert((dss + sa * sb) * u * u == dss * u * u + (sa * sb) * u * u) by (nonlinear_arith);
    assert((das + dbs) * u == das * u + dbs * u) by (nonlinear_arith);
}

/// The ring identity behind `lemma_vt_identity`.
proof fn lemma_poly_vt(gp: int, b: int, d0: int, d1: int, d2: int, h3: int, h4: int, h5: int, u: int)
    ensures
        (gp * d0 + b * h3) + (gp * d1 + b * h4) * u + (gp * d2 + b * h5) * u * u == gp * (d0 + d1 * u + d2 * u * u)
            + b * (h3 + h4 * u + h5 * u * u),
{
    assert((gp * d1 + b * h4) * u == (gp * d1) * u + (b * h4) * u) by (nonlinear_arith);
    assert((gp * d2 + b * h5) * u * u == (gp * d2) * u * u + (b * h5) * u * u) by (nonlinear_arith);
    assert(gp * (d0 + d1 * u + d2 * u * u) == gp * d0 + gp * (d1 * u) + gp * (d2 * u * u)) by (nonlinear_arith);
    assert(b * (h3 + h4 * u + h5 * u * u) == b * h3 + b * (h4 * u) + b * (h5 * u * u)) by (nonlinear_arith);
    assert((gp * d1) * u == gp * (d1 * u)) by (nonlinear_arith);
    assert((gp * d2) * u * u == gp * (d2 * u * u)) by (nonlinear_arith);
    assert((b * h4) * u == b * (h4 * u)) by (nonlinear_arith);
    assert((b * h5) * u * u == b * (h5 * u * u)) by (nonlinear_arith);
}

} // verus!
