//! Spartan, naively: R1CS satisfiability reduced to two sum-checks.
//!
//! The instance and witness are padded to powers of two; the first sum-check
//! proves `∑_x eq(τ, x)·(Az̃(x)·Bz̃(x) - Cz̃(x)) = 0` for a random `τ`, and
//! its final oracle query is answered with values `v_A, v_B, v_C` that a
//! second sum-check, over the columns, confirms.
use crate::field::{self, Fe};
use crate::mle::{self, MultilinearExtension};
use crate::r1cs::{self, Matrix, R1CS};
use crate::univariate;
use crate::poly;
use crate::sumcheck::{self, run_sum_check_with_oracle, SumCheckProver, SumCheckVerifier};
use vstd::prelude::*;

verus! {

/// `∏_{i<n} eq(x[i], y[i])`, multiplied from the front.
pub open spec fn eq_prod(x: Seq<nat>, y: Seq<nat>, n: nat) -> nat
    decreases n,
{
    if n == 0 {
        1
    } else {
        field::fmul(eq_prod(x, y, (n - 1) as nat), mle::eq_spec(x[n - 1], y[n - 1]))
    }
}

/// Vertex `i` of `{0,1}^k`, first coordinate most significant.
pub open spec fn msb_point(i: nat, k: nat) -> Seq<nat> {
    sumcheck::lsb_point(i, k).reverse()
}

/// The multilinear equality polynomial of two points.
fn eq(x: &[Fe], y: &[Fe]) -> (r: Fe)
    requires
        x.len() == y.len(),
    ensures
        r@ == eq_prod(field::fe_vals(x@), field::fe_vals(y@), x.len() as nat),
{
    let mut acc = Fe::one();
    let mut i: usize = 0;
    while i < x.len()
        invariant
            x.len() == y.len(),
            i <= x.len(),
            acc@ == eq_prod(field::fe_vals(x@), field::fe_vals(y@), i as nat),
        decreases x.len() - i,
    {
        let e = MultilinearExtension::eq(x[i], y[i]);
        acc = acc.mul(&e);
        i = i + 1;
    }
    acc
}

/// Vertex `i` of `{0,1}^k` as field elements, first coordinate most
/// significant.
fn idx_to_point(i: usize, k: u32) -> (r: Vec<Fe>)
    requires
        k < 64,
    ensures
        field::fe_vals(r@) == msb_point(i as nat, k as nat),
        r.len() == k,
{
    let bits = sumcheck::bits_of(i as u64, k as usize);
    let r = sumcheck::reversed(&bits);
    proof {
        assert(field::fe_vals(r@) =~= field::fe_vals(bits@).reverse());
    }
    r
}

/// `v[..io+1] ++ 0^iopad ++ v[io+1..] ++ 0^wpad`.
pub open spec fn pad_spec(v: Seq<nat>, io: nat, iopad: nat, wpad: nat) -> Seq<nat> {
    v.subrange(0, (io + 1) as int) + Seq::new(iopad, |i: int| 0nat) + v.subrange((io + 1) as int, v.len() as int)
        + Seq::new(wpad, |i: int| 0nat)
}

/// Inserts `iopad` zeros after the public part `v[..io+1]` and `wpad` zeros
/// at the end.
fn pad(v: &Vec<Fe>, io: usize, iopad: usize, wpad: usize) -> (r: Vec<Fe>)
    requires
        v.len() >= io + 1,
        v.len() + iopad + wpad <= usize::MAX,
    ensures
        field::fe_vals(r@) == pad_spec(field::fe_vals(v@), io as nat, iopad as nat, wpad as nat),
        r.len() == v.len() + iopad + wpad,
{
    let ghost target = pad_spec(field::fe_vals(v@), io as nat, iopad as nat, wpad as nat);
    let mut out: Vec<Fe> = Vec::new();
    let mut i: usize = 0;
    while i < io + 1
        invariant
            v.len() >= io + 1,
            i <= io + 1,
            out.len() == i,
            target == pad_spec(field::fe_vals(v@), io as nat, iopad as nat, wpad as nat),
            forall|t: int| 0 <= t < out.len() ==> #[trigger] out@[t]@ == target[t],
        decreases io + 1 - i,
    {
        out.push(v[i]);
        i = i + 1;
    }
    let mut i: usize = 0;
    while i < iopad
        invariant
            v.len() >= io + 1,
            i <= iopad,
            out.len() == io + 1 + i,
            target == pad_spec(field::fe_vals(v@), io as nat, iopad as nat, wpad as nat),
            forall|t: int| 0 <= t < out.len() ==> #[trigger] out@[t]@ == target[t],
        decreases iopad - i,
    {
        proof {
            let fv = field::fe_vals(v@);
            let a = fv.subrange(0, (io + 1) as int) + Seq::new(iopad as nat, |j: int| 0nat);
            assert(target == (a + fv.subrange((io + 1) as int, v.len() as int)) + Seq::new(
                wpad as nat,
                |j: int| 0nat,
            ));
            assert(a[(io + 1 + i) as int] == 0);
            assert(target[(io + 1 + i) as int] == 0);
        }
        out.push(Fe::zero());
        i = i + 1;
    }
    let mut i: usize = io + 1;
    while i < v.len()
        invariant
            v.len() >= io + 1,
            v.len() + iopad + wpad <= usize::MAX,
            io + 1 <= i <= v.len(),
            out.len() == iopad + i,
            target == pad_spec(field::fe_vals(v@), io as nat, iopad as nat, wpad as nat),
            forall|t: int| 0 <= t < out.len() ==> #[trigger] out@[t]@ == target[t],
        decreases v.len() - i,
    {
        proof {
            let fv = field::fe_vals(v@);
            let a = fv.subrange(0, (io + 1) as int) + Seq::new(iopad as nat, |j: int| 0nat);
            let b = fv.subrange((io + 1) as int, v.len() as int);
            assert(target == (a + b) + Seq::new(wpad as nat, |j: int| 0nat));
            assert((a + b)[(iopad + i) as int] == b[i - (io + 1)]);
            assert(target[(iopad + i) as int] == fv[i as int]);
        }
        out.push(v[i]);
        i = i + 1;
    }
    let mut i: usize = 0;
    while i < wpad
        invariant
            v.len() >= io + 1,
            v.len() + iopad + wpad <= usize::MAX,
            i <= wpad,
            out.len() == v.len() + iopad + i,
            target == pad_spec(field::fe_vals(v@), io as nat, iopad as nat, wpad as nat),
            forall|t: int| 0 <= t < out.len() ==> #[trigger] out@[t]@ == target[t],
        decreases wpad - i,
    {
        proof {
            let fv = field::fe_vals(v@);
            let a = fv.subrange(0, (io + 1) as int) + Seq::new(iopad as nat, |j: int| 0nat)
                + fv.subrange((io + 1) as int, v.len() as int);
            assert(target == a + Seq::new(wpad as nat, |j: int| 0nat));
            assert(a.len() == v.len() + iopad);
            assert(target[(v.len() + iopad + i) as int] == 0);
        }
        out.push(Fe::zero());
        i = i + 1;
    }
    proof {
        assert(field::fe_vals(out@) =~= target);
    }
    out
}

/// `M·z`: each row dotted with `z` over the row's own length.
pub open spec fn mat_vec(m: Seq<Seq<nat>>, z: Seq<nat>) -> Seq<nat> {
    Seq::new(m.len(), |i: int| r1cs::dot_spec(m[i], z))
}

/// The hypercube weights `eq(rx, i)` of the rows, first coordinate most
/// significant.
pub open spec fn row_weights(rx: Seq<nat>, rows: nat) -> Seq<nat> {
    Seq::new(rows, |i: int| eq_prod(rx, msb_point(i as nat, rx.len()), rx.len()))
}

/// `∑_{i<n} m[i][j]·w[i]`, skipping rows too short to have column `j`.
pub open spec fn col_weighted(m: Seq<Seq<nat>>, w: Seq<nat>, j: int, n: nat) -> nat
    decreases n,
{
    if n == 0 {
        0
    } else if j < m[n - 1].len() {
        field::fadd(col_weighted(m, w, j, (n - 1) as nat), field::fmul(m[n - 1][j], w[n - 1]))
    } else {
        col_weighted(m, w, j, (n - 1) as nat)
    }
}

/// The table of `M(rx, ·)`: column `j` weighted by the rows' hypercube
/// weights at `rx`, as wide as the first row.
pub open spec fn mat_at_row_point(m: Seq<Seq<nat>>, rx: Seq<nat>) -> Seq<nat> {
    Seq::new(m[0].len(), |j: int| col_weighted(m, row_weights(rx, m.len()), j, m.len()))
}

/// The summand of the first sum-check:
/// `(Az̃(x)·Bz̃(x) - Cz̃(x))·eq(x, τ)`.
pub open spec fn outer_term(az: Seq<nat>, bz: Seq<nat>, cz: Seq<nat>, tau: Seq<nat>, x: Seq<nat>) -> nat {
    field::fmul(
        field::fsub(
            field::fmul(mle::mle_eval(az, x), mle::mle_eval(bz, x)),
            mle::mle_eval(cz, x),
        ),
        eq_prod(x, tau, x.len()),
    )
}

/// The summand of the second sum-check:
/// `(r_A·Ã(rx, y) + r_B·B̃(rx, y) + r_C·C̃(rx, y))·z̃(y)`.
pub open spec fn inner_term(
    ma: Seq<nat>,
    mb: Seq<nat>,
    mc: Seq<nat>,
    z: Seq<nat>,
    ra: nat,
    rb: nat,
    rc: nat,
    y: Seq<nat>,
) -> nat {
    field::fmul(
        field::fadd(
            field::fadd(field::fmul(ra, mle::mle_eval(ma, y)), field::fmul(rb, mle::mle_eval(mb, y))),
            field::fmul(rc, mle::mle_eval(mc, y)),
        ),
        mle::mle_eval(z, y),
    )
}

/// `r_A·v_A + r_B·v_B + r_C·v_C` equals the second sum-check's sum over
/// `{0,1}^k` for the tables `ta, tb, tc` of `A(rx, ·)`, `B(rx, ·)`,
/// `C(rx, ·)` and the witness `z`.
pub open spec fn combined_claim(
    va: nat,
    vb: nat,
    vc: nat,
    ta: Seq<nat>,
    tb: Seq<nat>,
    tc: Seq<nat>,
    z: Seq<nat>,
    k: nat,
    ra: nat,
    rb: nat,
    rc: nat,
) -> bool {
    field::fadd(field::fadd(field::fmul(va, ra), field::fmul(vb, rb)), field::fmul(vc, rc))
        == sumcheck::fsum(
        sumcheck::hypercube(k).map_values(|y: Seq<nat>| inner_term(ta, tb, tc, z, ra, rb, rc, y)),
    )
}


/// The multilinear extension of `M·z`.
fn build_mle(x: &Matrix, z: &Vec<Fe>) -> (r: MultilinearExtension)
    requires
        mle::is_pow2(x.len() as nat),
        forall|i: int| 0 <= i < x.len() ==> #[trigger] x@[i].len() <= z.len(),
    ensures
        r.wf(),
        field::fe_vals(r.f@) == mat_vec(r1cs::mat_view(x@), field::fe_vals(z@)),
{
    let ghost xv = r1cs::mat_view(x@);
    let ghost zv = field::fe_vals(z@);
    let mut f: Vec<Fe> = Vec::new();
    let mut i: usize = 0;
    while i < x.len()
        invariant
            xv == r1cs::mat_view(x@),
            zv == field::fe_vals(z@),
            forall|t: int| 0 <= t < x.len() ==> #[trigger] x@[t].len() <= z.len(),
            i <= x.len(),
            f.len() == i,
            forall|t: int| 0 <= t < i ==> #[trigger] f@[t]@ == r1cs::dot_spec(xv[t], zv),
        decreases x.len() - i,
    {
        let d = r1cs::dot(&x[i], z);
        f.push(d);
        i = i + 1;
    }
    proof {
        assert(field::fe_vals(f@) =~= mat_vec(xv, zv));
    }
    MultilinearExtension::new(f)
}

/// The multilinear extension of `M(rx, ·)`: every row weighted by its
/// hypercube weight at `rx` and added up column by column.
fn build_col_mle(x: &Matrix, rx: &[Fe], k: u32) -> (r: MultilinearExtension)
    requires
        x.len() > 0,
        k < 64,
        rx.len() == k,
        mle::is_pow2(x@[0].len() as nat),
        forall|i: int| 0 <= i < x.len() ==> #[trigger] x@[i].len() <= x@[0].len(),
    ensures
        r.wf(),
        field::fe_vals(r.f@) == mat_at_row_point(r1cs::mat_view(x@), field::fe_vals(rx@)),
{
    let ghost xv = r1cs::mat_view(x@);
    let ghost rv = field::fe_vals(rx@);
    let ghost w = row_weights(rv, x.len() as nat);
    let width = x[0].len();
    let mut f: Vec<Fe> = Vec::new();
    let mut j: usize = 0;
    while j < width
        invariant
            width == x@[0].len(),
            j <= width,
            f.len() == j,
            forall|t: int| 0 <= t < j ==> #[trigger] f@[t]@ == 0,
        decreases width - j,
    {
        f.push(Fe::zero());
        j = j + 1;
    }
    let mut i: usize = 0;
    while i < x.len()
        invariant
            xv == r1cs::mat_view(x@),
            rv == field::fe_vals(rx@),
            w == row_weights(rv, x.len() as nat),
            k < 64,
            rx.len() == k,
            width == x@[0].len(),
            forall|t: int| 0 <= t < x.len() ==> #[trigger] x@[t].len() <= width,
            i <= x.len(),
            f.len() == width,
            forall|t: int| 0 <= t < width ==> #[trigger] f@[t]@ == col_weighted(xv, w, t, i as nat),
        decreases x.len() - i,
    {
        let pt = idx_to_point(i, k);
        let wi = eq(rx, pt.as_slice());
        proof {
            assert(wi@ == w[i as int]);
        }
        let row_len = x[i].len();
        let mut j: usize = 0;
        while j < row_len
            invariant
                xv == r1cs::mat_view(x@),
                w == row_weights(rv, x.len() as nat),
                i < x.len(),
                row_len == x@[i as int].len(),
                row_len <= width,
                wi@ == w[i as int],
                j <= row_len,
                f.len() == width,
                forall|t: int|
                    0 <= t < width ==> #[trigger] f@[t]@ == (if t < j {
                        col_weighted(xv, w, t, (i + 1) as nat)
                    } else {
                        col_weighted(xv, w, t, i as nat)
                    }),
            decreases row_len - j,
        {
            let prod = x[i][j].mul(&wi);
            let s = f[j].add(&prod);
            f.set(j, s);
            j = j + 1;
        }
        i = i + 1;
    }
    proof {
        assert(field::fe_vals(f@) =~= mat_at_row_point(xv, rv));
        assert(mle::pow2(choose|k: nat| mle::pow2(k) == width as nat) == f.len());
    }
    MultilinearExtension::new(f)
}

/// A copy of `v[lo..hi]`.
fn copy_range(v: &[Fe], lo: usize, hi: usize) -> (r: Vec<Fe>)
    requires
        lo <= hi <= v.len(),
    ensures
        r@ == v@.subrange(lo as int, hi as int),
{
    let mut out: Vec<Fe> = Vec::new();
    let mut i: usize = lo;
    while i < hi
        invariant
            lo <= i <= hi <= v.len(),
            out@ == v@.subrange(lo as int, i as int),
        decreases hi - i,
    {
        proof {
            assert(v@.subrange(lo as int, (i + 1) as int) =~= v@.subrange(lo as int, i as int).push(v@[i as int]));
        }
        out.push(v[i]);
        i = i + 1;
    }
    out
}

/// `z̃(ry)` computed from its public half (first half of `z`) and private
/// half, selected by the first coordinate:
/// `ry[0]·private~(ry[1..]) + (1 - ry[0])·public~(ry[1..])`.
pub open spec fn split_eval(z: Seq<nat>, ry: Seq<nat>) -> nat {
    let h = z.len() / 2;
    let tail = ry.subrange(1, ry.len() as int);
    field::fadd(
        field::fmul(ry[0], mle::mle_eval(z.subrange(h as int, z.len() as int), tail)),
        field::fmul(field::fsub(1, ry[0]), mle::mle_eval(z.subrange(0, h as int), tail)),
    )
}

/// `z̃(ry)` from the two halves of `z`, as `split_eval` states it.
fn split_witness_eval(witness: &Vec<Fe>, ry: &[Fe]) -> (r: Fe)
    requires
        0 < ry.len() < 31,
        witness.len() == mle::pow2(ry.len() as nat),
    ensures
        r@ == split_eval(field::fe_vals(witness@), field::fe_vals(ry@)),
{
    let k = ry.len();
    let n = witness.len();
    proof {
        lemma_pow2_half(k as nat);
    }
    let public_part = copy_range(witness.as_slice(), 0, n / 2);
    let private_part = copy_range(witness.as_slice(), n / 2, n);
    let public_mle = MultilinearExtension::new(public_part);
    let private_mle = MultilinearExtension::new(private_part);
    let tail = copy_range(ry, 1, ry.len());
    proof {
        let km1 = (k - 1) as nat;
        lemma_pow2_injective(public_mle.k as nat, km1);
        lemma_pow2_injective(private_mle.k as nat, km1);
        assert(field::fe_vals(public_part@) =~= field::fe_vals(witness@).subrange(0, (n / 2) as int));
        assert(field::fe_vals(private_part@) =~= field::fe_vals(witness@).subrange((n / 2) as int, n as int));
        assert(field::fe_vals(tail@) =~= field::fe_vals(ry@).subrange(1, ry.len() as int));
    }
    let pe = private_mle.evaluate(tail.as_slice());
    let pu = public_mle.evaluate(tail.as_slice());
    let one = Fe::one();
    let rhs = ry[0].mul(&pe).add(&one.sub(&ry[0]).mul(&pu));
    rhs
}

/// The shapes that the second sum-check needs, after padding: `2^k` square
/// constraint matrices (rows no wider than the first), and a witness of
/// `2^k` entries.
pub open spec fn step2_ok(
    k: nat,
    a: Seq<Seq<nat>>,
    b: Seq<Seq<nat>>,
    c: Seq<Seq<nat>>,
    w: nat,
) -> bool {
    &&& 0 < k < 31
    &&& a.len() == mle::pow2(k) && b.len() == mle::pow2(k) && c.len() == mle::pow2(k)
    &&& w == mle::pow2(k)
    &&& a[0].len() == w && b[0].len() == w && c[0].len() == w
    &&& r1cs::rows_at_least(a, 0)
    &&& forall|i: int| 0 <= i < a.len() ==> #[trigger] a[i].len() <= w
    &&& forall|i: int| 0 <= i < b.len() ==> #[trigger] b[i].len() <= w
    &&& forall|i: int| 0 <= i < c.len() ==> #[trigger] c[i].len() <= w
}

proof fn lemma_pow2_half(k: nat)
    requires
        k > 0,
    ensures
        mle::pow2(k) / 2 == mle::pow2((k - 1) as nat),
        mle::pow2(k) - mle::pow2(k) / 2 == mle::pow2((k - 1) as nat),
{
    vstd::arithmetic::power2::lemma_pow2_unfold(k);
}

proof fn lemma_pow2_injective(a: nat, b: nat)
    requires
        mle::pow2(a) == mle::pow2(b),
    ensures
        a == b,
{
    if a < b {
        vstd::arithmetic::power2::lemma_pow2_strictly_increases(a, b);
    } else if b < a {
        vstd::arithmetic::power2::lemma_pow2_strictly_increases(b, a);
    }
}

proof fn lemma_pow2_mono(a: nat, b: nat)
    requires
        a <= b,
    ensures
        mle::pow2(a) <= mle::pow2(b),
{
    if a < b {
        vstd::arithmetic::power2::lemma_pow2_strictly_increases(a, b);
    }
}

/// Widths read through `mat_view` are the rows' own lengths.
proof fn lemma_rows_no_wider(x: &Matrix)
    requires
        x.len() > 0,
        forall|i: int| 0 <= i < x.len() ==> #[trigger] r1cs::mat_view(x@)[i].len() <= r1cs::mat_view(x@)[0].len(),
    ensures
        forall|i: int| 0 <= i < x.len() ==> #[trigger] x@[i].len() <= x@[0].len(),
        r1cs::mat_view(x@)[0].len() == x@[0].len(),
{
    assert forall|i: int| 0 <= i < x.len() implies #[trigger] x@[i].len() <= x@[0].len() by {
        assert(r1cs::mat_view(x@)[i].len() == x@[i].len());
    }
}

/// A sum over `{0,1}^k` of a function that computes `inner_term`, found
/// equal to `r_A·v_A + r_B·v_B + r_C·v_C`, is a `combined_claim`.
proof fn lemma_step2_claim<F: Fn(&[Fe]) -> Fe>(
    f: F,
    ta: Seq<nat>,
    tb: Seq<nat>,
    tc: Seq<nat>,
    z: Seq<nat>,
    k: nat,
    ra: nat,
    rb: nat,
    rc: nat,
    va: nat,
    vb: nat,
    vc: nat,
    total: nat,
)
    requires
        forall|s: &[Fe], v: Fe| #[trigger] call_ensures(f, (s,), v) ==> v@ == inner_term(ta, tb, tc, z, ra, rb, rc, field::fe_vals(s@)),
        sumcheck::sums_over(f, sumcheck::hypercube(k), total),
        total == field::fadd(field::fadd(field::fmul(va, ra), field::fmul(vb, rb)), field::fmul(vc, rc)),
    ensures
        combined_claim(va, vb, vc, ta, tb, tc, z, k, ra, rb, rc),
{
    let g = |y: Seq<nat>| inner_term(ta, tb, tc, z, ra, rb, rc, y);
    assert forall|s: &[Fe], v: Fe| #[trigger] call_ensures(f, (s,), v) implies v@ == g(field::fe_vals(s@)) by {}
    sumcheck::lemma_sums_over_function(f, g, sumcheck::hypercube(k), total);
}

/// The second sum-check: it confirms the claimed evaluations
/// `v_A = Az̃(rx)`, `v_B`, `v_C` through a random combination
/// `r_A·v_A + r_B·v_B + r_C·v_C = ∑_y (r_A·Ã(rx, y) + ...)·z̃(y)`. Returns the
/// three evaluations and whether the check held; with the true evaluations
/// and an honest prover it always holds.
fn spartan_naive_step2(
    rx: &[Fe],
    r1cs: R1CS,
    maz: MultilinearExtension,
    mbz: MultilinearExtension,
    mcz: MultilinearExtension,
    witness: Vec<Fe>,
) -> (r: (Fe, Fe, Fe, bool))
    requires
        step2_ok(
            rx.len() as nat,
            r1cs::mat_view(r1cs.a@),
            r1cs::mat_view(r1cs.b@),
            r1cs::mat_view(r1cs.c@),
            witness.len() as nat,
        ),
        maz.wf() && mbz.wf() && mcz.wf(),
        maz.k == rx.len() && mbz.k == rx.len() && mcz.k == rx.len(),
        field::fe_vals(maz.f@) == mat_vec(r1cs::mat_view(r1cs.a@), field::fe_vals(witness@)),
        field::fe_vals(mbz.f@) == mat_vec(r1cs::mat_view(r1cs.b@), field::fe_vals(witness@)),
        field::fe_vals(mcz.f@) == mat_vec(r1cs::mat_view(r1cs.c@), field::fe_vals(witness@)),
    ensures
        r.3,
        r.0@ == mle::mle_eval(field::fe_vals(maz.f@), field::fe_vals(rx@)),
        r.1@ == mle::mle_eval(field::fe_vals(mbz.f@), field::fe_vals(rx@)),
        r.2@ == mle::mle_eval(field::fe_vals(mcz.f@), field::fe_vals(rx@)),
        r.3 ==> exists|ra: nat, rb: nat, rc: nat|
            #[trigger] combined_claim(
                r.0@,
                r.1@,
                r.2@,
                mat_at_row_point(r1cs::mat_view(r1cs.a@), field::fe_vals(rx@)),
                mat_at_row_point(r1cs::mat_view(r1cs.b@), field::fe_vals(rx@)),
                mat_at_row_point(r1cs::mat_view(r1cs.c@), field::fe_vals(rx@)),
                field::fe_vals(witness@),
                rx.len() as nat,
                ra,
                rb,
                rc,
            ),
{
    let va = maz.evaluate(rx);
    let vb = mbz.evaluate(rx);
    let vc = mcz.evaluate(rx);
    let mut rng = field::thread_rng();
    let ra = field::random_element(&mut rng);
    let rb = field::random_element(&mut rng);
    let rc = field::random_element(&mut rng);
    let k = mle::log2_exact(r1cs.a.len());
    proof {
        if k != rx.len() {
            if k < rx.len() {
                vstd::arithmetic::power2::lemma_pow2_strictly_increases(k as nat, rx.len() as nat);
            } else {
                vstd::arithmetic::power2::lemma_pow2_strictly_increases(rx.len() as nat, k as nat);
            }
        }
        assert(k == rx.len());
    }
    let ghost rxv = field::fe_vals(rx@);
    let ghost ta = mat_at_row_point(r1cs::mat_view(r1cs.a@), rxv);
    let ghost tb = mat_at_row_point(r1cs::mat_view(r1cs.b@), rxv);
    let ghost tc = mat_at_row_point(r1cs::mat_view(r1cs.c@), rxv);
    let ghost zv = field::fe_vals(witness@);
    proof {
        vstd::arithmetic::power2::lemma_pow2_pos(k as nat);
        lemma_rows_no_wider(&r1cs.a);
        lemma_rows_no_wider(&r1cs.b);
        lemma_rows_no_wider(&r1cs.c);
    }
    let ma = build_col_mle(&r1cs.a, rx, k as u32);
    let mb = build_col_mle(&r1cs.b, rx, k as u32);
    let mc = build_col_mle(&r1cs.c, rx, k as u32);
    let mz = MultilinearExtension::new(witness.clone());
    proof {
        assert(field::fe_vals(ma.f@).len() == ma.f@.len());
        assert(field::fe_vals(mb.f@).len() == mb.f@.len());
        assert(field::fe_vals(mc.f@).len() == mc.f@.len());
        lemma_pow2_injective(ma.k as nat, k as nat);
        lemma_pow2_injective(mb.k as nat, k as nat);
        lemma_pow2_injective(mc.k as nat, k as nat);
        lemma_pow2_injective(mz.k as nat, k as nat);
    }
    let pma = ma.duplicate();
    let pmb = mb.duplicate();
    let pmc = mc.duplicate();
    let ghost fa = field::fe_vals(ma.f@);
    let ghost fb = field::fe_vals(mb.f@);
    let ghost fc = field::fe_vals(mc.f@);
    let prover_evaluator = move |point: &[Fe]| -> (v: Fe)
        requires
            pma.wf() && pmb.wf() && pmc.wf() && mz.wf(),
            pma.k == k && pmb.k == k && pmc.k == k && mz.k == k,
            point.len() == k,
        ensures
            v@ == inner_term(
                field::fe_vals(pma.f@),
                field::fe_vals(pmb.f@),
                field::fe_vals(pmc.f@),
                field::fe_vals(mz.f@),
                ra@,
                rb@,
                rc@,
                field::fe_vals(point@),
            ),
        {
            let ea = ra.mul(&pma.evaluate(point));
            let eb = rb.mul(&pmb.evaluate(point));
            let ec = rc.mul(&pmc.evaluate(point));
            let lhs = ea.add(&eb).add(&ec);
            lhs.mul(&mz.evaluate(point))
        };
    let prover = SumCheckProver::new(Box::new(prover_evaluator), k, 2);
    let verifier_oracle = move |ry: &[Fe]| -> (v: Fe)
        requires
            ma.wf() && mb.wf() && mc.wf(),
            ma.k == k && mb.k == k && mc.k == k,
            0 < k < 31,
            witness.len() == mle::pow2(k as nat),
            ry.len() == k,
        ensures
            ry.len() == k,
            v@ == field::fmul(
                field::fadd(
                    field::fadd(
                        field::fmul(ra@, mle::mle_eval(field::fe_vals(ma.f@), field::fe_vals(ry@))),
                        field::fmul(rb@, mle::mle_eval(field::fe_vals(mb.f@), field::fe_vals(ry@))),
                    ),
                    field::fmul(rc@, mle::mle_eval(field::fe_vals(mc.f@), field::fe_vals(ry@))),
                ),
                split_eval(field::fe_vals(witness@), field::fe_vals(ry@)),
            ),
        {
            let ea = ra.mul(&ma.evaluate(ry));
            let eb = rb.mul(&mb.evaluate(ry));
            let ec = rc.mul(&mc.evaluate(ry));
            let lhs = ea.add(&eb).add(&ec);
            let rhs = split_witness_eval(&witness, ry);
            lhs.mul(&rhs)
        };
    proof {
        assert forall|x: &[Fe]| x@.len() == k implies #[trigger] call_requires(prover_evaluator, (x,)) by {}
        assert forall|x: &[Fe]| x@.len() == k implies #[trigger] call_requires(verifier_oracle, (x,)) by {}
    }
    let ghost g = |y: Seq<nat>| inner_term(fa, fb, fc, zv, ra@, rb@, rc@, y);
    proof {
        assert(fa == ta && fb == tb && fc == tc);
        assert(field::fe_vals(pma.f@) == fa && field::fe_vals(pmb.f@) == fb && field::fe_vals(pmc.f@) == fc);
        assert(field::fe_vals(mz.f@) == zv);
        lemma_fe_vals_residues(ma.f@);
        lemma_fe_vals_residues(mb.f@);
        lemma_fe_vals_residues(mc.f@);
        lemma_fe_vals_residues(witness@);
        field::lemma_fe_bounded(ra);
        field::lemma_fe_bounded(rb);
        field::lemma_fe_bounded(rc);
        lemma_inner_degree(fa, fb, fc, zv, ra@, rb@, rc@, k as nat);
        assert(sumcheck::bounded(g)) by {
            assert forall|y: Seq<nat>| #[trigger] g(y) < field::p() by {
                field::lemma_field_ops_bounded(
                    field::fadd(
                        field::fadd(field::fmul(ra@, mle::mle_eval(fa, y)), field::fmul(rb@, mle::mle_eval(fb, y))),
                        field::fmul(rc@, mle::mle_eval(fc, y)),
                    ),
                    mle::mle_eval(zv, y),
                );
            }
        }
        assert(sumcheck::computes(prover_evaluator, g));
        assert forall|s: &[Fe], v: Fe| #[trigger] call_ensures(verifier_oracle, (s,), v) implies v@ == g(
            field::fe_vals(s@),
        ) by {
            lemma_fe_vals_residues(s@);
            lemma_split_eval(zv, field::fe_vals(s@));
        }
        assert(sumcheck::low_degree_model(prover_evaluator, g, k as nat, 2));
    }
    let (correct, claimed_sum) = run_sum_check_with_oracle(prover, verifier_oracle);
    let expected = va.mul(&ra).add(&vb.mul(&rb)).add(&vc.mul(&rc));
    proof {
        sumcheck::lemma_sums_over_function(prover_evaluator, g, sumcheck::hypercube(k as nat), claimed_sum@);
        lemma_inner_total(
            r1cs::mat_view(r1cs.a@),
            r1cs::mat_view(r1cs.b@),
            r1cs::mat_view(r1cs.c@),
            zv,
            rxv,
            ra@,
            rb@,
            rc@,
        );
    }
    let ok = correct && claimed_sum.equals(&expected);
    proof {
        if ok {
            assert(field::fe_vals(pma.f@) == ta);
            assert(field::fe_vals(pmb.f@) == tb);
            assert(field::fe_vals(pmc.f@) == tc);
            assert(field::fe_vals(mz.f@) == zv);
            lemma_step2_claim(prover_evaluator, ta, tb, tc, zv, k as nat, ra@, rb@, rc@, va@, vb@, vc@, claimed_sum@);
        }
        assert(ok ==> combined_claim(va@, vb@, vc@, ta, tb, tc, zv, k as nat, ra@, rb@, rc@));
    }
    let r = (va, vb, vc, ok);
    proof {
        // the witness of the existential, named apart from its bound variables
        let (xa, xb, xc) = (ra@, rb@, rc@);
        assert(r.3 ==> combined_claim(
            r.0@,
            r.1@,
            r.2@,
            mat_at_row_point(r1cs::mat_view(r1cs.a@), field::fe_vals(rx@)),
            mat_at_row_point(r1cs::mat_view(r1cs.b@), field::fe_vals(rx@)),
            mat_at_row_point(r1cs::mat_view(r1cs.c@), field::fe_vals(rx@)),
            field::fe_vals(witness@),
            rx.len() as nat,
            xa,
            xb,
            xc,
        ));
    }
    r
}

/// `max(a, b, c)`.
pub open spec fn max3(a: nat, b: nat, c: nat) -> nat {
    if a >= b && a >= c {
        a
    } else if b >= c {
        b
    } else {
        c
    }
}

/// Half the padded width: the least power of two that holds the public part
/// `1, io`, the private part, and every constraint.
pub open spec fn half_width(wlen: nat, io: nat, rows: nat) -> nat {
    mle::pow2(mle::ceil_log2(max3(wlen, io + 1, rows)))
}

/// A constraint matrix padded like the witness, row by row, then with zero
/// rows up to `n` rows of `n` entries.
pub open spec fn pad_rows(m: Seq<Seq<nat>>, io: nat, iopad: nat, wpad: nat, n: nat) -> Seq<Seq<nat>> {
    Seq::new(
        n,
        |i: int|
            if i < m.len() {
                pad_spec(m[i], io, iopad, wpad)
            } else {
                Seq::new(n, |j: int| 0nat)
            },
    )
}

/// The padded instance and witness as `spartan_naive` builds them: `Az`,
/// `Bz`, `Cz` as tables over `{0,1}^k`, with `2^k = 2·half_width`.
pub open spec fn padded_products(
    a: Seq<Seq<nat>>,
    b: Seq<Seq<nat>>,
    c: Seq<Seq<nat>>,
    z: Seq<nat>,
    io: nat,
) -> (Seq<nat>, Seq<nat>, Seq<nat>) {
    let wlen = (z.len() - io - 1) as nat;
    let m = half_width(wlen, io, a.len());
    let iopad = (m - io - 1) as nat;
    let wpad = (m - wlen) as nat;
    let pz = pad_spec(z, io, iopad, wpad);
    (
        mat_vec(pad_rows(a, io, iopad, wpad, 2 * m), pz),
        mat_vec(pad_rows(b, io, iopad, wpad, 2 * m), pz),
        mat_vec(pad_rows(c, io, iopad, wpad, 2 * m), pz),
    )
}

/// The number of variables after padding.
pub open spec fn padded_vars(a: Seq<Seq<nat>>, z: Seq<nat>, io: nat) -> nat {
    mle::ceil_log2(max3((z.len() - io - 1) as nat, io + 1, a.len())) + 1
}

/// `∑_{x∈{0,1}^k} eq(x, τ)·(Az̃(x)·Bz̃(x) - Cz̃(x))` for the padded instance.
pub open spec fn outer_sum(
    a: Seq<Seq<nat>>,
    b: Seq<Seq<nat>>,
    c: Seq<Seq<nat>>,
    z: Seq<nat>,
    io: nat,
    tau: Seq<nat>,
) -> nat {
    let (az, bz, cz) = padded_products(a, b, c, z, io);
    sumcheck::fsum(
        sumcheck::hypercube(padded_vars(a, z, io)).map_values(|x: Seq<nat>| outer_term(az, bz, cz, tau, x)),
    )
}

/// What `spartan_naive` asks of the instance: three matrices with as many
/// rows, at least one; every row at least as long as the public part and no
/// longer than the witness, the first rows as long as the witness; a witness
/// with a private part; sizes within `2^29`.
pub open spec fn spartan_input_ok(
    a: Seq<Seq<nat>>,
    b: Seq<Seq<nat>>,
    c: Seq<Seq<nat>>,
    w: nat,
    io: nat,
) -> bool {
    &&& w > io + 1
    &&& w <= 0x2000_0000
    &&& 0 < a.len() <= 0x2000_0000
    &&& b.len() == a.len() && c.len() == a.len()
    &&& a[0].len() == w && b[0].len() == w && c[0].len() == w
    &&& forall|i: int| 0 <= i < a.len() ==> io + 1 <= #[trigger] a[i].len() <= w
    &&& forall|i: int| 0 <= i < b.len() ==> io + 1 <= #[trigger] b[i].len() <= w
    &&& forall|i: int| 0 <= i < c.len() ==> io + 1 <= #[trigger] c[i].len() <= w
}

/// `n` zeros.
fn zero_row(n: usize) -> (r: Vec<Fe>)
    ensures
        field::fe_vals(r@) == Seq::new(n as nat, |j: int| 0nat),
        r.len() == n,
{
    let mut out: Vec<Fe> = Vec::new();
    let mut i: usize = 0;
    while i < n
        invariant
            i <= n,
            out.len() == i,
            forall|t: int| 0 <= t < i ==> #[trigger] out@[t]@ == 0,
        decreases n - i,
    {
        out.push(Fe::zero());
        i = i + 1;
    }
    proof {
        assert(field::fe_vals(out@) =~= Seq::new(n as nat, |j: int| 0nat));
    }
    out
}

/// Every row padded like the witness, then zero rows of `n` entries up to
/// `n` rows.
fn pad_matrix(m: &Matrix, io: usize, iopad: usize, wpad: usize, n: usize) -> (r: Matrix)
    requires
        m.len() <= n,
        forall|i: int| 0 <= i < m.len() ==> io + 1 <= #[trigger] m@[i].len() <= n,
        n + iopad + wpad <= usize::MAX,
    ensures
        r1cs::mat_view(r@) == pad_rows(r1cs::mat_view(m@), io as nat, iopad as nat, wpad as nat, n as nat),
        r.len() == n,
        forall|i: int| 0 <= i < m.len() ==> #[trigger] r@[i].len() == m@[i].len() + iopad + wpad,
        forall|i: int| m.len() <= i < n ==> #[trigger] r@[i].len() == n,
{
    let ghost mv = r1cs::mat_view(m@);
    let ghost target = pad_rows(mv, io as nat, iopad as nat, wpad as nat, n as nat);
    let mut out: Matrix = Vec::new();
    let mut i: usize = 0;
    while i < m.len()
        invariant
            mv == r1cs::mat_view(m@),
            target == pad_rows(mv, io as nat, iopad as nat, wpad as nat, n as nat),
            m.len() <= n,
            forall|t: int| 0 <= t < m.len() ==> io + 1 <= #[trigger] m@[t].len() <= n,
            n + iopad + wpad <= usize::MAX,
            i <= m.len(),
            out.len() == i,
            forall|t: int| 0 <= t < i ==> #[trigger] field::fe_vals(out@[t]@) == target[t],
            forall|t: int| 0 <= t < i ==> #[trigger] out@[t].len() == m@[t].len() + iopad + wpad,
        decreases m.len() - i,
    {
        let row = pad(&m[i], io, iopad, wpad);
        proof {
            assert(mv[i as int] == field::fe_vals(m@[i as int]@));
        }
        out.push(row);
        i = i + 1;
    }
    while i < n
        invariant
            target == pad_rows(mv, io as nat, iopad as nat, wpad as nat, n as nat),
            mv == r1cs::mat_view(m@),
            m.len() <= i <= n,
            out.len() == i,
            forall|t: int| 0 <= t < i ==> #[trigger] field::fe_vals(out@[t]@) == target[t],
            forall|t: int| 0 <= t < m.len() ==> #[trigger] out@[t].len() == m@[t].len() + iopad + wpad,
            forall|t: int| m.len() <= t < i ==> #[trigger] out@[t].len() == n,
        decreases n - i,
    {
        let row = zero_row(n);
        out.push(row);
        i = i + 1;
    }
    proof {
        assert(r1cs::mat_view(out@) =~= target);
    }
    out
}

/// The multilinear equality polynomial at `x` against the challenge `tau`,
/// times `Az̃(x)·Bz̃(x) - Cz̃(x)`.
fn outer_eval(
    maz: &MultilinearExtension,
    mbz: &MultilinearExtension,
    mcz: &MultilinearExtension,
    tau: &Vec<Fe>,
    x: &[Fe],
) -> (v: Fe)
    requires
        maz.wf() && mbz.wf() && mcz.wf(),
        maz.k == x.len() && mbz.k == x.len() && mcz.k == x.len(),
        tau.len() == x.len(),
    ensures
        v@ == outer_term(
            field::fe_vals(maz.f@),
            field::fe_vals(mbz.f@),
            field::fe_vals(mcz.f@),
            field::fe_vals(tau@),
            field::fe_vals(x@),
        ),
{
    let prod = maz.evaluate(x).mul(&mbz.evaluate(x));
    let f = prod.sub(&mcz.evaluate(x));
    f.mul(&eq(x, tau.as_slice()))
}

/// Lengths read through `mat_view` are those of the rows.
proof fn lemma_view_lens(x: &Matrix)
    ensures
        r1cs::mat_view(x@).len() == x.len(),
        forall|i: int| 0 <= i < x.len() ==> #[trigger] r1cs::mat_view(x@)[i].len() == x@[i].len(),
{
}

/// The least power of two `m = 2^k` that is at least `wlen`, `io1` and
/// `rows`.
fn padded_half(wlen: usize, io1: usize, rows: usize) -> (r: (usize, usize))
    requires
        wlen <= 0x2000_0000,
        1 <= io1 <= 0x2000_0000,
        rows <= 0x2000_0000,
    ensures
        r.0 == half_width(wlen as nat, (io1 - 1) as nat, rows as nat),
        r.0 <= 0x2000_0000,
        r.0 == mle::pow2(r.1 as nat),
        r.1 <= 29,
        r.0 >= wlen && r.0 >= io1 && r.0 >= rows,
{
    let bound = if wlen >= io1 && wlen >= rows {
        wlen
    } else if io1 >= rows {
        io1
    } else {
        rows
    };
    let (m, k) = mle::next_pow2(bound);
    proof {
        assert(bound == max3(wlen as nat, ((io1 - 1) + 1) as nat, rows as nat));
        vstd::arithmetic::power2::lemma2_to64();
        if k > 29 {
            lemma_pow2_mono(29, (k - 1) as nat);
        }
        lemma_pow2_mono(k as nat, 29);
    }
    (m, k)
}

/// The verdict of naive Spartan for the challenge `τ` (see `spartan_naive`):
/// instance and witness are padded, the prover of
/// `eq(x, τ)·(Az̃(x)·Bz̃(x) - Cz̃(x))` runs the first sum-check against a
/// verifier whose final oracle query is confirmed by the second sum-check,
/// and the claimed sum must be zero. Every check of the honest prover holds,
/// so the verdict is whether the padded sum at `τ` is zero.
#[verifier::spinoff_prover]
#[verifier::rlimit(40)]
pub fn spartan_naive_at(r1cs: &R1CS, witness: &Vec<Fe>, iolen: usize, tau_in: &Vec<Fe>) -> (r: bool)
    requires
        spartan_input_ok(
            r1cs::mat_view(r1cs.a@),
            r1cs::mat_view(r1cs.b@),
            r1cs::mat_view(r1cs.c@),
            witness.len() as nat,
            iolen as nat,
        ),
        tau_in.len() == padded_vars(r1cs::mat_view(r1cs.a@), field::fe_vals(witness@), iolen as nat),
    ensures
        r == (outer_sum(
            r1cs::mat_view(r1cs.a@),
            r1cs::mat_view(r1cs.b@),
            r1cs::mat_view(r1cs.c@),
            field::fe_vals(witness@),
            iolen as nat,
            field::fe_vals(tau_in@),
        ) == 0),
        r1cs::r1cs_satisfied(
            r1cs::mat_view(r1cs.a@),
            r1cs::mat_view(r1cs.b@),
            r1cs::mat_view(r1cs.c@),
            r1cs::witness_column(field::fe_vals(witness@)),
        ) ==> r,
{
    let ghost av = r1cs::mat_view(r1cs.a@);
    let ghost bv = r1cs::mat_view(r1cs.b@);
    let ghost cv = r1cs::mat_view(r1cs.c@);
    let ghost zv = field::fe_vals(witness@);
    proof {
        lemma_view_lens(&r1cs.a);
        lemma_view_lens(&r1cs.b);
        lemma_view_lens(&r1cs.c);
    }
    let wlen = witness.len() - (iolen + 1);
    let alen = r1cs.a.len();
    let (m, k) = padded_half(wlen, iolen + 1, alen);
    let iopad = m - iolen - 1;
    let wpad = m - wlen;
    let z = pad(witness, iolen, iopad, wpad);
    let n = 2 * m;
    let kk = k + 1;
    proof {
        let wl = (zv.len() - iolen - 1) as nat;
        mle::lemma_ceil_log2(max3(wl, iolen as nat + 1, av.len()));
        lemma_pow2_injective(k as nat, mle::ceil_log2(max3(wl, iolen as nat + 1, av.len())));
        assert(kk == padded_vars(av, zv, iolen as nat));
        vstd::arithmetic::power2::lemma_pow2_unfold(kk as nat);
        assert(witness.len() <= n);
        assert(mle::pow2(kk as nat) == n);
        assert forall|i: int| 0 <= i < r1cs.a.len() implies iolen + 1 <= #[trigger] r1cs.a@[i].len() <= n by {
            assert(av[i].len() == r1cs.a@[i].len());
        }
        assert forall|i: int| 0 <= i < r1cs.b.len() implies iolen + 1 <= #[trigger] r1cs.b@[i].len() <= n by {
            assert(bv[i].len() == r1cs.b@[i].len());
        }
        assert forall|i: int| 0 <= i < r1cs.c.len() implies iolen + 1 <= #[trigger] r1cs.c@[i].len() <= n by {
            assert(cv[i].len() == r1cs.c@[i].len());
        }
    }
    let pa = pad_matrix(&r1cs.a, iolen, iopad, wpad, n);
    let pb = pad_matrix(&r1cs.b, iolen, iopad, wpad, n);
    let pc = pad_matrix(&r1cs.c, iolen, iopad, wpad, n);
    proof {
        assert(mle::is_pow2(n as nat));
        assert(z.len() == n);
        assert forall|i: int| 0 <= i < pa.len() implies #[trigger] pa@[i].len() <= z.len() by {
            if i < r1cs.a.len() {
                assert(pa@[i].len() == r1cs.a@[i].len() + iopad + wpad);
                assert(av[i].len() == r1cs.a@[i].len());
            }
        }
        assert forall|i: int| 0 <= i < pb.len() implies #[trigger] pb@[i].len() <= z.len() by {
            if i < r1cs.b.len() {
                assert(pb@[i].len() == r1cs.b@[i].len() + iopad + wpad);
                assert(bv[i].len() == r1cs.b@[i].len());
            }
        }
        assert forall|i: int| 0 <= i < pc.len() implies #[trigger] pc@[i].len() <= z.len() by {
            if i < r1cs.c.len() {
                assert(pc@[i].len() == r1cs.c@[i].len() + iopad + wpad);
                assert(cv[i].len() == r1cs.c@[i].len());
            }
        }
    }
    let maz = build_mle(&pa, &z);
    let mbz = build_mle(&pb, &z);
    let mcz = build_mle(&pc, &z);
    let ghost (az, bz, cz) = padded_products(av, bv, cv, zv, iolen as nat);
    proof {
        assert(field::fe_vals(maz.f@) == az);
        assert(field::fe_vals(mbz.f@) == bz);
        assert(field::fe_vals(mcz.f@) == cz);
        assert(field::fe_vals(maz.f@).len() == maz.f@.len());
        assert(field::fe_vals(mbz.f@).len() == mbz.f@.len());
        assert(field::fe_vals(mcz.f@).len() == mcz.f@.len());
        lemma_pow2_injective(maz.k as nat, kk as nat);
        lemma_pow2_injective(mbz.k as nat, kk as nat);
        lemma_pow2_injective(mcz.k as nat, kk as nat);
    }
    let tau = copy_range(tau_in.as_slice(), 0, tau_in.len());
    proof {
        assert(tau@ =~= tau_in@);
    }
    let ghost tv = field::fe_vals(tau@);
    let pmaz = maz.duplicate();
    let pmbz = mbz.duplicate();
    let pmcz = mcz.duplicate();
    let ptau = copy_range(tau.as_slice(), 0, tau.len());
    let prover_evaluator = move |point: &[Fe]| -> (v: Fe)
        requires
            pmaz.wf() && pmbz.wf() && pmcz.wf(),
            pmaz.k == kk && pmbz.k == kk && pmcz.k == kk,
            ptau.len() == kk,
            point.len() == kk,
        ensures
            v@ == outer_term(
                field::fe_vals(pmaz.f@),
                field::fe_vals(pmbz.f@),
                field::fe_vals(pmcz.f@),
                field::fe_vals(ptau@),
                field::fe_vals(point@),
            ),
        { outer_eval(&pmaz, &pmbz, &pmcz, &ptau, point) };
    let omaz = maz.duplicate();
    let ombz = mbz.duplicate();
    let omcz = mcz.duplicate();
    let verifier_oracle = move |rx: &[Fe]| -> (v: Fe)
        requires
            omaz.wf() && ombz.wf() && omcz.wf(),
            omaz.k == kk && ombz.k == kk && omcz.k == kk,
            tau.len() == kk,
            rx.len() == kk,
        ensures
            v@ == outer_term(
                field::fe_vals(omaz.f@),
                field::fe_vals(ombz.f@),
                field::fe_vals(omcz.f@),
                field::fe_vals(tau@),
                field::fe_vals(rx@),
            ),
        { outer_eval(&omaz, &ombz, &omcz, &tau, rx) };
    proof {
        assert forall|x: &[Fe]| x@.len() == kk implies #[trigger] call_requires(prover_evaluator, (x,)) by {}
        assert forall|x: &[Fe]| x@.len() == kk implies #[trigger] call_requires(verifier_oracle, (x,)) by {}
    }
    let prover = SumCheckProver::new(Box::new(prover_evaluator), kk, 3);
    let sum = prover.H();
    proof {
        let g = |x: Seq<nat>| outer_term(az, bz, cz, tv, x);
        assert(field::fe_vals(ptau@) == tv);
        assert forall|s: &[Fe], v: Fe| #[trigger] call_ensures(prover_evaluator, (s,), v) implies v@ == g(
            field::fe_vals(s@),
        ) by {}
        sumcheck::lemma_sums_over_function(prover_evaluator, g, sumcheck::hypercube(kk as nat), sum@);
        let wl = (zv.len() - iolen - 1) as nat;
        lemma_pow2_injective(k as nat, mle::ceil_log2(max3(wl, iolen as nat + 1, av.len())));
        assert(kk == padded_vars(av, zv, iolen as nat));
        let h = |x: Seq<nat>| outer_term(padded_products(av, bv, cv, zv, iolen as nat).0, padded_products(av, bv, cv, zv, iolen as nat).1, padded_products(av, bv, cv, zv, iolen as nat).2, tv, x);
        assert(sumcheck::hypercube(kk as nat).map_values(g) =~= sumcheck::hypercube(kk as nat).map_values(h));
        assert(sum@ == outer_sum(av, bv, cv, zv, iolen as nat, tv));
        // the prover's claim is honest: its function has degree 3 in each
        // coordinate, and the claimed sum is the sum over the cube
        lemma_fe_vals_residues(maz.f@);
        lemma_fe_vals_residues(mbz.f@);
        lemma_fe_vals_residues(mcz.f@);
        lemma_fe_vals_residues(tau@);
        lemma_outer_degree(az, bz, cz, tv);
        assert(sumcheck::bounded(g)) by {
            assert forall|x: Seq<nat>| #[trigger] g(x) < field::p() by {
                field::lemma_field_ops_bounded(
                    field::fsub(
                        field::fmul(mle::mle_eval(az, x), mle::mle_eval(bz, x)),
                        mle::mle_eval(cz, x),
                    ),
                    eq_prod(x, tv, x.len()),
                );
            }
        }
        sumcheck::lemma_total_sum(prover_evaluator, g, kk as nat, sum@);
        assert(sumcheck::honest_claim(prover_evaluator, g, kk as nat, 3, sum@));
    }
    let verifier = SumCheckVerifier::new(sum, Box::new(verifier_oracle));
    let (passed, verifier) = sumcheck::play_rounds(
        prover,
        verifier,
        Ghost(|x: Seq<nat>| outer_term(az, bz, cz, tv, x)),
    );
    if !passed {
        return false;
    }
    let rx = copy_range(verifier.queries.as_slice(), 0, verifier.queries.len());
    proof {
        lemma_view_lens(&pa);
        lemma_view_lens(&pb);
        lemma_view_lens(&pc);
    }
    let padded = R1CS { a: pa, b: pb, c: pc };
    let (_va, _vb, _vc, confirmed) = spartan_naive_step2(rx.as_slice(), padded, maz, mbz, mcz, z);
    if !confirmed {
        return false;
    }
    let ghost queries = verifier.queries@;
    let ghost expected = poly::peval(verifier.polys@.last().vals(), verifier.queries@.last()@);
    proof {
        assert(expected == outer_term(az, bz, cz, tv, field::fe_vals(queries)));
    }
    let answered = verifier.finish();
    proof {
        let (s, v) = choose|s: &[Fe], v: Fe|
            s@ == queries && #[trigger] call_ensures(verifier_oracle, (s,), v) && answered == (v@ == expected);
        assert(answered);
    }
    let zero_sum = sum.is_zero();
    let r = answered && zero_sum;
    proof {
        let t = tv;
        assert(r == (outer_sum(av, bv, cv, zv, iolen as nat, t) == 0));
        if r1cs::r1cs_satisfied(av, bv, cv, r1cs::witness_column(zv)) {
            lemma_satisfied_outer_sum_zero(av, bv, cv, zv, iolen as nat, t);
        }
    }
    r
}

/// Naive Spartan for the instance `r1cs` and the witness `(1, io, w)`, whose
/// first `iolen + 1` entries are public. Instance and witness are padded to
/// `2m` variables and `2m` constraints, with `m` the least power of two
/// that holds the public part, the private part and the constraints: the
/// witness becomes `(1, io, 0.., w, 0..)`. A prover holding the extensions
/// of `Az`, `Bz`, `Cz` runs the sum-check of
/// `eq(x, τ)·(Az̃(x)·Bz̃(x) - Cz̃(x))` over `{0,1}^k` for a random `τ`; at its
/// final challenges `rx` the second sum-check confirms the three
/// evaluations. Accepts when every check holds and the claimed sum is zero.
/// The honest prover passes every check, so the verdict is whether the
/// padded sum at the drawn `τ` is zero: a satisfying witness is accepted.
#[verifier::spinoff_prover]
pub fn spartan_naive(r1cs: R1CS, witness: Vec<Fe>, iolen: usize) -> (r: bool)
    requires
        spartan_input_ok(
            r1cs::mat_view(r1cs.a@),
            r1cs::mat_view(r1cs.b@),
            r1cs::mat_view(r1cs.c@),
            witness.len() as nat,
            iolen as nat,
        ),
    ensures
        exists|tau: Seq<nat>|
            tau.len() == padded_vars(r1cs::mat_view(r1cs.a@), field::fe_vals(witness@), iolen as nat) && r == (
            #[trigger] outer_sum(
                r1cs::mat_view(r1cs.a@),
                r1cs::mat_view(r1cs.b@),
                r1cs::mat_view(r1cs.c@),
                field::fe_vals(witness@),
                iolen as nat,
                tau,
            ) == 0),
        r1cs::r1cs_satisfied(
            r1cs::mat_view(r1cs.a@),
            r1cs::mat_view(r1cs.b@),
            r1cs::mat_view(r1cs.c@),
            r1cs::witness_column(field::fe_vals(witness@)),
        ) ==> r,
{
    // τ, drawn by the verifier
    let mut draws = field::Draws::new();
    let r = spartan_naive_drawn(&r1cs, &witness, iolen, &mut draws);
    proof {
        assert(draws@.skip(0) =~= draws@);
    }
    r
}

/// Naive Spartan (see `spartan_naive`) with `τ` drawn from `draws`: `τ` is
/// the next `k` values drawn, one fresh draw per coordinate, and the verdict
/// is whether the padded sum at that `τ` is zero. A satisfying witness is
/// accepted; for a witness that breaks a constraint, every row's weight
/// `eq(τ, row)` is nonzero unless some coordinate of `τ` is 0 or 1
/// (`lemma_row_weights_nonzero`).
pub fn spartan_naive_drawn(r1cs: &R1CS, witness: &Vec<Fe>, iolen: usize, draws: &mut field::Draws) -> (r: bool)
    requires
        spartan_input_ok(
            r1cs::mat_view(r1cs.a@),
            r1cs::mat_view(r1cs.b@),
            r1cs::mat_view(r1cs.c@),
            witness.len() as nat,
            iolen as nat,
        ),
    ensures
        final(draws)@.len() == old(draws)@.len() + padded_vars(
            r1cs::mat_view(r1cs.a@),
            field::fe_vals(witness@),
            iolen as nat,
        ),
        final(draws)@.take(old(draws)@.len() as int) == old(draws)@,
        r == (outer_sum(
            r1cs::mat_view(r1cs.a@),
            r1cs::mat_view(r1cs.b@),
            r1cs::mat_view(r1cs.c@),
            field::fe_vals(witness@),
            iolen as nat,
            final(draws)@.skip(old(draws)@.len() as int),
        ) == 0),
        r1cs::r1cs_satisfied(
            r1cs::mat_view(r1cs.a@),
            r1cs::mat_view(r1cs.b@),
            r1cs::mat_view(r1cs.c@),
            r1cs::witness_column(field::fe_vals(witness@)),
        ) ==> r,
{
    let ghost av = r1cs::mat_view(r1cs.a@);
    let ghost zv = field::fe_vals(witness@);
    let ghost before = draws@;
    proof {
        lemma_view_lens(&r1cs.a);
    }
    let wlen = witness.len() - (iolen + 1);
    let (_m, k) = padded_half(wlen, iolen + 1, r1cs.a.len());
    let kk = k + 1;
    proof {
        let wl = (zv.len() - iolen - 1) as nat;
        mle::lemma_ceil_log2(max3(wl, iolen as nat + 1, av.len()));
        lemma_pow2_injective(k as nat, mle::ceil_log2(max3(wl, iolen as nat + 1, av.len())));
        assert(kk == padded_vars(av, zv, iolen as nat));
    }
    let mut tau: Vec<Fe> = Vec::new();
    let mut i: usize = 0;
    while i < kk
        invariant
            i <= kk,
            tau.len() == i,
            draws@ == before + field::fe_vals(tau@),
        decreases kk - i,
    {
        let ghost t0 = tau@;
        let x = draws.draw();
        tau.push(x);
        proof {
            assert(field::fe_vals(tau@) =~= field::fe_vals(t0).push(x@));
            assert(draws@ =~= before + field::fe_vals(tau@));
        }
        i = i + 1;
    }
    let r = spartan_naive_at(r1cs, witness, iolen, &tau);
    proof {
        assert(draws@.skip(before.len() as int) =~= field::fe_vals(tau@));
        assert(draws@.take(before.len() as int) =~= before);
    }
    r
}

/// Every constraint row gets a nonzero weight: when no coordinate of `τ` is
/// 0 or 1, `eq(x, τ)` is nonzero at every vertex `x` of the cube, so the
/// claimed sum `∑_x eq(x, τ)·(Az̃·Bz̃ - Cz̃)(x)` weighs every row's residual.
/// (A coordinate fixed to 0 would give weight 0 to every row whose bit there
/// is 1.) `fermat()` is Fermat's little theorem for `p`, which `ark_modulus`
/// gives.
pub proof fn lemma_row_weights_nonzero(x: Seq<nat>, tau: Seq<nat>, n: nat)
    requires
        crate::roots::fermat(),
        n <= x.len(),
        n <= tau.len(),
        forall|i: int| 0 <= i < n ==> #[trigger] x[i] == 0 || x[i] == 1,
        forall|i: int| 0 <= i < n ==> #[trigger] tau[i] < field::p() && tau[i] != 0 && tau[i] != 1,
    ensures
        eq_prod(x, tau, n) != 0,
        eq_prod(x, tau, n) < field::p(),
    decreases n,
{
    field::lemma_p_facts();
    if n > 0 {
        let n1 = (n - 1) as nat;
        lemma_row_weights_nonzero(x, tau, n1);
        let (b, t) = (x[n1 as int], tau[n1 as int]);
        let e = mle::eq_spec(b, t);
        assert(e != 0 && e < field::p()) by {
            field::lemma_fmul_zero(t);
            field::lemma_fmul_zero(field::fsub(1, t));
            field::lemma_fsub_nonzero(1, t);
            field::lemma_field_ops_bounded(1, t);
            if b == 1 {
                field::lemma_fmul_one(t);
                vstd::arithmetic::div_mod::lemma_small_mod(0, field::p());
                field::lemma_fsub_self(1);
                field::lemma_fadd_zero(t);
            } else {
                field::lemma_fmul_one(field::fsub(1, t));
                vstd::arithmetic::div_mod::lemma_small_mod(1, field::p());
                field::lemma_fadd_zero(field::fsub(1, t));
            }
        }
        let w = eq_prod(x, tau, n1);
        field::lemma_field_ops_bounded(w, e);
        if field::fmul(w, e) == 0 {
            vstd::arithmetic::div_mod::lemma_small_mod(w, field::p());
            vstd::arithmetic::div_mod::lemma_small_mod(e, field::p());
            crate::roots::lemma_no_zero_divisors(w as int, e as int);
        }
    }
}

// ---------------------------------------------------------------------------
// A satisfying witness makes the claimed sum zero.
// ---------------------------------------------------------------------------

proof fn lemma_pad_index(v: Seq<nat>, io: nat, a: nat, b: nat, j: int)
    requires
        io + 1 <= v.len(),
        0 <= j < v.len() + a + b,
    ensures
        pad_spec(v, io, a, b)[j] == (if j < io + 1 {
            v[j]
        } else if j < io + 1 + a {
            0
        } else if j < v.len() + a {
            v[j - a]
        } else {
            0
        }),
{
    let s1 = v.subrange(0, (io + 1) as int);
    let z1 = Seq::new(a, |i: int| 0nat);
    let s2 = v.subrange((io + 1) as int, v.len() as int);
    let z2 = Seq::new(b, |i: int| 0nat);
    assert(pad_spec(v, io, a, b) == ((s1 + z1) + s2) + z2);
    assert((s1 + z1).len() == io + 1 + a);
    assert(((s1 + z1) + s2).len() == v.len() + a);
}

/// The length of the unpadded prefix that the first `n` padded entries hold.
pub open spec fn unpadded_len(n: nat, io: nat, a: nat, ul: nat) -> nat {
    if n <= io + 1 {
        n
    } else if n <= io + 1 + a {
        io + 1
    } else if n <= ul + a {
        (n - a) as nat
    } else {
        ul
    }
}

proof fn lemma_dot_upto_bounded(x: Seq<nat>, y: Seq<nat>, n: nat)
    ensures
        r1cs::dot_upto(x, y, n) < field::p(),
{
    field::lemma_p_facts();
    if n > 0 {
        field::lemma_field_ops_bounded(r1cs::dot_upto(x, y, (n - 1) as nat), field::fmul(x[n - 1], y[n - 1]));
    }
}

proof fn lemma_pad_dot_upto(u: Seq<nat>, v: Seq<nat>, io: nat, a: nat, b: nat, n: nat)
    requires
        io + 1 <= u.len() <= v.len(),
        n <= u.len() + a + b,
    ensures
        r1cs::dot_upto(pad_spec(u, io, a, b), pad_spec(v, io, a, b), n) == r1cs::dot_upto(
            u,
            v,
            unpadded_len(n, io, a, u.len()),
        ),
    decreases n,
{
    field::lemma_p_facts();
    if n > 0 {
        let j = n - 1;
        lemma_pad_dot_upto(u, v, io, a, b, (n - 1) as nat);
        lemma_pad_index(u, io, a, b, j);
        lemma_pad_index(v, io, a, b, j);
        let prev = r1cs::dot_upto(u, v, unpadded_len((n - 1) as nat, io, a, u.len()));
        lemma_dot_upto_bounded(u, v, unpadded_len((n - 1) as nat, io, a, u.len()));
        if io + 1 <= j < io + 1 + a || j >= u.len() + a {
            field::lemma_fmul_zero(pad_spec(v, io, a, b)[j]);
            field::lemma_fadd_zero(prev);
        }
    }
}

/// Padding a row and the witness alike keeps their dot product.
proof fn lemma_pad_dot(u: Seq<nat>, v: Seq<nat>, io: nat, a: nat, b: nat)
    requires
        io + 1 <= u.len() <= v.len(),
    ensures
        r1cs::dot_spec(pad_spec(u, io, a, b), pad_spec(v, io, a, b)) == r1cs::dot_spec(u, v),
{
    lemma_pad_dot_upto(u, v, io, a, b, u.len() + a + b);
}

proof fn lemma_zero_dot(n: nat, y: Seq<nat>, k: nat)
    requires
        k <= n,
    ensures
        r1cs::dot_upto(Seq::new(n, |j: int| 0nat), y, k) == 0,
    decreases k,
{
    field::lemma_p_facts();
    if k > 0 {
        lemma_zero_dot(n, y, (k - 1) as nat);
        field::lemma_fmul_zero(y[k - 1]);
        field::lemma_fadd_zero(0);
    }
}

proof fn lemma_fsum_zeros(v: Seq<nat>)
    requires
        forall|i: int| 0 <= i < v.len() ==> #[trigger] v[i] == 0,
    ensures
        sumcheck::fsum(v) == 0,
    decreases v.len(),
{
    field::lemma_p_facts();
    if v.len() > 0 {
        lemma_fsum_zeros(v.drop_last());
        field::lemma_fadd_zero(0);
    }
}

/// Completeness of the zero-sum claim: for a witness that satisfies the
/// instance, `∑_{x∈{0,1}^k} eq(x, τ)·(Az̃(x)·Bz̃(x) - Cz̃(x))` over the padded
/// instance is zero for every `τ`, so the sum that `spartan_naive`'s prover
/// claims passes its zero check.
pub proof fn lemma_satisfied_outer_sum_zero(
    a: Seq<Seq<nat>>,
    b: Seq<Seq<nat>>,
    c: Seq<Seq<nat>>,
    z: Seq<nat>,
    io: nat,
    tau: Seq<nat>,
)
    requires
        spartan_input_ok(a, b, c, z.len(), io),
        r1cs::r1cs_satisfied(a, b, c, r1cs::witness_column(z)),
    ensures
        outer_sum(a, b, c, z, io, tau) == 0,
{
    field::lemma_p_facts();
    let wlen = (z.len() - io - 1) as nat;
    let m = half_width(wlen, io, a.len());
    let iopad = (m - io - 1) as nat;
    let wpad = (m - wlen) as nat;
    let n = 2 * m;
    let k = padded_vars(a, z, io);
    let pz = pad_spec(z, io, iopad, wpad);
    let (az, bz, cz) = padded_products(a, b, c, z, io);
    mle::lemma_ceil_log2(max3(wlen, io + 1, a.len()));
    vstd::arithmetic::power2::lemma_pow2_unfold(k);
    assert(mle::pow2(k) == n);
    assert(m >= wlen && m >= io + 1 && m >= a.len());
    let zc = r1cs::witness_column(z);
    assert(r1cs::column(zc, 0) =~= z);
    // every padded constraint holds
    assert forall|i: int| 0 <= i < n implies field::fmul(#[trigger] az[i], bz[i]) == cz[i] by {
        if i < a.len() {
            lemma_pad_dot(a[i], z, io, iopad, wpad);
            lemma_pad_dot(b[i], z, io, iopad, wpad);
            lemma_pad_dot(c[i], z, io, iopad, wpad);
            let am = r1cs::mat_mul_spec(a, zc);
            let bm = r1cs::mat_mul_spec(b, zc);
            let cm = r1cs::mat_mul_spec(c, zc);
            assert(r1cs::hadamard_spec(am, bm)[i][0] == cm[i][0]);
            assert(am[i][0] == r1cs::dot_spec(a[i], z));
        } else {
            lemma_zero_dot(n, pz, n);
            assert(pad_rows(a, io, iopad, wpad, n)[i] == Seq::new(n, |j: int| 0nat));
            assert(pad_rows(b, io, iopad, wpad, n)[i] == Seq::new(n, |j: int| 0nat));
            assert(pad_rows(c, io, iopad, wpad, n)[i] == Seq::new(n, |j: int| 0nat));
            field::lemma_fmul_zero(0);
        }
    }
    let cube = sumcheck::hypercube(k);
    let terms = cube.map_values(|x: Seq<nat>| outer_term(az, bz, cz, tau, x));
    assert forall|t: int| 0 <= t < terms.len() implies #[trigger] terms[t] == 0 by {
        let x = cube[t];
        assert(x == sumcheck::lsb_point(t as nat, k));
        assert(mle::is_boolean(x)) by {
            assert forall|j: int| 0 <= j < x.len() implies #[trigger] x[j] == 0 || x[j] == 1 by {}
        }
        assert forall|i: int| 0 <= i < az.len() implies #[trigger] az[i] < field::p() by {
            lemma_dot_upto_bounded(pad_rows(a, io, iopad, wpad, n)[i], pz, 0);
        }
        mle::lemma_mle_agrees_on_hypercube(az, x);
        mle::lemma_mle_agrees_on_hypercube(bz, x);
        mle::lemma_mle_agrees_on_hypercube(cz, x);
        let vi = mle::vertex_index(x, x.len()) as int;
        field::lemma_fsub_self(cz[vi]);
        field::lemma_fmul_zero(eq_prod(x, tau, x.len()));
    }
    lemma_fsum_zeros(terms);
}

// ---------------------------------------------------------------------------
// The degrees of the two summands in each coordinate.
// ---------------------------------------------------------------------------

/// `eq_prod` over the first `n` coordinates, with every coordinate but the
/// one after `q` fixed: affine in it once `n` reaches it, constant before.
proof fn lemma_eq_prod_poly(q: Seq<nat>, s: Seq<nat>, tau: Seq<nat>, n: nat)
    requires
        n <= q.len() + 1 + s.len(),
        n <= tau.len(),
        crate::roots::residues(tau),
    ensures
        univariate::poly_fn(|t: nat| eq_prod(q + seq![t] + s, tau, n), if n > q.len() { 1nat } else { 0nat }),
    decreases n,
{
    field::lemma_p_facts();
    let h = |t: nat| eq_prod(q + seq![t] + s, tau, n);
    if n == 0 {
        univariate::lemma_poly_const(1);
        univariate::lemma_poly_ext(|t: nat| 1nat, h, 0);
    } else {
        let d0: nat = if (n - 1) as nat > q.len() { 1nat } else { 0nat };
        lemma_eq_prod_poly(q, s, tau, (n - 1) as nat);
        let prev = |t: nat| eq_prod(q + seq![t] + s, tau, (n - 1) as nat);
        let b = tau[n - 1];
        let e = |t: nat| mle::eq_spec((q + seq![t] + s)[n - 1], b);
        let de: nat = if n - 1 == q.len() { 1nat } else { 0nat };
        if n - 1 == q.len() {
            univariate::lemma_poly_eq(b);
            assert forall|t: nat| t < field::p() implies #[trigger] mle::eq_spec(t, b) == e(t) by {
                assert((q + seq![t] + s)[n - 1] == t);
            }
            univariate::lemma_poly_ext(|t: nat| mle::eq_spec(t, b), e, 1);
        } else {
            let k = mle::eq_spec((q + seq![0nat] + s)[n - 1], b);
            assert(k < field::p()) by {
                field::lemma_field_ops_bounded(
                    field::fmul((q + seq![0nat] + s)[n - 1], b),
                    field::fmul(field::fsub(1, (q + seq![0nat] + s)[n - 1]), field::fsub(1, b)),
                );
            }
            univariate::lemma_poly_const(k);
            assert forall|t: nat| t < field::p() implies k == #[trigger] e(t) by {
                assert((q + seq![t] + s)[n - 1] == (q + seq![0nat] + s)[n - 1]);
            }
            univariate::lemma_poly_ext(|t: nat| k, e, 0);
        }
        univariate::lemma_poly_mul(prev, d0, e, de);
        univariate::lemma_poly_ext(|t: nat| field::fmul(prev(t), e(t)), h, d0 + de);
    }
}

/// A function whose one-variable restrictions are polynomials of degree at
/// most `d` has degree at most `d` in each coordinate.
proof fn lemma_restrictions(g: spec_fn(Seq<nat>) -> nat, q: Seq<nat>, s: Seq<nat>, d: nat)
    requires
        univariate::poly_fn(|t: nat| g(q + seq![t] + s), d),
    ensures
        sumcheck::restricted_poly(g, q, s, d),
{
    let h = |t: nat| g(q + seq![t] + s);
    let c = choose|c: Seq<nat>| c.len() <= d + 1 && #[trigger] univariate::agrees(c, h);
    assert forall|t: nat| t < field::p() implies #[trigger] poly::peval(c, t) == g(q + seq![t] + s) by {
        assert(univariate::agrees(c, h));
    }
}

/// The first sum-check's summand has degree at most 3 in each coordinate.
proof fn lemma_outer_degree(az: Seq<nat>, bz: Seq<nat>, cz: Seq<nat>, tau: Seq<nat>)
    requires
        crate::roots::residues(az),
        crate::roots::residues(bz),
        crate::roots::residues(cz),
        crate::roots::residues(tau),
    ensures
        sumcheck::degree_at_most(|x: Seq<nat>| outer_term(az, bz, cz, tau, x), tau.len(), 3),
{
    let g = |x: Seq<nat>| outer_term(az, bz, cz, tau, x);
    assert forall|q: Seq<nat>, s: Seq<nat>|
        q.len() + 1 + s.len() == tau.len() && crate::roots::residues(q) && crate::roots::residues(s)
            implies #[trigger] sumcheck::restricted_poly(g, q, s, 3) by {
        let ea = |t: nat| mle::mle_eval(az, q + seq![t] + s);
        let eb = |t: nat| mle::mle_eval(bz, q + seq![t] + s);
        let ec = |t: nat| mle::mle_eval(cz, q + seq![t] + s);
        let ee = |t: nat| eq_prod(q + seq![t] + s, tau, tau.len());
        mle::lemma_mle_poly(az, q, s);
        mle::lemma_mle_poly(bz, q, s);
        mle::lemma_mle_poly(cz, q, s);
        lemma_eq_prod_poly(q, s, tau, tau.len());
        univariate::lemma_poly_mul(ea, 1, eb, 1);
        let ab = |t: nat| field::fmul(ea(t), eb(t));
        univariate::lemma_poly_mono(ec, 1, 2);
        univariate::lemma_poly_sub(ab, ec, 2);
        let f = |t: nat| field::fsub(ab(t), ec(t));
        univariate::lemma_poly_mul(f, 2, ee, 1);
        assert forall|t: nat| t < field::p() implies #[trigger] field::fmul(f(t), ee(t)) == g(q + seq![t] + s) by {
            assert((q + seq![t] + s).len() == tau.len());
        }
        univariate::lemma_poly_ext(|t: nat| field::fmul(f(t), ee(t)), |t: nat| g(q + seq![t] + s), 3);
        lemma_restrictions(g, q, s, 3);
    }
}

/// The second sum-check's summand has degree at most 2 in each coordinate.
proof fn lemma_inner_degree(
    ma: Seq<nat>,
    mb: Seq<nat>,
    mc: Seq<nat>,
    z: Seq<nat>,
    ra: nat,
    rb: nat,
    rc: nat,
    k: nat,
)
    requires
        crate::roots::residues(ma),
        crate::roots::residues(mb),
        crate::roots::residues(mc),
        crate::roots::residues(z),
        ra < field::p(),
        rb < field::p(),
        rc < field::p(),
    ensures
        sumcheck::degree_at_most(|y: Seq<nat>| inner_term(ma, mb, mc, z, ra, rb, rc, y), k, 2),
{
    let g = |y: Seq<nat>| inner_term(ma, mb, mc, z, ra, rb, rc, y);
    assert forall|q: Seq<nat>, s: Seq<nat>|
        q.len() + 1 + s.len() == k && crate::roots::residues(q) && crate::roots::residues(s)
            implies #[trigger] sumcheck::restricted_poly(g, q, s, 2) by {
        let ea = |t: nat| mle::mle_eval(ma, q + seq![t] + s);
        let eb = |t: nat| mle::mle_eval(mb, q + seq![t] + s);
        let ec = |t: nat| mle::mle_eval(mc, q + seq![t] + s);
        let ez = |t: nat| mle::mle_eval(z, q + seq![t] + s);
        mle::lemma_mle_poly(ma, q, s);
        mle::lemma_mle_poly(mb, q, s);
        mle::lemma_mle_poly(mc, q, s);
        mle::lemma_mle_poly(z, q, s);
        univariate::lemma_poly_const(ra);
        univariate::lemma_poly_const(rb);
        univariate::lemma_poly_const(rc);
        univariate::lemma_poly_mul(|t: nat| ra, 0, ea, 1);
        univariate::lemma_poly_mul(|t: nat| rb, 0, eb, 1);
        univariate::lemma_poly_mul(|t: nat| rc, 0, ec, 1);
        let sa = |t: nat| field::fmul(ra, ea(t));
        let sb = |t: nat| field::fmul(rb, eb(t));
        let sc = |t: nat| field::fmul(rc, ec(t));
        univariate::lemma_poly_ext(|t: nat| field::fmul((|t: nat| ra)(t), ea(t)), sa, 1);
        univariate::lemma_poly_ext(|t: nat| field::fmul((|t: nat| rb)(t), eb(t)), sb, 1);
        univariate::lemma_poly_ext(|t: nat| field::fmul((|t: nat| rc)(t), ec(t)), sc, 1);
        univariate::lemma_poly_add(sa, sb, 1);
        let sab = |t: nat| field::fadd(sa(t), sb(t));
        univariate::lemma_poly_add(sab, sc, 1);
        let lhs = |t: nat| field::fadd(sab(t), sc(t));
        univariate::lemma_poly_mul(lhs, 1, ez, 1);
        univariate::lemma_poly_ext(|t: nat| field::fmul(lhs(t), ez(t)), |t: nat| g(q + seq![t] + s), 2);
        lemma_restrictions(g, q, s, 2);
    }
}

// ---------------------------------------------------------------------------
// The second sum-check's sum: `∑_y Ã(rx, y)·z̃(y) = Az̃(rx)`.
// ---------------------------------------------------------------------------

/// The equality weight of row `i` over the first `t` of `k` coordinates is
/// the extension's weight of the row's top `t` bits.
proof fn lemma_weight_is_chi(x: Seq<nat>, i: nat, k: nat, t: nat)
    requires
        t <= k,
    ensures
        eq_prod(x, msb_point(i, k), t) == mle::chi(x, t, i / mle::pow2((k - t) as nat)),
    decreases t,
{
    if t == 0 {
        vstd::arithmetic::power2::lemma_pow2_pos(k);
        assert((k - t) as nat == k);
    } else {
        lemma_weight_is_chi(x, i, k, (t - 1) as nat);
        let e = (k - t) as nat;
        vstd::arithmetic::power2::lemma_pow2_pos(e + 1);
        assert((k - (t - 1)) as nat == e + 1);
        vstd::arithmetic::power2::lemma_pow2_pos(e);
        vstd::arithmetic::power2::lemma_pow2_unfold(e + 1);
        vstd::arithmetic::div_mod::lemma_div_denominator(i as int, mle::pow2(e) as int, 2);
        assert(mle::pow2(e + 1) == mle::pow2(e) * 2);
        let j = i / mle::pow2(e);
        assert(j / 2 == i / mle::pow2(e + 1));
        let y = msb_point(i, k);
        assert(y[t - 1] == sumcheck::lsb_point(i, k)[k - t]);
        assert(y[t - 1] == j % 2);
        assert(eq_prod(x, y, t) == field::fmul(eq_prod(x, y, (t - 1) as nat), mle::eq_spec(x[t - 1], y[t - 1])));
        assert(mle::chi(x, t, j) == field::fmul(mle::chi(x, (t - 1) as nat, j / 2), mle::eq_spec(x[t - 1], j % 2)));
    }
}

/// The vertex that `msb_point(i, k)` names, over its first `t` coordinates,
/// is `i`'s top `t` bits; and the point is Boolean.
proof fn lemma_msb_vertex(i: nat, k: nat, t: nat)
    requires
        t <= k,
        i < mle::pow2(k),
    ensures
        mle::vertex_index(msb_point(i, k), t) == i / mle::pow2((k - t) as nat),
        mle::is_boolean(msb_point(i, k)),
    decreases t,
{
    let pt = msb_point(i, k);
    assert forall|j: int| 0 <= j < pt.len() implies #[trigger] pt[j] == 0 || pt[j] == 1 by {
        assert(pt[j] == sumcheck::lsb_point(i, k)[k - 1 - j]);
    }
    if t == 0 {
        vstd::arithmetic::div_mod::lemma_basic_div(i as int, mle::pow2(k) as int);
    } else {
        lemma_msb_vertex(i, k, (t - 1) as nat);
        let e = (k - t) as nat;
        vstd::arithmetic::power2::lemma_pow2_pos(e);
        vstd::arithmetic::power2::lemma_pow2_unfold(e + 1);
        vstd::arithmetic::div_mod::lemma_div_denominator(i as int, mle::pow2(e) as int, 2);
        assert(mle::pow2(e + 1) == mle::pow2(e) * 2);
        assert(pt[t - 1] == sumcheck::lsb_point(i, k)[k - t]);
        let j = i / mle::pow2(e);
        vstd::arithmetic::div_mod::lemma_fundamental_div_mod(j as int, 2);
    }
}

/// A dot product is the sum of the termwise products.
proof fn lemma_dot_as_sum(x: Seq<nat>, y: Seq<nat>, n: nat)
    ensures
        sumcheck::fsum(Seq::new(n, |j: int| field::fmul(x[j], y[j]))) == r1cs::dot_upto(x, y, n),
    decreases n,
{
    if n > 0 {
        lemma_dot_as_sum(x, y, (n - 1) as nat);
        assert(Seq::new(n, |j: int| field::fmul(x[j], y[j])).drop_last() =~= Seq::new(
            (n - 1) as nat,
            |j: int| field::fmul(x[j], y[j]),
        ));
    }
}

/// An extension's value is the sum of the table entries times their weights.
proof fn lemma_mle_as_sum(f: Seq<nat>, pt: Seq<nat>, n: nat)
    ensures
        sumcheck::fsum(Seq::new(n, |i: int| field::fmul(f[i], mle::chi(pt, pt.len(), i as nat)))) == mle::mle_sum(
            f,
            pt,
            n,
        ),
    decreases n,
{
    if n > 0 {
        lemma_mle_as_sum(f, pt, (n - 1) as nat);
        assert(Seq::new(n, |i: int| field::fmul(f[i], mle::chi(pt, pt.len(), i as nat))).drop_last() =~= Seq::new(
            (n - 1) as nat,
            |i: int| field::fmul(f[i], mle::chi(pt, pt.len(), i as nat)),
        ));
    }
}

/// Summing the weighted columns against `z` is summing the rows' dot
/// products with `z`, weighted.
proof fn lemma_exchange(a: Seq<Seq<nat>>, w: Seq<nat>, z: Seq<nat>, rows: nat)
    requires
        rows <= a.len(),
        forall|r: int| 0 <= r < a.len() ==> #[trigger] a[r].len() <= z.len(),
    ensures
        sumcheck::fsum(Seq::new(z.len(), |j: int| field::fmul(col_weighted(a, w, j, rows), z[j]))) == sumcheck::fsum(
            Seq::new(rows, |r: int| field::fmul(w[r], r1cs::dot_spec(a[r], z))),
        ),
    decreases rows,
{
    field::lemma_p_facts();
    let n = z.len();
    let lhs = |j: int| field::fmul(col_weighted(a, w, j, rows), z[j]);
    if rows == 0 {
        assert forall|j: int| 0 <= j < n implies #[trigger] Seq::new(n, lhs)[j] == 0 by {
            field::lemma_fmul_zero(z[j]);
        }
        lemma_fsum_zeros(Seq::new(n, lhs));
    } else {
        let r1 = (rows - 1) as nat;
        lemma_exchange(a, w, z, r1);
        let row = a[r1 as int];
        let wr = w[r1 as int];
        let prev = |j: int| field::fmul(col_weighted(a, w, j, r1), z[j]);
        let term = |j: int| if j < row.len() { field::fmul(wr, field::fmul(row[j], z[j])) } else { 0nat };
        assert forall|j: int| 0 <= j < n implies #[trigger] Seq::new(n, lhs)[j] == Seq::new(
            n,
            |j: int| field::fadd(prev(j), term(j)),
        )[j] by {
            let c = col_weighted(a, w, j, r1);
            if j < row.len() {
                let y = field::fmul(row[j], wr);
                field::lemma_fmul_comm(field::fadd(c, y), z[j]);
                field::lemma_fmul_distrib(z[j], c, y);
                field::lemma_fmul_comm(z[j], c);
                field::lemma_fmul_comm(z[j], y);
                field::lemma_fmul_comm(row[j], wr);
                field::lemma_fmul_assoc(wr, row[j], z[j]);
            } else {
                field::lemma_field_ops_bounded(c, z[j]);
                field::lemma_fadd_zero(field::fmul(c, z[j]));
            }
        }
        assert(Seq::new(n, lhs) =~= Seq::new(n, |j: int| field::fadd(prev(j), term(j))));
        sumcheck::lemma_fsum_add(prev, term, n);
        let s_prev = sumcheck::fsum(Seq::new(n, prev));
        assert(s_prev == sumcheck::fsum(Seq::new(r1, |r: int| field::fmul(w[r], r1cs::dot_spec(a[r], z))))) by {
            assert(Seq::new(n, prev) =~= Seq::new(z.len(), |j: int| field::fmul(col_weighted(a, w, j, r1), z[j])));
        }
        assert(row.len() <= n);
        assert forall|j: int| row.len() <= j < n implies #[trigger] term(j) == 0 by {}
        sumcheck::lemma_fsum_zero_tail(term, row.len(), n);
        let u = |j: int| field::fmul(row[j], z[j]);
        let su = |j: int| field::fmul(wr, u(j));
        assert(Seq::new(row.len(), term) =~= Seq::new(row.len(), su));
        sumcheck::lemma_fsum_scale(wr, u, row.len());
        assert(sumcheck::fsum(Seq::new(row.len(), su)) == field::fmul(wr, sumcheck::fsum(Seq::new(row.len(), u))));
        lemma_dot_as_sum(row, z, row.len());
        assert(Seq::new(row.len(), u) =~= Seq::new(row.len(), |j: int| field::fmul(row[j], z[j])));
        assert(sumcheck::fsum(Seq::new(row.len(), u)) == r1cs::dot_upto(row, z, row.len()));
        assert(r1cs::dot_spec(row, z) == r1cs::dot_upto(row, z, row.len()));
        assert(sumcheck::fsum(Seq::new(n, term)) == field::fmul(wr, r1cs::dot_spec(row, z)));
        let rhs = Seq::new(rows, |r: int| field::fmul(w[r], r1cs::dot_spec(a[r], z)));
        assert(rhs.drop_last() =~= Seq::new(r1, |r: int| field::fmul(w[r], r1cs::dot_spec(a[r], z))));
        assert(sumcheck::fsum(rhs) == field::fadd(sumcheck::fsum(rhs.drop_last()), rhs.last()));
    }
}

/// A sum over the hypercube in the order of `H` is the sum over its
/// vertices in index order, first coordinate most significant.
proof fn lemma_hypercube_to_msb(g: spec_fn(Seq<nat>) -> nat, k: nat)
    requires
        sumcheck::bounded(g),
    ensures
        sumcheck::fsum(sumcheck::hypercube(k).map_values(g)) == sumcheck::fsum(
            Seq::new(mle::pow2(k), |i: int| g(msb_point(i as nat, k))),
        ),
{
    let e = Seq::<nat>::empty();
    let n = mle::pow2(k);
    assert(sumcheck::hypercube(k).map_values(g) =~= Seq::new(n, |i: int| g(e + sumcheck::lsb_point(i as nat, k)))) by {
        assert forall|i: int| 0 <= i < n implies #[trigger] (e + sumcheck::lsb_point(i as nat, k)) =~= sumcheck::lsb_point(
            i as nat,
            k,
        ) by {}
    }
    sumcheck::lemma_lsb_order(g, e, k);
    sumcheck::lemma_msb_order(g, e, k);
    assert(Seq::new(n, |i: int| g(e + sumcheck::lsb_point(i as nat, k).reverse())) =~= Seq::new(
        n,
        |i: int| g(msb_point(i as nat, k)),
    )) by {
        assert forall|i: int| 0 <= i < n implies #[trigger] (e + sumcheck::lsb_point(i as nat, k).reverse()) =~= msb_point(
            i as nat,
            k,
        ) by {}
    }
}

/// At vertex `i`, the extensions of two tables are their entries `i`.
proof fn lemma_tables_at_vertex(ta: Seq<nat>, z: Seq<nat>, k: nat, i: nat)
    requires
        ta.len() == mle::pow2(k),
        z.len() == mle::pow2(k),
        crate::roots::residues(ta),
        crate::roots::residues(z),
        i < mle::pow2(k),
    ensures
        field::fmul(mle::mle_eval(ta, msb_point(i, k)), mle::mle_eval(z, msb_point(i, k))) == field::fmul(
            ta[i as int],
            z[i as int],
        ),
{
    let pt = msb_point(i, k);
    lemma_msb_vertex(i, k, k);
    vstd::arithmetic::power2::lemma2_to64();
    assert((k - k) as nat == 0);
    assert(mle::pow2(0) == 1);
    assert(i / 1 == i);
    assert(pt.len() == k);
    assert(mle::vertex_index(pt, pt.len()) == i);
    mle::lemma_mle_agrees_on_hypercube(ta, pt);
    mle::lemma_mle_agrees_on_hypercube(z, pt);
}

/// `∑_{y∈{0,1}^k} Ã(rx, y)·z̃(y) = Az̃(rx)`: the table of `A(rx, ·)` against
/// the witness sums to the extension of `A·z` at `rx`.
proof fn lemma_column_sum(a: Seq<Seq<nat>>, z: Seq<nat>, rx: Seq<nat>)
    requires
        a.len() == mle::pow2(rx.len()),
        z.len() == mle::pow2(rx.len()),
        a[0].len() == z.len(),
        forall|r: int| 0 <= r < a.len() ==> #[trigger] a[r].len() <= z.len(),
        crate::roots::residues(z),
    ensures
        sumcheck::fsum(
            sumcheck::hypercube(rx.len()).map_values(
                |y: Seq<nat>| field::fmul(mle::mle_eval(mat_at_row_point(a, rx), y), mle::mle_eval(z, y)),
            ),
        ) == mle::mle_eval(mat_vec(a, z), rx),
{
    let k = rx.len();
    let n = mle::pow2(k);
    let ta = mat_at_row_point(a, rx);
    let w = row_weights(rx, a.len());
    let g = |y: Seq<nat>| field::fmul(mle::mle_eval(ta, y), mle::mle_eval(z, y));
    assert(sumcheck::bounded(g)) by {
        assert forall|y: Seq<nat>| #[trigger] g(y) < field::p() by {
            field::lemma_field_ops_bounded(mle::mle_eval(ta, y), mle::mle_eval(z, y));
        }
    }
    lemma_hypercube_to_msb(g, k);
    assert(crate::roots::residues(ta)) by {
        assert forall|j: int| 0 <= j < ta.len() implies #[trigger] ta[j] < field::p() by {
            lemma_col_weighted_bounded(a, w, j, a.len());
        }
    }
    assert(Seq::new(n, |i: int| g(msb_point(i as nat, k))) =~= Seq::new(
        n,
        |j: int| field::fmul(col_weighted(a, w, j, a.len()), z[j]),
    )) by {
        assert forall|i: int| 0 <= i < n implies #[trigger] g(msb_point(i as nat, k)) == field::fmul(
            col_weighted(a, w, i, a.len()),
            z[i],
        ) by {
            lemma_tables_at_vertex(ta, z, k, i as nat);
        }
    }
    lemma_exchange(a, w, z, a.len());
    let av = mat_vec(a, z);
    lemma_mle_as_sum(av, rx, av.len());
    assert(Seq::new(a.len(), |r: int| field::fmul(w[r], r1cs::dot_spec(a[r], z))) =~= Seq::new(
        av.len(),
        |i: int| field::fmul(av[i], mle::chi(rx, rx.len(), i as nat)),
    )) by {
        assert forall|r: int| 0 <= r < a.len() implies #[trigger] field::fmul(w[r], r1cs::dot_spec(a[r], z))
            == field::fmul(av[r], mle::chi(rx, rx.len(), r as nat)) by {
            lemma_weight_is_chi(rx, r as nat, k, k);
            vstd::arithmetic::power2::lemma2_to64();
            assert((k - k) as nat == 0);
            assert(mle::pow2(0) == 1);
            assert(r as nat / 1 == r as nat);
            assert(w[r] == eq_prod(rx, msb_point(r as nat, k), k));
            assert(w[r] == mle::chi(rx, rx.len(), r as nat));
            assert(av[r] == r1cs::dot_spec(a[r], z));
            field::lemma_fmul_comm(w[r], r1cs::dot_spec(a[r], z));
        }
    }
}

/// A weighted column sum is a field value.
proof fn lemma_col_weighted_bounded(m: Seq<Seq<nat>>, w: Seq<nat>, j: int, n: nat)
    ensures
        col_weighted(m, w, j, n) < field::p(),
    decreases n,
{
    field::lemma_p_facts();
    if n > 0 {
        lemma_col_weighted_bounded(m, w, j, (n - 1) as nat);
        field::lemma_field_ops_bounded(col_weighted(m, w, j, (n - 1) as nat), field::fmul(m[n - 1][j], w[n - 1]));
    }
}

// ---------------------------------------------------------------------------
// `z̃` from its two halves.
// ---------------------------------------------------------------------------

/// The weight of vertex `i` over `tt` coordinates splits into the first
/// coordinate's factor (the top bit of `i`) and the weight of the remaining
/// bits over the other coordinates.
proof fn lemma_chi_first(x: Seq<nat>, tt: nat, i: nat)
    requires
        1 <= tt <= x.len(),
    ensures
        mle::chi(x, tt, i) == field::fmul(
            mle::eq_spec(x[0], (i / mle::pow2((tt - 1) as nat)) % 2),
            mle::chi(x.drop_first(), (tt - 1) as nat, i % mle::pow2((tt - 1) as nat)),
        ),
    decreases tt,
{
    let tail = x.drop_first();
    let pp = mle::pow2((tt - 1) as nat);
    vstd::arithmetic::power2::lemma_pow2_pos((tt - 1) as nat);
    if tt == 1 {
        vstd::arithmetic::power2::lemma2_to64();
        assert(pp == 1);
        assert(i / 1 == i);
        let e = mle::eq_spec(x[0], i % 2);
        assert(mle::chi(x, 1, i) == field::fmul(mle::chi(x, 0, i / 2), e));
        assert(mle::chi(tail, 0, i % 1) == 1);
        field::lemma_fmul_comm(1, e);
    } else {
        let q = mle::pow2((tt - 2) as nat);
        vstd::arithmetic::power2::lemma_pow2_pos((tt - 2) as nat);
        vstd::arithmetic::power2::lemma_pow2_unfold((tt - 1) as nat);
        assert(pp == 2 * q);
        lemma_chi_first(x, (tt - 1) as nat, i / 2);
        vstd::arithmetic::div_mod::lemma_div_denominator(i as int, 2, q as int);
        assert((i / 2) / q == i / pp);
        vstd::arithmetic::div_mod::lemma_mod_breakdown(i as int, 2, q as int);
        let m = i % pp;
        let hi = (i / 2) % q;
        assert(m == 2 * hi + i % 2);
        vstd::arithmetic::div_mod::lemma_fundamental_div_mod_converse_div(m as int, 2, hi as int, (i % 2) as int);
        vstd::arithmetic::div_mod::lemma_fundamental_div_mod_converse_mod(m as int, 2, hi as int, (i % 2) as int);
        assert(tail[tt - 2] == x[tt - 1]);
        let e0 = mle::eq_spec(x[0], (i / pp) % 2);
        let c = mle::chi(tail, (tt - 2) as nat, hi);
        let e = mle::eq_spec(x[tt - 1], i % 2);
        assert(mle::chi(x, tt, i) == field::fmul(mle::chi(x, (tt - 1) as nat, i / 2), e));
        assert(mle::chi(x, (tt - 1) as nat, i / 2) == field::fmul(e0, c));
        assert(mle::chi(tail, (tt - 1) as nat, m) == field::fmul(mle::chi(tail, (tt - 2) as nat, m / 2), mle::eq_spec(tail[tt - 2], m % 2)));
        field::lemma_fmul_assoc(e0, c, e);
    }
}

/// `eq(x, 0) = 1 - x` and `eq(x, 1) = x`.
proof fn lemma_eq_at_bits(x: nat)
    requires
        x < field::p(),
    ensures
        mle::eq_spec(x, 0) == field::fsub(1, x),
        mle::eq_spec(x, 1) == x,
{
    field::lemma_p_facts();
    vstd::arithmetic::div_mod::lemma_small_mod(0, field::p());
    vstd::arithmetic::div_mod::lemma_small_mod(1, field::p());
    assert(field::fsub(1, 0) == 1);
    assert(field::fsub(1, 1) == 0);
    field::lemma_fmul_zero(x);
    field::lemma_fmul_zero(field::fsub(1, x));
    field::lemma_field_ops_bounded(1, x);
    field::lemma_fmul_one(field::fsub(1, x));
    field::lemma_fmul_one(x);
    field::lemma_fadd_zero(field::fsub(1, x));
    field::lemma_fadd_zero(x);
}

/// A factor common to every weight comes out of a weighted sum.
proof fn lemma_weighted_factor(f: Seq<nat>, e: nat, c: spec_fn(int) -> nat, n: nat)
    ensures
        sumcheck::fsum(Seq::new(n, |i: int| field::fmul(f[i], field::fmul(e, c(i))))) == field::fmul(
            e,
            sumcheck::fsum(Seq::new(n, |i: int| field::fmul(f[i], c(i)))),
        ),
{
    let u = |i: int| field::fmul(f[i], c(i));
    assert forall|i: int| 0 <= i < n implies #[trigger] field::fmul(f[i], field::fmul(e, c(i))) == field::fmul(e, u(i)) by {
        field::lemma_fmul_assoc(f[i], e, c(i));
        field::lemma_fmul_comm(f[i], e);
        field::lemma_fmul_assoc(e, f[i], c(i));
    }
    assert(Seq::new(n, |i: int| field::fmul(f[i], field::fmul(e, c(i)))) =~= Seq::new(n, |i: int| field::fmul(e, u(i))));
    sumcheck::lemma_fsum_scale(e, u, n);
}

/// The split law of a multilinear extension: for a table of `2^k` entries
/// and a point of `k ≥ 1` field coordinates, `z̃(ry)` is
/// `ry[0]·z̃_hi(ry[1..]) + (1 - ry[0])·z̃_lo(ry[1..])`, with `z_lo` and
/// `z_hi` the first and second halves of the table.
pub proof fn lemma_split_eval(z: Seq<nat>, ry: Seq<nat>)
    requires
        ry.len() >= 1,
        z.len() == mle::pow2(ry.len()),
        crate::roots::residues(ry),
    ensures
        split_eval(z, ry) == mle::mle_eval(z, ry),
{
    let k = ry.len();
    let h = mle::pow2((k - 1) as nat);
    vstd::arithmetic::power2::lemma_pow2_pos((k - 1) as nat);
    vstd::arithmetic::power2::lemma_pow2_unfold(k);
    assert(z.len() == 2 * h);
    assert(z.len() / 2 == h);
    let tail = ry.subrange(1, k as int);
    assert(tail =~= ry.drop_first());
    let zpub = z.subrange(0, h as int);
    let zpriv = z.subrange(h as int, z.len() as int);
    let ff = |i: int| field::fmul(z[i], mle::chi(ry, k, i as nat));
    lemma_mle_as_sum(z, ry, z.len());
    assert(Seq::new(2 * h, ff) =~= Seq::new(h, ff) + Seq::new(h, |i: int| ff(i + h)));
    sumcheck::lemma_fsum_concat(Seq::new(h, ff), Seq::new(h, |i: int| ff(i + h)));
    let ct = |i: int| mle::chi(tail, (k - 1) as nat, i as nat);
    let e0 = mle::eq_spec(ry[0], 0);
    let e1 = mle::eq_spec(ry[0], 1);
    assert(Seq::new(h, ff) =~= Seq::new(h, |i: int| field::fmul(zpub[i], field::fmul(e0, ct(i))))) by {
        assert forall|i: int| 0 <= i < h implies #[trigger] ff(i) == field::fmul(zpub[i], field::fmul(e0, ct(i))) by {
            lemma_chi_first(ry, k, i as nat);
            vstd::arithmetic::div_mod::lemma_basic_div(i, h as int);
            vstd::arithmetic::div_mod::lemma_small_mod(i as nat, h);
            assert((i as nat / h) % 2 == 0);
        }
    }
    assert(Seq::new(h, |i: int| ff(i + h)) =~= Seq::new(h, |i: int| field::fmul(zpriv[i], field::fmul(e1, ct(i))))) by {
        assert forall|i: int| 0 <= i < h implies #[trigger] ff(i + h) == field::fmul(zpriv[i], field::fmul(e1, ct(i))) by {
            lemma_chi_first(ry, k, (i + h) as nat);
            vstd::arithmetic::div_mod::lemma_fundamental_div_mod_converse_div(i + h, h as int, 1, i);
            vstd::arithmetic::div_mod::lemma_fundamental_div_mod_converse_mod(i + h, h as int, 1, i);
            assert(((i + h) as nat / h) % 2 == 1);
        }
    }
    lemma_weighted_factor(zpub, e0, ct, h);
    lemma_weighted_factor(zpriv, e1, ct, h);
    lemma_mle_as_sum(zpub, tail, h);
    lemma_mle_as_sum(zpriv, tail, h);
    assert(Seq::new(h, |i: int| field::fmul(zpub[i], ct(i))) =~= Seq::new(
        h,
        |i: int| field::fmul(zpub[i], mle::chi(tail, tail.len(), i as nat)),
    ));
    assert(Seq::new(h, |i: int| field::fmul(zpriv[i], ct(i))) =~= Seq::new(
        h,
        |i: int| field::fmul(zpriv[i], mle::chi(tail, tail.len(), i as nat)),
    ));
    lemma_eq_at_bits(ry[0]);
    field::lemma_fadd_comm(
        field::fmul(ry[0], mle::mle_eval(zpriv, tail)),
        field::fmul(field::fsub(1, ry[0]), mle::mle_eval(zpub, tail)),
    );
}

/// The values of a sequence of field elements are residues.
proof fn lemma_fe_vals_residues(s: Seq<Fe>)
    ensures
        crate::roots::residues(field::fe_vals(s)),
{
    assert forall|i: int| 0 <= i < field::fe_vals(s).len() implies #[trigger] field::fe_vals(s)[i] < field::p() by {
        field::lemma_fe_bounded(s[i]);
    }
}

/// The second sum-check's sum over `{0,1}^k` is `v_A·r_A + v_B·r_B + v_C·r_C`
/// for the true evaluations `v_A = Az̃(rx)`, `v_B`, `v_C`.
proof fn lemma_inner_total(
    a: Seq<Seq<nat>>,
    b: Seq<Seq<nat>>,
    c: Seq<Seq<nat>>,
    z: Seq<nat>,
    rx: Seq<nat>,
    ra: nat,
    rb: nat,
    rc: nat,
)
    requires
        step2_ok(rx.len(), a, b, c, z.len()),
        crate::roots::residues(z),
    ensures
        sumcheck::fsum(
            sumcheck::hypercube(rx.len()).map_values(
                |y: Seq<nat>|
                    inner_term(
                        mat_at_row_point(a, rx),
                        mat_at_row_point(b, rx),
                        mat_at_row_point(c, rx),
                        z,
                        ra,
                        rb,
                        rc,
                        y,
                    ),
            ),
        ) == field::fadd(
            field::fadd(
                field::fmul(mle::mle_eval(mat_vec(a, z), rx), ra),
                field::fmul(mle::mle_eval(mat_vec(b, z), rx), rb),
            ),
            field::fmul(mle::mle_eval(mat_vec(c, z), rx), rc),
        ),
{
    let k = rx.len();
    let n = mle::pow2(k);
    let cube = sumcheck::hypercube(k);
    let (ta, tb, tc) = (mat_at_row_point(a, rx), mat_at_row_point(b, rx), mat_at_row_point(c, rx));
    let pa = |i: int| field::fmul(mle::mle_eval(ta, cube[i]), mle::mle_eval(z, cube[i]));
    let pb = |i: int| field::fmul(mle::mle_eval(tb, cube[i]), mle::mle_eval(z, cube[i]));
    let pc = |i: int| field::fmul(mle::mle_eval(tc, cube[i]), mle::mle_eval(z, cube[i]));
    let sa = |i: int| field::fmul(ra, pa(i));
    let sb = |i: int| field::fmul(rb, pb(i));
    let sc = |i: int| field::fmul(rc, pc(i));
    let sab = |i: int| field::fadd(sa(i), sb(i));
    let g = |y: Seq<nat>| inner_term(ta, tb, tc, z, ra, rb, rc, y);
    assert(cube.map_values(g) =~= Seq::new(n, |i: int| field::fadd(sab(i), sc(i)))) by {
        assert forall|i: int| 0 <= i < n implies #[trigger] g(cube[i]) == field::fadd(sab(i), sc(i)) by {
            let y = cube[i];
            let (ea, eb, ec, ez) = (mle::mle_eval(ta, y), mle::mle_eval(tb, y), mle::mle_eval(tc, y), mle::mle_eval(z, y));
            let (x1, x2, x3) = (field::fmul(ra, ea), field::fmul(rb, eb), field::fmul(rc, ec));
            field::lemma_fmul_comm(field::fadd(field::fadd(x1, x2), x3), ez);
            field::lemma_fmul_distrib(ez, field::fadd(x1, x2), x3);
            field::lemma_fmul_distrib(ez, x1, x2);
            field::lemma_fmul_comm(ez, x1);
            field::lemma_fmul_comm(ez, x2);
            field::lemma_fmul_comm(ez, x3);
            field::lemma_fmul_assoc(ra, ea, ez);
            field::lemma_fmul_assoc(rb, eb, ez);
            field::lemma_fmul_assoc(rc, ec, ez);
        }
    }
    sumcheck::lemma_fsum_add(sab, sc, n);
    sumcheck::lemma_fsum_add(sa, sb, n);
    sumcheck::lemma_fsum_scale(ra, pa, n);
    sumcheck::lemma_fsum_scale(rb, pb, n);
    sumcheck::lemma_fsum_scale(rc, pc, n);
    lemma_column_sum(a, z, rx);
    lemma_column_sum(b, z, rx);
    lemma_column_sum(c, z, rx);
    assert(cube.map_values(|y: Seq<nat>| field::fmul(mle::mle_eval(ta, y), mle::mle_eval(z, y))) =~= Seq::new(n, pa));
    assert(cube.map_values(|y: Seq<nat>| field::fmul(mle::mle_eval(tb, y), mle::mle_eval(z, y))) =~= Seq::new(n, pb));
    assert(cube.map_values(|y: Seq<nat>| field::fmul(mle::mle_eval(tc, y), mle::mle_eval(z, y))) =~= Seq::new(n, pc));
    let (va, vb, vc) = (mle::mle_eval(mat_vec(a, z), rx), mle::mle_eval(mat_vec(b, z), rx), mle::mle_eval(mat_vec(c, z), rx));
    field::lemma_fmul_comm(va, ra);
    field::lemma_fmul_comm(vb, rb);
    field::lemma_fmul_comm(vc, rc);
}

// ---------------------------------------------------------------------------
// The equality polynomial.
// ---------------------------------------------------------------------------

proof fn lemma_eq_prod_prefix_bits(x: Seq<nat>, e: Seq<nat>, n: nat)
    requires
        n <= x.len(),
        n <= e.len(),
        mle::is_boolean(x),
        mle::is_boolean(e),
    ensures
        eq_prod(x, e, n) == (if x.take(n as int) == e.take(n as int) { 1nat } else { 0nat }),
    decreases n,
{
    field::lemma_p_facts();
    if n == 0 {
        assert(x.take(0) =~= e.take(0));
    } else {
        let n1 = (n - 1) as nat;
        lemma_eq_prod_prefix_bits(x, e, n1);
        assert(x[n1 as int] == 0 || x[n1 as int] == 1);
        assert(e[n1 as int] == 0 || e[n1 as int] == 1);
        mle::lemma_eq_on_bits(x[n1 as int], e[n1 as int]);
        let c = eq_prod(x, e, n1);
        field::lemma_fmul_zero(c);
        field::lemma_fmul_zero(1);
        vstd::arithmetic::div_mod::lemma_small_mod(1, field::p());
        assert(x.take(n as int) =~= x.take(n1 as int).push(x[n1 as int]));
        assert(e.take(n as int) =~= e.take(n1 as int).push(e[n1 as int]));
        if x.take(n as int) == e.take(n as int) {
            assert(x.take(n1 as int) =~= x.take(n as int).drop_last());
            assert(e.take(n1 as int) =~= e.take(n as int).drop_last());
            assert(x[n1 as int] == x.take(n as int).last());
        } else if x.take(n1 as int) == e.take(n1 as int) {
            assert(x[n1 as int] != e[n1 as int]);
        }
    }
}

/// On the Boolean hypercube, `eq(x, e) = ∏ eq(x_i, e_i)` is the indicator of
/// `x = e`.
pub proof fn lemma_eq_indicator(x: Seq<nat>, e: Seq<nat>)
    requires
        x.len() == e.len(),
        mle::is_boolean(x),
        mle::is_boolean(e),
    ensures
        eq_prod(x, e, x.len()) == (if x == e { 1nat } else { 0nat }),
{
    lemma_eq_prod_prefix_bits(x, e, x.len());
    assert(x.take(x.len() as int) =~= x);
    assert(e.take(e.len() as int) =~= e);
}

/// `eq` over the first `n` coordinates reads only those coordinates.
proof fn lemma_eq_prod_prefix(x: Seq<nat>, b: nat, e: Seq<nat>, n: nat)
    requires
        n <= x.len(),
    ensures
        eq_prod(x.push(b), e, n) == eq_prod(x, e, n),
    decreases n,
{
    if n > 0 {
        lemma_eq_prod_prefix(x, b, e, (n - 1) as nat);
    }
}

/// The cube sum of `eq(·, e)` with the first coordinates fixed to `pre`
/// is `eq(pre, e)` over those coordinates.
proof fn lemma_eq_cube_sum(pre: Seq<nat>, e: Seq<nat>, m: nat)
    requires
        pre.len() + m == e.len(),
        crate::roots::residues(e),
    ensures
        sumcheck::cube_sum(|x: Seq<nat>| eq_prod(x, e, e.len()), pre, m) == eq_prod(pre, e, pre.len()),
    decreases m,
{
    field::lemma_p_facts();
    let g = |x: Seq<nat>| eq_prod(x, e, e.len());
    if m > 0 {
        let l = pre.len();
        lemma_eq_cube_sum(pre.push(0), e, (m - 1) as nat);
        lemma_eq_cube_sum(pre.push(1), e, (m - 1) as nat);
        lemma_eq_prod_prefix(pre, 0, e, l);
        lemma_eq_prod_prefix(pre, 1, e, l);
        let c = eq_prod(pre, e, l);
        let y = e[l as int];
        assert(pre.push(0nat)[l as int] == 0 && pre.push(1nat)[l as int] == 1);
        assert(eq_prod(pre.push(0), e, l + 1) == field::fmul(c, mle::eq_spec(0, y)));
        assert(eq_prod(pre.push(1), e, l + 1) == field::fmul(c, mle::eq_spec(1, y)));
        // eq(0, y) + eq(1, y) = (1 - y) + y = 1
        field::lemma_fmul_comm(0, y);
        field::lemma_fmul_comm(1, y);
        field::lemma_fmul_comm(field::fsub(1, 0), field::fsub(1, y));
        field::lemma_fmul_comm(field::fsub(1, 1), field::fsub(1, y));
        lemma_eq_at_bits(y);
        assert(mle::eq_spec(0, y) == mle::eq_spec(y, 0));
        assert(mle::eq_spec(1, y) == mle::eq_spec(y, 1));
        field::lemma_fmul_distrib(c, mle::eq_spec(0, y), mle::eq_spec(1, y));
        assert(field::fadd(field::fsub(1, y), y) == 1) by {
            vstd::arithmetic::div_mod::lemma_add_mod_noop(1 - y, y as int, field::p() as int);
            vstd::arithmetic::div_mod::lemma_small_mod(y, field::p());
            vstd::arithmetic::div_mod::lemma_small_mod(1, field::p());
        }
        lemma_eq_prod_bounded(pre, e, l);
        field::lemma_fmul_one(c);
    }
}

proof fn lemma_eq_prod_bounded(x: Seq<nat>, e: Seq<nat>, n: nat)
    ensures
        eq_prod(x, e, n) < field::p(),
{
    field::lemma_p_facts();
    if n > 0 {
        field::lemma_field_ops_bounded(eq_prod(x, e, (n - 1) as nat), mle::eq_spec(x[n - 1], e[n - 1]));
    }
}

/// `∑_{x∈{0,1}^k} eq(x, e) = 1` for every point `e` of `k` field
/// coordinates.
pub proof fn lemma_eq_sums_to_one(e: Seq<nat>)
    requires
        crate::roots::residues(e),
    ensures
        sumcheck::fsum(sumcheck::hypercube(e.len()).map_values(|x: Seq<nat>| eq_prod(x, e, e.len()))) == 1,
{
    let g = |x: Seq<nat>| eq_prod(x, e, e.len());
    let k = e.len();
    let z = Seq::<nat>::empty();
    assert(sumcheck::bounded(g)) by {
        assert forall|x: Seq<nat>| #[trigger] g(x) < field::p() by {
            lemma_eq_prod_bounded(x, e, k);
        }
    }
    assert(sumcheck::hypercube(k).map_values(g) =~= Seq::new(
        mle::pow2(k),
        |i: int| g(z + sumcheck::lsb_point(i as nat, k)),
    )) by {
        assert forall|i: int| 0 <= i < mle::pow2(k) implies #[trigger] (z + sumcheck::lsb_point(i as nat, k))
            =~= sumcheck::lsb_point(i as nat, k) by {}
    }
    sumcheck::lemma_lsb_order(g, z, k);
    lemma_eq_cube_sum(z, e, k);
}

} // verus!
