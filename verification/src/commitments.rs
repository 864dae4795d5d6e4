//! Pedersen commitments over the BLS12-381 group G1, a Pedersen commitment to
//! a polynomial, and an inner-product argument.
//!
//! A point is held by its canonical affine coordinates; the group operations
//! are done by `ark_ec` behind small trusted wrappers. What those return is a
//! function of the coordinates and scalars handed in, named by the spec
//! functions `g1_sum`, `g1_diff`, `g1_times` and `seeded_point`, so the
//! contracts below pin every computed point down in terms of those names.
use crate::field::{self, Fe};
use crate::poly::{self, Poly};
use ark_bls12_381::{Fq, Fr, G1Affine, G1Projective};
use ark_ec::{AffineRepr, CurveGroup, PrimeGroup};
use ark_ff::{BigInt, PrimeField};
use ark_std::rand::SeedableRng;
use ark_std::UniformRand;
use vstd::prelude::*;

verus! {

/// The order of the BLS12-381 base field, in which point coordinates live.
pub open spec fn q() -> nat {
    4002409555221667393417789825735904156556882819939007885332058136124031650490837864442687629129015664037894272559787nat
}

/// The integer that six little-endian 64-bit limbs denote.
pub open spec fn limbs6_val(l: Seq<u64>) -> nat {
    l[0] as nat + 0x1_0000_0000_0000_0000 * (l[1] as nat + 0x1_0000_0000_0000_0000 * (l[2] as nat
        + 0x1_0000_0000_0000_0000 * (l[3] as nat + 0x1_0000_0000_0000_0000 * (l[4] as nat
        + 0x1_0000_0000_0000_0000 * (l[5] as nat)))))
}

/// A point of the group G1 of BLS12-381, held by its affine coordinates: the
/// limbs of `x` and `y`, below `q`, and whether it is the point at infinity
/// (whose coordinates are both zero).
#[derive(Clone, Copy, Debug)]
pub struct G1 {
    pub(crate) x: [u64; 6],
    pub(crate) y: [u64; 6],
    pub(crate) infinity: bool,
}

impl View for G1 {
    type V = (Seq<u64>, Seq<u64>, bool);

    closed spec fn view(&self) -> (Seq<u64>, Seq<u64>, bool) {
        (self.x@, self.y@, self.infinity)
    }
}

/// The point at infinity, the neutral element of G1.
pub open spec fn g1_identity() -> (Seq<u64>, Seq<u64>, bool) {
    (Seq::new(6, |i: int| 0u64), Seq::new(6, |i: int| 0u64), true)
}

/// What `Projective + Projective` of ark_ec returns, by coordinates.
pub uninterp spec fn g1_sum(a: (Seq<u64>, Seq<u64>, bool), b: (Seq<u64>, Seq<u64>, bool)) -> (Seq<u64>, Seq<u64>, bool);

/// What `Projective - Projective` of ark_ec returns, by coordinates.
pub uninterp spec fn g1_diff(a: (Seq<u64>, Seq<u64>, bool), b: (Seq<u64>, Seq<u64>, bool)) -> (Seq<u64>, Seq<u64>, bool);

/// What `Projective * Fr` of ark_ec returns, by coordinates and the value of
/// the scalar.
pub uninterp spec fn g1_times(a: (Seq<u64>, Seq<u64>, bool), s: nat) -> (Seq<u64>, Seq<u64>, bool);

/// The point that `Projective::rand` of ark_ec draws from a `StdRng` seeded
/// with `seed`.
pub uninterp spec fn seeded_point(seed: u64) -> (Seq<u64>, Seq<u64>, bool);

/// The offset added to a generator's index to get its seed.
pub open spec fn seed_offset() -> nat {
    0xcafeEf0cacc1a
}

/// The generator with index `n`: the point drawn from the seed
/// `0xcafeEf0cacc1a + n`.
pub open spec fn blinding_point(n: u64) -> (Seq<u64>, Seq<u64>, bool) {
    seeded_point((seed_offset() + n) as u64)
}

/// What `is_on_curve` of ark_ec's `Affine` returns for the finite point
/// with the canonical coordinates `x`, `y`.
pub uninterp spec fn g1_on_curve(x: Seq<u64>, y: Seq<u64>) -> bool;

/// What `is_in_correct_subgroup_assuming_on_curve` of ark_ec's `Affine`
/// returns for the finite point with the canonical coordinates `x`, `y`.
pub uninterp spec fn g1_in_subgroup(x: Seq<u64>, y: Seq<u64>) -> bool;

/// A point of G1: the point at infinity, or a finite point with canonical
/// coordinates (six limbs, below `q`) on the curve and in the prime-order
/// subgroup.
pub open spec fn in_g1(a: (Seq<u64>, Seq<u64>, bool)) -> bool {
    ||| a == g1_identity()
    ||| {
        &&& !a.2
        &&& a.0.len() == 6 && a.1.len() == 6
        &&& limbs6_val(a.0) < q() && limbs6_val(a.1) < q()
        &&& g1_on_curve(a.0, a.1)
        &&& g1_in_subgroup(a.0, a.1)
    }
}

/// `g` generates G1, a cyclic group of prime order `p`: every point of G1 is
/// a multiple `g·k` with `k < p`, and adding, subtracting and scaling
/// multiples of `g` adds, subtracts and multiplies the scalars in the field.
/// The lemmas below bring each law in where a proof needs it.
#[verifier::opaque]
pub open spec fn cyclic_generator(g: (Seq<u64>, Seq<u64>, bool)) -> bool {
    &&& in_g1(g)
    &&& g1_times(g, 0) == g1_identity()
    &&& forall|a: (Seq<u64>, Seq<u64>, bool)|
        #[trigger] in_g1(a) ==> exists|k: nat| k < field::p() && a == #[trigger] g1_times(g, k)
    &&& forall|k: nat| k < field::p() ==> #[trigger] in_g1(g1_times(g, k))
    &&& forall|s: nat, t: nat|
        s < field::p() && t < field::p() ==> #[trigger] g1_sum(g1_times(g, s), g1_times(g, t)) == g1_times(
            g,
            field::fadd(s, t),
        )
    &&& forall|s: nat, t: nat|
        s < field::p() && t < field::p() ==> #[trigger] g1_diff(g1_times(g, s), g1_times(g, t)) == g1_times(
            g,
            field::fsub(s, t),
        )
    &&& forall|s: nat, t: nat|
        s < field::p() && t < field::p() ==> #[trigger] g1_times(g1_times(g, s), t) == g1_times(
            g,
            field::fmul(s, t),
        )
}

/// A point of G1 is a multiple of the generator.
pub proof fn lemma_g1_multiple(g: (Seq<u64>, Seq<u64>, bool), a: (Seq<u64>, Seq<u64>, bool)) -> (k: nat)
    requires
        cyclic_generator(g),
        in_g1(a),
    ensures
        k < field::p(),
        a == g1_times(g, k),
{
    reveal(cyclic_generator);
    choose|k: nat| k < field::p() && a == g1_times(g, k)
}

/// Adding multiples of the generator adds the scalars.
pub proof fn lemma_g1_sum_multiples(g: (Seq<u64>, Seq<u64>, bool), s: nat, t: nat)
    requires
        cyclic_generator(g),
        s < field::p(),
        t < field::p(),
    ensures
        g1_sum(g1_times(g, s), g1_times(g, t)) == g1_times(g, field::fadd(s, t)),
{
    reveal(cyclic_generator);
}

/// Subtracting multiples of the generator subtracts the scalars.
pub proof fn lemma_g1_diff_multiples(g: (Seq<u64>, Seq<u64>, bool), s: nat, t: nat)
    requires
        cyclic_generator(g),
        s < field::p(),
        t < field::p(),
    ensures
        g1_diff(g1_times(g, s), g1_times(g, t)) == g1_times(g, field::fsub(s, t)),
{
    reveal(cyclic_generator);
}

/// Scaling a multiple of the generator multiplies the scalars.
pub proof fn lemma_g1_times_multiple(g: (Seq<u64>, Seq<u64>, bool), s: nat, t: nat)
    requires
        cyclic_generator(g),
        s < field::p(),
        t < field::p(),
    ensures
        g1_times(g1_times(g, s), t) == g1_times(g, field::fmul(s, t)),
{
    reveal(cyclic_generator);
}

/// The multiples of the generator lie in G1, and its zeroth multiple is the
/// point at infinity.
pub proof fn lemma_g1_multiple_in(g: (Seq<u64>, Seq<u64>, bool), k: nat)
    requires
        cyclic_generator(g),
        k < field::p(),
    ensures
        in_g1(g1_times(g, k)),
        in_g1(g),
        g1_times(g, 0) == g1_identity(),
{
    reveal(cyclic_generator);
}

/// The coordinates of a sequence of points.
pub open spec fn g1_views(s: Seq<G1>) -> Seq<(Seq<u64>, Seq<u64>, bool)> {
    s.map_values(|g: G1| g@)
}

/// The largest seed that `blinding_curve` takes: it adds a fixed offset.
pub open spec fn max_seed() -> nat {
    (u64::MAX - seed_offset()) as nat
}

/// `Projective::rand` of ark_ec on a `StdRng` (rand's ChaCha12 generator)
/// seeded by `seed_from_u64(seed)`, converted to affine coordinates: a
/// pseudo-random point that depends on the seed alone, named
/// `seeded_point(seed)`. It lies in G1: ark_ec's `CurveGroup` guarantees
/// its points to be in the prime-order subgroup.
#[verifier::external_body]
fn seeded_curve_point(seed: u64) -> (r: G1)
    ensures
        r@ == seeded_point(seed),
        in_g1(r@),
{
    let mut rng = ark_std::rand::rngs::StdRng::seed_from_u64(seed);
    let q = G1Projective::rand(&mut rng).into_affine();
    G1 { x: q.x.into_bigint().0, y: q.y.into_bigint().0, infinity: q.infinity }
}

/// The generator with index `n`: the point drawn from the seed
/// `0xcafeEf0cacc1a + n`, which must not overflow.
pub fn blinding_curve(n: u64) -> (r: G1)
    requires
        n <= max_seed(),
    ensures
        r@ == blinding_point(n),
        r@ == seeded_point((seed_offset() + n) as u64),
        in_g1(r@),
{
    seeded_curve_point(0xcafeEf0cacc1a + n)
}

/// `PrimeGroup::generator` of ark_ec for G1, in affine coordinates. ark_ec
/// documents G1 as a group of prime order `r` (`PrimeGroup`, whose scalar
/// field `Fr` has the order `p` here) and this point as a fixed generator of
/// it; `cyclic_generator` says what that gives: every point of the group is
/// a multiple of it, and the group operations act on the multiples as the
/// field operations act on the scalars.
#[verifier::external_body]
fn g1_generator() -> (r: G1)
    ensures
        cyclic_generator(r@),
{
    let q = G1Projective::generator().into_affine();
    G1 { x: q.x.into_bigint().0, y: q.y.into_bigint().0, infinity: q.infinity }
}

/// `Affine::new_unchecked` of ark_ec on canonical coordinates, then
/// `is_on_curve`; named `g1_on_curve`.
#[verifier::external_body]
fn g1_check_on_curve(x: [u64; 6], y: [u64; 6]) -> (r: bool)
    requires
        limbs6_val(x@) < q(),
        limbs6_val(y@) < q(),
    ensures
        r == g1_on_curve(x@, y@),
{
    G1Affine::new_unchecked(Fq::new(BigInt(x)), Fq::new(BigInt(y))).is_on_curve()
}

/// `Affine::new_unchecked` of ark_ec on canonical coordinates, then
/// `is_in_correct_subgroup_assuming_on_curve`; named `g1_in_subgroup`.
#[verifier::external_body]
fn g1_check_subgroup(x: [u64; 6], y: [u64; 6]) -> (r: bool)
    requires
        limbs6_val(x@) < q(),
        limbs6_val(y@) < q(),
    ensures
        r == g1_in_subgroup(x@, y@),
{
    G1Affine::new_unchecked(Fq::new(BigInt(x)), Fq::new(BigInt(y))).is_in_correct_subgroup_assuming_on_curve()
}

/// `Projective + Projective` of ark_ec on the points with the given affine
/// coordinates, normalized back to affine coordinates; named `g1_sum`.
#[verifier::external_body]
fn g1_add(a: &G1, b: &G1) -> (r: G1)
    ensures
        r@ == g1_sum(a@, b@),
{
    let pa = G1Affine { x: Fq::new(BigInt(a.x)), y: Fq::new(BigInt(a.y)), infinity: a.infinity };
    let pb = G1Affine { x: Fq::new(BigInt(b.x)), y: Fq::new(BigInt(b.y)), infinity: b.infinity };
    let q = (pa.into_group() + pb.into_group()).into_affine();
    G1 { x: q.x.into_bigint().0, y: q.y.into_bigint().0, infinity: q.infinity }
}

/// `Projective - Projective` of ark_ec, as `g1_add`; named `g1_diff`.
#[verifier::external_body]
fn g1_sub(a: &G1, b: &G1) -> (r: G1)
    ensures
        r@ == g1_diff(a@, b@),
{
    let pa = G1Affine { x: Fq::new(BigInt(a.x)), y: Fq::new(BigInt(a.y)), infinity: a.infinity };
    let pb = G1Affine { x: Fq::new(BigInt(b.x)), y: Fq::new(BigInt(b.y)), infinity: b.infinity };
    let q = (pa.into_group() - pb.into_group()).into_affine();
    G1 { x: q.x.into_bigint().0, y: q.y.into_bigint().0, infinity: q.infinity }
}

/// `Projective * Fr` of ark_ec: the point times the scalar; named
/// `g1_times`.
#[verifier::external_body]
fn g1_scale(a: &G1, s: &Fe) -> (r: G1)
    ensures
        r@ == g1_times(a@, s@),
{
    let pa = G1Affine { x: Fq::new(BigInt(a.x)), y: Fq::new(BigInt(a.y)), infinity: a.infinity };
    let k = Fr::new(BigInt(s.limbs));
    let q = (pa.into_group() * k).into_affine();
    G1 { x: q.x.into_bigint().0, y: q.y.into_bigint().0, infinity: q.infinity }
}

/// `PrimeField::from_bigint` of ark_ff on `Fq` followed by `into_bigint`:
/// `Some` of the same limbs exactly for integers below `q`.
#[verifier::external_body]
fn fq_from_bigint(a: [u64; 6]) -> (r: Option<[u64; 6]>)
    ensures
        r is Some <==> limbs6_val(a@) < q(),
        r matches Some(l) ==> l == a,
{
    Fq::from_bigint(BigInt(a)).map(|v| v.into_bigint().0)
}

impl G1 {
    /// The point at infinity.
    pub fn identity() -> (r: G1)
        ensures
            r@ == g1_identity(),
    {
        let r = G1 { x: [0u64; 6], y: [0u64; 6], infinity: true };
        proof {
            assert(r.x@ =~= Seq::new(6, |i: int| 0u64));
            assert(r.y@ =~= Seq::new(6, |i: int| 0u64));
        }
        r
    }

    /// The finite point with the given affine coordinates, when both are
    /// below `q` and the point lies on the curve and in the prime-order
    /// subgroup.
    pub fn from_coordinates(x: [u64; 6], y: [u64; 6]) -> (r: Option<G1>)
        ensures
            r is Some <==> limbs6_val(x@) < q() && limbs6_val(y@) < q() && g1_on_curve(x@, y@)
                && g1_in_subgroup(x@, y@),
            r matches Some(g) ==> g@ == (x@, y@, false) && in_g1(g@),
    {
        match (fq_from_bigint(x), fq_from_bigint(y)) {
            (Some(cx), Some(cy)) => {
                if g1_check_on_curve(cx, cy) && g1_check_subgroup(cx, cy) {
                    Some(G1 { x: cx, y: cy, infinity: false })
                } else {
                    None
                }
            },
            _ => None,
        }
    }

    /// The generator of G1 that ark_ec fixes, with what it gives: every
    /// point of G1 is a multiple of it, and the group operations act on the
    /// multiples as the field operations act on the scalars.
    pub fn generator() -> (r: G1)
        ensures
            cyclic_generator(r@),
    {
        g1_generator()
    }

    /// `self + other`.
    pub fn add(&self, other: &G1) -> (r: G1)
        ensures
            r@ == g1_sum(self@, other@),
    {
        g1_add(self, other)
    }

    /// `self - other`.
    pub fn sub(&self, other: &G1) -> (r: G1)
        ensures
            r@ == g1_diff(self@, other@),
    {
        g1_sub(self, other)
    }

    /// `self · s`.
    pub fn scale(&self, s: &Fe) -> (r: G1)
        ensures
            r@ == g1_times(self@, s@),
    {
        g1_scale(self, s)
    }

    /// Equality of the coordinates, which for canonical affine coordinates is
    /// equality of the points.
    pub fn equals(&self, other: &G1) -> (r: bool)
        ensures
            r == (self@ == other@),
    {
        let mut i: usize = 0;
        while i < 6
            invariant
                i <= 6,
                forall|t: int| 0 <= t < i ==> self.x@[t] == other.x@[t] && self.y@[t] == other.y@[t],
            decreases 6 - i,
        {
            if self.x[i] != other.x[i] || self.y[i] != other.y[i] {
                return false;
            }
            i = i + 1;
        }
        proof {
            assert(self.x@ =~= other.x@);
            assert(self.y@ =~= other.y@);
        }
        self.infinity == other.infinity
    }
}

// ---------------------------------------------------------------------------
// Pedersen commitments.
// ---------------------------------------------------------------------------

/// `B·s + G_0·v_0 + ... + G_{n-1}·v_{n-1}`, added from the front, for the
/// generators `B = blinding_point(seed - 1)` and
/// `G_i = blinding_point(seed + i)`.
pub open spec fn pedersen_upto(v: Seq<nat>, s: nat, seed: nat, n: nat) -> (Seq<u64>, Seq<u64>, bool)
    decreases n,
{
    if n == 0 {
        g1_times(blinding_point((seed - 1) as u64), s)
    } else {
        g1_sum(pedersen_upto(v, s, seed, (n - 1) as nat), g1_times(blinding_point((seed + n - 1) as u64), v[n - 1]))
    }
}

/// The Pedersen commitment `⟨v, G⟩ + s·B` with the generators of `seed`.
pub open spec fn pedersen(v: Seq<nat>, s: nat, seed: nat) -> (Seq<u64>, Seq<u64>, bool) {
    pedersen_upto(v, s, seed, v.len())
}

/// A commitment `C = ⟨v, G⟩ + s·B` to the values `v` with the blinding
/// factor `s`; `B` is drawn from `seed - 1` and `G_i` from `seed + i`.
pub struct PedersenCommitment {
    pub v: Vec<Fe>,
    pub s: Fe,
    pub seed: u64,
}

/// The seeds that a commitment to `n` values with `seed` draws from are
/// within what `blinding_curve` takes.
pub open spec fn seeds_ok(seed: nat, n: nat) -> bool {
    1 <= seed && seed + n <= max_seed()
}

impl PedersenCommitment {
    /// `C = s·B + ⟨v, G⟩`.
    pub fn compute(&self) -> (r: G1)
        requires
            seeds_ok(self.seed as nat, self.v.len() as nat),
        ensures
            r@ == pedersen(field::fe_vals(self.v@), self.s@, self.seed as nat),
            in_g1(blinding_point((self.seed - 1) as u64)),
            forall|i: int| 0 <= i < self.v.len() ==> in_g1(#[trigger] blinding_point((self.seed + i) as u64)),
    {
        let ghost vv = field::fe_vals(self.v@);
        let b = blinding_curve(self.seed - 1);
        let mut c = b.scale(&self.s);
        let mut i: usize = 0;
        while i < self.v.len()
            invariant
                seeds_ok(self.seed as nat, self.v.len() as nat),
                vv == field::fe_vals(self.v@),
                i <= self.v.len(),
                c@ == pedersen_upto(vv, self.s@, self.seed as nat, i as nat),
                in_g1(blinding_point((self.seed - 1) as u64)),
                forall|t: int| 0 <= t < i ==> in_g1(#[trigger] blinding_point((self.seed + t) as u64)),
            decreases self.v.len() - i,
        {
            let g = blinding_curve(self.seed + i as u64);
            let term = g.scale(&self.v[i]);
            c = c.add(&term);
            i = i + 1;
        }
        c
    }
}

/// Pedersen commitments add up: with the same generators, the commitment to
/// `v1` with the blinding factor `s1` plus the commitment to `v2` with `s2`
/// is the commitment to `v1 + v2` with `s1 + s2`. It rests on the group laws
/// of G1 (`cyclic_generator`, which `G1::generator` gives) and on the
/// generators lying in G1 (which `PedersenCommitment::compute` gives).
pub proof fn lemma_pedersen_homomorphic(
    g: (Seq<u64>, Seq<u64>, bool),
    v1: Seq<nat>,
    s1: nat,
    v2: Seq<nat>,
    s2: nat,
    seed: nat,
)
    requires
        cyclic_generator(g),
        seed >= 1,
        v1.len() == v2.len(),
        crate::roots::residues(v1),
        crate::roots::residues(v2),
        s1 < field::p() && s2 < field::p(),
        in_g1(blinding_point((seed - 1) as u64)),
        forall|i: int| 0 <= i < v1.len() ==> in_g1(#[trigger] blinding_point((seed + i) as u64)),
    ensures
        g1_sum(pedersen(v1, s1, seed), pedersen(v2, s2, seed)) == pedersen(comb_add(v1, v2), field::fadd(s1, s2), seed),
{
    field::lemma_p_facts();
    let n = v1.len();
    let beta = crate::halving::g1_log(g, blinding_point((seed - 1) as u64));
    crate::halving::lemma_g1_log(g, blinding_point((seed - 1) as u64));
    let kg = Seq::new(n, |i: int| crate::halving::g1_log(g, blinding_point((seed + i) as u64)));
    assert forall|i: int| 0 <= i < n implies #[trigger] kg[i] < field::p() && blinding_point((seed + i) as u64)
        == g1_times(g, kg[i]) by {
        crate::halving::lemma_g1_log(g, blinding_point((seed + i) as u64));
    }
    let w = comb_add(v1, v2);
    assert forall|i: int| 0 <= i < n implies #[trigger] w[i] < field::p() by {
        field::lemma_field_ops_bounded(v1[i], v2[i]);
    }
    field::lemma_field_ops_bounded(s1, s2);
    crate::openings::lemma_pedersen_logs(g, beta, kg, v1, s1, seed, n);
    crate::openings::lemma_pedersen_logs(g, beta, kg, v2, s2, seed, n);
    crate::openings::lemma_pedersen_logs(g, beta, kg, w, field::fadd(s1, s2), seed, n);
    let (d1, d2) = (crate::r1cs::dot_upto(kg, v1, n), crate::r1cs::dot_upto(kg, v2, n));
    let (b1, b2) = (field::fmul(beta, s1), field::fmul(beta, s2));
    lemma_g1_sum_multiples(g, field::fadd(b1, d1), field::fadd(b2, d2));
    lemma_dot_add(kg, v1, v2, n);
    field::lemma_fmul_distrib(beta, s1, s2);
    lemma_fadd_pairs(b1, d1, b2, d2);
    lemma_fadd_pairs(b1, b2, d1, d2);
    assert(b1 + d1 + b2 + d2 == b1 + b2 + d1 + d2);
}

/// The dot product with a sum of vectors is the sum of the dot products.
proof fn lemma_dot_add(k: Seq<nat>, a: Seq<nat>, b: Seq<nat>, n: nat)
    requires
        n <= a.len(),
        a.len() == b.len(),
    ensures
        crate::r1cs::dot_upto(k, comb_add(a, b), n) == field::fadd(
            crate::r1cs::dot_upto(k, a, n),
            crate::r1cs::dot_upto(k, b, n),
        ),
    decreases n,
{
    field::lemma_p_facts();
    if n > 0 {
        let n1 = (n - 1) as nat;
        lemma_dot_add(k, a, b, n1);
        let (kj, aj, bj) = (k[n1 as int], a[n1 as int], b[n1 as int]);
        let (da, db) = (crate::r1cs::dot_upto(k, a, n1), crate::r1cs::dot_upto(k, b, n1));
        field::lemma_fmul_distrib(kj, aj, bj);
        lemma_fadd_pairs(da, db, field::fmul(kj, aj), field::fmul(kj, bj));
        lemma_fadd_pairs(da, field::fmul(kj, aj), db, field::fmul(kj, bj));
        assert(da + db + field::fmul(kj, aj) + field::fmul(kj, bj) == da + field::fmul(kj, aj) + db + field::fmul(
            kj,
            bj,
        ));
    }
}

/// `(a + b) + (c + d)` in the field is the sum reduced once.
proof fn lemma_fadd_pairs(a: nat, b: nat, c: nat, d: nat)
    ensures
        field::fadd(field::fadd(a, b), field::fadd(c, d)) == (a + b + c + d) % field::p(),
{
    field::lemma_p_facts();
    vstd::arithmetic::div_mod::lemma_add_mod_noop((a + b) as int, (c + d) as int, field::p() as int);
}

/// `x^i` in the field, one multiplication at a time.
pub open spec fn xpow(x: nat, i: nat) -> nat
    decreases i,
{
    if i == 0 {
        1
    } else {
        field::fmul(xpow(x, (i - 1) as nat), x)
    }
}

/// `s_0 + s_1·x + ... + s_{n-1}·x^{n-1}`, added from the front.
pub open spec fn scalar_comb(s: Seq<nat>, x: nat, n: nat) -> nat
    decreases n,
{
    if n <= 1 {
        s[0]
    } else {
        field::fadd(scalar_comb(s, x, (n - 1) as nat), field::fmul(s[n - 1], xpow(x, (n - 1) as nat)))
    }
}

/// `C_0 + C_1·x + ... + C_{n-1}·x^{n-1}`, added from the front.
pub open spec fn point_comb(c: Seq<(Seq<u64>, Seq<u64>, bool)>, x: nat, n: nat) -> (Seq<u64>, Seq<u64>, bool)
    decreases n,
{
    if n <= 1 {
        c[0]
    } else {
        g1_sum(point_comb(c, x, (n - 1) as nat), g1_times(c[n - 1], xpow(x, (n - 1) as nat)))
    }
}

/// The blinding factors of a sequence of commitments.
pub open spec fn blinds(c: Seq<PedersenCommitment>) -> Seq<nat> {
    c.map_values(|p: PedersenCommitment| p.s@)
}

/// A commitment to a polynomial: one Pedersen commitment per coefficient,
/// each with a blinding factor of its own, all with the generators of
/// `seed`. Evaluating at `x` opens `y = p(x)` with the proof
/// `π = s_0 + s_1·x + ...`, checked against `∑ C_i·x^i = y·G + π·B`.
pub struct PedersenPolynomialCommitment<'a> {
    pub poly: &'a Poly,
    pub coeffs: Vec<PedersenCommitment>,
    pub seed: u64,
}

impl<'a> PedersenPolynomialCommitment<'a> {
    /// Commits to each coefficient with a fresh random blinding factor.
    pub fn new(poly: &'a Poly, seed: u64) -> (r: Self)
        ensures
            r.poly == poly,
            r.seed == seed,
            r.coeffs.len() == poly.coeffs.len(),
            forall|i: int|
                0 <= i < r.coeffs.len() ==> (#[trigger] r.coeffs@[i]).v@ == seq![poly.coeffs@[i]]
                    && r.coeffs@[i].seed == seed,
    {
        let mut rng = field::thread_rng();
        let mut coeffs: Vec<PedersenCommitment> = Vec::new();
        let mut i: usize = 0;
        while i < poly.coeffs.len()
            invariant
                i <= poly.coeffs.len(),
                coeffs.len() == i,
                forall|t: int|
                    0 <= t < i ==> (#[trigger] coeffs@[t]).v@ == seq![poly.coeffs@[t]] && coeffs@[t].seed == seed,
            decreases poly.coeffs.len() - i,
        {
            let s = field::random_element(&mut rng);
            let v = vec![poly.coeffs[i]];
            coeffs.push(PedersenCommitment { v, s, seed });
            i = i + 1;
        }
        PedersenPolynomialCommitment { poly, coeffs, seed }
    }

    /// The commitments `C_0, ..., C_n` to the coefficients.
    pub fn generate_commitment(&self) -> (r: Vec<G1>)
        requires
            forall|i: int|
                0 <= i < self.coeffs.len() ==> seeds_ok(
                    (#[trigger] self.coeffs@[i]).seed as nat,
                    self.coeffs@[i].v.len() as nat,
                ),
        ensures
            r.len() == self.coeffs.len(),
            forall|i: int|
                0 <= i < r.len() ==> (#[trigger] r@[i])@ == pedersen(
                    field::fe_vals(self.coeffs@[i].v@),
                    self.coeffs@[i].s@,
                    self.coeffs@[i].seed as nat,
                ),
    {
        let mut out: Vec<G1> = Vec::new();
        let mut i: usize = 0;
        while i < self.coeffs.len()
            invariant
                forall|t: int|
                    0 <= t < self.coeffs.len() ==> seeds_ok(
                        (#[trigger] self.coeffs@[t]).seed as nat,
                        self.coeffs@[t].v.len() as nat,
                    ),
                i <= self.coeffs.len(),
                out.len() == i,
                forall|t: int|
                    0 <= t < i ==> (#[trigger] out@[t])@ == pedersen(
                        field::fe_vals(self.coeffs@[t].v@),
                        self.coeffs@[t].s@,
                        self.coeffs@[t].seed as nat,
                    ),
            decreases self.coeffs.len() - i,
        {
            let c = self.coeffs[i].compute();
            out.push(c);
            i = i + 1;
        }
        out
    }

    /// The value `y = p(x)` and the proof `π = s_0 + s_1·x + ... + s_n·x^n`.
    pub fn compute(&self, x: Fe) -> (r: (Fe, Fe))
        requires
            self.coeffs.len() > 0,
        ensures
            r.0@ == poly::peval(self.poly.vals(), x@),
            r.1@ == scalar_comb(blinds(self.coeffs@), x@, self.coeffs.len() as nat),
    {
        let y = poly::evaluate(self.poly, &x);
        let ghost sv = blinds(self.coeffs@);
        let mut pi = self.coeffs[0].s;
        let mut p = x;
        proof {
            field::lemma_fe_bounded(x);
            vstd::arithmetic::div_mod::lemma_small_mod(x@, field::p());
            assert(xpow(x@, 0) == 1);
            assert(xpow(x@, 1) == field::fmul(1, x@));
            assert(field::fmul(1, x@) == x@);
        }
        let mut i: usize = 1;
        while i < self.coeffs.len()
            invariant
                sv == blinds(self.coeffs@),
                1 <= i <= self.coeffs.len(),
                pi@ == scalar_comb(sv, x@, i as nat),
                p@ == xpow(x@, i as nat),
            decreases self.coeffs.len() - i,
        {
            pi = pi.add(&self.coeffs[i].s.mul(&p));
            p = p.mul(&x);
            i = i + 1;
        }
        (y, pi)
    }

    /// Checks `C_0 + C_1·x + ... + C_n·x^n = y·G + π·B` for the generators
    /// `G = blinding_curve(seed)` and `B = blinding_curve(seed - 1)`.
    /// An honest opening passes: for commitments `C_i = s_i·B + c_i·G` to the
    /// coefficients `c`, the value `y = p(x)` and the proof
    /// `π = s_0 + s_1·x + ...` are accepted.
    pub fn verify(seed: u64, commitment: &[G1], x: Fe, y: Fe, proof: Fe) -> (r: bool)
        requires
            commitment.len() > 0,
            seeds_ok(seed as nat, 0),
        ensures
            r == (point_comb(g1_views(commitment@), x@, commitment.len() as nat) == g1_sum(
                g1_times(blinding_point(seed), y@),
                g1_times(blinding_point((seed - 1) as u64), proof@),
            )),
            forall|c: Seq<nat>, s: Seq<nat>|
                s.len() == c.len() && crate::roots::residues(c) && crate::roots::residues(s)
                    && #[trigger] coefficient_commitments(c, s, seed as nat) == g1_views(commitment@)
                    && y@ == poly::peval(c, x@) && proof@ == scalar_comb(s, x@, c.len()) ==> r,
    {
        let ghost cv = g1_views(commitment@);
        let mut lhs = commitment[0];
        let mut p = x;
        proof {
            field::lemma_fe_bounded(x);
            vstd::arithmetic::div_mod::lemma_small_mod(x@, field::p());
            assert(xpow(x@, 0) == 1);
            assert(xpow(x@, 1) == field::fmul(1, x@));
            assert(field::fmul(1, x@) == x@);
        }
        let mut i: usize = 1;
        while i < commitment.len()
            invariant
                cv == g1_views(commitment@),
                1 <= i <= commitment.len(),
                lhs@ == point_comb(cv, x@, i as nat),
                p@ == xpow(x@, i as nat),
            decreases commitment.len() - i,
        {
            lhs = lhs.add(&commitment[i].scale(&p));
            p = p.mul(&x);
            i = i + 1;
        }
        let g = blinding_curve(seed);
        let b = blinding_curve(seed - 1);
        let rhs = g.scale(&y).add(&b.scale(&proof));
        let ok = lhs.equals(&rhs);
        let gen = g1_generator();
        proof {
            assert forall|c: Seq<nat>, s: Seq<nat>|
                s.len() == c.len() && crate::roots::residues(c) && crate::roots::residues(s)
                    && #[trigger] coefficient_commitments(c, s, seed as nat) == g1_views(commitment@)
                    && y@ == poly::peval(c, x@) && proof@ == scalar_comb(s, x@, c.len()) implies ok by {
                assert(coefficient_commitments(c, s, seed as nat).len() == c.len());
                assert(g1_views(commitment@).len() == commitment.len());
                assert(c.len() == commitment.len());
                lemma_polynomial_commitment_complete(gen@, seed, c, s, x@);
            }
        }
        ok
    }
}

// ---------------------------------------------------------------------------
// The inner-product argument.
// ---------------------------------------------------------------------------

/// `g_0·s_0 + ... + g_{n-1}·s_{n-1}`, added from the front onto the point at
/// infinity.
pub open spec fn msm_upto(g: Seq<(Seq<u64>, Seq<u64>, bool)>, s: Seq<nat>, n: nat) -> (Seq<u64>, Seq<u64>, bool)
    decreases n,
{
    if n == 0 {
        g1_identity()
    } else {
        g1_sum(msm_upto(g, s, (n - 1) as nat), g1_times(g[n - 1], s[n - 1]))
    }
}

/// `⟨s, g⟩` over the common prefix of the two sequences.
pub open spec fn msm(g: Seq<(Seq<u64>, Seq<u64>, bool)>, s: Seq<nat>) -> (Seq<u64>, Seq<u64>, bool) {
    msm_upto(g, s, if g.len() <= s.len() { g.len() } else { s.len() })
}

/// The multi-scalar product `⟨s, g⟩` over the common prefix.
fn dot_points(g: &[G1], s: &[Fe]) -> (r: G1)
    ensures
        r@ == msm(g1_views(g@), field::fe_vals(s@)),
{
    let n = if g.len() <= s.len() {
        g.len()
    } else {
        s.len()
    };
    let ghost gv = g1_views(g@);
    let ghost sv = field::fe_vals(s@);
    let mut acc = G1::identity();
    let mut i: usize = 0;
    while i < n
        invariant
            n <= g.len() && n <= s.len(),
            n == (if gv.len() <= sv.len() { gv.len() } else { sv.len() }),
            gv == g1_views(g@),
            sv == field::fe_vals(s@),
            i <= n,
            acc@ == msm_upto(gv, sv, i as nat),
        decreases n - i,
    {
        acc = acc.add(&g[i].scale(&s[i]));
        i = i + 1;
    }
    acc
}

/// `blinding_point(lo), ..., blinding_point(lo + count - 1)`.
pub open spec fn generator_run(lo: nat, count: nat) -> Seq<(Seq<u64>, Seq<u64>, bool)> {
    Seq::new(count, |i: int| blinding_point((lo + i) as u64))
}

/// The points drawn from `lo, ..., lo + count - 1`.
fn generators(lo: u64, count: usize) -> (r: Vec<G1>)
    requires
        lo + count <= max_seed(),
    ensures
        g1_views(r@) == generator_run(lo as nat, count as nat),
        forall|t: int| 0 <= t < r.len() ==> in_g1(#[trigger] r@[t]@),
{
    let mut out: Vec<G1> = Vec::new();
    let mut i: usize = 0;
    while i < count
        invariant
            lo + count <= max_seed(),
            i <= count,
            out.len() == i,
            forall|t: int| 0 <= t < i ==> (#[trigger] out@[t])@ == blinding_point((lo + t) as u64),
            forall|t: int| 0 <= t < i ==> in_g1(#[trigger] out@[t]@),
        decreases count - i,
    {
        out.push(blinding_curve(lo + i as u64));
        i = i + 1;
    }
    proof {
        assert(g1_views(out@) =~= generator_run(lo as nat, count as nat));
    }
    out
}

/// `a ++ b`.
fn concat(a: &Vec<Fe>, b: &Vec<Fe>) -> (r: Vec<Fe>)
    ensures
        r@ == a@ + b@,
{
    let mut out: Vec<Fe> = Vec::new();
    let mut i: usize = 0;
    while i < a.len()
        invariant
            i <= a.len(),
            out@ == a@.subrange(0, i as int),
        decreases a.len() - i,
    {
        proof {
            assert(a@.subrange(0, (i + 1) as int) =~= a@.subrange(0, i as int).push(a@[i as int]));
        }
        out.push(a[i]);
        i = i + 1;
    }
    let mut j: usize = 0;
    while j < b.len()
        invariant
            i == a.len(),
            j <= b.len(),
            out@ == a@ + b@.subrange(0, j as int),
        decreases b.len() - j,
    {
        proof {
            assert(a@ + b@.subrange(0, (j + 1) as int) =~= (a@ + b@.subrange(0, j as int)).push(b@[j as int]));
        }
        out.push(b[j]);
        j = j + 1;
    }
    proof {
        assert(b@.subrange(0, b.len() as int) =~= b@);
    }
    out
}

/// `n` random field elements.
fn random_vector(rng: &mut rand::rngs::ThreadRng, n: usize) -> (r: Vec<Fe>)
    ensures
        r.len() == n,
{
    let mut out: Vec<Fe> = Vec::new();
    let mut i: usize = 0;
    while i < n
        invariant
            i <= n,
            out.len() == i,
        decreases n - i,
    {
        out.push(field::random_element(rng));
        i = i + 1;
    }
    out
}

/// The messages of the inner-product argument.
#[derive(Clone, Copy, Debug)]
pub enum InnerProductProtocol {
    /// The prover's commitments: `c = ⟨a, G⟩ + ⟨b, H⟩ + γ1·B`,
    /// `l = ⟨s_a, G⟩ + ⟨s_b, H⟩ + γ2·B`, `ct = ⟨a, b⟩·G' + γ3·B`,
    /// `lt = (⟨a, s_b⟩ + ⟨b, s_a⟩)·G' + γ4·B`, `qt = ⟨s_a, s_b⟩·G' + γ5·B`,
    /// and the length `n`.
    CommitPolynomials { c: G1, l: G1, ct: G1, lt: G1, qt: G1, n: usize },
    /// A random challenge of the verifier.
    Challenge { u: Fe },
    /// The openings at the challenge `u`: `p1 = γ1 + γ2·u`,
    /// `p2 = γ3 + γ4·u + γ5·u²`, `p_au = ⟨a + s_a·u, G⟩`,
    /// `p_bu = ⟨b + s_b·u, H⟩`, `p_tu = ⟨a + s_a·u, b + s_b·u⟩·G'`.
    PolynomialChallengeResponse { p1: Fe, p2: Fe, p_au: G1, p_bu: G1, p_tu: G1 },
    /// The last remaining scalar of the halving argument.
    FinishIPA { a: Fe },
    /// The cross terms of one halving round.
    CommitIPA { l: G1, r: G1 },
}

/// The prover's secrets after its first message: the two vectors, their
/// blinding vectors and the five blinding factors.
pub struct InnerProductProver {
    pub a: Vec<Fe>,
    pub b: Vec<Fe>,
    pub sa: Vec<Fe>,
    pub sb: Vec<Fe>,
    pub g1: Fe,
    pub g2: Fe,
    pub g3: Fe,
    pub g4: Fe,
    pub g5: Fe,
}

/// `x·G' + y·B` with `G' = blinding_point(0)` and `B = blinding_point(1)`.
pub open spec fn hiding_value(x: nat, y: nat) -> (Seq<u64>, Seq<u64>, bool) {
    g1_sum(g1_times(blinding_point(0), x), g1_times(blinding_point(1), y))
}

/// What the prover's first message holds for its state `s`.
pub open spec fn is_commit_message(m: InnerProductProtocol, s: InnerProductProver) -> bool {
    let a = field::fe_vals(s.a@);
    let b = field::fe_vals(s.b@);
    let sa = field::fe_vals(s.sa@);
    let sb = field::fe_vals(s.sb@);
    m matches InnerProductProtocol::CommitPolynomials { c, l, ct, lt, qt, n }
        && c@ == pedersen(a + b, s.g1@, 2)
        && l@ == pedersen(sa + sb, s.g2@, 2)
        && ct@ == hiding_value(crate::r1cs::dot_spec(a, b), s.g3@)
        && lt@ == hiding_value(field::fadd(crate::r1cs::dot_spec(a, sb), crate::r1cs::dot_spec(b, sa)), s.g4@)
        && qt@ == hiding_value(crate::r1cs::dot_spec(sa, sb), s.g5@)
        && n == s.a.len()
}

/// The largest vectors that the argument takes: the padded width `2n + 1`
/// is at most `2^30`, so that its power of two is a machine-sized length
/// (`usize` may have 32 bits) and every generator seed stays within range.
pub open spec fn ipa_len_ok(n: nat) -> bool {
    2 * n + 1 <= 0x4000_0000
}

/// The prover's first move: draws the blinding vectors and factors and
/// commits to `a`, `b` and the coefficients of `t(x) = ⟨a + s_a·x, b + s_b·x⟩`.
pub fn inner_product_prover(a: Vec<Fe>, b: Vec<Fe>) -> (r: (InnerProductProver, InnerProductProtocol))
    requires
        a.len() == b.len(),
        ipa_len_ok(a.len() as nat),
    ensures
        r.0.a == a && r.0.b == b,
        r.0.sa.len() == a.len() && r.0.sb.len() == a.len(),
        is_commit_message(r.1, r.0),
        in_g1(blinding_point(1)),
{
    let n = a.len();
    let mut rng = field::thread_rng();
    let sa = random_vector(&mut rng, n);
    let sb = random_vector(&mut rng, n);
    let gd = blinding_curve(0);
    let bb = blinding_curve(1);
    let g1 = field::random_element(&mut rng);
    let c = PedersenCommitment { v: concat(&a, &b), s: g1, seed: 2 }.compute();
    let g2 = field::random_element(&mut rng);
    let l = PedersenCommitment { v: concat(&sa, &sb), s: g2, seed: 2 }.compute();
    let g3 = field::random_element(&mut rng);
    let ct = gd.scale(&crate::r1cs::dot(&a, &b)).add(&bb.scale(&g3));
    let g4 = field::random_element(&mut rng);
    let cross = crate::r1cs::dot(&a, &sb).add(&crate::r1cs::dot(&b, &sa));
    let lt = gd.scale(&cross).add(&bb.scale(&g4));
    let g5 = field::random_element(&mut rng);
    let qt = gd.scale(&crate::r1cs::dot(&sa, &sb)).add(&bb.scale(&g5));
    proof {
        assert(field::fe_vals(a@ + b@) =~= field::fe_vals(a@) + field::fe_vals(b@));
        assert(field::fe_vals(sa@ + sb@) =~= field::fe_vals(sa@) + field::fe_vals(sb@));
    }
    let state = InnerProductProver { a, b, sa, sb, g1, g2, g3, g4, g5 };
    (state, InnerProductProtocol::CommitPolynomials { c, l, ct, lt, qt, n })
}

/// `x_i + s_i·u` entry by entry.
pub open spec fn blend(x: Seq<nat>, s: Seq<nat>, u: nat) -> Seq<nat> {
    Seq::new(x.len(), |i: int| field::fadd(x[i], field::fmul(s[i], u)))
}

/// `x + s·u`, entry by entry.
fn blend_vec(x: &Vec<Fe>, s: &Vec<Fe>, u: &Fe) -> (r: Vec<Fe>)
    requires
        x.len() == s.len(),
    ensures
        field::fe_vals(r@) == blend(field::fe_vals(x@), field::fe_vals(s@), u@),
{
    let mut out: Vec<Fe> = Vec::new();
    let mut i: usize = 0;
    while i < x.len()
        invariant
            x.len() == s.len(),
            i <= x.len(),
            out.len() == i,
            forall|t: int| 0 <= t < i ==> (#[trigger] out@[t])@ == field::fadd(x@[t]@, field::fmul(s@[t]@, u@)),
        decreases x.len() - i,
    {
        out.push(x[i].add(&s[i].mul(u)));
        i = i + 1;
    }
    proof {
        assert(field::fe_vals(out@) =~= blend(field::fe_vals(x@), field::fe_vals(s@), u@));
    }
    out
}

/// The width of the halving argument for vectors of length `n`: the least
/// power of two that holds `a(u)`, `b(u)` and `t(u)`.
pub open spec fn ipa_width(n: nat) -> nat {
    crate::mle::pow2(crate::mle::ceil_log2(2 * n + 1))
}

/// The generators of the halving argument: `G`, then `H`, then `G'`, then
/// points at infinity up to `m`.
pub open spec fn ipa_basis(n: nat, m: nat) -> Seq<(Seq<u64>, Seq<u64>, bool)> {
    generator_run(2, 2 * n).push(blinding_point(0)) + Seq::new((m - 2 * n - 1) as nat, |i: int| g1_identity())
}

/// The vector of the halving argument: `a(u)`, `b(u)`, `t(u)`, then zeros up
/// to `m`.
pub open spec fn ipa_vector(au: Seq<nat>, bu: Seq<nat>, tu: nat, m: nat) -> Seq<nat> {
    (au + bu).push(tu) + Seq::new((m - au.len() - bu.len() - 1) as nat, |i: int| 0nat)
}

/// The halving argument's basis for vectors of length `n`, `m` entries wide.
fn build_basis(n: usize, m: usize) -> (r: Vec<G1>)
    requires
        ipa_len_ok(n as nat),
        2 * n + 1 <= m <= 0x4000_0000,
    ensures
        g1_views(r@) == ipa_basis(n as nat, m as nat),
        forall|j: int| 0 <= j < r.len() ==> in_g1(#[trigger] r@[j]@),
{
    let mut g = generators(2, 2 * n);
    g.push(blinding_curve(0));
    let ghost head = g1_views(g@);
    proof {
        assert(head =~= generator_run(2, (2 * n) as nat).push(blinding_point(0)));
    }
    while g.len() < m
        invariant
            2 * n + 1 <= g.len() <= m,
            head == generator_run(2, (2 * n) as nat).push(blinding_point(0)),
            g1_views(g@) == head + Seq::new((g.len() - 2 * n - 1) as nat, |i: int| g1_identity()),
            forall|j: int| 0 <= j < g.len() ==> in_g1(#[trigger] g@[j]@),
        decreases m - g.len(),
    {
        let ghost before = g1_views(g@);
        let ghost k = (g.len() - 2 * n - 1) as nat;
        g.push(G1::identity());
        proof {
            assert(g1_views(g@) =~= before.push(g1_identity()));
            assert(Seq::new(k + 1, |i: int| g1_identity()) =~= Seq::new(k, |i: int| g1_identity()).push(g1_identity()));
            assert(g1_views(g@) =~= head + Seq::new(k + 1, |i: int| g1_identity()));
        }
    }
    g
}

/// The state of the prover in the halving argument: it proves that `p` is
/// `⟨a, g⟩`.
pub struct IpaProver {
    pub p: G1,
    pub g: Vec<G1>,
    pub a: Vec<Fe>,
}

/// `p1 = γ1 + γ2·u`.
pub open spec fn opening_p1(s: InnerProductProver, u: nat) -> nat {
    field::fadd(s.g1@, field::fmul(s.g2@, u))
}

/// `p2 = γ3 + γ4·u + γ5·u·u`.
pub open spec fn opening_p2(s: InnerProductProver, u: nat) -> nat {
    field::fadd(field::fadd(s.g3@, field::fmul(s.g4@, u)), field::fmul(field::fmul(s.g5@, u), u))
}

/// What the prover's answer to the challenge `u` holds, and the halving
/// argument that follows it, for the prover state `s`.
pub open spec fn is_response(m: InnerProductProtocol, next: IpaProver, s: InnerProductProver, u: nat) -> bool {
    let n = s.a.len() as nat;
    let au = blend(field::fe_vals(s.a@), field::fe_vals(s.sa@), u);
    let bu = blend(field::fe_vals(s.b@), field::fe_vals(s.sb@), u);
    let tu = crate::r1cs::dot_spec(au, bu);
    let w = ipa_width(n);
    &&& m matches InnerProductProtocol::PolynomialChallengeResponse { p1, p2, p_au, p_bu, p_tu }
        && p1@ == opening_p1(s, u)
        && p2@ == opening_p2(s, u)
        && p_au@ == msm(generator_run(2, n), au)
        && p_bu@ == msm(generator_run(n + 2, n), bu)
        && p_tu@ == g1_times(blinding_point(0), tu)
    &&& field::fe_vals(next.a@) == ipa_vector(au, bu, tu, w)
    &&& g1_views(next.g@) == ipa_basis(n, w)
    &&& next.p@ == msm(g1_views(next.g@), field::fe_vals(next.a@))
}

impl InnerProductProver {
    /// The prover's answer to the challenge `u`: the openings of the
    /// blinding factors and of `a(u) = a + s_a·u`, `b(u) = b + s_b·u` and
    /// `t(u) = ⟨a(u), b(u)⟩`; then the halving argument for
    /// `P = ⟨a(u) ‖ b(u) ‖ t(u), G ‖ H ‖ G'⟩`, padded to a power of two.
    pub fn respond(&self, u: Fe) -> (r: (InnerProductProtocol, IpaProver))
        requires
            self.a.len() == self.b.len(),
            self.sa.len() == self.a.len() && self.sb.len() == self.a.len(),
            ipa_len_ok(self.a.len() as nat),
        ensures
            is_response(r.0, r.1, *self, u@),
            forall|j: int| 0 <= j < r.1.g.len() ==> in_g1(#[trigger] r.1.g@[j]@),
            in_g1(blinding_point(0)),
            forall|j: u64| 2 <= j < 2 * self.a.len() + 2 ==> in_g1(#[trigger] blinding_point(j)),
    {
        let n = self.a.len();
        let p1 = self.g1.add(&self.g2.mul(&u));
        let p2 = self.g3.add(&self.g4.mul(&u)).add(&self.g5.mul(&u).mul(&u));
        let au = blend_vec(&self.a, &self.sa, &u);
        let bu = blend_vec(&self.b, &self.sb, &u);
        let tu = crate::r1cs::dot(&au, &bu);
        let gs = generators(2, n);
        let hs = generators((n + 2) as u64, n);
        let p_au = dot_points(gs.as_slice(), au.as_slice());
        let p_bu = dot_points(hs.as_slice(), bu.as_slice());
        let p_tu = blinding_curve(0).scale(&tu);
        let (m, _k) = crate::mle::next_pow2(2 * n + 1);
        let g = build_basis(n, m);
        let mut a = concat(&au, &bu);
        a.push(tu);
        let ghost head = field::fe_vals(a@);
        proof {
            assert(head =~= (field::fe_vals(au@) + field::fe_vals(bu@)).push(tu@));
        }
        while a.len() < m
            invariant
                2 * n + 1 <= a.len() <= m,
                head.len() == 2 * n + 1,
                field::fe_vals(a@) == head + Seq::new((a.len() - 2 * n - 1) as nat, |i: int| 0nat),
            decreases m - a.len(),
        {
            let ghost before = field::fe_vals(a@);
            let ghost k = (a.len() - 2 * n - 1) as nat;
            a.push(Fe::zero());
            proof {
                assert(field::fe_vals(a@) =~= before.push(0nat));
                assert(Seq::new(k + 1, |i: int| 0nat) =~= Seq::new(k, |i: int| 0nat).push(0nat));
                assert(field::fe_vals(a@) =~= head + Seq::new(k + 1, |i: int| 0nat));
            }
        }
        let p = dot_points(g.as_slice(), a.as_slice());
        proof {
            assert(g1_views(g@)[2 * n as int] == blinding_point(0));
            assert(in_g1(g@[2 * n as int]@));
            assert forall|j: u64| 2 <= j < 2 * n + 2 implies in_g1(#[trigger] blinding_point(j)) by {
                let t = j - 2;
                assert(g1_views(g@)[t] == generator_run(2, (2 * n) as nat)[t]);
                assert(in_g1(g@[t]@));
                assert((2 + t) as u64 == j);
            }
        }
        let msg = InnerProductProtocol::PolynomialChallengeResponse { p1, p2, p_au, p_bu, p_tu };
        (msg, IpaProver { p, g, a })
    }
}

/// The entries at even positions, `s_0, s_2, ...`, as many as pairs.
pub open spec fn evens<T>(s: Seq<T>) -> Seq<T> {
    Seq::new(s.len() / 2, |i: int| s[2 * i])
}

/// The entries at odd positions, `s_1, s_3, ...`.
pub open spec fn odds<T>(s: Seq<T>) -> Seq<T> {
    Seq::new(s.len() / 2, |i: int| s[2 * i + 1])
}

/// The entries of `v` at positions `2i + parity`, one per pair.
fn every_other<T: Copy>(v: &Vec<T>, parity: usize) -> (r: Vec<T>)
    requires
        parity < 2,
    ensures
        r@ == Seq::new((v.len() / 2) as nat, |i: int| v@[2 * i + parity]),
{
    let mut out: Vec<T> = Vec::new();
    let h = v.len() / 2;
    let mut i: usize = 0;
    while i < h
        invariant
            parity < 2,
            h == v.len() / 2,
            i <= h,
            out@ == Seq::new(i as nat, |t: int| v@[2 * t + parity]),
        decreases h - i,
    {
        out.push(v[2 * i + parity]);
        i = i + 1;
        proof {
            assert(out@ =~= Seq::new(i as nat, |t: int| v@[2 * t + parity]));
        }
    }
    out
}

/// The left cross term of a halving round: `⟨a_even, g_odd⟩`.
pub open spec fn cross_l(g: Seq<(Seq<u64>, Seq<u64>, bool)>, a: Seq<nat>) -> (Seq<u64>, Seq<u64>, bool) {
    msm(odds(g), evens(a))
}

/// The right cross term of a halving round: `⟨a_odd, g_even⟩`.
pub open spec fn cross_r(g: Seq<(Seq<u64>, Seq<u64>, bool)>, a: Seq<nat>) -> (Seq<u64>, Seq<u64>, bool) {
    msm(evens(g), odds(a))
}

/// The two cross terms `(⟨a_even, g_odd⟩, ⟨a_odd, g_even⟩)`.
fn cross_terms(g: &Vec<G1>, a: &Vec<Fe>) -> (r: (G1, G1))
    ensures
        r.0@ == cross_l(g1_views(g@), field::fe_vals(a@)),
        r.1@ == cross_r(g1_views(g@), field::fe_vals(a@)),
{
    let g_even = every_other(g, 0);
    let g_odd = every_other(g, 1);
    let a_even = every_other(a, 0);
    let a_odd = every_other(a, 1);
    proof {
        assert(g1_views(g_even@) =~= evens(g1_views(g@)));
        assert(g1_views(g_odd@) =~= odds(g1_views(g@)));
        assert(field::fe_vals(a_even@) =~= evens(field::fe_vals(a@)));
        assert(field::fe_vals(a_odd@) =~= odds(field::fe_vals(a@)));
    }
    (dot_points(g_odd.as_slice(), a_even.as_slice()), dot_points(g_even.as_slice(), a_odd.as_slice()))
}

/// A halving argument's state holds a vector and a basis of the same length,
/// a power of two.
pub open spec fn ipa_shape(a_len: nat, g_len: nat) -> bool {
    a_len == g_len && crate::mle::is_pow2(a_len)
}

/// One move of the prover in the halving argument: with one entry left it
/// sends it (plus one when `lie`); otherwise it sends the cross terms.
pub fn ipa_prover(state: &IpaProver, lie: bool) -> (r: InnerProductProtocol)
    requires
        ipa_shape(state.a.len() as nat, state.g.len() as nat),
    ensures
        state.a.len() == 1 ==> (r matches InnerProductProtocol::FinishIPA { a } && a@ == (if lie {
            field::fadd(state.a@[0]@, 1)
        } else {
            state.a@[0]@
        })),
        state.a.len() != 1 ==> (r matches InnerProductProtocol::CommitIPA { l, r: rr } && l@ == cross_l(
            g1_views(state.g@),
            field::fe_vals(state.a@),
        ) && rr@ == cross_r(g1_views(state.g@), field::fe_vals(state.a@))),
{
    proof {
        vstd::arithmetic::power2::lemma_pow2_pos(choose|k: nat| crate::mle::pow2(k) == state.a.len());
    }
    if state.a.len() == 1 {
        let a = if lie {
            state.a[0].add(&Fe::one())
        } else {
            state.a[0]
        };
        InnerProductProtocol::FinishIPA { a }
    } else {
        let (l, r) = cross_terms(&state.g, &state.a);
        InnerProductProtocol::CommitIPA { l, r }
    }
}

/// The inverse of a nonzero challenge, `u^(p-2)`.
pub open spec fn inv(u: nat) -> nat {
    field::fpow(u, (field::p() - 2) as nat)
}

/// The folded vector: `a_{2i} + a_{2i+1}·u⁻¹`.
pub open spec fn fold_scalars(a: Seq<nat>, uinv: nat) -> Seq<nat> {
    Seq::new(a.len() / 2, |i: int| field::fadd(a[2 * i], field::fmul(a[2 * i + 1], uinv)))
}

/// The folded basis: `g_{2i} + g_{2i+1}·u`.
pub open spec fn fold_points(g: Seq<(Seq<u64>, Seq<u64>, bool)>, u: nat) -> Seq<(Seq<u64>, Seq<u64>, bool)> {
    Seq::new(g.len() / 2, |i: int| g1_sum(g[2 * i], g1_times(g[2 * i + 1], u)))
}

/// `p + l·u + r·u⁻¹`.
pub open spec fn fold_commitment(
    p: (Seq<u64>, Seq<u64>, bool),
    l: (Seq<u64>, Seq<u64>, bool),
    r: (Seq<u64>, Seq<u64>, bool),
    u: nat,
) -> (Seq<u64>, Seq<u64>, bool) {
    g1_sum(g1_sum(p, g1_times(l, u)), g1_times(r, inv(u)))
}

impl IpaProver {
    /// Halves the argument with the challenge `u`; `None` for `u = 0`,
    /// which has no inverse.
    pub fn fold(&self, u: Fe) -> (r: Option<IpaProver>)
        requires
            ipa_shape(self.a.len() as nat, self.g.len() as nat),
        ensures
            r is None <==> u@ == 0,
            r matches Some(s) ==> {
                &&& field::fe_vals(s.a@) == fold_scalars(field::fe_vals(self.a@), inv(u@))
                &&& g1_views(s.g@) == fold_points(g1_views(self.g@), u@)
                &&& s.p@ == fold_commitment(
                    self.p@,
                    cross_l(g1_views(self.g@), field::fe_vals(self.a@)),
                    cross_r(g1_views(self.g@), field::fe_vals(self.a@)),
                    u@,
                )
            },
    {
        let uinv = match u.inverse() {
            Some(v) => v,
            None => {
                return None;
            },
        };
        let (l, r) = cross_terms(&self.g, &self.a);
        let h = self.a.len() / 2;
        let mut a: Vec<Fe> = Vec::new();
        let mut g: Vec<G1> = Vec::new();
        let mut i: usize = 0;
        while i < h
            invariant
                self.a.len() == self.g.len(),
                h == self.a.len() / 2,
                i <= h,
                a.len() == i && g.len() == i,
                forall|t: int|
                    0 <= t < i ==> (#[trigger] a@[t])@ == field::fadd(
                        self.a@[2 * t]@,
                        field::fmul(self.a@[2 * t + 1]@, uinv@),
                    ),
                forall|t: int|
                    0 <= t < i ==> (#[trigger] g@[t])@ == g1_sum(self.g@[2 * t]@, g1_times(self.g@[2 * t + 1]@, u@)),
            decreases h - i,
        {
            a.push(self.a[2 * i].add(&self.a[2 * i + 1].mul(&uinv)));
            g.push(self.g[2 * i].add(&self.g[2 * i + 1].scale(&u)));
            i = i + 1;
        }
        let p = self.p.add(&l.scale(&u)).add(&r.scale(&uinv));
        proof {
            assert(field::fe_vals(a@) =~= fold_scalars(field::fe_vals(self.a@), inv(u@)));
            assert(g1_views(g@) =~= fold_points(g1_views(self.g@), u@));
        }
        Some(IpaProver { p, g, a })
    }
}

/// The state of the verifier in the halving argument: `p` is claimed to be
/// `⟨a, G_final⟩` for the basis `g` folded by the challenges so far, whose
/// products the `scalars` record; `n` entries remain.
pub struct IpaVerifier {
    pub p: G1,
    pub n: usize,
    pub g: Vec<G1>,
    pub scalars: Vec<Fe>,
}

/// What the verifier does after a message of the halving argument.
pub enum IpaVerifierStep {
    /// The argument is over, with this verdict.
    Done(bool),
    /// The challenge was sent; the argument goes on from this state.
    Next(IpaVerifier),
}

/// `V_lr = c + l·u`.
pub open spec fn vlr(c: G1, l: G1, u: nat) -> (Seq<u64>, Seq<u64>, bool) {
    g1_sum(c@, g1_times(l@, u))
}

/// `V_t = ct + lt·u + qt·u·u`.
pub open spec fn vt(ct: G1, lt: G1, qt: G1, u: nat) -> (Seq<u64>, Seq<u64>, bool) {
    g1_sum(g1_sum(ct@, g1_times(lt@, u)), g1_times(g1_times(qt@, u), u))
}

/// The verifier accepts the openings: `V_lr = p_au + p_bu + p1·B` and
/// `V_t = p_tu + p2·B`, with `B = blinding_point(1)`.
pub open spec fn openings_ok(commit: InnerProductProtocol, u: nat, response: InnerProductProtocol) -> bool {
    match (commit, response) {
        (
            InnerProductProtocol::CommitPolynomials { c, l, ct, lt, qt, n },
            InnerProductProtocol::PolynomialChallengeResponse { p1, p2, p_au, p_bu, p_tu },
        ) => {
            &&& ipa_len_ok(n as nat)
            &&& vlr(c, l, u) == g1_sum(g1_sum(p_au@, p_bu@), g1_times(blinding_point(1), p1@))
            &&& vt(ct, lt, qt, u) == g1_sum(p_tu@, g1_times(blinding_point(1), p2@))
        },
        _ => false,
    }
}

/// The halving argument that the verifier starts after accepting the
/// openings: `P = V_lr + p_tu - p1·B` over the basis `G ‖ H ‖ G'`.
pub open spec fn is_ipa_start(v: IpaVerifier, commit: InnerProductProtocol, u: nat, response: InnerProductProtocol) -> bool {
    match (commit, response) {
        (
            InnerProductProtocol::CommitPolynomials { c, l, ct, lt, qt, n },
            InnerProductProtocol::PolynomialChallengeResponse { p1, p2, p_au, p_bu, p_tu },
        ) => {
            &&& v.p@ == g1_diff(g1_sum(vlr(c, l, u), p_tu@), g1_times(blinding_point(1), p1@))
            &&& v.n == ipa_width(n as nat)
            &&& g1_views(v.g@) == ipa_basis(n as nat, ipa_width(n as nat))
            &&& field::fe_vals(v.scalars@) == seq![1nat]
        },
        _ => false,
    }
}

/// The verifier's checks of the openings at its challenge `u`. On success it
/// returns the halving argument to run; `None` rejects: messages of the
/// wrong kind, a length beyond `ipa_len_ok`, or an opening that fails.
pub fn inner_product_verifier(commit: &InnerProductProtocol, u: Fe, response: &InnerProductProtocol) -> (r: Option<IpaVerifier>)
    ensures
        r is Some <==> openings_ok(*commit, u@, *response),
        r matches Some(v) ==> is_ipa_start(v, *commit, u@, *response),
        r matches Some(v) ==> forall|j: int| 0 <= j < v.g.len() ==> in_g1(#[trigger] v.g@[j]@),
{
    match (commit, response) {
        (
            InnerProductProtocol::CommitPolynomials { c, l, ct, lt, qt, n },
            InnerProductProtocol::PolynomialChallengeResponse { p1, p2, p_au, p_bu, p_tu },
        ) => {
            if *n >= 0x2000_0000 {
                return None;
            }
            let bb = blinding_curve(1);
            let vlr_pt = c.add(&l.scale(&u));
            let rhs1 = p_au.add(p_bu).add(&bb.scale(p1));
            if !vlr_pt.equals(&rhs1) {
                return None;
            }
            let vt_pt = ct.add(&lt.scale(&u)).add(&qt.scale(&u).scale(&u));
            let rhs2 = p_tu.add(&bb.scale(p2));
            if !vt_pt.equals(&rhs2) {
                return None;
            }
            let p = vlr_pt.add(p_tu).sub(&bb.scale(p1));
            let (m, _k) = crate::mle::next_pow2(2 * *n + 1);
            let g = build_basis(*n, m);
            let scalars = vec![Fe::one()];
            proof {
                assert(field::fe_vals(scalars@) =~= seq![1nat]);
            }
            Some(IpaVerifier { p, n: m, g, scalars })
        },
        _ => None,
    }
}

/// `s ‖ s·u`: the scalars after a round with the challenge `u`.
pub open spec fn doubled(s: Seq<nat>, u: nat) -> Seq<nat> {
    s + Seq::new(s.len(), |i: int| field::fmul(s[i], u))
}

/// What the verifier's state after a round holds.
pub open spec fn is_ipa_round(next: IpaVerifier, v: IpaVerifier, l: G1, r: G1, u: nat) -> bool {
    &&& next.p@ == fold_commitment(v.p@, l@, r@, u)
    &&& next.n == v.n / 2
    &&& next.g@ == v.g@
    &&& field::fe_vals(next.scalars@) == doubled(field::fe_vals(v.scalars@), u)
}

/// The verifier's shape: a power of two of entries left, and scalars that do
/// not outgrow what the basis can double into.
pub open spec fn ipa_verifier_ok(n: nat, scalars: nat) -> bool {
    crate::mle::is_pow2(n) && scalars * n <= 0x4000_0000
}

/// One move of the verifier in the halving argument, on the prover's message
/// and a fresh challenge `u`. With one entry left the message must be the
/// last scalar `a`, and the verdict is `⟨scalars, g⟩·a = p`. Otherwise it
/// must be the cross terms `l, r`; the challenge is sent and the claim
/// becomes `p + l·u + r·u⁻¹`. A message of the wrong kind rejects, and so
/// does `u = 0`, which has no inverse.
pub fn ipa_verifier(state: &IpaVerifier, msg: &InnerProductProtocol, u: Fe) -> (r: IpaVerifierStep)
    requires
        ipa_verifier_ok(state.n as nat, state.scalars.len() as nat),
    ensures
        state.n == 1 ==> (r matches IpaVerifierStep::Done(ok) && ok == (msg matches InnerProductProtocol::FinishIPA { a }
            && g1_times(msm(g1_views(state.g@), field::fe_vals(state.scalars@)), a@) == state.p@)),
        state.n != 1 ==> (r matches IpaVerifierStep::Next(next) <==> (msg is CommitIPA && u@ != 0)),
        state.n != 1 ==> (r matches IpaVerifierStep::Done(ok) ==> !ok),
        r matches IpaVerifierStep::Next(next) ==> (msg matches InnerProductProtocol::CommitIPA { l, r: rr }
            && is_ipa_round(next, *state, *l, *rr, u@)),
{
    if state.n == 1 {
        match msg {
            InnerProductProtocol::FinishIPA { a } => {
                let claim = dot_points(state.g.as_slice(), state.scalars.as_slice()).scale(a);
                IpaVerifierStep::Done(claim.equals(&state.p))
            },
            _ => IpaVerifierStep::Done(false),
        }
    } else {
        match msg {
            InnerProductProtocol::CommitIPA { l, r } => {
                let uinv = match u.inverse() {
                    Some(v) => v,
                    None => {
                        return IpaVerifierStep::Done(false);
                    },
                };
                let p = state.p.add(&l.scale(&u)).add(&r.scale(&uinv));
                let k = state.scalars.len();
                let mut scalars: Vec<Fe> = Vec::new();
                let mut i: usize = 0;
                while i < k
                    invariant
                        k == state.scalars.len(),
                        i <= k,
                        scalars@ == state.scalars@.subrange(0, i as int),
                    decreases k - i,
                {
                    proof {
                        assert(state.scalars@.subrange(0, (i + 1) as int) =~= state.scalars@.subrange(0, i as int).push(state.scalars@[i as int]));
                    }
                    scalars.push(state.scalars[i]);
                    i = i + 1;
                }
                let mut j: usize = 0;
                while j < k
                    invariant
                        k == state.scalars.len(),
                        j <= k,
                        scalars.len() == k + j,
                        forall|t: int| 0 <= t < k ==> (#[trigger] scalars@[t]) == state.scalars@[t],
                        forall|t: int| 0 <= t < j ==> (#[trigger] scalars@[k + t])@ == field::fmul(state.scalars@[t]@, u@),
                    decreases k - j,
                {
                    scalars.push(state.scalars[j].mul(&u));
                    j = j + 1;
                }
                proof {
                    let sv = field::fe_vals(state.scalars@);
                    assert forall|t: int| 0 <= t < 2 * k implies #[trigger] field::fe_vals(scalars@)[t] == doubled(sv, u@)[t] by {
                        if t >= k {
                            assert(scalars@[k + (t - k)] == scalars@[t]);
                        }
                    }
                    assert(field::fe_vals(scalars@) =~= doubled(sv, u@));
                }
                let g = state.g.clone();
                IpaVerifierStep::Next(IpaVerifier { p, n: state.n / 2, g, scalars })
            },
            _ => IpaVerifierStep::Done(false),
        }
    }
}

// ---------------------------------------------------------------------------
// The verifier's scalars are the coefficients of the folded basis.
// ---------------------------------------------------------------------------

/// Formal sums of the starting basis points, by their coefficient vectors:
/// `a + b`.
pub open spec fn comb_add(a: Seq<nat>, b: Seq<nat>) -> Seq<nat> {
    Seq::new(a.len(), |j: int| field::fadd(a[j], b[j]))
}

/// `a·u` for a formal sum `a`.
pub open spec fn comb_scale(a: Seq<nat>, u: nat) -> Seq<nat> {
    Seq::new(a.len(), |j: int| field::fmul(a[j], u))
}

/// One halving round on formal sums, as `fold_points` does on points:
/// `c_{2i} + c_{2i+1}·u`.
pub open spec fn fold_combs(c: Seq<Seq<nat>>, u: nat) -> Seq<Seq<nat>> {
    Seq::new(c.len() / 2, |i: int| comb_add(c[2 * i], comb_scale(c[2 * i + 1], u)))
}

/// The halving rounds with the challenges `us`, in order.
pub open spec fn fold_combs_all(c: Seq<Seq<nat>>, us: Seq<nat>) -> Seq<Seq<nat>>
    decreases us.len(),
{
    if us.len() == 0 {
        c
    } else {
        fold_combs_all(fold_combs(c, us[0]), us.drop_first())
    }
}

/// The basis of `n` points, each the formal sum of itself.
pub open spec fn unit_combs(n: nat) -> Seq<Seq<nat>> {
    Seq::new(n, |i: int| Seq::new(n, |j: int| if i == j { 1nat } else { 0nat }))
}

/// The verifier's scalars after the challenges `us`, in order, from `s`.
pub open spec fn doubled_all(s: Seq<nat>, us: Seq<nat>) -> Seq<nat>
    decreases us.len(),
{
    if us.len() == 0 {
        s
    } else {
        doubled_all(doubled(s, us[0]), us.drop_first())
    }
}

/// `m` formal sums over `n` points; sum `i` has `s` on the `i`-th block of
/// `s.len()` positions and zeros elsewhere.
pub open spec fn block_combs(s: Seq<nat>, m: nat, n: nat) -> Seq<Seq<nat>> {
    Seq::new(
        m,
        |i: int|
            Seq::new(
                n,
                |j: int|
                    if i * s.len() <= j < (i + 1) * s.len() {
                        s[j - i * s.len()]
                    } else {
                        0nat
                    },
            ),
    )
}

/// Every entry is a field element.
pub open spec fn all_below_p(s: Seq<nat>) -> bool {
    forall|j: int| 0 <= j < s.len() ==> #[trigger] s[j] < field::p()
}

proof fn lemma_fold_block(s: Seq<nat>, m: nat, n: nat, u: nat)
    requires
        m % 2 == 0,
        n == m * s.len(),
        all_below_p(s),
    ensures
        fold_combs(block_combs(s, m, n), u) == block_combs(doubled(s, u), m / 2, n),
        all_below_p(doubled(s, u)),
{
    let l = s.len() as int;
    let d = doubled(s, u);
    let c = block_combs(s, m, n);
    let lhs = fold_combs(c, u);
    let rhs = block_combs(d, m / 2, n);
    field::lemma_p_facts();
    assert forall|j: int| 0 <= j < d.len() implies #[trigger] d[j] < field::p() by {
        if j >= l {
            field::lemma_field_ops_bounded(s[j - l], u);
        }
    }
    assert(lhs.len() == rhs.len());
    assert forall|i: int| 0 <= i < lhs.len() implies #[trigger] lhs[i] =~= rhs[i] by {
        let lo = i * (2 * l);
        assert((2 * i) * l == lo && (2 * i + 1) * l == lo + l && (2 * i + 2) * l == lo + 2 * l
            && (i + 1) * (2 * l) == lo + 2 * l) by (nonlinear_arith)
            requires
                lo == i * (2 * l),
        ;
        assert(d.len() == 2 * l);
        assert forall|j: int| 0 <= j < n implies #[trigger] lhs[i][j] == rhs[i][j] by {
            let a = c[2 * i][j];
            let b = c[2 * i + 1][j];
            assert(lhs[i][j] == field::fadd(a, field::fmul(b, u)));
            assert(a == if lo <= j < lo + l { s[j - lo] } else { 0nat });
            assert(b == if lo + l <= j < lo + 2 * l { s[j - lo - l] } else { 0nat });
            assert(rhs[i][j] == if lo <= j < lo + 2 * l { d[j - lo] } else { 0nat });
            if lo <= j < lo + l {
                field::lemma_fmul_zero(u);
                field::lemma_fadd_zero(a);
            } else if lo + l <= j < lo + 2 * l {
                field::lemma_field_ops_bounded(b, u);
                field::lemma_fadd_zero(field::fmul(b, u));
            } else {
                field::lemma_fmul_zero(u);
                field::lemma_fadd_zero(0);
            }
        }
    }
    assert(lhs =~= rhs);
}

proof fn lemma_fold_all(s: Seq<nat>, n: nat, us: Seq<nat>)
    requires
        n == crate::mle::pow2(us.len()) * s.len(),
        all_below_p(s),
    ensures
        fold_combs_all(block_combs(s, crate::mle::pow2(us.len()), n), us) == block_combs(doubled_all(s, us), 1, n),
        doubled_all(s, us).len() == n,
    decreases us.len(),
{
    let m = crate::mle::pow2(us.len());
    if us.len() == 0 {
        vstd::arithmetic::power2::lemma2_to64();
        assert(crate::mle::pow2(0) == 1);
        assert(n == s.len()) by (nonlinear_arith)
            requires
                n == crate::mle::pow2(0) * s.len(),
                crate::mle::pow2(0) == 1,
        ;
    } else {
        let k = (us.len() - 1) as nat;
        vstd::arithmetic::power2::lemma_pow2_unfold(us.len());
        assert(m == 2 * crate::mle::pow2(k));
        assert(n == crate::mle::pow2(k) * (2 * s.len())) by (nonlinear_arith)
            requires
                n == m * s.len(),
                m == 2 * crate::mle::pow2(k),
        ;
        assert(m % 2 == 0 && m / 2 == crate::mle::pow2(k));
        lemma_fold_block(s, m, n, us[0]);
        assert(us.drop_first().len() == k);
        lemma_fold_all(doubled(s, us[0]), n, us.drop_first());
    }
}

/// The verifier's scalars are the coefficients of the prover's folded basis:
/// halving the basis `G_0, ..., G_{2^k - 1}` with the challenges `us`, in
/// order, leaves the single point `∑_j s_j·G_j`, where `s` is what the
/// verifier builds from `[1]` by appending `s·u` to `s` for each challenge.
/// (On formal sums of the basis, coefficient vectors of the field.)
pub proof fn lemma_verifier_scalars_fold_basis(us: Seq<nat>)
    ensures
        fold_combs_all(unit_combs(crate::mle::pow2(us.len())), us) == seq![doubled_all(seq![1nat], us)],
{
    let n = crate::mle::pow2(us.len());
    let one = seq![1nat];
    field::lemma_p_facts();
    assert(all_below_p(one));
    assert(unit_combs(n) =~= block_combs(one, n, n)) by {
        assert forall|i: int| 0 <= i < n implies #[trigger] unit_combs(n)[i] =~= block_combs(one, n, n)[i] by {
            assert forall|j: int| 0 <= j < n implies #[trigger] unit_combs(n)[i][j] == block_combs(one, n, n)[i][j] by {
                if i == j {
                    assert(i * 1 <= j < (i + 1) * 1);
                } else {
                    assert(!(i * 1 <= j < (i + 1) * 1));
                }
            }
        }
    }
    lemma_fold_all(one, n, us);
    let s = doubled_all(one, us);
    let b = block_combs(s, 1, n);
    assert(b[0] =~= s) by {
        assert forall|j: int| 0 <= j < n implies #[trigger] b[0][j] == s[j] by {
            assert(0 * s.len() <= j < (0 + 1) * s.len());
        }
    }
    assert(b =~= seq![s]);
}

// ---------------------------------------------------------------------------
// Completeness of the polynomial commitment, from the group laws of G1.
// ---------------------------------------------------------------------------

/// `(a + b) + (c + d) = (a + d) + (b + c)` in the field.
proof fn lemma_fadd_swap4(a: nat, b: nat, c: nat, d: nat)
    ensures
        field::fadd(field::fadd(a, b), field::fadd(c, d)) == field::fadd(field::fadd(a, d), field::fadd(b, c)),
{
    field::lemma_p_facts();
    let m = field::p() as int;
    vstd::arithmetic::div_mod::lemma_add_mod_noop((a + b) as int, (c + d) as int, m);
    vstd::arithmetic::div_mod::lemma_add_mod_noop((a + d) as int, (b + c) as int, m);
    assert((a + b) + (c + d) == (a + d) + (b + c));
}

proof fn lemma_xpow_bounded(x: nat, i: nat)
    ensures
        xpow(x, i) < field::p(),
{
    field::lemma_p_facts();
    if i > 0 {
        field::lemma_field_ops_bounded(xpow(x, (i - 1) as nat), x);
    }
}

proof fn lemma_scalar_comb_bounded(k: Seq<nat>, x: nat, n: nat)
    requires
        1 <= n <= k.len(),
        crate::roots::residues(k),
    ensures
        scalar_comb(k, x, n) < field::p(),
    decreases n,
{
    if n > 1 {
        field::lemma_field_ops_bounded(
            scalar_comb(k, x, (n - 1) as nat),
            field::fmul(k[n - 1], xpow(x, (n - 1) as nat)),
        );
    }
}

/// A combination of multiples of a generator is the multiple by the
/// combination of the scalars.
proof fn lemma_point_comb_multiple(
    g: (Seq<u64>, Seq<u64>, bool),
    cs: Seq<(Seq<u64>, Seq<u64>, bool)>,
    ks: Seq<nat>,
    x: nat,
    n: nat,
)
    requires
        cyclic_generator(g),
        1 <= n <= cs.len(),
        n <= ks.len(),
        crate::roots::residues(ks),
        forall|i: int| 0 <= i < n ==> #[trigger] cs[i] == g1_times(g, ks[i]),
    ensures
        point_comb(cs, x, n) == g1_times(g, scalar_comb(ks, x, n)),
    decreases n,
{
    if n > 1 {
        let n1 = (n - 1) as nat;
        lemma_point_comb_multiple(g, cs, ks, x, n1);
        let xp = xpow(x, n1);
        lemma_xpow_bounded(x, n1);
        lemma_scalar_comb_bounded(ks, x, n1);
        assert(cs[n1 as int] == g1_times(g, ks[n1 as int]));
        lemma_g1_times_multiple(g, ks[n1 as int], xp);
        field::lemma_field_ops_bounded(ks[n1 as int], xp);
        lemma_g1_sum_multiples(g, scalar_comb(ks, x, n1), field::fmul(ks[n1 as int], xp));
    }
}

/// The combination of `β·s_i + γ·c_i` is `γ·(comb of c) + β·(comb of s)`.
proof fn lemma_scalar_comb_linear(beta: nat, gamma: nat, c: Seq<nat>, s: Seq<nat>, x: nat, n: nat)
    requires
        1 <= n <= c.len(),
        n <= s.len(),
    ensures
        scalar_comb(
            Seq::new(c.len(), |i: int| field::fadd(field::fmul(beta, s[i]), field::fmul(gamma, c[i]))),
            x,
            n,
        ) == field::fadd(field::fmul(gamma, scalar_comb(c, x, n)), field::fmul(beta, scalar_comb(s, x, n))),
    decreases n,
{
    let ks = Seq::new(c.len(), |i: int| field::fadd(field::fmul(beta, s[i]), field::fmul(gamma, c[i])));
    if n == 1 {
        field::lemma_fadd_comm(field::fmul(beta, s[0]), field::fmul(gamma, c[0]));
    } else {
        let n1 = (n - 1) as nat;
        lemma_scalar_comb_linear(beta, gamma, c, s, x, n1);
        let xp = xpow(x, n1);
        let (cn, sn) = (scalar_comb(c, x, n1), scalar_comb(s, x, n1));
        let (ci, si) = (c[n1 as int], s[n1 as int]);
        // (β·s + γ·c)·xp = β·(s·xp) + γ·(c·xp)
        field::lemma_fmul_comm(field::fadd(field::fmul(beta, si), field::fmul(gamma, ci)), xp);
        field::lemma_fmul_distrib(xp, field::fmul(beta, si), field::fmul(gamma, ci));
        field::lemma_fmul_comm(xp, field::fmul(beta, si));
        field::lemma_fmul_comm(xp, field::fmul(gamma, ci));
        field::lemma_fmul_assoc(beta, si, xp);
        field::lemma_fmul_assoc(gamma, ci, xp);
        let pb = field::fmul(beta, field::fmul(si, xp));
        let pg = field::fmul(gamma, field::fmul(ci, xp));
        assert(field::fmul(ks[n1 as int], xp) == field::fadd(pb, pg));
        // γ·(cn + c·xp) + β·(sn + s·xp)
        field::lemma_fmul_distrib(gamma, cn, field::fmul(ci, xp));
        field::lemma_fmul_distrib(beta, sn, field::fmul(si, xp));
        lemma_fadd_swap4(field::fmul(gamma, cn), field::fmul(beta, sn), pb, pg);
        field::lemma_fadd_comm(pb, field::fmul(beta, sn));
    }
}

/// `c_0 + c_1·x + ... + c_{n-1}·x^{n-1}` with the first term split off:
/// `c_0 + x·(c_1 + c_2·x + ...)`.
proof fn lemma_scalar_comb_shift(c: Seq<nat>, x: nat, n: nat)
    requires
        2 <= n <= c.len(),
        crate::roots::residues(c),
        x < field::p(),
    ensures
        scalar_comb(c, x, n) == field::fadd(c[0], field::fmul(x, scalar_comb(c.drop_first(), x, (n - 1) as nat))),
    decreases n,
{
    field::lemma_p_facts();
    let t = c.drop_first();
    let n1 = (n - 1) as nat;
    // c[n-1]·x^(n-1) = x·(t[n-2]·x^(n-2))
    let xq = xpow(x, (n - 2) as nat);
    assert(xpow(x, n1) == field::fmul(xq, x));
    field::lemma_fmul_comm(xq, x);
    field::lemma_fmul_assoc(t[n - 2], x, xq);
    field::lemma_fmul_comm(t[n - 2], x);
    field::lemma_fmul_assoc(x, t[n - 2], xq);
    assert(field::fmul(c[n1 as int], xpow(x, n1)) == field::fmul(x, field::fmul(t[n - 2], xq)));
    if n == 2 {
        assert(scalar_comb(t, x, 1) == t[0]);
        assert(scalar_comb(c, x, 1) == c[0]);
        assert(xq == 1);
        field::lemma_fmul_one(t[0]);
    } else {
        lemma_scalar_comb_shift(c, x, n1);
        let rest = scalar_comb(t, x, (n - 2) as nat);
        let last = field::fmul(t[n - 2], xq);
        // (c0 + x·rest) + x·last = c0 + x·(rest + last)
        field::lemma_fadd_assoc(c[0], field::fmul(x, rest), field::fmul(x, last));
        field::lemma_fmul_distrib(x, rest, last);
    }
}

/// Horner's rule agrees with the sum of the terms.
proof fn lemma_peval_is_comb(c: Seq<nat>, x: nat)
    requires
        c.len() >= 1,
        crate::roots::residues(c),
        x < field::p(),
    ensures
        poly::peval(c, x) == scalar_comb(c, x, c.len()),
    decreases c.len(),
{
    field::lemma_p_facts();
    let t = c.drop_first();
    if c.len() == 1 {
        assert(t.len() == 0);
        assert(poly::peval(t, x) == 0);
        field::lemma_fmul_zero(x);
        vstd::arithmetic::div_mod::lemma_small_mod(c[0], field::p());
    } else {
        assert(crate::roots::residues(t));
        lemma_peval_is_comb(t, x);
        lemma_scalar_comb_shift(c, x, c.len());
    }
}

/// The commitments to the coefficients `c` with the blinding factors `s`:
/// `C_i = s_i·B + c_i·G`.
pub open spec fn coefficient_commitments(c: Seq<nat>, s: Seq<nat>, seed: nat) -> Seq<(Seq<u64>, Seq<u64>, bool)> {
    Seq::new(c.len(), |i: int| pedersen(seq![c[i]], s[i], seed))
}

/// The commitments that `generate_commitment` gives for a commitment built
/// by `new` are the commitments to the polynomial's coefficients with the
/// drawn blinding factors, `C_i = s_i·B + c_i·G`; both are field elements.
pub proof fn lemma_commitments_per_coefficient<'a>(
    pc: PedersenPolynomialCommitment<'a>,
    cm: Seq<(Seq<u64>, Seq<u64>, bool)>,
)
    requires
        pc.coeffs.len() == pc.poly.coeffs.len(),
        forall|i: int|
            0 <= i < pc.coeffs.len() ==> (#[trigger] pc.coeffs@[i]).v@ == seq![pc.poly.coeffs@[i]]
                && pc.coeffs@[i].seed == pc.seed,
        cm.len() == pc.coeffs.len(),
        forall|i: int|
            0 <= i < cm.len() ==> #[trigger] cm[i] == pedersen(
                field::fe_vals(pc.coeffs@[i].v@),
                pc.coeffs@[i].s@,
                pc.coeffs@[i].seed as nat,
            ),
    ensures
        coefficient_commitments(pc.poly.vals(), blinds(pc.coeffs@), pc.seed as nat) == cm,
        crate::roots::residues(pc.poly.vals()),
        crate::roots::residues(blinds(pc.coeffs@)),
{
    let c = pc.poly.vals();
    let s = blinds(pc.coeffs@);
    assert forall|i: int| 0 <= i < c.len() implies #[trigger] c[i] < field::p() by {
        field::lemma_fe_bounded(pc.poly.coeffs@[i]);
    }
    assert forall|i: int| 0 <= i < s.len() implies #[trigger] s[i] < field::p() by {
        field::lemma_fe_bounded(pc.coeffs@[i].s);
    }
    assert forall|i: int| 0 <= i < c.len() implies #[trigger] field::fe_vals(pc.coeffs@[i].v@) == seq![c[i]] by {
        assert(field::fe_vals(pc.coeffs@[i].v@) =~= seq![c[i]]);
    }
    assert(coefficient_commitments(c, s, pc.seed as nat) =~= cm);
}

/// Completeness of the polynomial commitment: for the commitments
/// `C_i = s_i·B + c_i·G` to the coefficients `c` of a polynomial, the
/// opening at `x` with `y = p(x)` and `π = s_0 + s_1·x + ...` satisfies the
/// check of `verify`: `∑ C_i·x^i = y·G + π·B`. It rests on the group laws of
/// G1 (`cyclic_generator`, which `G1::generator` gives) and on the
/// generators lying in G1 (which `blinding_curve` gives).
pub proof fn lemma_polynomial_commitment_complete(
    g: (Seq<u64>, Seq<u64>, bool),
    seed: u64,
    c: Seq<nat>,
    s: Seq<nat>,
    x: nat,
)
    requires
        cyclic_generator(g),
        seed >= 1,
        in_g1(blinding_point(seed)),
        in_g1(blinding_point((seed - 1) as u64)),
        c.len() >= 1,
        s.len() == c.len(),
        crate::roots::residues(c),
        crate::roots::residues(s),
        x < field::p(),
    ensures
        point_comb(coefficient_commitments(c, s, seed as nat), x, c.len()) == g1_sum(
            g1_times(blinding_point(seed), poly::peval(c, x)),
            g1_times(blinding_point((seed - 1) as u64), scalar_comb(s, x, c.len())),
        ),
{
    field::lemma_p_facts();
    let gg = blinding_point(seed);
    let bb = blinding_point((seed - 1) as u64);
    let gamma = lemma_g1_multiple(g, gg);
    let beta = lemma_g1_multiple(g, bb);
    let n = c.len();
    let cs = coefficient_commitments(c, s, seed as nat);
    let ks = Seq::new(n, |i: int| field::fadd(field::fmul(beta, s[i]), field::fmul(gamma, c[i])));
    assert forall|i: int| 0 <= i < n implies #[trigger] cs[i] == g1_times(g, ks[i]) by {
        let v = seq![c[i]];
        assert(v.len() == 1 && v[0] == c[i]);
        assert(((seed as nat) + 1 - 1) as u64 == seed);
        assert(pedersen_upto(v, s[i], seed as nat, 0) == g1_times(bb, s[i]));
        assert(pedersen_upto(v, s[i], seed as nat, 1) == g1_sum(g1_times(bb, s[i]), g1_times(gg, c[i])));
        assert(cs[i] == pedersen(v, s[i], seed as nat));
        assert(cs[i] == g1_sum(g1_times(bb, s[i]), g1_times(gg, c[i])));
        assert(s[i] < field::p() && c[i] < field::p());
        lemma_g1_times_multiple(g, beta, s[i]);
        lemma_g1_times_multiple(g, gamma, c[i]);
        field::lemma_field_ops_bounded(beta, s[i]);
        field::lemma_field_ops_bounded(gamma, c[i]);
        lemma_g1_sum_multiples(g, field::fmul(beta, s[i]), field::fmul(gamma, c[i]));
        assert(g1_sum(g1_times(g, field::fmul(beta, s[i])), g1_times(g, field::fmul(gamma, c[i]))) == g1_times(
            g,
            field::fadd(field::fmul(beta, s[i]), field::fmul(gamma, c[i])),
        ));
    }
    assert(crate::roots::residues(ks)) by {
        assert forall|i: int| 0 <= i < ks.len() implies #[trigger] ks[i] < field::p() by {
            field::lemma_field_ops_bounded(field::fmul(beta, s[i]), field::fmul(gamma, c[i]));
        }
    }
    lemma_point_comb_multiple(g, cs, ks, x, n);
    lemma_scalar_comb_linear(beta, gamma, c, s, x, n);
    lemma_peval_is_comb(c, x);
    let (y, pi) = (poly::peval(c, x), scalar_comb(s, x, n));
    lemma_scalar_comb_bounded(c, x, n);
    lemma_scalar_comb_bounded(s, x, n);
    lemma_g1_times_multiple(g, gamma, y);
    lemma_g1_times_multiple(g, beta, pi);
    field::lemma_field_ops_bounded(gamma, y);
    field::lemma_field_ops_bounded(beta, pi);
    lemma_g1_sum_multiples(g, field::fmul(gamma, y), field::fmul(beta, pi));
    assert(g1_sum(g1_times(g, field::fmul(gamma, y)), g1_times(g, field::fmul(beta, pi))) == g1_times(
        g,
        field::fadd(field::fmul(gamma, y), field::fmul(beta, pi)),
    ));
}

} // verus!
