//! Quadratic arithmetic programs: the columns of an R1CS instance become
//! polynomials through Lagrange interpolation over the domain `1..=rows`, and
//! a witness satisfies the instance when `A(x)·B(x) - C(x)` is divisible by
//! `∏ (x - i)`.
use crate::field::{self, Fe};
use crate::poly::{self, lagrange_interpolate, Poly};
use crate::r1cs::{self, Matrix, R1CS};
use vstd::prelude::*;

verus! {

/// The values of a list of polynomials.
pub open spec fn polys_vals(v: Seq<Poly>) -> Seq<Seq<nat>> {
    v.map_values(|q: Poly| q.vals())
}

/// The interpolation domain `1, 2, ..., rows`.
pub open spec fn domain(rows: nat) -> Seq<nat> {
    Seq::new(rows, |i: int| (i + 1) as nat)
}

/// What `mat_to_poly_columns` needs: a nonempty matrix whose rows all reach
/// the width of the first row.
pub open spec fn columns_ok(m: Seq<Seq<nat>>) -> bool {
    &&& m.len() > 0
    &&& m[0].len() > 0
    &&& m.len() < 0x8000_0000
    &&& r1cs::rows_at_least(m, m[0].len())
}

/// Column `j` of `m`, interpolated over `1..=rows`: the polynomial takes
/// the value `m[i][j]` at `i + 1`.
pub open spec fn is_column_poly(q: Poly, m: Seq<Seq<nat>>, j: int) -> bool {
    &&& poly::is_lagrange_form(q.vals(), domain(m.len()), r1cs::column(m, j))
    &&& poly::trimmed(q.vals())
    &&& q.coeffs.len() <= m.len()
    &&& forall|i: int| 0 <= i < m.len() ==> #[trigger] poly::peval(q.vals(), (i + 1) as nat) == m[i][j]
}

/// Each column of `a` interpolated over the domain `1..=rows`.
fn mat_to_poly_columns(a: &Matrix) -> (r: Vec<Poly>)
    requires
        columns_ok(r1cs::mat_view(a@)),
    ensures
        r.len() == a@[0].len(),
        forall|j: int| 0 <= j < r.len() ==> #[trigger] is_column_poly(r@[j], r1cs::mat_view(a@), j),
{
    let ghost av = r1cs::mat_view(a@);
    let rows = a.len();
    let columns = a[0].len();
    let mut out: Vec<Poly> = Vec::new();
    let mut j: usize = 0;
    while j < columns
        invariant
            av == r1cs::mat_view(a@),
            columns_ok(av),
            rows == a.len(),
            columns == a@[0].len(),
            j <= columns,
            out.len() == j,
            forall|s: int| 0 <= s < j ==> #[trigger] is_column_poly(out@[s], av, s),
        decreases columns - j,
    {
        let mut points: Vec<(Fe, Fe)> = Vec::new();
        let mut i: usize = 0;
        while i < rows
            invariant
                av == r1cs::mat_view(a@),
                columns_ok(av),
                rows == a.len(),
                columns == a@[0].len(),
                j < columns,
                i <= rows,
                points.len() == i,
                forall|t: int|
                    0 <= t < i ==> (#[trigger] points@[t]).0@ == t + 1 && points@[t].1@ == av[t][j as int],
            decreases rows - i,
        {
            assert(av[i as int].len() >= columns);
            let x = Fe::from_i64((i + 1) as i64);
            proof {
                field::lemma_p_facts();
                vstd::arithmetic::div_mod::lemma_small_mod((i + 1) as nat, field::p());
            }
            points.push((x, a[i][j]));
            i = i + 1;
        }
        proof {
            assert(poly::xs_of(points@) =~= domain(rows as nat));
            assert(poly::ys_of(points@) =~= r1cs::column(av, j as int));
            assert(crate::roots::distinct_nodes(domain(rows as nat)));
        }
        let q = lagrange_interpolate(points.as_slice());
        proof {
            assert forall|i: int| 0 <= i < av.len() implies #[trigger] poly::peval(q.vals(), (i + 1) as nat)
                == av[i][j as int] by {
                assert(poly::xs_of(points@)[i] == i + 1);
                assert(poly::ys_of(points@)[i] == av[i][j as int]);
            }
        }
        out.push(q);
        j = j + 1;
    }
    out
}

/// Every polynomial has at most `m` coefficients.
pub open spec fn all_len_le(v: Seq<Poly>, m: nat) -> bool {
    forall|k: int| 0 <= k < v.len() ==> #[trigger] v[k].coeffs.len() <= m
}

/// A polynomial times a scalar, coefficient by coefficient.
fn scale_coeffs(p: &Poly, s: &Fe) -> (r: Poly)
    requires
        poly::degree_ok(p.vals()),
    ensures
        r.vals() == p.vals().map_values(|c: nat| field::fmul(c, s@)),
        r.coeffs.len() == p.coeffs.len(),
        poly::degree_ok(r.vals()),
{
    let mut out: Vec<Fe> = Vec::new();
    let mut i: usize = 0;
    while i < p.coeffs.len()
        invariant
            i <= p.coeffs.len(),
            out.len() == i,
            forall|t: int| 0 <= t < i ==> #[trigger] out@[t]@ == field::fmul(p.coeffs@[t]@, s@),
            forall|t: int| 0 <= t < i ==> p.coeffs@[t]@ != 0 && s@ != 0 ==> #[trigger] out@[t]@ != 0,
        decreases p.coeffs.len() - i,
    {
        out.push(p.coeffs[i].mul(s));
        i = i + 1;
    }
    let r = Poly { coeffs: out };
    proof {
        assert(r.vals() =~= p.vals().map_values(|c: nat| field::fmul(c, s@)));
        if poly::all_zero(p.vals()) || s@ == 0 {
            assert forall|t: int| 0 <= t < r.vals().len() implies #[trigger] r.vals()[t] == 0 by {
                field::lemma_fmul_zero(p.vals()[t]);
                field::lemma_fmul_zero(s@);
            }
        } else {
            assert(poly::trimmed(p.vals()));
            if r.coeffs.len() > 0 {
                let l = r.coeffs.len() - 1;
                assert(r.vals()[l as int] == out@[l as int]@);
            }
        }
    }
    r
}

/// `∑_k a[k]·b[k]` as a polynomial.
fn dot(a: &Vec<Poly>, b: &Vec<Fe>) -> (r: Poly)
    requires
        a.len() > 0,
        a.len() == b.len(),
        forall|k: int| 0 <= k < a.len() ==> #[trigger] poly::degree_ok(a@[k].vals()),
    ensures
        poly::degree_ok(r.vals()),
        forall|m: nat| #[trigger] all_len_le(a@, m) ==> r.coeffs.len() <= m,
        forall|x: nat|
            #[trigger] poly::peval(r.vals(), x) == poly::weighted_sum(
                polys_vals(a@),
                field::fe_vals(b@),
                x,
                a.len() as nat,
            ),
{
    let ghost pv = polys_vals(a@);
    let ghost bv = field::fe_vals(b@);
    let mut acc = scale_coeffs(&a[0], &b[0]);
    proof {
        field::lemma_p_facts();
        field::lemma_fe_bounded(b@[0]);
        assert forall|x: nat| #[trigger] poly::peval(acc.vals(), x) == poly::weighted_sum(pv, bv, x, 1) by {
            assert(pv[0] == a@[0].vals());
            assert(bv[0] == b@[0]@);
            poly::lemma_peval_scaled(a@[0].vals(), b@[0]@, x);
            poly::lemma_peval_bounded(pv[0], x);
            assert(poly::weighted_sum(pv, bv, x, 1) == field::fadd(
                poly::weighted_sum(pv, bv, x, 0),
                field::fmul(poly::peval(pv[0], x), bv[0]),
            ));
            field::lemma_field_ops_bounded(poly::peval(pv[0], x), bv[0]);
            field::lemma_fadd_zero(field::fmul(poly::peval(pv[0], x), bv[0]));
        }
    }
    let mut k: usize = 1;
    while k < a.len()
        invariant
            a.len() == b.len(),
            pv == polys_vals(a@),
            bv == field::fe_vals(b@),
            1 <= k <= a.len(),
            forall|t: int| 0 <= t < a.len() ==> #[trigger] poly::degree_ok(a@[t].vals()),
            poly::degree_ok(acc.vals()),
            forall|m: nat| #[trigger] all_len_le(a@, m) ==> acc.coeffs.len() <= m,
            forall|x: nat| #[trigger] poly::peval(acc.vals(), x) == poly::weighted_sum(pv, bv, x, k as nat),
        decreases a.len() - k,
    {
        let s = scale_coeffs(&a[k], &b[k]);
        proof {
            assert(poly::degree_ok(s.vals()));
        }
        let next = acc.add(&s);
        proof {
            field::lemma_fe_bounded(b@[k as int]);
            assert forall|x: nat| #[trigger] poly::peval(next.vals(), x) == poly::weighted_sum(
                pv,
                bv,
                x,
                (k + 1) as nat,
            ) by {
                poly::lemma_peval_scaled(a@[k as int].vals(), b@[k as int]@, x);
            }
            assert forall|m: nat| #[trigger] all_len_le(a@, m) implies next.coeffs.len() <= m by {
                assert(a@[k as int].coeffs.len() <= m);
            }
        }
        acc = next;
        k = k + 1;
    }
    acc
}

/// QAP representation of an R1CS instance: one polynomial per column of each
/// matrix.
#[derive(Debug)]
pub struct QAP {
    pub a: Vec<Poly>,
    pub b: Vec<Poly>,
    pub c: Vec<Poly>,
    pub rows: usize,
}

/// A QAP prover instance over a witness: `a·b - c = t·h` where `h` vanishes
/// on the domain.
#[derive(Debug)]
pub struct QAPProver {
    pub a: Poly,
    pub b: Poly,
    pub c: Poly,
    /// The quotient `t(x)` in `a(x)b(x) - c(x) = t(x)h(x)`.
    pub t: Poly,
    pub rows: usize,
}

/// The column polynomials of one matrix, as `QAP::new` builds them.
pub open spec fn columns_of(v: Seq<Poly>, m: Seq<Seq<nat>>) -> bool {
    &&& v.len() == m[0].len()
    &&& forall|j: int| 0 <= j < v.len() ==> #[trigger] is_column_poly(v[j], m, j)
}

/// The shape that `create_prover` needs.
pub open spec fn qap_ok(q: &QAP) -> bool {
    &&& 0 < q.rows < 0x8000_0000
    &&& q.a.len() > 0
    &&& q.b.len() > 0
    &&& q.c.len() > 0
    &&& forall|k: int| 0 <= k < q.a.len() ==> #[trigger] poly::degree_ok(q.a@[k].vals())
    &&& forall|k: int| 0 <= k < q.b.len() ==> #[trigger] poly::degree_ok(q.b@[k].vals())
    &&& forall|k: int| 0 <= k < q.c.len() ==> #[trigger] poly::degree_ok(q.c@[k].vals())
    &&& all_len_le(q.a@, q.rows as nat)
    &&& all_len_le(q.b@, q.rows as nat)
    &&& all_len_le(q.c@, q.rows as nat)
}

/// `∑_k cols[k](x)·z[k]`.
pub open spec fn combine(cols: Seq<Poly>, z: Seq<Fe>, x: nat) -> nat {
    poly::weighted_sum(polys_vals(cols), field::fe_vals(z), x, cols.len())
}

/// The value at `x` of `∏_{i=1..=rows} (x - i)`.
pub open spec fn circuit_value(rows: nat, x: nat) -> nat {
    poly::node_poly_value(domain(rows), x, rows)
}

/// `a(x)·b(x) - c(x) = t(x)·∏_{i=1..=rows} (x - i) + rem(x)` for every `x`,
/// for some remainder `rem` of at most `rows` coefficients (the long-division
/// identity, where `a`, `b`, `c` combine the column polynomials with `z`).
pub open spec fn quotient_identity(q: &QAP, z: Seq<Fe>, t: Seq<nat>) -> bool {
    exists|rem: Seq<nat>|
        rem.len() <= q.rows && forall|x: nat|
            #[trigger] field::fsub(
                field::fmul(combine(q.a@, z, x), combine(q.b@, z, x)),
                combine(q.c@, z, x),
            ) == field::fadd(
                field::fmul(poly::peval(t, x), circuit_value(q.rows as nat, x)),
                poly::peval(rem, x),
            )
}

/// At every point `i` of the domain, `a(i)·b(i) = c(i)` for the
/// combinations with `z`.
pub open spec fn domain_satisfied(q: &QAP, z: Seq<Fe>) -> bool {
    forall|i: nat|
        1 <= i <= q.rows ==> field::fmul(combine(q.a@, z, i), combine(q.b@, z, i)) == #[trigger] combine(
            q.c@,
            z,
            i,
        )
}

/// `a(x)·b(x) - c(x) = t(x)·∏_{i=1..=rows} (x - i)` for every `x`: the
/// division leaves no remainder.
pub open spec fn exact_quotient(q: &QAP, z: Seq<Fe>, t: Seq<nat>) -> bool {
    forall|x: nat|
        #[trigger] field::fsub(field::fmul(combine(q.a@, z, x), combine(q.b@, z, x)), combine(q.c@, z, x))
            == field::fmul(poly::peval(t, x), circuit_value(q.rows as nat, x))
}

impl QAP {
    pub fn new(r1cs: &R1CS) -> (r: Self)
        requires
            columns_ok(r1cs::mat_view(r1cs.a@)),
            columns_ok(r1cs::mat_view(r1cs.b@)),
            columns_ok(r1cs::mat_view(r1cs.c@)),
        ensures
            columns_of(r.a@, r1cs::mat_view(r1cs.a@)),
            columns_of(r.b@, r1cs::mat_view(r1cs.b@)),
            columns_of(r.c@, r1cs::mat_view(r1cs.c@)),
            r.rows == r1cs.a.len(),
            r1cs.a.len() == r1cs.b.len() && r1cs.a.len() == r1cs.c.len() ==> qap_ok(&r),
    {
        let r = Self {
            a: mat_to_poly_columns(&r1cs.a),
            b: mat_to_poly_columns(&r1cs.b),
            c: mat_to_poly_columns(&r1cs.c),
            rows: r1cs.a.len(),
        };
        proof {
            if r1cs.a.len() == r1cs.b.len() && r1cs.a.len() == r1cs.c.len() {
                assert forall|k: int| 0 <= k < r.a.len() implies #[trigger] poly::degree_ok(
                    r.a@[k].vals(),
                ) by {
                    assert(is_column_poly(r.a@[k], r1cs::mat_view(r1cs.a@), k));
                }
                assert forall|k: int| 0 <= k < r.b.len() implies #[trigger] poly::degree_ok(
                    r.b@[k].vals(),
                ) by {
                    assert(is_column_poly(r.b@[k], r1cs::mat_view(r1cs.b@), k));
                }
                assert forall|k: int| 0 <= k < r.c.len() implies #[trigger] poly::degree_ok(
                    r.c@[k].vals(),
                ) by {
                    assert(is_column_poly(r.c@[k], r1cs::mat_view(r1cs.c@), k));
                }
                assert forall|k: int| 0 <= k < r.a.len() implies #[trigger] r.a@[k].coeffs.len()
                    <= r.rows by {
                    assert(is_column_poly(r.a@[k], r1cs::mat_view(r1cs.a@), k));
                }
                assert forall|k: int| 0 <= k < r.b.len() implies #[trigger] r.b@[k].coeffs.len()
                    <= r.rows by {
                    assert(is_column_poly(r.b@[k], r1cs::mat_view(r1cs.b@), k));
                }
                assert forall|k: int| 0 <= k < r.c.len() implies #[trigger] r.c@[k].coeffs.len()
                    <= r.rows by {
                    assert(is_column_poly(r.c@[k], r1cs::mat_view(r1cs.c@), k));
                }
            }
        }
        r
    }

    /// `∏_{i=1..=equations} (x - i)`, the polynomial that vanishes on the
    /// domain.
    pub fn circuit_poly(equations: usize) -> (r: Poly)
        requires
            equations < 0x8000_0000,
        ensures
            poly::trimmed(r.vals()),
            r.coeffs.len() == equations + 1,
            forall|x: nat| #[trigger] poly::peval(r.vals(), x) == circuit_value(equations as nat, x),
    {
        let ghost dom = domain(equations as nat);
        let mut acc = Poly { coeffs: vec![Fe::from_i64(1)] };
        proof {
            field::lemma_p_facts();
            vstd::arithmetic::div_mod::lemma_small_mod(1, field::p());
            assert forall|x: nat| #[trigger] poly::peval(acc.vals(), x) == poly::node_poly_value(
                dom,
                x,
                0,
            ) by {
                poly::lemma_peval_short(acc.vals(), x);
            }
        }
        let mut i: usize = 1;
        while i <= equations
            invariant
                equations < 0x8000_0000,
                dom == domain(equations as nat),
                1 <= i <= equations + 1,
                poly::trimmed(acc.vals()),
                acc.coeffs.len() == i,
                forall|x: nat| #[trigger] poly::peval(acc.vals(), x) == poly::node_poly_value(
                    dom,
                    x,
                    (i - 1) as nat,
                ),
            decreases equations + 1 - i,
        {
            let neg_i: i64 = -(i as i64);
            let f = Poly { coeffs: vec![Fe::from_i64(neg_i), Fe::from_i64(1)] };
            proof {
                field::lemma_p_facts();
                vstd::arithmetic::div_mod::lemma_small_mod(1, field::p());
                assert(f.vals() =~= seq![field::fneg(i as nat), 1nat]);
                field::lemma_field_ops_bounded(0, i as nat);
                assert forall|x: nat| #[trigger] poly::peval(f.vals(), x) == field::fsub(x, dom[i - 1]) by {
                    poly::lemma_peval_linear(field::fneg(i as nat), 1, x);
                    poly::lemma_neg_plus(i as nat, x);
                }
            }
            acc = acc.mul(&f);
            i = i + 1;
        }
        acc
    }

    /// The prover for witness `z`: `a = ∑ A_k z_k`, likewise `b` and `c`, and
    /// `t = (a·b - c) / ∏ (x - i)`.
    pub fn create_prover(&self, z: &Vec<Fe>) -> (r: QAPProver)
        requires
            qap_ok(self),
            self.a.len() == z.len(),
            self.b.len() == z.len(),
            self.c.len() == z.len(),
        ensures
            r.rows == self.rows,
            forall|x: nat| #[trigger] poly::peval(r.a.vals(), x) == combine(self.a@, z@, x),
            forall|x: nat| #[trigger] poly::peval(r.b.vals(), x) == combine(self.b@, z@, x),
            forall|x: nat| #[trigger] poly::peval(r.c.vals(), x) == combine(self.c@, z@, x),
            quotient_identity(self, z@, r.t.vals()),
            domain_satisfied(self, z@) ==> exact_quotient(self, z@, r.t.vals()),
    {
        let az = dot(&self.a, z);
        let bz = dot(&self.b, z);
        let cz = dot(&self.c, z);
        let ab = az.mul(&bz);
        let diff = ab.sub(&cz);
        let circuit = Self::circuit_poly(self.rows);
        proof {
            let l = (circuit.coeffs.len() - 1) as int;
            assert(circuit.vals()[l] != 0);
        }
        let t = diff.div(&circuit);
        // The modulus of `Fr`, which ark_ff documents as prime: a remainder
        // that vanishes on the whole domain is zero by Fermat's theorem for it.
        let _modulus = field::ark_modulus();
        proof {
            let rem = choose|rem: Seq<nat>|
                #![trigger rem.len()]
                rem.len() < circuit.vals().len() && forall|x: nat|
                    #[trigger] poly::peval(diff.vals(), x) == field::fadd(
                        field::fmul(poly::peval(t.vals(), x), poly::peval(circuit.vals(), x)),
                        poly::peval(rem, x),
                    );
            assert forall|x: nat| #[trigger] poly::peval(diff.vals(), x) == field::fsub(
                field::fmul(combine(self.a@, z@, x), combine(self.b@, z@, x)),
                combine(self.c@, z@, x),
            ) by {
                assert(poly::peval(az.vals(), x) == combine(self.a@, z@, x));
                assert(poly::peval(bz.vals(), x) == combine(self.b@, z@, x));
                assert(poly::peval(cz.vals(), x) == combine(self.c@, z@, x));
                assert(poly::peval(ab.vals(), x) == field::fmul(
                    poly::peval(az.vals(), x),
                    poly::peval(bz.vals(), x),
                ));
            }
            assert forall|x: nat| #[trigger] field::fsub(
                field::fmul(combine(self.a@, z@, x), combine(self.b@, z@, x)),
                combine(self.c@, z@, x),
            ) == field::fadd(
                field::fmul(poly::peval(t.vals(), x), circuit_value(self.rows as nat, x)),
                poly::peval(rem, x),
            ) by {
                assert(poly::peval(diff.vals(), x) == field::fadd(
                    field::fmul(poly::peval(t.vals(), x), poly::peval(circuit.vals(), x)),
                    poly::peval(rem, x),
                ));
            }
            assert(rem.len() <= self.rows);
            if domain_satisfied(self, z@) {
                let dom = domain(self.rows as nat);
                field::lemma_p_facts();
                assert(crate::roots::fermat()) by {
                    assert forall|a: nat| 0 < a < field::p() implies #[trigger] (vstd::arithmetic::power::pow(
                        a as int,
                        (field::p() - 1) as nat,
                    ) % (field::p() as int)) == 1 by {}
                }
                assert forall|i: int| 0 <= i < dom.len() implies #[trigger] poly::peval(rem, dom[i]) == 0 by {
                    let d = dom[i];
                    assert(d == i + 1);
                    assert(combine(self.c@, z@, d) == field::fmul(combine(self.a@, z@, d), combine(self.b@, z@, d)));
                    field::lemma_fsub_self(combine(self.c@, z@, d));
                    poly::lemma_node_poly_vanishes(dom, i, self.rows as nat);
                    field::lemma_fmul_zero(poly::peval(t.vals(), d));
                    poly::lemma_peval_bounded(rem, d);
                    field::lemma_fadd_zero(poly::peval(rem, d));
                }
                assert(crate::roots::distinct_nodes(dom));
                assert(crate::roots::residues(dom)) by {
                    assert forall|i: int| 0 <= i < dom.len() implies #[trigger] dom[i] < field::p() by {}
                }
                assert forall|x: nat| #[trigger] field::fsub(
                    field::fmul(combine(self.a@, z@, x), combine(self.b@, z@, x)),
                    combine(self.c@, z@, x),
                ) == field::fmul(poly::peval(t.vals(), x), circuit_value(self.rows as nat, x)) by {
                    crate::roots::lemma_vanishes_everywhere(rem, dom, x);
                    field::lemma_field_ops_bounded(poly::peval(t.vals(), x), circuit_value(self.rows as nat, x));
                    field::lemma_fadd_zero(field::fmul(poly::peval(t.vals(), x), circuit_value(self.rows as nat, x)));
                }
            }
        }
        QAPProver::new(az, bz, cz, t, self.rows)
    }
}

impl QAPProver {
    pub fn new(a: Poly, b: Poly, c: Poly, t: Poly, rows: usize) -> (r: Self)
        ensures
            r.a == a,
            r.b == b,
            r.c == c,
            r.t == t,
            r.rows == rows,
    {
        Self { a, b, c, t, rows }
    }

    /// `(a(r), b(r), c(r) + t(r)·h(r))`, with `h = ∏_{i=1..=rows} (x - i)`.
    pub fn trust_me_bro_compute(&self, r: Fe) -> (out: (Fe, Fe, Fe))
        requires
            self.rows < 0x8000_0000,
        ensures
            out.0@ == poly::peval(self.a.vals(), r@),
            out.1@ == poly::peval(self.b.vals(), r@),
            out.2@ == field::fadd(
                poly::peval(self.c.vals(), r@),
                field::fmul(poly::peval(self.t.vals(), r@), circuit_value(self.rows as nat, r@)),
            ),
    {
        let ea = poly::evaluate(&self.a, &r);
        let eb = poly::evaluate(&self.b, &r);
        let ec = poly::evaluate(&self.c, &r);
        let et = poly::evaluate(&self.t, &r);
        let h = QAP::circuit_poly(self.rows);
        let eh = poly::evaluate(&h, &r);
        let th = et.mul(&eh);
        (ea, eb, ec.add(&th))
    }
}

/// Accepts exactly when `a·b = c`.
pub fn trust_me_bro_verify(a: Fe, b: Fe, c: Fe) -> (r: bool)
    ensures
        r == (field::fmul(a@, b@) == c@),
{
    let ab = a.mul(&b);
    ab.equals(&c)
}

/// At `i + 1` the combination of the column polynomials is row `i` dotted
/// with the witness.
proof fn lemma_combine_at_domain(cols: Seq<Poly>, m: Seq<Seq<nat>>, z: Seq<nat>, i: int, n: nat)
    requires
        0 <= i < m.len(),
        n <= cols.len(),
        n <= m[i].len(),
        n <= z.len(),
        forall|j: int| 0 <= j < cols.len() ==> #[trigger] is_column_poly(cols[j], m, j),
    ensures
        poly::weighted_sum(polys_vals(cols), z, (i + 1) as nat, n) == r1cs::dot_upto(m[i], z, n),
    decreases n,
{
    if n > 0 {
        lemma_combine_at_domain(cols, m, z, i, (n - 1) as nat);
        let j = n - 1;
        assert(is_column_poly(cols[j], m, j));
        assert(polys_vals(cols)[j] == cols[j].vals());
        assert(poly::peval(cols[j].vals(), (i + 1) as nat) == m[i][j]);
    }
}

/// `u - v = w` gives `u = v + w` for residues.
proof fn lemma_sub_to_add(u: nat, v: nat, w: nat)
    requires
        u < field::p(),
        field::fsub(u, v) == w,
    ensures
        u == field::fadd(v, w),
{
    field::lemma_p_facts();
    let m = field::p() as int;
    vstd::arithmetic::div_mod::lemma_add_mod_noop(v as int, (u - v) as int, m);
    vstd::arithmetic::div_mod::lemma_mod_twice(v as int, m);
    vstd::arithmetic::div_mod::lemma_mod_twice((u - v) as int, m);
    vstd::arithmetic::div_mod::lemma_add_mod_noop(v as int, w as int, m);
    vstd::arithmetic::div_mod::lemma_small_mod(w, field::p());
    vstd::arithmetic::div_mod::lemma_small_mod(u, field::p());
    assert(v + (u - v) == u);
}

/// Completeness of the QAP: when the witness `z` satisfies the R1CS
/// instance, the prover's quotient is exact, so the check of
/// `trust_me_bro_verify` holds at every point `x`:
/// `a(x)·b(x) = c(x) + t(x)·∏_{i=1..=rows} (x - i)`. The last requirement is
/// what `create_prover` promises of `t`.
pub proof fn lemma_qap_completeness(
    a: Seq<Seq<nat>>,
    b: Seq<Seq<nat>>,
    c: Seq<Seq<nat>>,
    q: QAP,
    z: Seq<Fe>,
    t: Seq<nat>,
    x: nat,
)
    requires
        columns_ok(a) && columns_ok(b) && columns_ok(c),
        a.len() == b.len() && a.len() == c.len(),
        columns_of(q.a@, a) && columns_of(q.b@, b) && columns_of(q.c@, c),
        q.rows == a.len(),
        z.len() == a[0].len() && z.len() == b[0].len() && z.len() == c[0].len(),
        r1cs::r1cs_satisfied(a, b, c, r1cs::witness_column(field::fe_vals(z))),
        domain_satisfied(&q, z) ==> exact_quotient(&q, z, t),
    ensures
        field::fmul(combine(q.a@, z, x), combine(q.b@, z, x)) == field::fadd(
            combine(q.c@, z, x),
            field::fmul(poly::peval(t, x), circuit_value(q.rows as nat, x)),
        ),
{
    let zv = field::fe_vals(z);
    let zc = r1cs::witness_column(zv);
    let n = z.len();
    assert(r1cs::column(zc, 0) =~= zv);
    assert forall|i: nat| 1 <= i <= q.rows implies field::fmul(combine(q.a@, z, i), combine(q.b@, z, i))
        == #[trigger] combine(q.c@, z, i) by {
        let r = i - 1;
        assert(a[r].len() >= a[0].len() && b[r].len() >= b[0].len() && c[r].len() >= c[0].len());
        lemma_combine_at_domain(q.a@, a, zv, r, n);
        lemma_combine_at_domain(q.b@, b, zv, r, n);
        lemma_combine_at_domain(q.c@, c, zv, r, n);
        let am = r1cs::mat_mul_spec(a, zc);
        let bm = r1cs::mat_mul_spec(b, zc);
        let cm = r1cs::mat_mul_spec(c, zc);
        assert(r1cs::hadamard_spec(am, bm)[r][0] == cm[r][0]);
        assert(am[r][0] == r1cs::dot_spec(a[r], zv));
        assert(bm[r][0] == r1cs::dot_spec(b[r], zv));
        assert(cm[r][0] == r1cs::dot_spec(c[r], zv));
    }
    let ab = field::fmul(combine(q.a@, z, x), combine(q.b@, z, x));
    assert(field::fsub(ab, combine(q.c@, z, x)) == field::fmul(poly::peval(t, x), circuit_value(q.rows as nat, x)));
    field::lemma_field_ops_bounded(combine(q.a@, z, x), combine(q.b@, z, x));
    lemma_sub_to_add(ab, combine(q.c@, z, x), field::fmul(poly::peval(t, x), circuit_value(q.rows as nat, x)));
}

/// The QAP and the R1CS instance agree: with the quotient `t` that
/// `create_prover` computes, `a(x)·b(x) = c(x) + t(x)·∏_{i=1..=rows} (x - i)`
/// holds at every `x` exactly when `z` satisfies the instance. The last
/// requirement is what `create_prover` promises of `t`.
pub proof fn lemma_qap_iff_satisfied(
    a: Seq<Seq<nat>>,
    b: Seq<Seq<nat>>,
    c: Seq<Seq<nat>>,
    q: QAP,
    z: Seq<Fe>,
    t: Seq<nat>,
)
    requires
        columns_ok(a) && columns_ok(b) && columns_ok(c),
        a.len() == b.len() && a.len() == c.len(),
        columns_of(q.a@, a) && columns_of(q.b@, b) && columns_of(q.c@, c),
        q.rows == a.len(),
        z.len() == a[0].len() && z.len() == b[0].len() && z.len() == c[0].len(),
        domain_satisfied(&q, z) ==> exact_quotient(&q, z, t),
    ensures
        r1cs::r1cs_satisfied(a, b, c, r1cs::witness_column(field::fe_vals(z))) <==> forall|x: nat|
            #[trigger] field::fmul(combine(q.a@, z, x), combine(q.b@, z, x)) == field::fadd(
                combine(q.c@, z, x),
                field::fmul(poly::peval(t, x), circuit_value(q.rows as nat, x)),
            ),
{
    let zv = field::fe_vals(z);
    let zc = r1cs::witness_column(zv);
    let n = z.len();
    if r1cs::r1cs_satisfied(a, b, c, zc) {
        assert forall|x: nat| #[trigger] field::fmul(combine(q.a@, z, x), combine(q.b@, z, x)) == field::fadd(
            combine(q.c@, z, x),
            field::fmul(poly::peval(t, x), circuit_value(q.rows as nat, x)),
        ) by {
            lemma_qap_completeness(a, b, c, q, z, t, x);
        }
    }
    if forall|x: nat| #[trigger] field::fmul(combine(q.a@, z, x), combine(q.b@, z, x)) == field::fadd(
        combine(q.c@, z, x),
        field::fmul(poly::peval(t, x), circuit_value(q.rows as nat, x)),
    ) {
        field::lemma_p_facts();
        assert(r1cs::column(zc, 0) =~= zv);
        let am = r1cs::mat_mul_spec(a, zc);
        let bm = r1cs::mat_mul_spec(b, zc);
        let cm = r1cs::mat_mul_spec(c, zc);
        let hm = r1cs::hadamard_spec(am, bm);
        assert forall|r: int| 0 <= r < a.len() implies #[trigger] hm[r] =~= cm[r] by {
            let x = (r + 1) as nat;
            assert(a[r].len() >= a[0].len() && b[r].len() >= b[0].len() && c[r].len() >= c[0].len());
            lemma_combine_at_domain(q.a@, a, zv, r, n);
            lemma_combine_at_domain(q.b@, b, zv, r, n);
            lemma_combine_at_domain(q.c@, c, zv, r, n);
            assert(domain(q.rows as nat)[r] == x);
            poly::lemma_node_poly_vanishes(domain(q.rows as nat), r, q.rows as nat);
            assert(circuit_value(q.rows as nat, x) == 0);
            field::lemma_fmul_zero(poly::peval(t, x));
            let cd = r1cs::dot_upto(c[r], zv, n);
            assert(cd < field::p()) by {
                field::lemma_field_ops_bounded(
                    r1cs::dot_upto(c[r], zv, (n - 1) as nat),
                    field::fmul(c[r][n - 1], zv[n - 1]),
                );
            }
            field::lemma_fadd_zero(cd);
            assert(field::fmul(combine(q.a@, z, x), combine(q.b@, z, x)) == field::fadd(
                combine(q.c@, z, x),
                field::fmul(poly::peval(t, x), circuit_value(q.rows as nat, x)),
            ));
            assert(combine(q.c@, z, x) == cd);
            assert(r1cs::dot_spec(a[r], zv) == combine(q.a@, z, x));
            assert(r1cs::dot_spec(b[r], zv) == combine(q.b@, z, x));
            assert(r1cs::dot_spec(c[r], zv) == cd);
            assert(am[r][0] == r1cs::dot_spec(a[r], zv));
            assert(bm[r][0] == r1cs::dot_spec(b[r], zv));
            assert(cm[r][0] == r1cs::dot_spec(c[r], zv));
            assert(hm[r][0] == field::fmul(am[r][0], bm[r][0]));
        }
        assert(hm =~= cm);
    }
}

} // verus!
