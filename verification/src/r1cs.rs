//! Rank-1 constraint systems: a witness column `z` satisfies `(A, B, C)` when
//! `(A·z) ∘ (B·z) = C·z`.
use crate::field::{self, Fe};
use vstd::prelude::*;

verus! {

/// A matrix of field elements, row by row.
pub type Matrix = Vec<Vec<Fe>>;

/// The values of a matrix, row by row.
pub open spec fn mat_view(m: Seq<Vec<Fe>>) -> Seq<Seq<nat>> {
    m.map_values(|row: Vec<Fe>| field::fe_vals(row@))
}

/// `x[0]·y[0] + ... + x[n-1]·y[n-1]` in the field, summed from the front.
pub open spec fn dot_upto(x: Seq<nat>, y: Seq<nat>, n: nat) -> nat
    decreases n,
{
    if n == 0 {
        0
    } else {
        field::fadd(dot_upto(x, y, (n - 1) as nat), field::fmul(x[n - 1], y[n - 1]))
    }
}

/// The dot product over the common prefix of two vectors.
pub open spec fn dot_spec(x: Seq<nat>, y: Seq<nat>) -> nat {
    dot_upto(x, y, if x.len() <= y.len() { x.len() } else { y.len() })
}

/// Column `j` of a matrix.
pub open spec fn column(m: Seq<Seq<nat>>, j: int) -> Seq<nat> {
    Seq::new(m.len(), |k: int| m[k][j])
}

/// The matrix product; entry `(i, j)` is row `i` of `a` dotted with column
/// `j` of `b`, and the product is as wide as the first row of `b`.
pub open spec fn mat_mul_spec(a: Seq<Seq<nat>>, b: Seq<Seq<nat>>) -> Seq<Seq<nat>> {
    Seq::new(a.len(), |i: int| Seq::new(b[0].len(), |j: int| dot_spec(a[i], column(b, j))))
}

/// The entrywise product over the shape of `a`'s first row.
pub open spec fn hadamard_spec(a: Seq<Seq<nat>>, b: Seq<Seq<nat>>) -> Seq<Seq<nat>> {
    Seq::new(
        a.len(),
        |i: int| Seq::new(a[0].len(), |j: int| field::fmul(a[i][j], b[i][j])),
    )
}

/// Every row is at least `w` wide.
pub open spec fn rows_at_least(m: Seq<Seq<nat>>, w: nat) -> bool {
    forall|i: int| 0 <= i < m.len() ==> #[trigger] m[i].len() >= w
}

/// What `matrix_mul` needs of its operands.
pub open spec fn mul_ok(a: Seq<Seq<nat>>, b: Seq<Seq<nat>>) -> bool {
    &&& a.len() > 0
    &&& b.len() > 0
    &&& a[0].len() > 0
    &&& b[0].len() > 0
    &&& b.len() == a[0].len()
    &&& rows_at_least(b, b[0].len())
}

/// What `hadamard_mul` needs of its operands.
pub open spec fn hadamard_ok(a: Seq<Seq<nat>>, b: Seq<Seq<nat>>) -> bool {
    &&& a.len() > 0
    &&& b.len() > 0
    &&& a[0].len() > 0
    &&& b[0].len() > 0
    &&& a.len() == b.len()
    &&& a[0].len() == b[0].len()
    &&& rows_at_least(a, a[0].len())
    &&& rows_at_least(b, a[0].len())
}

/// The dot product of two vectors over their common prefix.
pub fn dot(x: &Vec<Fe>, y: &Vec<Fe>) -> (r: Fe)
    ensures
        r@ == dot_spec(field::fe_vals(x@), field::fe_vals(y@)),
{
    let n = if x.len() <= y.len() {
        x.len()
    } else {
        y.len()
    };
    let mut acc = Fe::zero();
    let mut i: usize = 0;
    while i < n
        invariant
            i <= n,
            n <= x.len(),
            n <= y.len(),
            n == (if x.len() <= y.len() { x.len() } else { y.len() }),
            acc@ == dot_upto(field::fe_vals(x@), field::fe_vals(y@), i as nat),
        decreases n - i,
    {
        let t = x[i].mul(&y[i]);
        acc = acc.add(&t);
        i = i + 1;
    }
    acc
}

/// The product of two matrices.
fn matrix_mul(a: &Matrix, b: &Matrix) -> (c: Matrix)
    requires
        mul_ok(mat_view(a@), mat_view(b@)),
    ensures
        mat_view(c@) == mat_mul_spec(mat_view(a@), mat_view(b@)),
{
    let ghost av = mat_view(a@);
    let ghost bv = mat_view(b@);
    let na = a.len();
    let nb = b.len();
    let mb = b[0].len();
    let mut c: Matrix = Vec::new();
    let mut i: usize = 0;
    while i < na
        invariant
            i <= na,
            na == a.len(),
            nb == b.len(),
            mb == b[0].len(),
            av == mat_view(a@),
            bv == mat_view(b@),
            mul_ok(av, bv),
            c.len() == i,
            forall|r: int|
                0 <= r < i ==> #[trigger] field::fe_vals(c@[r]@) == mat_mul_spec(av, bv)[r],
        decreases na - i,
    {
        let mut row: Vec<Fe> = Vec::new();
        let mut j: usize = 0;
        while j < mb
            invariant
                j <= mb,
                i < na,
                na == a.len(),
                nb == b.len(),
                mb == b[0].len(),
                av == mat_view(a@),
                bv == mat_view(b@),
                mul_ok(av, bv),
                row.len() == j,
                forall|s: int|
                    0 <= s < j ==> #[trigger] row@[s]@ == dot_spec(
                        av[i as int],
                        column(bv, s),
                    ),
            decreases mb - j,
        {
            let mut col: Vec<Fe> = Vec::new();
            let mut k: usize = 0;
            while k < nb
                invariant
                    k <= nb,
                    j < mb,
                    nb == b.len(),
                    mb == b[0].len(),
                    bv == mat_view(b@),
                    mul_ok(av, bv),
                    col.len() == k,
                    forall|t: int| 0 <= t < k ==> #[trigger] col@[t]@ == bv[t][j as int],
                decreases nb - k,
            {
                assert(bv[k as int].len() >= mb);
                col.push(b[k][j]);
                k = k + 1;
            }
            assert(field::fe_vals(col@) =~= column(bv, j as int));
            assert(field::fe_vals(a@[i as int]@) == av[i as int]);
            let d = dot(&a[i], &col);
            row.push(d);
            j = j + 1;
        }
        assert(field::fe_vals(row@) =~= mat_mul_spec(av, bv)[i as int]);
        c.push(row);
        i = i + 1;
    }
    assert(mat_view(c@) =~= mat_mul_spec(av, bv));
    c
}

/// The entrywise product of two matrices.
fn hadamard_mul(a: &Matrix, b: &Matrix) -> (c: Matrix)
    requires
        hadamard_ok(mat_view(a@), mat_view(b@)),
    ensures
        mat_view(c@) == hadamard_spec(mat_view(a@), mat_view(b@)),
{
    let ghost av = mat_view(a@);
    let ghost bv = mat_view(b@);
    let na = a.len();
    let ma = a[0].len();
    let mut c: Matrix = Vec::new();
    let mut i: usize = 0;
    while i < na
        invariant
            i <= na,
            na == a.len(),
            ma == a[0].len(),
            av == mat_view(a@),
            bv == mat_view(b@),
            hadamard_ok(av, bv),
            c.len() == i,
            forall|r: int|
                0 <= r < i ==> #[trigger] field::fe_vals(c@[r]@) == hadamard_spec(av, bv)[r],
        decreases na - i,
    {
        let mut row: Vec<Fe> = Vec::new();
        let mut j: usize = 0;
        assert(av[i as int].len() >= ma && bv[i as int].len() >= ma);
        while j < ma
            invariant
                j <= ma,
                i < na,
                na == a.len(),
                ma == a[0].len(),
                av == mat_view(a@),
                bv == mat_view(b@),
                hadamard_ok(av, bv),
                av[i as int].len() >= ma,
                bv[i as int].len() >= ma,
                row.len() == j,
                forall|s: int|
                    0 <= s < j ==> #[trigger] row@[s]@ == field::fmul(
                        av[i as int][s],
                        bv[i as int][s],
                    ),
            decreases ma - j,
        {
            let t = a[i][j].mul(&b[i][j]);
            row.push(t);
            j = j + 1;
        }
        assert(field::fe_vals(row@) =~= hadamard_spec(av, bv)[i as int]);
        c.push(row);
        i = i + 1;
    }
    assert(mat_view(c@) =~= hadamard_spec(av, bv));
    c
}

/// Whether two matrices hold the same values.
fn mat_equal(a: &Matrix, b: &Matrix) -> (r: bool)
    ensures
        r == (mat_view(a@) == mat_view(b@)),
{
    if a.len() != b.len() {
        assert(mat_view(a@).len() != mat_view(b@).len());
        return false;
    }
    let mut i: usize = 0;
    while i < a.len()
        invariant
            a.len() == b.len(),
            i <= a.len(),
            forall|r: int| 0 <= r < i ==> #[trigger] mat_view(a@)[r] == mat_view(b@)[r],
        decreases a.len() - i,
    {
        if a[i].len() != b[i].len() {
            assert(mat_view(a@)[i as int].len() != mat_view(b@)[i as int].len());
            return false;
        }
        let mut j: usize = 0;
        while j < a[i].len()
            invariant
                a.len() == b.len(),
                i < a.len(),
                a[i as int].len() == b[i as int].len(),
                j <= a[i as int].len(),
                forall|s: int|
                    0 <= s < j ==> #[trigger] field::fe_vals(a@[i as int]@)[s] == field::fe_vals(
                        b@[i as int]@,
                    )[s],
            decreases a[i as int].len() - j,
        {
            if !a[i][j].equals(&b[i][j]) {
                assert(mat_view(a@)[i as int][j as int] != mat_view(b@)[i as int][j as int]);
                return false;
            }
            j = j + 1;
        }
        assert(mat_view(a@)[i as int] =~= mat_view(b@)[i as int]);
        i = i + 1;
    }
    assert(mat_view(a@) =~= mat_view(b@));
    true
}

/// The constraint matrices of an R1CS instance.
#[derive(Clone, Debug)]
pub struct R1CS {
    pub a: Matrix,
    pub b: Matrix,
    pub c: Matrix,
}

/// What `is_satisfied` needs: each product `M·z` is defined and the two
/// left-hand products line up.
pub open spec fn r1cs_dims_ok(a: Seq<Seq<nat>>, b: Seq<Seq<nat>>, c: Seq<Seq<nat>>, z: Seq<
    Seq<nat>,
>) -> bool {
    &&& mul_ok(a, z)
    &&& mul_ok(b, z)
    &&& mul_ok(c, z)
    &&& a.len() == b.len()
}

/// The witness as the one-column matrix that `R1CS::is_satisfied` takes.
pub open spec fn witness_column(z: Seq<nat>) -> Seq<Seq<nat>> {
    Seq::new(z.len(), |k: int| seq![z[k]])
}

/// `(A·z) ∘ (B·z) = C·z`.
pub open spec fn r1cs_satisfied(a: Seq<Seq<nat>>, b: Seq<Seq<nat>>, c: Seq<Seq<nat>>, z: Seq<
    Seq<nat>,
>) -> bool {
    hadamard_spec(mat_mul_spec(a, z), mat_mul_spec(b, z)) == mat_mul_spec(c, z)
}

impl R1CS {
    pub fn new(a: Matrix, b: Matrix, c: Matrix) -> (r: R1CS)
        ensures
            r.a == a,
            r.b == b,
            r.c == c,
    {
        R1CS { a, b, c }
    }

    /// Whether the witness column `z` satisfies `(A·z) ∘ (B·z) = C·z`.
    pub fn is_satisfied(&self, z: &Matrix) -> (r: bool)
        requires
            r1cs_dims_ok(mat_view(self.a@), mat_view(self.b@), mat_view(self.c@), mat_view(z@)),
        ensures
            r == r1cs_satisfied(mat_view(self.a@), mat_view(self.b@), mat_view(self.c@), mat_view(z@)),
    {
        let az = matrix_mul(&self.a, z);
        let bz = matrix_mul(&self.b, z);
        let ghost zv = mat_view(z@);
        proof {
            let l = mat_mul_spec(mat_view(self.a@), zv);
            let rr = mat_mul_spec(mat_view(self.b@), zv);
            assert(forall|i: int| 0 <= i < l.len() ==> #[trigger] l[i].len() == zv[0].len());
            assert(forall|i: int| 0 <= i < rr.len() ==> #[trigger] rr[i].len() == zv[0].len());
        }
        let lhs = hadamard_mul(&az, &bz);
        let rhs = matrix_mul(&self.c, z);
        mat_equal(&lhs, &rhs)
    }
}

} // verus!
