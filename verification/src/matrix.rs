//! Square matrices of fixed-point scalars, with value semantics: every
//! operation builds a new matrix.
//!
//! The mathematical meaning of a matrix is its view, a sequence of rows of
//! unbounded integers; each stored entry is the scaled value itself.

use vstd::prelude::*;

use crate::fixed::{
    fx_mul, fx_round, lemma_mul_fx_term_cap, lemma_pow10_add, lemma_pow10_monotone,
    lemma_pow10_positive, lemma_pow10_scale, mag, mul_fx, pow10, pow10_val, round_fx, FXMAX, SCALE,
    TERM_CAP,
};

verus! {

/// Largest dimension the engine accepts; it keeps every inner product far
/// from the edge of the scalar range.
pub const DIM_MAX: usize = 4096;

/// Each row is as long as there are rows.
pub open spec fn is_square(m: Seq<Seq<int>>) -> bool {
    forall|i: int| 0 <= i < m.len() ==> (#[trigger] m[i]).len() == m.len()
}

/// Every entry has magnitude at most `FXMAX`.
pub open spec fn in_range(m: Seq<Seq<int>>) -> bool {
    forall|i: int, j: int|
        0 <= i < m.len() && 0 <= j < m[i].len() ==> -(FXMAX as int) <= #[trigger] m[i][j] <= (
        FXMAX as int)
}

/// A square matrix of bounded dimension whose entries the scalar range
/// holds.
pub open spec fn wf_mat(m: Seq<Seq<int>>) -> bool {
    &&& is_square(m)
    &&& in_range(m)
    &&& m.len() <= DIM_MAX
}

/// The identity: scaled ones on the diagonal, zeroes elsewhere.
pub open spec fn mat_identity(n: nat) -> Seq<Seq<int>> {
    Seq::new(
        n,
        |i: int| Seq::new(n, |j: int| if i == j { SCALE as int } else { 0int }),
    )
}

/// Rows and columns swapped.
pub open spec fn mat_transpose(m: Seq<Seq<int>>) -> Seq<Seq<int>> {
    Seq::new(m.len(), |i: int| Seq::new(m.len(), |j: int| m[j][i]))
}

/// Column `j` read as a sequence.
pub open spec fn col_seq(m: Seq<Seq<int>>, j: int) -> Seq<int> {
    Seq::new(m.len(), |k: int| m[k][j])
}

/// Sum of the first `k` fixed-point products of two sequences.
pub open spec fn dot_prefix(r: Seq<int>, c: Seq<int>, k: nat) -> int
    decreases k,
{
    if k == 0 {
        0
    } else {
        dot_prefix(r, c, (k - 1) as nat) + mul_fx(r[k - 1], c[k - 1])
    }
}

/// The matrix product: entry by entry, the fixed-point inner product of a
/// row of `a` with a column of `b`.
pub open spec fn mat_mul(a: Seq<Seq<int>>, b: Seq<Seq<int>>) -> Seq<Seq<int>> {
    Seq::new(
        a.len(),
        |i: int| Seq::new(a.len(), |j: int| dot_prefix(a[i], col_seq(b, j), a.len())),
    )
}

/// The size of the last decimal digit kept when rounding to `k` digits.
pub open spec fn round_unit(k: nat) -> int
    recommends
        k <= 9,
{
    pow10((9 - k) as nat)
}

/// Every entry rounded to `k` decimal digits, halves away from zero.
pub open spec fn mat_round(m: Seq<Seq<int>>, k: nat) -> Seq<Seq<int>> {
    Seq::new(
        m.len(),
        |i: int| Seq::new(m[i].len(), |j: int| round_fx(m[i][j], round_unit(k))),
    )
}

/// The view of a vector of rows of scalars.
pub open spec fn vecs_view(rows: Seq<Vec<i128>>) -> Seq<Seq<int>> {
    Seq::new(rows.len(), |i: int| Seq::new(rows[i]@.len(), |j: int| rows[i]@[j] as int))
}

/// Appending a row leaves the views of the earlier rows as they were.
pub(crate) proof fn lemma_vecs_view_push(rows0: Seq<Vec<i128>>, row: Vec<i128>)
    ensures
        vecs_view(rows0.push(row)).len() == rows0.len() + 1,
        forall|p: int|
            0 <= p < rows0.len() ==> #[trigger] vecs_view(rows0.push(row))[p] =~= vecs_view(
                rows0,
            )[p],
        vecs_view(rows0.push(row))[rows0.len() as int] =~= Seq::new(
            row@.len(),
            |j: int| row@[j] as int,
        ),
{
    let all = rows0.push(row);
    assert forall|p: int| 0 <= p < rows0.len() implies #[trigger] vecs_view(all)[p] =~= vecs_view(
        rows0,
    )[p] by {
        assert(all[p] == rows0[p]);
    }
    assert(all[rows0.len() as int] == row);
}

/// A square matrix of fixed-point scalars.
pub struct Matrix {
    rows: Vec<Vec<i128>>,
}

impl View for Matrix {
    type V = Seq<Seq<int>>;

    closed spec fn view(&self) -> Seq<Seq<int>> {
        vecs_view(self.rows@)
    }
}

impl Matrix {
    /// The matrix is square, bounded in dimension, and its entries are in
    /// the scalar range.
    pub open spec fn wf(&self) -> bool {
        wf_mat(self@)
    }

    /// The dimension.
    pub fn dim(&self) -> (n: usize)
        ensures
            n == self@.len(),
    {
        self.rows.len()
    }

    /// One entry, as the scaled integer it is stored as.
    pub fn entry(&self, i: usize, j: usize) -> (v: i128)
        requires
            i < self@.len(),
            j < self@[i as int].len(),
        ensures
            v as int == self@[i as int][j as int],
    {
        self.rows[i][j]
    }

    /// Wraps rows that already form a well-formed matrix.
    pub(crate) fn from_rows_unchecked(rows: Vec<Vec<i128>>) -> (m: Matrix)
        requires
            wf_mat(vecs_view(rows@)),
        ensures
            m@ == vecs_view(rows@),
            m.wf(),
    {
        Matrix { rows }
    }

    /// Builds a matrix from rows of scaled entries.  Succeeds exactly when
    /// the rows form a square matrix of accepted dimension whose entries
    /// are in the scalar range.
    pub fn from_rows(rows: Vec<Vec<i128>>) -> (r: Option<Matrix>)
        ensures
            match r {
                Some(m) => m@ == vecs_view(rows@) && m.wf(),
                None => !wf_mat(vecs_view(rows@)),
            },
    {
        let n = rows.len();
        if n > DIM_MAX {
            return None;
        }
        let mut i: usize = 0;
        while i < n
            invariant
                i <= n,
                n == rows@.len() <= DIM_MAX,
                forall|p: int|
                    0 <= p < i ==> (#[trigger] vecs_view(rows@)[p]).len() == n,
                forall|p: int, q: int|
                    0 <= p < i && 0 <= q < vecs_view(rows@)[p].len() ==> -(FXMAX as int) <= (
                    #[trigger] vecs_view(rows@)[p][q]) <= (FXMAX as int),
            decreases n - i,
        {
            if rows[i].len() != n {
                assert(vecs_view(rows@)[i as int].len() != n);
                return None;
            }
            let mut j: usize = 0;
            while j < n
                invariant
                    j <= n,
                    i < n,
                    n == rows@.len(),
                    rows@[i as int]@.len() == n,
                    forall|q: int|
                        0 <= q < j ==> -(FXMAX as int) <= (#[trigger] vecs_view(rows@)[i as int][q])
                            <= (FXMAX as int),
                decreases n - j,
            {
                let v = rows[i][j];
                if v < -FXMAX || v > FXMAX {
                    assert(vecs_view(rows@)[i as int][j as int] == v as int);
                    return None;
                }
                assert(vecs_view(rows@)[i as int][j as int] == v as int);
                j = j + 1;
            }
            i = i + 1;
        }
        Some(Matrix { rows })
    }

    /// A fresh copy.
    pub fn duplicate(&self) -> (r: Matrix)
        requires
            self.wf(),
        ensures
            r@ == self@,
            r.wf(),
    {
        let n = self.dim();
        let mut rows: Vec<Vec<i128>> = Vec::new();
        let mut i: usize = 0;
        while i < n
            invariant
                i <= n,
                n == self@.len(),
                self.wf(),
                rows@.len() == i,
                forall|p: int| 0 <= p < i ==> (#[trigger] vecs_view(rows@)[p]) =~= self@[p],
            decreases n - i,
        {
            let mut row: Vec<i128> = Vec::new();
            let mut j: usize = 0;
            while j < n
                invariant
                    j <= n,
                    i < n,
                    n == self@.len(),
                    self.wf(),
                    row@.len() == j,
                    forall|q: int| 0 <= q < j ==> #[trigger] row@[q] as int == self@[i as int][q],
                decreases n - j,
            {
                row.push(self.entry(i, j));
                j = j + 1;
            }
            let ghost rows0 = rows@;
            let ghost rowg = row;
            rows.push(row);
            proof {
                lemma_vecs_view_push(rows0, rowg);
                assert(vecs_view(rows@)[i as int] =~= self@[i as int]);
            }
            i = i + 1;
        }
        let r = Matrix { rows };
        proof {
            assert(r@ =~~= self@);
        }
        r
    }

    /// The identity matrix.
    pub fn identity(n: usize) -> (r: Matrix)
        requires
            n <= DIM_MAX,
        ensures
            r@ == mat_identity(n as nat),
            r.wf(),
    {
        let mut rows: Vec<Vec<i128>> = Vec::new();
        let mut i: usize = 0;
        while i < n
            invariant
                i <= n,
                n <= DIM_MAX,
                rows@.len() == i,
                forall|p: int|
                    0 <= p < i ==> (#[trigger] vecs_view(rows@)[p]) =~= mat_identity(n as nat)[p],
            decreases n - i,
        {
            let mut row: Vec<i128> = Vec::new();
            let mut j: usize = 0;
            while j < n
                invariant
                    j <= n,
                    i < n,
                    row@.len() == j,
                    forall|q: int|
                        0 <= q < j ==> #[trigger] row@[q] as int == (if i == q {
                            SCALE as int
                        } else {
                            0int
                        }),
                decreases n - j,
            {
                if i == j {
                    row.push(SCALE);
                } else {
                    row.push(0);
                }
                j = j + 1;
            }
            let ghost rows0 = rows@;
            let ghost rowg = row;
            rows.push(row);
            proof {
                lemma_vecs_view_push(rows0, rowg);
                assert(vecs_view(rows@)[i as int] =~= mat_identity(n as nat)[i as int]);
            }
            i = i + 1;
        }
        let r = Matrix { rows };
        proof {
            assert(r@ =~~= mat_identity(n as nat));
        }
        r
    }

    /// The product `self * other`.  Succeeds exactly when every entry of
    /// the product stays in the scalar range; inner sums cannot overflow
    /// thanks to the dimension cap.  Dimensions must agree: the engine
    /// multiplies square matrices of one shared size only.
    pub fn multiply(&self, other: &Matrix) -> (r: Option<Matrix>)
        requires
            self.wf(),
            other.wf(),
            self@.len() == other@.len(),
        ensures
            match r {
                Some(m) => m@ == mat_mul(self@, other@) && m.wf(),
                None => !in_range(mat_mul(self@, other@)),
            },
    {
        let n = self.dim();
        let ghost prod = mat_mul(self@, other@);
        let mut rows: Vec<Vec<i128>> = Vec::new();
        let mut i: usize = 0;
        while i < n
            invariant
                i <= n,
                n == self@.len() == other@.len(),
                self.wf(),
                other.wf(),
                prod == mat_mul(self@, other@),
                rows@.len() == i,
                forall|p: int| 0 <= p < i ==> (#[trigger] vecs_view(rows@)[p]) =~= prod[p],
                forall|p: int, q: int|
                    0 <= p < i && 0 <= q < n ==> -(FXMAX as int) <= #[trigger] prod[p][q] <= (
                    FXMAX as int),
            decreases n - i,
        {
            let mut row: Vec<i128> = Vec::new();
            let mut j: usize = 0;
            while j < n
                invariant
                    j <= n,
                    i < n,
                    n == self@.len() == other@.len(),
                    self.wf(),
                    other.wf(),
                    prod == mat_mul(self@, other@),
                    row@.len() == j,
                    forall|q: int| 0 <= q < j ==> #[trigger] row@[q] as int == prod[i as int][q],
                    forall|q: int|
                        0 <= q < j ==> -(FXMAX as int) <= #[trigger] prod[i as int][q] <= (
                        FXMAX as int),
                decreases n - j,
            {
                let mut acc: i128 = 0;
                let mut k: usize = 0;
                while k < n
                    invariant
                        k <= n,
                        i < n,
                        j < n,
                        n == self@.len() == other@.len(),
                        self.wf(),
                        other.wf(),
                        acc as int == dot_prefix(self@[i as int], col_seq(other@, j as int), k as nat),
                        mag(acc as int) <= k * TERM_CAP,
                    decreases n - k,
                {
                    let x = self.entry(i, k);
                    let y = other.entry(k, j);
                    let t = fx_mul(x, y);
                    proof {
                        lemma_mul_fx_term_cap(x as int, y as int);
                        assert(mag(acc as int) + mag(t as int) <= k * TERM_CAP + TERM_CAP);
                        assert(k * TERM_CAP + TERM_CAP == (k + 1) * TERM_CAP) by (nonlinear_arith);
                        assert((k + 1) * TERM_CAP <= 4096 * (TERM_CAP as int)) by (nonlinear_arith)
                            requires
                                0 <= k + 1 <= 4096;
                        assert(col_seq(other@, j as int)[k as int] == y as int);
                    }
                    acc = acc + t;
                    k = k + 1;
                }
                assert(acc as int == prod[i as int][j as int]);
                if acc < -FXMAX || acc > FXMAX {
                    proof {
                        assert(0 <= i < prod.len() && 0 <= j < prod[i as int].len());
                        assert(!in_range(prod));
                    }
                    return None;
                }
                row.push(acc);
                j = j + 1;
            }
            let ghost rows0 = rows@;
            let ghost rowg = row;
            rows.push(row);
            proof {
                lemma_vecs_view_push(rows0, rowg);
                assert(vecs_view(rows@)[i as int] =~= prod[i as int]);
            }
            i = i + 1;
        }
        let m = Matrix { rows };
        proof {
            assert(m@ =~~= prod);
            assert(in_range(m@)) by {
                assert forall|p: int, q: int|
                    0 <= p < m@.len() && 0 <= q < m@[p].len() implies -(FXMAX as int)
                    <= #[trigger] m@[p][q] <= (FXMAX as int) by {
                    assert(prod[p][q] == m@[p][q]);
                }
            }
        }
        Some(m)
    }

    /// Every entry rounded to `k` decimal digits, halves away from zero.
    /// An entry whose magnitude rounds to nothing comes out as the one
    /// integer zero: no sign survives on it.
    pub fn round(&self, k: u32) -> (r: Matrix)
        requires
            self.wf(),
            k <= 9,
        ensures
            r@ == mat_round(self@, k as nat),
            r.wf(),
    {
        let u = pow10_val(9 - k);
        proof {
            lemma_pow10_positive((9 - k) as nat);
            lemma_pow10_monotone((9 - k) as nat, 9);
            lemma_pow10_scale();
            lemma_pow10_add((9 - k) as nat, (9 + k) as nat);
            vstd::arithmetic::div_mod::lemma_mod_multiples_basic(
                pow10((9 + k) as nat),
                pow10((9 - k) as nat),
            );
            assert((FXMAX as int) % (u as int) == 0);
        }
        let n = self.dim();
        let ghost target = mat_round(self@, k as nat);
        let mut rows: Vec<Vec<i128>> = Vec::new();
        let mut i: usize = 0;
        while i < n
            invariant
                i <= n,
                n == self@.len(),
                self.wf(),
                k <= 9,
                u as int == round_unit(k as nat),
                1 <= u <= SCALE,
                (FXMAX as int) % (u as int) == 0,
                target == mat_round(self@, k as nat),
                rows@.len() == i,
                forall|p: int| 0 <= p < i ==> (#[trigger] vecs_view(rows@)[p]) =~= target[p],
                forall|p: int, q: int|
                    0 <= p < i && 0 <= q < n ==> -(FXMAX as int) <= #[trigger] target[p][q] <= (
                    FXMAX as int),
            decreases n - i,
        {
            let mut row: Vec<i128> = Vec::new();
            let mut j: usize = 0;
            while j < n
                invariant
                    j <= n,
                    i < n,
                    n == self@.len(),
                    self.wf(),
                    k <= 9,
                    u as int == round_unit(k as nat),
                    1 <= u <= SCALE,
                    (FXMAX as int) % (u as int) == 0,
                    target == mat_round(self@, k as nat),
                    row@.len() == j,
                    forall|q: int| 0 <= q < j ==> #[trigger] row@[q] as int == target[i as int][q],
                    forall|q: int|
                        0 <= q < j ==> -(FXMAX as int) <= #[trigger] target[i as int][q] <= (
                        FXMAX as int),
                decreases n - j,
            {
                let v = self.entry(i, j);
                let w = fx_round(v, u);
                assert(w as int == target[i as int][j as int]);
                row.push(w);
                j = j + 1;
            }
            let ghost rows0 = rows@;
            let ghost rowg = row;
            rows.push(row);
            proof {
                lemma_vecs_view_push(rows0, rowg);
                assert(vecs_view(rows@)[i as int] =~= target[i as int]);
            }
            i = i + 1;
        }
        let r = Matrix { rows };
        proof {
            assert(r@ =~~= target);
            assert(in_range(r@)) by {
                assert forall|p: int, q: int|
                    0 <= p < r@.len() && 0 <= q < r@[p].len() implies -(FXMAX as int)
                    <= #[trigger] r@[p][q] <= (FXMAX as int) by {
                    assert(target[p][q] == r@[p][q]);
                }
            }
        }
        r
    }

    /// The transpose.
    pub fn transpose(&self) -> (r: Matrix)
        requires
            self.wf(),
        ensures
            r@ == mat_transpose(self@),
            r.wf(),
    {
        let n = self.dim();
        let mut rows: Vec<Vec<i128>> = Vec::new();
        let mut i: usize = 0;
        while i < n
            invariant
                i <= n,
                n == self@.len(),
                self.wf(),
                rows@.len() == i,
                forall|p: int|
                    0 <= p < i ==> (#[trigger] vecs_view(rows@)[p]) =~= mat_transpose(self@)[p],
            decreases n - i,
        {
            let mut row: Vec<i128> = Vec::new();
            let mut j: usize = 0;
            while j < n
                invariant
                    j <= n,
                    i < n,
                    n == self@.len(),
                    self.wf(),
                    row@.len() == j,
                    forall|q: int| 0 <= q < j ==> #[trigger] row@[q] as int == self@[q][i as int],
                decreases n - j,
            {
                row.push(self.entry(j, i));
                j = j + 1;
            }
            let ghost rows0 = rows@;
            let ghost rowg = row;
            rows.push(row);
            proof {
                lemma_vecs_view_push(rows0, rowg);
                assert(vecs_view(rows@)[i as int] =~= mat_transpose(self@)[i as int]);
            }
            i = i + 1;
        }
        let r = Matrix { rows };
        proof {
            assert(r@ =~~= mat_transpose(self@));
        }
        r
    }
}

/// Inner product with a row of the identity: only the scaled unit at
/// position `i` contributes, and it contributes exactly.
pub(crate) proof fn lemma_dot_delta_row(row: Seq<int>, c: Seq<int>, i: int, n: nat, k: nat)
    requires
        0 <= i < n,
        k <= n,
        c.len() == n,
        row.len() == n,
        forall|t: int|
            0 <= t < n ==> #[trigger] row[t] == (if t == i {
                SCALE as int
            } else {
                0int
            }),
    ensures
        dot_prefix(row, c, k) == if i < k {
            c[i]
        } else {
            0
        },
    decreases k,
{
    if k > 0 {
        lemma_dot_delta_row(row, c, i, n, (k - 1) as nat);
        if k - 1 == i {
            crate::fixed::lemma_mul_fx_one(c[k - 1]);
        } else {
            crate::fixed::lemma_mul_fx_zero(c[k - 1]);
        }
    }
}

/// Inner product with a column of the identity: only position `j`
/// contributes, and it contributes exactly.
pub(crate) proof fn lemma_dot_delta_col(r: Seq<int>, c: Seq<int>, j: int, n: nat, k: nat)
    requires
        0 <= j < n,
        k <= n,
        r.len() == n,
        c.len() == n,
        forall|t: int|
            0 <= t < n ==> #[trigger] c[t] == (if t == j {
                SCALE as int
            } else {
                0int
            }),
    ensures
        dot_prefix(r, c, k) == if j < k {
            r[j]
        } else {
            0
        },
    decreases k,
{
    if k > 0 {
        lemma_dot_delta_col(r, c, j, n, (k - 1) as nat);
        if k - 1 == j {
            crate::fixed::lemma_mul_fx_one(r[k - 1]);
        } else {
            crate::fixed::lemma_mul_fx_zero(r[k - 1]);
        }
    }
}

/// Identity law, left: multiplying a square matrix by the identity on the
/// left gives the matrix back, entry for entry and exactly.
pub proof fn lemma_mul_identity_left(a: Seq<Seq<int>>)
    requires
        is_square(a),
    ensures
        mat_mul(mat_identity(a.len()), a) == a,
{
    let n = a.len();
    let id = mat_identity(n);
    let m = mat_mul(id, a);
    assert forall|i: int, j: int| 0 <= i < n && 0 <= j < n implies #[trigger] m[i][j] == a[i][j] by {
        lemma_dot_delta_row(id[i], col_seq(a, j), i, n, n);
        assert(col_seq(a, j)[i] == a[i][j]);
    }
    assert(m =~~= a);
}

/// Identity law, right: multiplying a square matrix by the identity on
/// the right gives the matrix back, entry for entry and exactly.
pub proof fn lemma_mul_identity_right(a: Seq<Seq<int>>)
    requires
        is_square(a),
    ensures
        mat_mul(a, mat_identity(a.len())) == a,
{
    let n = a.len();
    let id = mat_identity(n);
    let m = mat_mul(a, id);
    assert forall|i: int, j: int| 0 <= i < n && 0 <= j < n implies #[trigger] m[i][j] == a[i][j] by {
        lemma_dot_delta_col(a[i], col_seq(id, j), j, n, n);
    }
    assert(m =~~= a);
}

/// Transposing twice gives the matrix back.
pub proof fn lemma_transpose_involution(a: Seq<Seq<int>>)
    requires
        is_square(a),
    ensures
        mat_transpose(mat_transpose(a)) == a,
{
    let t = mat_transpose(a);
    let tt = mat_transpose(t);
    assert forall|i: int, j: int|
        0 <= i < a.len() && 0 <= j < a.len() implies #[trigger] tt[i][j] == a[i][j] by {
        assert(t[j][i] == a[i][j]);
    }
    assert(tt =~~= a);
}

/// Rounding cannot report a signed zero.  The scalar representation has
/// exactly one zero, and an entry rounds to it precisely when its
/// magnitude lies below half of the last digit kept; no sign survives on
/// such an entry.
pub proof fn lemma_round_zero_entries(m: Seq<Seq<int>>, k: nat)
    requires
        k <= 9,
    ensures
        forall|i: int, j: int|
            0 <= i < m.len() && 0 <= j < m[i].len() ==> ((#[trigger] mat_round(m, k)[i][j]) == 0
                <==> mag(m[i][j]) + round_unit(k) / 2 < round_unit(k)),
{
    lemma_pow10_positive((9 - k) as nat);
    assert forall|i: int, j: int| 0 <= i < m.len() && 0 <= j < m[i].len() implies ((
    #[trigger] mat_round(m, k)[i][j]) == 0 <==> mag(m[i][j]) + round_unit(k) / 2 < round_unit(
        k,
    )) by {
        crate::fixed::lemma_round_fx_zero(m[i][j], round_unit(k));
    }
}

/// Inner products do not mind which of the two sequences is the row.
proof fn lemma_dot_comm(r: Seq<int>, c: Seq<int>, k: nat)
    ensures
        dot_prefix(r, c, k) == dot_prefix(c, r, k),
    decreases k,
{
    if k > 0 {
        lemma_dot_comm(r, c, (k - 1) as nat);
        crate::fixed::lemma_mul_fx_comm(r[k - 1], c[k - 1]);
    }
}

/// The reversal law for transposes of products, exact even in fixed
/// point: the transpose of a product is the product of the transposes in
/// the opposite order.
pub proof fn lemma_transpose_of_product(a: Seq<Seq<int>>, b: Seq<Seq<int>>)
    requires
        is_square(a),
        is_square(b),
        a.len() == b.len(),
    ensures
        mat_transpose(mat_mul(a, b)) == mat_mul(mat_transpose(b), mat_transpose(a)),
{
    let n = a.len();
    let lhs = mat_transpose(mat_mul(a, b));
    let rhs = mat_mul(mat_transpose(b), mat_transpose(a));
    assert forall|i: int, j: int|
        0 <= i < n && 0 <= j < n implies #[trigger] lhs[i][j] == rhs[i][j] by {
        assert(lhs[i][j] == dot_prefix(a[j], col_seq(b, i), n));
        assert(col_seq(b, i) =~= mat_transpose(b)[i]);
        assert(col_seq(mat_transpose(a), j) =~= a[j]);
        assert(rhs[i][j] == dot_prefix(mat_transpose(b)[i], a[j], n));
        lemma_dot_comm(a[j], mat_transpose(b)[i], n);
    }
    assert(lhs =~~= rhs);
}

/// The transpose of a well-formed matrix is well formed, and the identity
/// is well formed.
pub proof fn lemma_wf_basics(a: Seq<Seq<int>>, n: nat)
    requires
        wf_mat(a),
        n <= DIM_MAX,
    ensures
        wf_mat(mat_transpose(a)),
        wf_mat(mat_identity(n)),
{
    let t = mat_transpose(a);
    assert forall|i: int, j: int|
        0 <= i < t.len() && 0 <= j < t[i].len() implies -(FXMAX as int) <= #[trigger] t[i][j] <= (
        FXMAX as int) by {
        assert(t[i][j] == a[j][i]);
        assert(-(FXMAX as int) <= a[j][i] <= (FXMAX as int));
    }
}

} // verus!
