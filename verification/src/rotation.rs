//! The rotation builder.
//!
//! For a target position (row `i`, column `j`) and the current working
//! matrix, it forms the orthogonal (Givens-style) rotation through the
//! index pair `p = j + 1`, `q = i` that drives the targeted entry toward
//! zero under the similarity transform.  A zero pivot takes the fixed
//! right-angle branch: cosine zero, sine one, whatever the target holds.

use vstd::prelude::*;

use crate::fixed::{
    isqrt, lemma_mul_fx_bound, lemma_mul_fx_comm, lemma_mul_fx_neg, lemma_mul_fx_one,
    lemma_mul_fx_zero, lemma_pow10_add, lemma_pow10_monotone, lemma_pow10_positive,
    lemma_pow10_scale, lemma_round_fx_center, lemma_sqrt_floor_props, mag, mul_fx, pow10,
    round_fx, sqrt_floor, FXMAX, SCALE,
};
use crate::matrix::{
    col_seq, dot_prefix, in_range, lemma_dot_delta_col, lemma_dot_delta_row, mat_identity,
    mat_mul, mat_round, mat_transpose, round_unit, vecs_view, wf_mat, Matrix,
};
use vstd::arithmetic::div_mod::{
    lemma_div_multiples_vanish, lemma_div_of0, lemma_fundamental_div_mod, lemma_mod_bound,
    lemma_mod_multiples_basic,
};
use crate::scan::{pos_valid, Position};

verus! {

/// The scaled cosine of the rotation built from pivot `b` and target `a`.
pub open spec fn cos_of(b: int, a: int) -> int {
    if b == 0 {
        0
    } else {
        mag(b) * (SCALE as int) / sqrt_floor(a * a + b * b)
    }
}

/// The scaled sine of the rotation built from pivot `b` and target `a`:
/// the magnitude of the target over the hypotenuse, carrying the sign of
/// `-b * a`.
pub open spec fn sin_of(b: int, a: int) -> int {
    if b == 0 {
        SCALE as int
    } else if a == 0 {
        0
    } else if (a < 0) == (b < 0) {
        -(mag(a) * (SCALE as int) / sqrt_floor(a * a + b * b))
    } else {
        mag(a) * (SCALE as int) / sqrt_floor(a * a + b * b)
    }
}

/// The rotation matrix through indices `p < q`: the identity, except that
/// the four entries tied to `p` and `q` hold the cosine and sine.
pub open spec fn rot_mat(n: nat, p: int, q: int, c: int, s: int) -> Seq<Seq<int>> {
    Seq::new(
        n,
        |i: int|
            Seq::new(
                n,
                |j: int|
                    if i == p && j == p {
                        c
                    } else if i == q && j == q {
                        c
                    } else if i == p && j == q {
                        s
                    } else if i == q && j == p {
                        -s
                    } else if i == j {
                        SCALE as int
                    } else {
                        0int
                    },
            ),
    )
}

/// The rotation that one elimination step builds from the working matrix
/// `w` at position `pos`.
pub open spec fn rot_for(w: Seq<Seq<int>>, pos: Position) -> Seq<Seq<int>> {
    rot_mat(
        w.len(),
        pos.col + 1,
        pos.row as int,
        cos_of(w[pos.col + 1][pos.col as int], w[pos.row as int][pos.col as int]),
        sin_of(w[pos.col + 1][pos.col as int], w[pos.row as int][pos.col as int]),
    )
}

/// The scaled cosine and sine for pivot `b` and target `a`.  A zero pivot
/// returns cosine zero and sine one exactly, whatever the target holds;
/// both results always stay within one scaled unit.
pub fn rotation_coeffs(b: i128, a: i128) -> (cs: (i128, i128))
    requires
        -FXMAX <= b <= FXMAX,
        -FXMAX <= a <= FXMAX,
    ensures
        cs.0 as int == cos_of(b as int, a as int),
        cs.1 as int == sin_of(b as int, a as int),
        0 <= cs.0 <= SCALE,
        -SCALE <= cs.1 <= SCALE,
        b == 0 ==> cs.0 == 0 && cs.1 == SCALE,
{
    if b == 0 {
        return (0, SCALE);
    }
    let bb: u128 = if b < 0 {
        (-b) as u128
    } else {
        b as u128
    };
    let aa: u128 = if a < 0 {
        (-a) as u128
    } else {
        a as u128
    };
    assert(bb == mag(b as int) && aa == mag(a as int));
    assert(bb * bb <= (FXMAX as u128) * (FXMAX as u128) && aa * aa <= (FXMAX as u128) * (
    FXMAX as u128)) by (nonlinear_arith)
        requires
            bb <= FXMAX as u128,
            aa <= FXMAX as u128;
    let nsum: u128 = aa * aa + bb * bb;
    proof {
        assert((a as int) * (a as int) == aa as int * (aa as int) && (b as int) * (b as int) == (
        bb as int) * (bb as int)) by (nonlinear_arith)
            requires
                aa == mag(a as int),
                bb == mag(b as int);
    }
    let h: u128 = isqrt(nsum);
    proof {
        assert(bb >= 1);
        assert(nsum >= bb * bb >= 1) by (nonlinear_arith)
            requires
                bb >= 1,
                nsum >= bb * bb;
        if h == 0 {
            assert((h as int + 1) * (h as int + 1) == 1) by (nonlinear_arith)
                requires
                    h == 0u128;
            assert(false);
        }
        assert(bb as int * (bb as int) <= nsum as int);
        assert(bb <= h) by (nonlinear_arith)
            requires
                bb as int * (bb as int) <= nsum as int,
                (nsum as int) < (h as int + 1) * (h as int + 1),
                bb >= 0,
                h >= 0;
        assert(aa <= h) by (nonlinear_arith)
            requires
                aa as int * (aa as int) <= nsum as int,
                (nsum as int) < (h as int + 1) * (h as int + 1),
                aa >= 0,
                h >= 0;
    }
    assert(bb * (SCALE as u128) <= (FXMAX as u128) * (SCALE as u128) && aa * (SCALE as u128) <= (
    FXMAX as u128) * (SCALE as u128)) by (nonlinear_arith)
        requires
            bb <= FXMAX as u128,
            aa <= FXMAX as u128;
    let cm: u128 = (bb * (SCALE as u128)) / h;
    let sm: u128 = (aa * (SCALE as u128)) / h;
    proof {
        assert(cm <= SCALE as u128 && sm <= SCALE as u128) by (nonlinear_arith)
            requires
                h >= 1,
                bb <= h,
                aa <= h,
                cm as int == ((bb as int) * (SCALE as int)) / (h as int),
                sm as int == ((aa as int) * (SCALE as int)) / (h as int);
        assert(cm as int == cos_of(b as int, a as int));
    }
    let c: i128 = cm as i128;
    let s_mag: i128 = sm as i128;
    let s: i128 = if a == 0 {
        0
    } else if (a < 0) == (b < 0) {
        -s_mag
    } else {
        s_mag
    };
    (c, s)
}

impl Matrix {
    /// Builds the rotation for one elimination step: pivot and target are
    /// read from this (current working) matrix at the given position.
    pub fn build_rotation(&self, pos: Position) -> (u: Matrix)
        requires
            self.wf(),
            pos_valid(pos, self@.len()),
        ensures
            u@ == rot_for(self@, pos),
            u.wf(),
            u@.len() == self@.len(),
    {
        let n = self.dim();
        let p: usize = pos.col + 1;
        let q: usize = pos.row;
        let b = self.entry(p, pos.col);
        let a = self.entry(q, pos.col);
        let (c, s) = rotation_coeffs(b, a);
        let ghost target = rot_for(self@, pos);
        let mut rows: Vec<Vec<i128>> = Vec::new();
        let mut i: usize = 0;
        while i < n
            invariant
                i <= n,
                n == self@.len(),
                self.wf(),
                p == pos.col + 1,
                q == pos.row,
                p < q < n,
                0 <= c <= SCALE,
                -SCALE <= s <= SCALE,
                c as int == cos_of(self@[p as int][pos.col as int], self@[q as int][pos.col as int]),
                s as int == sin_of(self@[p as int][pos.col as int], self@[q as int][pos.col as int]),
                target == rot_for(self@, pos),
                rows@.len() == i,
                forall|x: int| 0 <= x < i ==> (#[trigger] crate::matrix::vecs_view(rows@)[x]) =~= target[x],
            decreases n - i,
        {
            let mut row: Vec<i128> = Vec::new();
            let mut j: usize = 0;
            while j < n
                invariant
                    j <= n,
                    i < n,
                    n == self@.len(),
                    p < q < n,
                    0 <= c <= SCALE,
                    -SCALE <= s <= SCALE,
                    row@.len() == j,
                    forall|y: int|
                        0 <= y < j ==> #[trigger] row@[y] as int == (if i == p && y == p {
                            c as int
                        } else if i == q && y == q {
                            c as int
                        } else if i == p && y == q {
                            s as int
                        } else if i == q && y == p {
                            -(s as int)
                        } else if i == y {
                            SCALE as int
                        } else {
                            0int
                        }),
                decreases n - j,
            {
                let v: i128 = if i == p && j == p {
                    c
                } else if i == q && j == q {
                    c
                } else if i == p && j == q {
                    s
                } else if i == q && j == p {
                    -s
                } else if i == j {
                    SCALE
                } else {
                    0
                };
                row.push(v);
                j = j + 1;
            }
            let ghost rows0 = rows@;
            let ghost rowg = row;
            rows.push(row);
            proof {
                crate::matrix::lemma_vecs_view_push(rows0, rowg);
                assert(vecs_view(rows@)[i as int] =~= target[i as int]);
            }
            i = i + 1;
        }
        proof {
            assert(vecs_view(rows@) =~~= target);
            assert(wf_mat(target)) by {
                assert forall|x: int, y: int|
                    0 <= x < target.len() && 0 <= y < target[x].len() implies -(FXMAX as int)
                    <= #[trigger] target[x][y] <= (FXMAX as int) by {
                    assert(SCALE < FXMAX);
                }
            }
        }
        let u = Matrix::from_rows_unchecked(rows);
        u
    }
}

/// Pivot degeneracy: a zero pivot fixes the coefficients at cosine zero
/// and sine one, whatever the target entry holds.
pub proof fn lemma_pivot_degenerate(a: int)
    ensures
        cos_of(0, a) == 0,
        sin_of(0, a) == SCALE as int,
{
}

/// Shared facts about the hypotenuse of a nonzero pivot: the floor square
/// root of `a*a + b*b` dominates both magnitudes and is positive.
proof fn lemma_hyp_facts(b: int, a: int)
    requires
        b != 0,
        mag(b) <= FXMAX as int,
        mag(a) <= FXMAX as int,
    ensures
        ({
            let h = sqrt_floor(a * a + b * b);
            &&& 1 <= h
            &&& mag(b) <= h
            &&& mag(a) <= h
            &&& h * h <= a * a + b * b < (h + 1) * (h + 1)
            &&& a * a + b * b == mag(a) * mag(a) + mag(b) * mag(b)
        }),
{
    let aa = mag(a);
    let bb = mag(b);
    let nn = a * a + b * b;
    assert(nn == aa * aa + bb * bb && aa * aa >= 0 && bb * bb >= 1) by (nonlinear_arith)
        requires
            nn == a * a + b * b,
            aa == a || aa == -a,
            bb == b || bb == -b,
            aa >= 0,
            bb >= 1;
    lemma_sqrt_floor_props(nn);
    let h = sqrt_floor(nn);
    if h == 0 {
        assert((0 + 1) * (0 + 1) == 1) by (nonlinear_arith);
        assert(false);
    }
    assert(bb <= h) by (nonlinear_arith)
        requires
            bb * bb <= nn,
            nn < (h + 1) * (h + 1),
            bb >= 0,
            h >= 0;
    assert(aa <= h) by (nonlinear_arith)
        requires
            aa * aa <= nn,
            nn < (h + 1) * (h + 1),
            aa >= 0,
            h >= 0;
}

/// The rotation coefficients stay within one scaled unit.
pub proof fn lemma_cs_bounds(b: int, a: int)
    requires
        mag(b) <= FXMAX as int,
        mag(a) <= FXMAX as int,
    ensures
        0 <= cos_of(b, a) <= SCALE as int,
        mag(sin_of(b, a)) <= SCALE as int,
{
    let s9 = SCALE as int;
    if b == 0 {
    } else {
        lemma_hyp_facts(b, a);
        let h = sqrt_floor(a * a + b * b);
        assert(0 <= mag(b) * s9 / h <= s9) by (nonlinear_arith)
            requires
                1 <= h,
                0 <= mag(b) <= h,
                s9 >= 1;
        assert(0 <= mag(a) * s9 / h <= s9) by (nonlinear_arith)
            requires
                1 <= h,
                0 <= mag(a) <= h,
                s9 >= 1;
    }
}

/// The squares of the rotation coefficients sum to one scaled unit, up to
/// strictly less than half of the last decimal digit that `k`-digit
/// rounding keeps — provided the pivot is zero (the exact degenerate
/// branch) or the hypotenuse is no smaller than one tenth of that digit.
pub proof fn lemma_cs_unit(b: int, a: int, k: nat)
    requires
        mag(b) <= FXMAX as int,
        mag(a) <= FXMAX as int,
        1 <= k <= 7,
        b == 0 || a * a + b * b >= pow10((k + 1) as nat) * pow10((k + 1) as nat),
    ensures
        mag(
            mul_fx(cos_of(b, a), cos_of(b, a)) + mul_fx(sin_of(b, a), sin_of(b, a)) - (
            SCALE as int),
        ) <= round_unit(k) / 2 - 1,
{
    let s9 = SCALE as int;
    let u = round_unit(k);
    let pp = pow10((8 - k) as nat);
    lemma_pow10_add(1, (8 - k) as nat);
    assert(pow10(1) == 10) by {
        reveal_with_fuel(pow10, 2);
    }
    assert(u == 10 * pp);
    lemma_pow10_positive((8 - k) as nat);
    lemma_pow10_monotone(1, (8 - k) as nat);
    assert(pp >= 10);
    lemma_div_multiples_vanish(5 * pp, 2);
    assert(u == 2 * (5 * pp)) by (nonlinear_arith)
        requires
            u == 10 * pp;
    assert(u / 2 == 5 * pp);
    if b == 0 {
        lemma_mul_fx_zero(0);
        lemma_mul_fx_one(s9);
    } else {
        lemma_hyp_facts(b, a);
        let aa = mag(a);
        let bb = mag(b);
        let nn = a * a + b * b;
        let h = sqrt_floor(nn);
        let bound = pow10((k + 1) as nat);
        lemma_pow10_positive((k + 1) as nat);
        assert(h >= bound) by (nonlinear_arith)
            requires
                nn >= bound * bound,
                nn < (h + 1) * (h + 1),
                bound >= 1,
                h >= 0;
        let c = cos_of(b, a);
        assert(c == bb * s9 / h);
        let sm = aa * s9 / h;
        let s = sin_of(b, a);
        if a == 0 {
            assert(aa * s9 == 0);
            lemma_div_of0(h);
            assert(sm == 0);
        }
        assert(s == sm || s == -sm);
        lemma_fundamental_div_mod(bb * s9, h);
        lemma_mod_bound(bb * s9, h);
        let rc = (bb * s9) % h;
        assert(c * h == bb * s9 - rc) by (nonlinear_arith)
            requires
                bb * s9 == h * c + rc;
        lemma_fundamental_div_mod(aa * s9, h);
        lemma_mod_bound(aa * s9, h);
        let rs = (aa * s9) % h;
        assert(sm * h == aa * s9 - rs) by (nonlinear_arith)
            requires
                aa * s9 == h * sm + rs;
        assert(c >= 0 && sm >= 0) by (nonlinear_arith)
            requires
                c * h == bb * s9 - rc,
                sm * h == aa * s9 - rs,
                0 <= rc < h,
                0 <= rs < h,
                bb >= 1,
                aa >= 0,
                s9 >= 1,
                h >= 1;
        let xx = c * c + sm * sm;
        assert(c * c * (h * h) <= bb * bb * (s9 * s9)) by (nonlinear_arith)
            requires
                c * h == bb * s9 - rc,
                0 <= rc,
                c >= 0,
                h >= 1,
                bb >= 0,
                s9 >= 1;
        assert(sm * sm * (h * h) <= aa * aa * (s9 * s9)) by (nonlinear_arith)
            requires
                sm * h == aa * s9 - rs,
                0 <= rs,
                sm >= 0,
                h >= 1,
                aa >= 0,
                s9 >= 1;
        assert(xx * (h * h) <= nn * (s9 * s9)) by (nonlinear_arith)
            requires
                xx == c * c + sm * sm,
                c * c * (h * h) <= bb * bb * (s9 * s9),
                sm * sm * (h * h) <= aa * aa * (s9 * s9),
                nn == aa * aa + bb * bb;
        assert(nn <= h * h + 2 * h) by (nonlinear_arith)
            requires
                nn < (h + 1) * (h + 1);
        assert((xx - s9 * s9) * h <= 2 * (s9 * s9)) by (nonlinear_arith)
            requires
                xx * (h * h) <= nn * (s9 * s9),
                nn <= h * h + 2 * h,
                h >= 1,
                s9 >= 1;
        lemma_pow10_add((17 - k) as nat, (k + 1) as nat);
        lemma_pow10_scale();
        lemma_pow10_add(9, 9);
        lemma_pow10_positive((17 - k) as nat);
        let p17 = pow10((17 - k) as nat);
        assert(s9 * s9 == p17 * bound);
        assert(xx <= s9 * s9 + 2 * p17) by (nonlinear_arith)
            requires
                (xx - s9 * s9) * h <= 2 * (s9 * s9),
                h >= bound,
                bound >= 1,
                s9 * s9 == p17 * bound,
                p17 >= 1;
        lemma_pow10_add((8 - k) as nat, 9);
        assert(p17 == pp * s9);
        assert(c * c * (h * h) >= bb * bb * (s9 * s9) - 2 * (h * h) * s9) by (nonlinear_arith)
            requires
                c * h == bb * s9 - rc,
                0 <= rc < h,
                0 <= bb <= h,
                s9 >= 1,
                h >= 1;
        assert(sm * sm * (h * h) >= aa * aa * (s9 * s9) - 2 * (h * h) * s9) by (nonlinear_arith)
            requires
                sm * h == aa * s9 - rs,
                0 <= rs < h,
                0 <= aa <= h,
                s9 >= 1,
                h >= 1;
        assert(xx * (h * h) >= nn * (s9 * s9) - 4 * (h * h) * s9) by (nonlinear_arith)
            requires
                xx == c * c + sm * sm,
                c * c * (h * h) >= bb * bb * (s9 * s9) - 2 * (h * h) * s9,
                sm * sm * (h * h) >= aa * aa * (s9 * s9) - 2 * (h * h) * s9,
                nn == aa * aa + bb * bb;
        assert(xx >= s9 * s9 - 4 * s9) by (nonlinear_arith)
            requires
                xx * (h * h) >= nn * (s9 * s9) - 4 * (h * h) * s9,
                nn >= h * h,
                h >= 1,
                s9 >= 1;
        let e = mul_fx(c, c) + mul_fx(s, s);
        if s == -sm {
            lemma_mul_fx_neg(sm, sm);
            lemma_mul_fx_neg(sm, -sm);
            assert(mul_fx(-sm, -sm) == mul_fx(sm, sm));
        }
        assert(mul_fx(s, s) == mul_fx(sm, sm));
        assert(c * c >= 0 && sm * sm >= 0) by (nonlinear_arith)
            requires
                c >= 0,
                sm >= 0;
        let ec = (c * c) / s9;
        let es = (sm * sm) / s9;
        assert(mul_fx(c, c) == ec && mul_fx(sm, sm) == es);
        lemma_fundamental_div_mod(c * c, s9);
        lemma_mod_bound(c * c, s9);
        lemma_fundamental_div_mod(sm * sm, s9);
        lemma_mod_bound(sm * sm, s9);
        assert(ec + es <= s9 + 2 * pp) by (nonlinear_arith)
            requires
                c * c == s9 * ec + (c * c) % s9,
                sm * sm == s9 * es + (sm * sm) % s9,
                0 <= (c * c) % s9,
                0 <= (sm * sm) % s9,
                c * c + sm * sm <= s9 * s9 + 2 * (pp * s9),
                s9 >= 1;
        assert(ec + es >= s9 - 6) by (nonlinear_arith)
            requires
                c * c == s9 * ec + (c * c) % s9,
                sm * sm == s9 * es + (sm * sm) % s9,
                (c * c) % s9 < s9,
                (sm * sm) % s9 < s9,
                c * c + sm * sm >= s9 * s9 - 4 * s9,
                s9 >= 3;
        assert(2 * pp <= 5 * pp - 1 && 6 <= 5 * pp - 1) by (nonlinear_arith)
            requires
                pp >= 10;
    }
}

/// An inner product with a row that vanishes outside two indices has only
/// those two terms.
proof fn lemma_dot_two(r1: Seq<int>, r2: Seq<int>, p: int, q: int, n: nat, k: nat)
    requires
        r1.len() == n,
        r2.len() == n,
        0 <= p < n,
        0 <= q < n,
        p != q,
        k <= n,
        forall|x: int| 0 <= x < n && x != p && x != q ==> #[trigger] r1[x] == 0,
    ensures
        dot_prefix(r1, r2, k) == (if p < k {
            mul_fx(r1[p], r2[p])
        } else {
            0
        }) + (if q < k {
            mul_fx(r1[q], r2[q])
        } else {
            0
        }),
    decreases k,
{
    if k > 0 {
        lemma_dot_two(r1, r2, p, q, n, (k - 1) as nat);
        if k - 1 != p && k - 1 != q {
            crate::fixed::lemma_mul_fx_zero(r2[k - 1]);
        }
    }
}

/// Rotation orthogonality: any rotation the builder can produce,
/// multiplied by its own transpose, rounds to the identity at `k`
/// decimal digits.  The zero-pivot branch satisfies this exactly; a
/// nonzero pivot needs the hypotenuse of pivot and target to be at least
/// one tenth of the last digit kept, else the floor square root is too
/// coarse to promise anything.
pub proof fn lemma_rotation_orthogonal(n: nat, p: int, q: int, b: int, a: int, k: nat)
    requires
        0 <= p < n,
        0 <= q < n,
        p != q,
        mag(b) <= FXMAX as int,
        mag(a) <= FXMAX as int,
        1 <= k <= 7,
        b == 0 || a * a + b * b >= pow10((k + 1) as nat) * pow10((k + 1) as nat),
    ensures
        ({
            let uu = rot_mat(n, p, q, cos_of(b, a), sin_of(b, a));
            let m = mat_mul(uu, mat_transpose(uu));
            &&& in_range(m)
            &&& mat_round(m, k) == mat_identity(n)
        }),
{
    let s9 = SCALE as int;
    let c = cos_of(b, a);
    let s = sin_of(b, a);
    lemma_cs_bounds(b, a);
    lemma_cs_unit(b, a, k);
    let uu = rot_mat(n, p, q, c, s);
    let ut = mat_transpose(uu);
    let m = mat_mul(uu, ut);
    let e = mul_fx(c, c) + mul_fx(s, s);
    assert forall|i: int, j: int| 0 <= i < n && 0 <= j < n implies #[trigger] m[i][j] == (if i == j
        && (i == p || i == q) {
        e
    } else if i == j {
        s9
    } else {
        0
    }) by {
        assert(col_seq(ut, j) =~= uu[j]);
        assert(m[i][j] == dot_prefix(uu[i], uu[j], n));
        if i != p && i != q {
            lemma_dot_delta_row(uu[i], uu[j], i, n, n);
            assert(m[i][j] == uu[j][i]);
        } else if j != p && j != q {
            lemma_dot_delta_col(uu[i], uu[j], j, n, n);
            assert(m[i][j] == uu[i][j]);
        } else {
            lemma_dot_two(uu[i], uu[j], p, q, n, n);
            assert(m[i][j] == mul_fx(uu[i][p], uu[j][p]) + mul_fx(uu[i][q], uu[j][q]));
            if i == p && j == p {
            } else if i == q && j == q {
                lemma_mul_fx_neg(s, s);
                lemma_mul_fx_neg(-s, s);
                assert(mul_fx(-s, -s) == mul_fx(s, s));
            } else if i == p && j == q {
                lemma_mul_fx_neg(c, s);
                lemma_mul_fx_comm(s, c);
                assert(mul_fx(c, -s) + mul_fx(s, c) == 0);
            } else {
                lemma_mul_fx_neg(s, c);
                lemma_mul_fx_comm(c, s);
                assert(mul_fx(-s, c) + mul_fx(c, s) == 0);
            }
        }
    }
    lemma_mul_fx_bound(c, c, s9, s9);
    lemma_mul_fx_bound(s, s, s9, s9);
    lemma_div_multiples_vanish(s9, s9);
    assert(s9 * s9 / s9 == s9);
    assert(mag(e) <= 2 * s9);
    assert(in_range(m)) by {
        assert forall|i: int, j: int|
            0 <= i < m.len() && 0 <= j < m[i].len() implies -(FXMAX as int) <= #[trigger] m[i][j]
            <= (FXMAX as int) by {
            assert(m[i][j] == e || m[i][j] == s9 || m[i][j] == 0);
        }
    }
    let u = round_unit(k);
    let pp = pow10((8 - k) as nat);
    lemma_pow10_add(1, (8 - k) as nat);
    assert(pow10(1) == 10) by {
        reveal_with_fuel(pow10, 2);
    }
    lemma_pow10_positive((8 - k) as nat);
    lemma_pow10_monotone(1, (8 - k) as nat);
    assert(u == 10 * pp && pp >= 10);
    assert(u % 2 == 0) by (nonlinear_arith)
        requires
            u == 10 * pp,
            pp >= 1;
    lemma_pow10_add(k, (9 - k) as nat);
    lemma_pow10_scale();
    lemma_mod_multiples_basic(pow10(k), u);
    assert(s9 % u == 0) by {
        assert(s9 == pow10(k) * u);
    }
    lemma_div_multiples_vanish(5 * pp, 2);
    assert(u == 2 * (5 * pp)) by (nonlinear_arith)
        requires
            u == 10 * pp;
    assert(u / 2 == 5 * pp);
    let rounded = mat_round(m, k);
    assert forall|i: int, j: int|
        0 <= i < n && 0 <= j < n implies #[trigger] rounded[i][j] == mat_identity(n)[i][j] by {
        assert(rounded[i][j] == round_fx(m[i][j], u));
        if i == j && (i == p || i == q) {
            lemma_round_fx_center(e, u, s9);
        } else if i == j {
            lemma_round_fx_center(s9, u, s9);
        } else {
            lemma_round_fx_center(0, u, 0);
        }
    }
    assert(rounded =~~= mat_identity(n));
}

} // verus!
