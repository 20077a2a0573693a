//! The transform driver and the reconstruction pass.
//!
//! The driver walks the scanned positions once, in order; for each it
//! builds a rotation from the current working matrix and applies the
//! similarity transform `(transpose(U) * w) * U`, recording the rotation.
//! It never re-scans: a later rotation may disturb an earlier zero, and
//! the pass does not go back.
//!
//! The reconstruction pass folds the recorded rotations into a forward
//! product and a reversed product of transposes, then rebuilds the
//! reduced matrix from the original and the original from the reduced,
//! rounding both; matching results are the engine's self-consistency
//! check.

use vstd::prelude::*;

use crate::matrix::{
    in_range, mat_identity, mat_mul, mat_round, mat_transpose, Matrix,
};
use crate::rotation::rot_for;
use crate::scan::{pos_valid, scan_spec, Position};

verus! {

/// The checked product: the fixed-point product when all its entries
/// stay in the scalar range, nothing otherwise.
pub open spec fn mul_fit(a: Seq<Seq<int>>, b: Seq<Seq<int>>) -> Option<Seq<Seq<int>>> {
    if in_range(mat_mul(a, b)) {
        Option::Some(mat_mul(a, b))
    } else {
        Option::None
    }
}

/// The identity laws at the checked-product level: multiplying a
/// well-formed square matrix by the identity, on either side, always
/// succeeds and gives the matrix back unchanged.
pub proof fn lemma_mul_fit_identity(a: Seq<Seq<int>>)
    requires
        crate::matrix::is_square(a),
        in_range(a),
    ensures
        mul_fit(mat_identity(a.len()), a) == Option::Some(a),
        mul_fit(a, mat_identity(a.len())) == Option::Some(a),
{
    crate::matrix::lemma_mul_identity_left(a);
    crate::matrix::lemma_mul_identity_right(a);
}

/// One elimination step on the working matrix: build the rotation there,
/// then apply the similarity transform, multiplying left to right.
pub open spec fn sim_step(w: Seq<Seq<int>>, pos: Position) -> Option<Seq<Seq<int>>> {
    let uu = rot_for(w, pos);
    match mul_fit(mat_transpose(uu), w) {
        Option::Some(t) => mul_fit(t, uu),
        Option::None => Option::None,
    }
}

/// The whole drive: one elimination attempt per position, in order, each
/// against the working matrix as the previous steps left it.  Yields the
/// recorded rotations and the final working matrix, or nothing as soon
/// as one step leaves the scalar range.
pub open spec fn drive(w: Seq<Seq<int>>, ps: Seq<Position>) -> Option<
    (Seq<Seq<Seq<int>>>, Seq<Seq<int>>),
>
    decreases ps.len(),
{
    if ps.len() == 0 {
        Option::Some((Seq::empty(), w))
    } else {
        let uu = rot_for(w, ps[0]);
        match sim_step(w, ps[0]) {
            Option::None => Option::None,
            Option::Some(w2) => match drive(w2, ps.skip(1)) {
                Option::None => Option::None,
                Option::Some(rest) => Option::Some((seq![uu] + rest.0, rest.1)),
            },
        }
    }
}

/// The views of a vector of matrices.
pub open spec fn mats_view(v: Seq<Matrix>) -> Seq<Seq<Seq<int>>> {
    Seq::new(v.len(), |i: int| v[i]@)
}

/// Prepends rotations already taken to the outcome of the rest of a
/// drive.
pub open spec fn glue(
    pre: Seq<Seq<Seq<int>>>,
    r: Option<(Seq<Seq<Seq<int>>>, Seq<Seq<int>>)>,
) -> Option<(Seq<Seq<Seq<int>>>, Seq<Seq<int>>)> {
    match r {
        Option::None => Option::None,
        Option::Some(t) => Option::Some((pre + t.0, t.1)),
    }
}

proof fn lemma_glue_assoc(
    pre1: Seq<Seq<Seq<int>>>,
    pre2: Seq<Seq<Seq<int>>>,
    r: Option<(Seq<Seq<Seq<int>>>, Seq<Seq<int>>)>,
)
    ensures
        glue(pre1, glue(pre2, r)) == glue(pre1 + pre2, r),
{
    match r {
        Option::None => {},
        Option::Some(t) => {
            assert(pre1 + (pre2 + t.0) =~= (pre1 + pre2) + t.0);
        },
    }
}

/// What the driver records and leaves behind.
pub struct Reduction {
    /// The rotations, one per scanned position, in scan order.
    pub rotations: Vec<Matrix>,
    /// The working matrix after the last elimination step.
    pub reduced: Matrix,
}

impl Matrix {
    /// Scans this matrix once, then drives the eliminations across the
    /// scanned positions.  Succeeds exactly when every intermediate
    /// product stays in the scalar range.
    pub fn reduce(&self) -> (r: Option<Reduction>)
        requires
            self.wf(),
        ensures
            match r {
                Some(red) => {
                    &&& drive(self@, scan_spec(self@)) == Option::Some(
                        (mats_view(red.rotations@), red.reduced@),
                    )
                    &&& red.reduced.wf()
                    &&& red.reduced@.len() == self@.len()
                    &&& red.rotations@.len() == scan_spec(self@).len()
                    &&& forall|t: int|
                        0 <= t < red.rotations@.len() ==> (#[trigger] red.rotations@[t]).wf()
                            && red.rotations@[t]@.len() == self@.len()
                },
                None => drive(self@, scan_spec(self@)) is None,
            },
    {
        let n = self.dim();
        let positions = self.scan();
        let mut work = self.duplicate();
        let mut rots: Vec<Matrix> = Vec::new();
        let mut i: usize = 0;
        let ghost ps = positions@;
        proof {
            assert(ps.skip(0) =~= ps);
            assert(glue(mats_view(rots@), drive(self@, ps)) == drive(self@, ps)) by {
                match drive(self@, ps) {
                    Option::None => {},
                    Option::Some(t) => {
                        assert(mats_view(rots@) + t.0 =~= t.0);
                    },
                }
            }
        }
        while i < positions.len()
            invariant
                i <= ps.len(),
                ps == positions@,
                ps == scan_spec(self@),
                n == self@.len(),
                self.wf(),
                work.wf(),
                work@.len() == n,
                forall|t: int| 0 <= t < ps.len() ==> pos_valid(#[trigger] ps[t], n as nat),
                rots@.len() == i,
                forall|t: int|
                    0 <= t < rots@.len() ==> (#[trigger] rots@[t]).wf() && rots@[t]@.len() == n,
                drive(self@, ps) == glue(mats_view(rots@), drive(work@, ps.skip(i as int))),
            decreases ps.len() - i,
        {
            let pos = positions[i];
            let ghost rest = ps.skip(i as int);
            proof {
                assert(rest[0] == ps[i as int]);
                assert(rest.skip(1) =~= ps.skip(i as int + 1));
            }
            let uu = work.build_rotation(pos);
            let ut = uu.transpose();
            proof {
                crate::matrix::lemma_wf_basics(uu@, n as nat);
            }
            let step1 = ut.multiply(&work);
            let t1 = match step1 {
                Some(t) => t,
                None => {
                    proof {
                        assert(sim_step(work@, pos) is None);
                        assert(drive(work@, rest) is None);
                    }
                    return None;
                },
            };
            let step2 = t1.multiply(&uu);
            let w2 = match step2 {
                Some(w) => w,
                None => {
                    proof {
                        assert(sim_step(work@, pos) is None);
                        assert(drive(work@, rest) is None);
                    }
                    return None;
                },
            };
            proof {
                assert(sim_step(work@, pos) == Option::Some(w2@));
                assert(drive(work@, rest) == glue(
                    seq![uu@],
                    drive(w2@, ps.skip(i as int + 1)),
                ));
            }
            let ghost rots0 = mats_view(rots@);
            rots.push(uu);
            proof {
                assert(mats_view(rots@) =~~= rots0 + seq![rots@[rots@.len() - 1]@]) by {
                    assert(forall|t: int|
                        0 <= t < rots0.len() ==> #[trigger] mats_view(rots@)[t] == rots0[t]);
                }
                lemma_glue_assoc(rots0, seq![uu@], drive(w2@, ps.skip(i as int + 1)));
            }
            work = w2;
            i = i + 1;
        }
        proof {
            assert(ps.skip(ps.len() as int) =~= Seq::<Position>::empty());
            assert(drive(work@, Seq::empty()) == Option::Some(
                (Seq::<Seq<Seq<int>>>::empty(), work@),
            ));
            assert(mats_view(rots@) + Seq::<Seq<Seq<int>>>::empty() =~= mats_view(rots@));
        }
        Some(Reduction { rotations: rots, reduced: work })
    }
}

/// The forward composite: the identity folded left to right through the
/// rotations, one checked product per rotation.
pub open spec fn fold_forward(acc: Seq<Seq<int>>, us: Seq<Seq<Seq<int>>>) -> Option<Seq<Seq<int>>>
    decreases us.len(),
{
    if us.len() == 0 {
        Option::Some(acc)
    } else {
        match mul_fit(acc, us[0]) {
            Option::None => Option::None,
            Option::Some(acc2) => fold_forward(acc2, us.skip(1)),
        }
    }
}

/// The reversed composite of transposes: the identity folded through the
/// transposed rotations, last rotation first.
pub open spec fn fold_reverse_t(
    acc: Seq<Seq<int>>,
    us: Seq<Seq<Seq<int>>>,
) -> Option<Seq<Seq<int>>>
    decreases us.len(),
{
    if us.len() == 0 {
        Option::Some(acc)
    } else {
        match mul_fit(acc, mat_transpose(us.last())) {
            Option::None => Option::None,
            Option::Some(acc2) => fold_reverse_t(acc2, us.take(us.len() - 1)),
        }
    }
}

/// The reconstruction: with `P` the forward composite and `Q` the
/// reversed composite of transposes, the reduced matrix is rebuilt as
/// `(Q * original) * P` and the original as `(P * reduced) * Q`, each
/// product checked, both results rounded to `k` digits.
pub open spec fn rebuild(
    orig: Seq<Seq<int>>,
    red: Seq<Seq<int>>,
    us: Seq<Seq<Seq<int>>>,
    k: nat,
) -> Option<(Seq<Seq<int>>, Seq<Seq<int>>)> {
    let n = orig.len();
    match fold_forward(mat_identity(n), us) {
        Option::None => Option::None,
        Option::Some(fw) => match fold_reverse_t(mat_identity(n), us) {
            Option::None => Option::None,
            Option::Some(bw) => match mul_fit(bw, orig) {
                Option::None => Option::None,
                Option::Some(t1) => match mul_fit(t1, fw) {
                    Option::None => Option::None,
                    Option::Some(rr) => match mul_fit(fw, red) {
                        Option::None => Option::None,
                        Option::Some(t2) => match mul_fit(t2, bw) {
                            Option::None => Option::None,
                            Option::Some(oo) => Option::Some(
                                (mat_round(rr, k), mat_round(oo, k)),
                            ),
                        },
                    },
                },
            },
        },
    }
}

/// Both matrices the reconstruction pass rebuilds.
pub struct Reconstruction {
    /// The reduced matrix, rebuilt from the original and the composites.
    pub reduced_again: Matrix,
    /// The original matrix, rebuilt from the reduced one and the
    /// composites.
    pub original_again: Matrix,
}

/// Recombines the recorded rotations to rebuild the reduced matrix from
/// the original and the original from the reduced, both rounded to `k`
/// decimal digits.  Succeeds exactly when every product along the way
/// stays in the scalar range.
pub fn reconstruct(
    original: &Matrix,
    reduced: &Matrix,
    rotations: &Vec<Matrix>,
    k: u32,
) -> (r: Option<Reconstruction>)
    requires
        original.wf(),
        reduced.wf(),
        reduced@.len() == original@.len(),
        k <= 9,
        forall|t: int|
            0 <= t < rotations@.len() ==> (#[trigger] rotations@[t]).wf() && rotations@[t]@.len()
                == original@.len(),
    ensures
        match r {
            Some(rec) => {
                &&& rebuild(original@, reduced@, mats_view(rotations@), k as nat)
                    == Option::Some((rec.reduced_again@, rec.original_again@))
                &&& rec.reduced_again.wf()
                &&& rec.original_again.wf()
            },
            None => rebuild(original@, reduced@, mats_view(rotations@), k as nat) is None,
        },
{
    let n = original.dim();
    let ghost us = mats_view(rotations@);
    let mut fw = Matrix::identity(n);
    let mut i: usize = 0;
    proof {
        assert(us.skip(0) =~= us);
    }
    while i < rotations.len()
        invariant
            i <= rotations@.len(),
            us == mats_view(rotations@),
            n == original@.len(),
            forall|t: int|
                0 <= t < rotations@.len() ==> (#[trigger] rotations@[t]).wf()
                    && rotations@[t]@.len() == n,
            fw.wf(),
            fw@.len() == n,
            n <= crate::matrix::DIM_MAX,
            fold_forward(mat_identity(n as nat), us) == fold_forward(fw@, us.skip(i as int)),
        decreases rotations@.len() - i,
    {
        let ghost rest = us.skip(i as int);
        proof {
            assert(rest[0] == us[i as int]);
            assert(us[i as int] == rotations@[i as int]@);
            assert(rest.skip(1) =~= us.skip(i as int + 1));
        }
        let step = fw.multiply(&rotations[i]);
        match step {
            Some(f2) => {
                fw = f2;
            },
            None => {
                return None;
            },
        }
        i = i + 1;
    }
    proof {
        assert(us.skip(us.len() as int) =~= Seq::<Seq<Seq<int>>>::empty());
        assert(fold_forward(mat_identity(n as nat), us) == Option::Some(fw@));
    }
    let mut bw = Matrix::identity(n);
    let mut j: usize = rotations.len();
    proof {
        assert(us.take(us.len() as int) =~= us);
    }
    while j > 0
        invariant
            j <= rotations@.len(),
            us == mats_view(rotations@),
            n == original@.len(),
            forall|t: int|
                0 <= t < rotations@.len() ==> (#[trigger] rotations@[t]).wf()
                    && rotations@[t]@.len() == n,
            bw.wf(),
            bw@.len() == n,
            n <= crate::matrix::DIM_MAX,
            fold_reverse_t(mat_identity(n as nat), us) == fold_reverse_t(bw@, us.take(j as int)),
        decreases j,
    {
        let ghost part = us.take(j as int);
        proof {
            assert(part.last() == us[j - 1]);
            assert(us[j - 1] == rotations@[j - 1]@);
            assert(part.take(part.len() - 1) =~= us.take(j - 1));
        }
        let ut = rotations[j - 1].transpose();
        proof {
            crate::matrix::lemma_wf_basics(rotations@[j - 1]@, n as nat);
        }
        let step = bw.multiply(&ut);
        match step {
            Some(b2) => {
                bw = b2;
            },
            None => {
                return None;
            },
        }
        j = j - 1;
    }
    proof {
        assert(us.take(0) =~= Seq::<Seq<Seq<int>>>::empty());
        assert(fold_reverse_t(mat_identity(n as nat), us) == Option::Some(bw@));
    }
    let t1 = match bw.multiply(original) {
        Some(t) => t,
        None => {
            return None;
        },
    };
    let rr0 = match t1.multiply(&fw) {
        Some(t) => t,
        None => {
            return None;
        },
    };
    let t2 = match fw.multiply(reduced) {
        Some(t) => t,
        None => {
            return None;
        },
    };
    let oo0 = match t2.multiply(&bw) {
        Some(t) => t,
        None => {
            return None;
        },
    };
    let rr = rr0.round(k);
    let oo = oo0.round(k);
    Some(Reconstruction { reduced_again: rr, original_again: oo })
}

} // verus!
