//! The sub-subdiagonal scanner.
//!
//! It lists, once and from the input matrix alone, the positions strictly
//! below the first subdiagonal whose entries are nonzero, column by
//! ascending column and row by ascending row within a column.  That fixed
//! order is what determines the elimination sequence.

use vstd::prelude::*;

use crate::matrix::Matrix;

verus! {

/// A position strictly below the first subdiagonal: its row lies at least
/// two below its column.
#[derive(Clone, Copy, PartialEq, Eq, Structural, Debug)]
pub struct Position {
    pub row: usize,
    pub col: usize,
}

/// The position fits a matrix of dimension `n` and lies strictly below
/// the first subdiagonal.
pub open spec fn pos_valid(p: Position, n: nat) -> bool {
    p.row < n && p.col + 2 <= p.row
}

/// The nonzero positions of column `c` from row `r` downward, rows
/// ascending.
pub open spec fn scan_col(m: Seq<Seq<int>>, c: int, r: int) -> Seq<Position>
    decreases m.len() - r,
{
    if r < 0 || r >= m.len() {
        Seq::empty()
    } else {
        let rest = scan_col(m, c, r + 1);
        if m[r][c] != 0 {
            seq![Position { row: r as usize, col: c as usize }] + rest
        } else {
            rest
        }
    }
}

/// The nonzero sub-subdiagonal positions of the columns from `c` upward,
/// columns ascending, rows ascending within each column.
pub open spec fn scan_cols(m: Seq<Seq<int>>, c: int) -> Seq<Position>
    decreases m.len() - c,
{
    if c < 0 || m.len() < 3 || c > m.len() - 3 {
        Seq::empty()
    } else {
        scan_col(m, c, c + 2) + scan_cols(m, c + 1)
    }
}

/// All nonzero sub-subdiagonal positions of the matrix, in scan order.
pub open spec fn scan_spec(m: Seq<Seq<int>>) -> Seq<Position> {
    scan_cols(m, 0)
}

/// Every position a column scan yields lies in that column, at or below
/// the starting row, and holds a nonzero entry.
proof fn lemma_scan_col_valid(m: Seq<Seq<int>>, c: int, r: int)
    requires
        m.len() <= usize::MAX,
        0 <= c <= usize::MAX,
    ensures
        forall|t: int|
            0 <= t < scan_col(m, c, r).len() ==> {
                let p = #[trigger] scan_col(m, c, r)[t];
                &&& r <= p.row < m.len()
                &&& p.col == c
                &&& m[p.row as int][c] != 0
            },
    decreases m.len() - r,
{
    if r < 0 || r >= m.len() {
    } else {
        lemma_scan_col_valid(m, c, r + 1);
        let rest = scan_col(m, c, r + 1);
        assert forall|t: int| 0 <= t < scan_col(m, c, r).len() implies {
            let p = #[trigger] scan_col(m, c, r)[t];
            &&& r <= p.row < m.len()
            &&& p.col == c
            &&& m[p.row as int][c] != 0
        } by {
            if m[r][c] != 0 {
                let head = seq![Position { row: r as usize, col: c as usize }];
                assert(scan_col(m, c, r) == head + rest);
                if t == 0 {
                    assert(scan_col(m, c, r)[0] == head[0]);
                } else {
                    assert(scan_col(m, c, r)[t] == rest[t - 1]);
                }
            } else {
                assert(scan_col(m, c, r) == rest);
            }
        }
    }
}

/// Every position the scan yields is a valid sub-subdiagonal position
/// with a nonzero entry.
pub proof fn lemma_scan_cols_valid(m: Seq<Seq<int>>, c: int)
    requires
        c >= 0,
        m.len() <= usize::MAX,
    ensures
        forall|t: int|
            0 <= t < scan_cols(m, c).len() ==> {
                let p = #[trigger] scan_cols(m, c)[t];
                &&& pos_valid(p, m.len())
                &&& c <= p.col
                &&& m[p.row as int][p.col as int] != 0
            },
    decreases m.len() - c,
{
    if c < 0 || m.len() < 3 || c > m.len() - 3 {
    } else {
        lemma_scan_col_valid(m, c, c + 2);
        lemma_scan_cols_valid(m, c + 1);
        assert forall|t: int| 0 <= t < scan_cols(m, c).len() implies {
            let p = #[trigger] scan_cols(m, c)[t];
            &&& pos_valid(p, m.len())
            &&& c <= p.col
            &&& m[p.row as int][p.col as int] != 0
        } by {
            let head = scan_col(m, c, c + 2);
            if t < head.len() {
                assert(scan_cols(m, c)[t] == head[t]);
            } else {
                assert(scan_cols(m, c)[t] == scan_cols(m, c + 1)[t - head.len()]);
            }
        }
    }
}

impl Matrix {
    /// The ordered list of nonzero sub-subdiagonal positions of the
    /// matrix: the elimination agenda.  A dimension below three, or an
    /// all-zero sub-subdiagonal, yields the empty list.
    pub fn scan(&self) -> (r: Vec<Position>)
        requires
            self.wf(),
        ensures
            r@ == scan_spec(self@),
            forall|t: int|
                0 <= t < r@.len() ==> pos_valid(#[trigger] r@[t], self@.len()) && self@[r@[t].row as int][r@[t].col as int] != 0,
    {
        proof {
            lemma_scan_cols_valid(self@, 0);
        }
        let n = self.dim();
        let mut out: Vec<Position> = Vec::new();
        if n < 3 {
            return out;
        }
        let mut c: usize = 0;
        while c < n - 2
            invariant
                c <= n - 2,
                3 <= n == self@.len(),
                self.wf(),
                scan_spec(self@) == out@ + scan_cols(self@, c as int),
            decreases n - c,
        {
            let mut r: usize = c + 2;
            proof {
                assert(scan_cols(self@, c as int) == scan_col(self@, c as int, c + 2) + scan_cols(
                    self@,
                    c as int + 1,
                ));
            }
            while r < n
                invariant
                    c + 2 <= r <= n,
                    c < n - 2,
                    3 <= n == self@.len(),
                    self.wf(),
                    scan_spec(self@) == out@ + scan_col(self@, c as int, r as int) + scan_cols(
                        self@,
                        c as int + 1,
                    ),
                decreases n - r,
            {
                let v = self.entry(r, c);
                proof {
                    let rest = scan_col(self@, c as int, r as int + 1);
                    if v != 0 {
                        let p = Position { row: r, col: c };
                        assert(scan_col(self@, c as int, r as int) == seq![p] + rest);
                        assert(out@.push(p) + rest =~= out@ + (seq![p] + rest));
                    } else {
                        assert(scan_col(self@, c as int, r as int) == rest);
                    }
                }
                if v != 0 {
                    out.push(Position { row: r, col: c });
                }
                r = r + 1;
            }
            proof {
                assert(scan_col(self@, c as int, n as int) =~= Seq::<Position>::empty());
                assert(out@ + Seq::<Position>::empty() =~= out@);
                assert(out@ + scan_col(self@, c as int, n as int) + scan_cols(self@, c as int + 1)
                    =~= out@ + scan_cols(self@, c as int + 1));
            }
            c = c + 1;
        }
        proof {
            assert(scan_cols(self@, n as int - 2) =~= Seq::<Position>::empty());
            assert(out@ + Seq::<Position>::empty() =~= out@);
        }
        out
    }
}

} // verus!
