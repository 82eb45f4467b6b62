//! Row-major dense matrix storage.
use vstd::prelude::*;

verus! {

/// A dense `nrows × ncols` matrix backed by a row-major buffer: entry
/// `(i, j)` lives at `data[i * ncols + j]`.
#[derive(Debug, Clone)]
pub struct DenseMat<T> {
    /// Row count.
    pub nrows: usize,
    /// Column count.
    pub ncols: usize,
    /// Row-major entries.
    pub data: Vec<T>,
}

impl<T: Copy> DenseMat<T> {
    /// Whether the buffer holds exactly `nrows · ncols` entries.
    pub open spec fn well_formed(&self) -> bool {
        self.data@.len() == self.nrows * self.ncols
    }

    /// Position of entry `(i, j)` in the row-major buffer.
    pub open spec fn offset(&self, i: int, j: int) -> int {
        i * self.ncols + j
    }

    /// Entry `(i, j)`.
    pub open spec fn entry(&self, i: int, j: int) -> T {
        self.data@[self.offset(i, j)]
    }

    /// Build a dense matrix from a row-major buffer of length `nrows*ncols`.
    pub fn from_row_major(nrows: usize, ncols: usize, data: Vec<T>) -> (m: Self)
        requires
            data@.len() == nrows * ncols,
        ensures
            m.nrows == nrows,
            m.ncols == ncols,
            m.data@ == data@,
            m.well_formed(),
    {
        DenseMat { nrows, ncols, data }
    }

    /// `A[i][j]`.
    pub fn get(&self, i: usize, j: usize) -> (v: T)
        requires
            self.well_formed(),
            i < self.nrows,
            j < self.ncols,
        ensures
            v == self.entry(i as int, j as int),
    {
        let len = self.data.len();
        proof {
            crate::multigrid::lemma_node_position(self.ncols as int, self.nrows as int, j as int, i as int);
            assert(self.nrows * self.ncols == self.ncols * self.nrows) by (nonlinear_arith);
        }
        self.data[i * self.ncols + j]
    }

    /// Set `A[i][j] = v`.
    pub fn set(&mut self, i: usize, j: usize, v: T)
        requires
            old(self).well_formed(),
            i < old(self).nrows,
            j < old(self).ncols,
        ensures
            final(self).nrows == old(self).nrows,
            final(self).ncols == old(self).ncols,
            final(self).data@ == old(self).data@.update(old(self).offset(i as int, j as int), v),
            final(self).well_formed(),
    {
        let len = self.data.len();
        proof {
            crate::multigrid::lemma_node_position(self.ncols as int, self.nrows as int, j as int, i as int);
            assert(self.nrows * self.ncols == self.ncols * self.nrows) by (nonlinear_arith);
        }
        let k = i * self.ncols + j;
        self.data.set(k, v);
    }
}

/// Law: writing an entry and reading it back gives the written value, and
/// every other entry is unchanged (distinct positions never alias).
pub proof fn lemma_set_then_get<T: Copy>(
    before: DenseMat<T>,
    after: DenseMat<T>,
    i: int,
    j: int,
    v: T,
    r: int,
    c: int,
)
    requires
        before.well_formed(),
        0 <= i < before.nrows,
        0 <= j < before.ncols,
        0 <= r < before.nrows,
        0 <= c < before.ncols,
        after.nrows == before.nrows,
        after.ncols == before.ncols,
        after.data@ == before.data@.update(before.offset(i, j), v),
    ensures
        after.entry(i, j) == v,
        (r != i || c != j) ==> after.entry(r, c) == before.entry(r, c),
{
    let nx = before.ncols as int;
    let ny = before.nrows as int;
    crate::multigrid::lemma_node_position(nx, ny, j, i);
    crate::multigrid::lemma_node_position(nx, ny, c, r);
    assert(ny * nx == nx * ny) by (nonlinear_arith);
    if r != i || c != j {
        assert(before.offset(r, c) != before.offset(i, j));
    }
}

} // verus!
