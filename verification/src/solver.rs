//! Shape checks and iteration budgets of the iterative and time-integration
//! solvers (Conjugate Gradient, restarted GMRES, Newmark-beta).
use vstd::prelude::*;

verus! {

/// An operator whose shape does not fit the system being solved.
#[derive(Debug, Clone, Copy, PartialEq, Eq, Structural)]
pub struct NotSquare {
    /// Rows reported.
    pub nrows: usize,
    /// Columns reported.
    pub ncols: usize,
}

/// Check that an `nrows × ncols` operator is square of size `n` (the length
/// of the right-hand side), as Conjugate Gradient and GMRES require; otherwise
/// report the operator's shape.
pub fn check_square(nrows: usize, ncols: usize, n: usize) -> (r: Result<(), NotSquare>)
    ensures
        r is Ok <==> (nrows == n && ncols == n),
        r is Err ==> r->Err_0 == (NotSquare { nrows, ncols }),
{
    if nrows != n || ncols != n {
        Err(NotSquare { nrows, ncols })
    } else {
        Ok(())
    }
}

/// Iteration budget of restarted GMRES: the Krylov dimension `max(restart, 1)`
/// and the total number of matrix-vector products, `max_iter`, or one restart
/// cycle when `max_iter == 0`.
pub fn gmres_budget(restart: usize, max_iter: usize) -> (r: (usize, usize))
    ensures
        r.0 == (if restart >= 1 { restart } else { 1 }),
        r.1 == (if max_iter == 0 { r.0 } else { max_iter }),
        r.0 >= 1,
        r.1 >= 1,
{
    let m = if restart >= 1 {
        restart
    } else {
        1
    };
    let total = if max_iter == 0 {
        m
    } else {
        max_iter
    };
    (m, total)
}

/// Common size of the Newmark-beta mass, damping and stiffness operators,
/// given as `(rows, cols)`: the mass operator's row count `n` when all three
/// are `n × n`; otherwise the mismatch is reported as `n` against the
/// stiffness operator's column count.
pub fn newmark_dimension(
    m: (usize, usize),
    c: (usize, usize),
    k: (usize, usize),
) -> (r: Result<usize, NotSquare>)
    ensures
        r is Ok <==> (m.1 == m.0 && c.0 == m.0 && c.1 == m.0 && k.0 == m.0 && k.1 == m.0),
        r is Ok ==> r->Ok_0 == m.0,
        r is Err ==> r->Err_0 == (NotSquare { nrows: m.0, ncols: k.1 }),
{
    let n = m.0;
    if m.1 != n || c.0 != n || c.1 != n || k.0 != n || k.1 != n {
        return Err(NotSquare { nrows: n, ncols: k.1 });
    }
    Ok(n)
}

} // verus!
