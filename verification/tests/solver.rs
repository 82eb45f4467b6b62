use tpt_physics::solver::{check_square, gmres_budget, newmark_dimension};
use tpt_physics::NotSquare;

#[test]
fn cg_rejects_rectangular() {
    // 2x3 operator against a right-hand side of length 2.
    assert_eq!(check_square(2, 3, 2), Err(NotSquare { nrows: 2, ncols: 3 }));
    assert_eq!(check_square(3, 3, 3), Ok(()));
    assert_eq!(check_square(3, 3, 2), Err(NotSquare { nrows: 3, ncols: 3 }));
}

#[test]
fn newmark_rejects_mismatched_dims() {
    let r = newmark_dimension((2, 2), (2, 2), (1, 1));
    assert!(matches!(r, Err(NotSquare { .. })));
    assert_eq!(r, Err(NotSquare { nrows: 2, ncols: 1 }));
    assert_eq!(newmark_dimension((1, 1), (1, 1), (1, 1)), Ok(1));
}

#[test]
fn gmres_budget_defaults() {
    assert_eq!(gmres_budget(50, 200), (50, 200));
    assert_eq!(gmres_budget(0, 0), (1, 1));
    assert_eq!(gmres_budget(3, 0), (3, 3));
}
