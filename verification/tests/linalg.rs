use tpt_physics::DenseMat;

#[test]
fn dense_mat_row_major_get_set() {
    let mut m = DenseMat::from_row_major(2, 3, vec![1.0, 2.0, 3.0, 4.0, 5.0, 6.0]);
    assert_eq!(m.nrows, 2);
    assert_eq!(m.ncols, 3);
    assert_eq!(m.get(0, 2), 3.0);
    assert_eq!(m.get(1, 0), 4.0);
    m.set(1, 2, -7.5);
    assert_eq!(m.get(1, 2), -7.5);
    assert_eq!(m.data, vec![1.0, 2.0, 3.0, 4.0, 5.0, -7.5]);
}

#[test]
fn dense_mat_write_does_not_alias() {
    let mut m = DenseMat::from_row_major(3, 3, (0..9).collect::<Vec<i32>>());
    m.set(2, 0, 100);
    for r in 0..3 {
        for c in 0..3 {
            let expected = if (r, c) == (2, 0) { 100 } else { (r * 3 + c) as i32 };
            assert_eq!(m.get(r, c), expected);
        }
    }
}
