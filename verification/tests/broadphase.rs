use tpt_physics::SpatialHash;

fn cell(p: [f64; 3], cell_size: f64) -> (i64, i64, i64) {
    let f = 1.0 / cell_size;
    (
        (p[0] * f).floor() as i64,
        (p[1] * f).floor() as i64,
        (p[2] * f).floor() as i64,
    )
}

#[test]
fn finds_nearby_pairs_only() {
    // Three particles: 0 and 1 close, 2 far away (cell size 1.0).
    let positions = [[0.0, 0.0, 0.0], [0.5, 0.0, 0.0], [100.0, 100.0, 100.0]];
    let keys: Vec<_> = positions.iter().map(|p| cell(*p, 1.0)).collect();
    let h = SpatialHash::from_keys(keys);
    let pairs = h.candidate_pairs();
    assert!(pairs.contains(&(0, 1)));
    assert!(!pairs.contains(&(0, 2)));
    assert!(!pairs.contains(&(1, 2)));
}

#[test]
fn candidate_pairs_are_sorted_and_cover_touching_cells() {
    let keys = vec![(0, 0, 0), (1, 1, 1), (2, 0, 0), (-1, 0, 0), (0, 0, 0), (5, 5, 5)];
    let h = SpatialHash::from_keys(keys);
    assert_eq!(h.particle_count(), 6);
    assert_eq!(
        h.candidate_pairs(),
        vec![(0, 1), (0, 3), (0, 4), (1, 2), (1, 4), (3, 4)]
    );
}

#[test]
fn neighbour_lists_are_symmetric() {
    let keys = vec![(0, 0, 0), (1, 1, 1), (2, 0, 0), (-1, 0, 0), (0, 0, 0), (5, 5, 5)];
    let h = SpatialHash::from_keys(keys);
    let lists = h.neighbour_lists();
    assert_eq!(lists.len(), 6);
    assert_eq!(lists[0], vec![1, 3, 4]);
    assert_eq!(lists[1], vec![0, 2, 4]);
    assert_eq!(lists[5], Vec::<usize>::new());
    for i in 0..6 {
        for &j in &lists[i] {
            assert!(lists[j].contains(&i));
        }
    }
    let pairs = h.candidate_pairs();
    for i in 0..6 {
        for &j in &lists[i] {
            if i < j {
                assert!(pairs.contains(&(i, j)));
            }
        }
    }
}

#[test]
fn extreme_cells_do_not_overflow() {
    let keys = vec![(i64::MAX, i64::MIN, 0), (i64::MAX - 1, i64::MIN, 1), (i64::MIN, i64::MAX, 0)];
    let h = SpatialHash::from_keys(keys);
    assert_eq!(h.candidate_pairs(), vec![(0, 1)]);
}

#[test]
fn empty_hash_has_no_pairs() {
    let h = SpatialHash::from_keys(Vec::new());
    assert!(h.candidate_pairs().is_empty());
    assert!(h.neighbour_lists().is_empty());
}
