use tpt_physics::bonds::{active_bond_count, new_bond_pairs};

#[test]
fn new_bonds_skip_existing_and_out_of_reach_pairs() {
    // 4 particles; all pairs in reach except (0,3); (1,2) already bonded as (2,1).
    let n = 4;
    let mut reach = vec![vec![true; n]; n];
    reach[0][3] = false;
    let pairs = new_bond_pairs(n, &vec![(2, 1)], &reach);
    assert_eq!(pairs, vec![(0, 1), (0, 2), (1, 3), (2, 3)]);
}

#[test]
fn bonding_twice_creates_nothing_new() {
    let n = 3;
    let reach = vec![vec![true; n]; n];
    let first = new_bond_pairs(n, &vec![], &reach);
    assert_eq!(first, vec![(0, 1), (0, 2), (1, 2)]);
    let second = new_bond_pairs(n, &first, &reach);
    assert!(second.is_empty());
}

#[test]
fn active_bonds_count_unbroken_ones() {
    assert_eq!(active_bond_count(&vec![]), 0);
    assert_eq!(active_bond_count(&vec![false]), 1);
    assert_eq!(active_bond_count(&vec![true, false, true, false]), 2);
}
