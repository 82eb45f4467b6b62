use tpt_physics::assemble::scatter_plan;
use tpt_physics::lattice::solid_mask;

#[test]
fn solid_mask_marks_walls() {
    assert_eq!(solid_mask(&vec![true, false, false, true], 4), vec![1, 0, 0, 1]);
    assert_eq!(solid_mask(&vec![true, false, true], 2), vec![1, 0]);
}

#[test]
fn scatter_plan_maps_element_entries() {
    let plan = scatter_plan(&vec![7, 3], 2);
    assert_eq!(plan, vec![(7, 7, 0), (7, 3, 1), (3, 7, 2), (3, 3, 3)]);
    assert!(scatter_plan(&vec![1, 2, 3], 0).is_empty());
}
