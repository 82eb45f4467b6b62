use tpt_physics::spec::{
    dirichlet_dofs, find_material, plane_axis, resolve_material_name, MaterialSource,
};
use tpt_physics::{BcSpec, SolverSpec, SpecError};

fn s(x: &str) -> String {
    x.to_string()
}

#[test]
fn plane_tags_parse() {
    assert_eq!(plane_axis(&s("x_min")), Some((0, false)));
    assert_eq!(plane_axis(&s("x_max")), Some((0, true)));
    assert_eq!(plane_axis(&s("y_min")), Some((1, false)));
    assert_eq!(plane_axis(&s("y_max")), Some((1, true)));
    assert_eq!(plane_axis(&s("z_min")), Some((2, false)));
    assert_eq!(plane_axis(&s("z_max")), Some((2, true)));
    assert_eq!(plane_axis(&s("top")), None);
    assert_eq!(plane_axis(&s("")), None);
}

#[test]
fn dirichlet_dofs_fix_all_components_of_plane_nodes() {
    // Three nodes; node 0 on y_min, node 1 on y_min and x_max, node 2 interior.
    let nodes = vec![
        [false, false, true, false, false, false],
        [false, true, true, false, false, false],
        [false; 6],
    ];
    let dofs = dirichlet_dofs(&vec![s("y_min")], &nodes);
    assert_eq!(dofs, vec![0, 1, 2, 3, 4, 5]);
    // Two tags: node 1 is listed once per plane; unknown tags are ignored.
    let dofs2 = dirichlet_dofs(&vec![s("x_max"), s("bogus"), s("y_min")], &nodes);
    assert_eq!(dofs2, vec![0, 1, 2, 3, 4, 5, 3, 4, 5]);
    assert!(dirichlet_dofs(&vec![], &nodes).is_empty());
}

#[test]
fn missing_named_material_errors() {
    let r = resolve_material_name(&s("Ghost"), None, &vec![]);
    assert!(matches!(r, Err(SpecError::MaterialNotFound(ref n)) if n == "Ghost"));
}

#[test]
fn named_material_resolves_embedded_first() {
    let embedded = vec![s("PLA"), s("Steel")];
    let external = vec![s("Steel")];
    assert_eq!(
        resolve_material_name(&s("Steel"), Some(&embedded), &external).unwrap(),
        MaterialSource::Embedded(1)
    );
    assert_eq!(
        resolve_material_name(&s("Steel"), None, &external).unwrap(),
        MaterialSource::External(0)
    );
    assert_eq!(
        resolve_material_name(&s("Steel"), Some(&vec![s("PLA")]), &external).unwrap(),
        MaterialSource::External(0)
    );
    assert_eq!(find_material(&vec![s("A"), s("B"), s("B")], &s("B")), Some(1));
    assert_eq!(find_material(&vec![s("A")], &s("B")), None);
}

#[test]
fn spec_error_messages() {
    assert_eq!(SpecError::MaterialNotFound(s("Ghost")).message(), "material 'Ghost' not found");
    assert_eq!(SpecError::Solve(s("singular")).message(), "elasticity solve failed: singular");
}

#[test]
fn spec_defaults() {
    assert!(BcSpec::default().fixed_planes.is_empty());
    assert_eq!(SolverSpec::default(), SolverSpec::StaticLinear);
}
