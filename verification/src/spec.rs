//! Declarative static-elasticity problem description: boundary-condition
//! planes, solver selection, material resolution by name and the errors they
//! produce, plus the Dirichlet degree-of-freedom selection they drive.
use vstd::prelude::*;

verus! {

/// Boundary conditions applied as essential (Dirichlet) constraints.
#[derive(Debug, Clone)]
pub struct BcSpec {
    /// Planes whose nodes are fully fixed. Values are one of `x_min`, `x_max`,
    /// `y_min`, `y_max`, `z_min`, `z_max`.
    pub fixed_planes: Vec<String>,
}

impl Default for BcSpec {
    /// No fixed planes.
    fn default() -> (b: Self)
        ensures
            b.fixed_planes@.len() == 0,
    {
        BcSpec { fixed_planes: Vec::new() }
    }
}

/// Solver selection. Only `static_linear` (continuum 3-D) is wired; other
/// variants would resolve to the same linear solve.
#[derive(Debug, Clone, Copy, PartialEq, Eq, Structural)]
pub enum SolverSpec {
    /// Linear static continuum elasticity (the only implemented path).
    StaticLinear,
}

impl Default for SolverSpec {
    /// `StaticLinear`.
    fn default() -> (s: Self)
        ensures
            s == SolverSpec::StaticLinear,
    {
        SolverSpec::StaticLinear
    }
}

/// Errors produced while resolving or solving a problem description.
#[derive(Debug, Clone)]
pub enum SpecError {
    /// The named material could not be found in any supplied registry.
    MaterialNotFound(String),
    /// The underlying elasticity solve failed.
    Solve(String),
}

impl SpecError {
    /// The human-readable message of this error.
    pub open spec fn message_spec(&self) -> Seq<char> {
        match self {
            SpecError::MaterialNotFound(n) => "material '"@ + n@ + "' not found"@,
            SpecError::Solve(e) => "elasticity solve failed: "@ + e@,
        }
    }

    /// The human-readable message of this error.
    pub fn message(&self) -> (m: String)
        ensures
            m@ == self.message_spec(),
    {
        match self {
            SpecError::MaterialNotFound(n) => {
                let mut m = String::from_str("material '");
                m.append(n.as_str());
                m.append("' not found");
                m
            },
            SpecError::Solve(e) => {
                let mut m = String::from_str("elasticity solve failed: ");
                m.append(e.as_str());
                m
            },
        }
    }
}

/// The `(axis, is_max)` plane a boundary tag names, if it is one of `x_min`,
/// `x_max`, `y_min`, `y_max`, `z_min`, `z_max`.
pub open spec fn plane_axis_spec(tag: Seq<char>) -> Option<(usize, bool)> {
    if tag == "x_min"@ {
        Some((0usize, false))
    } else if tag == "x_max"@ {
        Some((0usize, true))
    } else if tag == "y_min"@ {
        Some((1usize, false))
    } else if tag == "y_max"@ {
        Some((1usize, true))
    } else if tag == "z_min"@ {
        Some((2usize, false))
    } else if tag == "z_max"@ {
        Some((2usize, true))
    } else {
        None
    }
}

/// Parse a boundary tag into `(axis, is_max)`.
pub fn plane_axis(tag: &String) -> (r: Option<(usize, bool)>)
    ensures
        r == plane_axis_spec(tag@),
{
    if *tag == String::from_str("x_min") {
        Some((0, false))
    } else if *tag == String::from_str("x_max") {
        Some((0, true))
    } else if *tag == String::from_str("y_min") {
        Some((1, false))
    } else if *tag == String::from_str("y_max") {
        Some((1, true))
    } else if *tag == String::from_str("z_min") {
        Some((2, false))
    } else if *tag == String::from_str("z_max") {
        Some((2, true))
    } else {
        None
    }
}

/// Index of the plane `(axis, is_max)` in a per-node plane-membership row
/// ordered `x_min, x_max, y_min, y_max, z_min, z_max`.
pub open spec fn plane_slot(axis: usize, is_max: bool) -> int {
    2 * axis + if is_max {
        1int
    } else {
        0int
    }
}

/// The constrained degrees of freedom that boundary tag `tag` contributes for
/// node `nd`, whose plane membership is `on_plane`: all three displacement
/// components when the tag names a plane the node lies on.
pub open spec fn tag_dofs(tag: Seq<char>, on_plane: Seq<bool>, nd: int) -> Seq<usize> {
    match plane_axis_spec(tag) {
        Some((axis, is_max)) => if on_plane[plane_slot(axis, is_max)] {
            seq![(3 * nd) as usize, (3 * nd + 1) as usize, (3 * nd + 2) as usize]
        } else {
            Seq::empty()
        },
        None => Seq::empty(),
    }
}

/// The constrained degrees of freedom of node `nd` from the first `t` tags.
pub open spec fn node_dofs(tags: Seq<String>, on_plane: Seq<bool>, nd: int, t: nat) -> Seq<usize>
    decreases t,
{
    if t == 0 {
        Seq::empty()
    } else {
        node_dofs(tags, on_plane, nd, (t - 1) as nat) + tag_dofs(tags[t - 1]@, on_plane, nd)
    }
}

/// The constrained degrees of freedom of the first `k` nodes, node by node.
pub open spec fn dirichlet_prefix(tags: Seq<String>, nodes: Seq<[bool; 6]>, k: nat) -> Seq<usize>
    decreases k,
{
    if k == 0 {
        Seq::empty()
    } else {
        dirichlet_prefix(tags, nodes, (k - 1) as nat) + node_dofs(
            tags,
            nodes[k - 1]@,
            k - 1,
            tags.len(),
        )
    }
}

/// Essential (zero-displacement) degrees of freedom: for every node in order,
/// and for every fixed-plane tag in order, the three components `3·nd + c` of
/// each node lying on the tagged plane. `node_planes[nd]` says whether node
/// `nd` lies on `x_min, x_max, y_min, y_max, z_min, z_max` of the mesh's
/// bounding box. Unknown tags are ignored; a node on several fixed planes is
/// listed once per plane.
pub fn dirichlet_dofs(fixed_planes: &Vec<String>, node_planes: &Vec<[bool; 6]>) -> (out: Vec<usize>)
    requires
        3 * node_planes@.len() <= usize::MAX,
    ensures
        out@ == dirichlet_prefix(fixed_planes@, node_planes@, node_planes@.len()),
{
    let mut out: Vec<usize> = Vec::new();
    let n = node_planes.len();
    let mut nd: usize = 0;
    while nd < n
        invariant
            n == node_planes@.len(),
            3 * n <= usize::MAX,
            nd <= n,
            out@ == dirichlet_prefix(fixed_planes@, node_planes@, nd as nat),
        decreases n - nd,
    {
        let flags = &node_planes[nd];
        let ghost node_start = out@;
        let mut t: usize = 0;
        while t < fixed_planes.len()
            invariant
                n == node_planes@.len(),
                3 * n <= usize::MAX,
                nd < n,
                *flags == node_planes@[nd as int],
                t <= fixed_planes@.len(),
                node_start == dirichlet_prefix(fixed_planes@, node_planes@, nd as nat),
                out@ == node_start + node_dofs(fixed_planes@, flags@, nd as int, t as nat),
            decreases fixed_planes@.len() - t,
        {
            let ghost before = out@;
            if let Some((axis, is_max)) = plane_axis(&fixed_planes[t]) {
                let slot = 2 * axis + if is_max {
                    1
                } else {
                    0
                };
                if flags[slot] {
                    out.push(nd * 3);
                    out.push(nd * 3 + 1);
                    out.push(nd * 3 + 2);
                }
            }
            proof {
                assert(out@ =~= before + tag_dofs(fixed_planes@[t as int]@, flags@, nd as int));
                assert(node_start + node_dofs(fixed_planes@, flags@, nd as int, (t + 1) as nat)
                    =~= node_start + node_dofs(fixed_planes@, flags@, nd as int, t as nat)
                    + tag_dofs(fixed_planes@[t as int]@, flags@, nd as int));
            }
            t = t + 1;
        }
        nd = nd + 1;
    }
    out
}

/// Whether one of `tags` names a plane that the node with plane membership
/// `on_plane` lies on.
pub open spec fn node_is_fixed(tags: Seq<String>, on_plane: Seq<bool>) -> bool {
    exists|t: int| 0 <= t < tags.len() && #[trigger] tag_fixes(tags[t]@, on_plane)
}

/// Whether `tag` names a plane that the node with plane membership `on_plane`
/// lies on.
pub open spec fn tag_fixes(tag: Seq<char>, on_plane: Seq<bool>) -> bool {
    match plane_axis_spec(tag) {
        Some((axis, is_max)) => on_plane[plane_slot(axis, is_max)],
        None => false,
    }
}

proof fn lemma_tag_dofs_contains(tag: Seq<char>, on_plane: Seq<bool>, nd: int, d: usize)
    requires
        0 <= nd,
        3 * nd + 2 <= usize::MAX,
    ensures
        tag_dofs(tag, on_plane, nd).contains(d) <==> (tag_fixes(tag, on_plane) && d / 3 == nd),
{
    let s = tag_dofs(tag, on_plane, nd);
    if tag_fixes(tag, on_plane) {
        assert(s.len() == 3);
        assert(s[0] == (3 * nd) as usize && s[1] == (3 * nd + 1) as usize && s[2] == (3 * nd
            + 2) as usize);
        if d / 3 == nd {
            let c = d - 3 * nd;
            assert(0 <= c < 3);
            assert(s[c] == d);
        }
        if s.contains(d) {
            let k = choose|k: int| 0 <= k < s.len() && s[k] == d;
            assert(d / 3 == nd);
        }
    } else {
        assert(s.len() == 0);
    }
}

proof fn lemma_node_dofs_contains(tags: Seq<String>, on_plane: Seq<bool>, nd: int, t: nat, d: usize)
    requires
        0 <= nd,
        3 * nd + 2 <= usize::MAX,
        t <= tags.len(),
    ensures
        node_dofs(tags, on_plane, nd, t).contains(d) <==> (d / 3 == nd && exists|u: int|
            0 <= u < t && #[trigger] tag_fixes(tags[u]@, on_plane)),
    decreases t,
{
    if t > 0 {
        lemma_node_dofs_contains(tags, on_plane, nd, (t - 1) as nat, d);
        lemma_tag_dofs_contains(tags[t - 1]@, on_plane, nd, d);
        vstd::seq_lib::lemma_seq_concat_contains_all_elements(
            node_dofs(tags, on_plane, nd, (t - 1) as nat),
            tag_dofs(tags[t - 1]@, on_plane, nd),
            d,
        );
        if exists|u: int| 0 <= u < t && #[trigger] tag_fixes(tags[u]@, on_plane) {
            let u = choose|u: int| 0 <= u < t && #[trigger] tag_fixes(tags[u]@, on_plane);
            if u < t - 1 {
                assert(exists|u2: int| 0 <= u2 < t - 1 && #[trigger] tag_fixes(tags[u2]@, on_plane));
            }
        }
        if tag_fixes(tags[t - 1]@, on_plane) {
            assert(exists|u: int| 0 <= u < t && #[trigger] tag_fixes(tags[u]@, on_plane));
        }
    }
}

proof fn lemma_dirichlet_prefix_contains(tags: Seq<String>, nodes: Seq<[bool; 6]>, k: nat, d: usize)
    requires
        k <= nodes.len(),
        3 * nodes.len() <= usize::MAX,
    ensures
        dirichlet_prefix(tags, nodes, k).contains(d) <==> (d / 3 < k && node_is_fixed(
            tags,
            nodes[(d / 3) as int]@,
        )),
    decreases k,
{
    if k > 0 {
        lemma_dirichlet_prefix_contains(tags, nodes, (k - 1) as nat, d);
        lemma_node_dofs_contains(tags, nodes[k - 1]@, k - 1, tags.len(), d);
        vstd::seq_lib::lemma_seq_concat_contains_all_elements(
            dirichlet_prefix(tags, nodes, (k - 1) as nat),
            node_dofs(tags, nodes[k - 1]@, k - 1, tags.len()),
            d,
        );
    }
}

/// Law: a degree of freedom is constrained exactly when it belongs to a mesh
/// node lying on one of the fixed planes — and then all three displacement
/// components of that node are constrained.
pub proof fn lemma_dirichlet_dofs_exact(tags: Seq<String>, nodes: Seq<[bool; 6]>, d: usize)
    requires
        3 * nodes.len() <= usize::MAX,
    ensures
        dirichlet_prefix(tags, nodes, nodes.len()).contains(d) <==> (d / 3 < nodes.len()
            && node_is_fixed(tags, nodes[(d / 3) as int]@)),
{
    lemma_dirichlet_prefix_contains(tags, nodes, nodes.len(), d);
}

/// Position of the membership flag that boundary tag `tag` reads in a node's
/// plane row, whose flags are in the order `x_min, x_max, y_min, y_max,
/// z_min, z_max`; `None` for a tag that names no plane.
pub open spec fn plane_flag_index(tag: Seq<char>) -> Option<int> {
    if tag == "x_min"@ {
        Some(0int)
    } else if tag == "x_max"@ {
        Some(1int)
    } else if tag == "y_min"@ {
        Some(2int)
    } else if tag == "y_max"@ {
        Some(3int)
    } else if tag == "z_min"@ {
        Some(4int)
    } else if tag == "z_max"@ {
        Some(5int)
    } else {
        None
    }
}

/// Whether tag `tag` selects a node whose plane row is `row`: the tag names a
/// plane and the row's flag for that plane is set.
pub open spec fn tag_selects(tag: Seq<char>, row: Seq<bool>) -> bool {
    match plane_flag_index(tag) {
        Some(s) => row[s],
        None => false,
    }
}

/// Law: degree of freedom `d` is constrained exactly when its node `d / 3`
/// exists and one of the tags names a plane whose flag is set in that node's
/// row, the flags read in the order `x_min, x_max, y_min, y_max, z_min,
/// z_max` (so `z_min` reads flag `4` and `z_max` flag `5`).
pub proof fn lemma_dirichlet_dofs_by_flag(tags: Seq<String>, nodes: Seq<[bool; 6]>, d: usize)
    requires
        3 * nodes.len() <= usize::MAX,
    ensures
        dirichlet_prefix(tags, nodes, nodes.len()).contains(d) <==> (d / 3 < nodes.len()
            && exists|t: int|
            0 <= t < tags.len() && #[trigger] tag_selects(tags[t]@, nodes[(d / 3) as int]@)),
{
    lemma_dirichlet_dofs_exact(tags, nodes, d);
    if d / 3 < nodes.len() {
        let row = nodes[(d / 3) as int]@;
        assert forall|t: int| 0 <= t < tags.len() implies #[trigger] tag_fixes(tags[t]@, row)
            == tag_selects(tags[t]@, row) by {}
        if node_is_fixed(tags, row) {
            let t = choose|t: int| 0 <= t < tags.len() && #[trigger] tag_fixes(tags[t]@, row);
            assert(tag_selects(tags[t]@, row));
        }
        if exists|t: int| 0 <= t < tags.len() && #[trigger] tag_selects(tags[t]@, row) {
            let t = choose|t: int| 0 <= t < tags.len() && #[trigger] tag_selects(tags[t]@, row);
            assert(tag_fixes(tags[t]@, row));
        }
    }
}

/// Law: parsing a tag agrees with its flag position: a tag names a plane
/// exactly when it has a flag, and the plane is axis `flag / 2`, on the
/// maximum side exactly when the flag is odd (`x_min` → `(0, min)`, …,
/// `z_max` → `(2, max)`).
pub proof fn lemma_plane_axis_flag(tag: Seq<char>)
    ensures
        plane_axis_spec(tag) is Some <==> plane_flag_index(tag) is Some,
        plane_flag_index(tag) is Some ==> plane_axis_spec(tag) == Some(
            ((plane_flag_index(tag)->0 / 2) as usize, plane_flag_index(tag)->0 % 2 == 1),
        ),
{
}

/// How many of the first `t` tags select a node whose plane row is `row`.
pub open spec fn selecting_tags(tags: Seq<String>, row: Seq<bool>, t: nat) -> nat
    decreases t,
{
    if t == 0 {
        0
    } else {
        selecting_tags(tags, row, (t - 1) as nat) + if tag_selects(tags[t - 1]@, row) {
            1nat
        } else {
            0nat
        }
    }
}

proof fn lemma_tag_dofs_count(tag: Seq<char>, row: Seq<bool>, nd: int, d: usize)
    requires
        0 <= nd,
        3 * nd + 2 <= usize::MAX,
    ensures
        tag_dofs(tag, row, nd).to_multiset().count(d) == (if tag_selects(tag, row) && d / 3 == nd {
            1nat
        } else {
            0nat
        }),
{
    broadcast use vstd::multiset::group_multiset_axioms;
    broadcast use vstd::seq_lib::to_multiset_build;

    let s = tag_dofs(tag, row, nd);
    assert(tag_fixes(tag, row) == tag_selects(tag, row));
    if tag_fixes(tag, row) {
        let (a, b, c) = ((3 * nd) as usize, (3 * nd + 1) as usize, (3 * nd + 2) as usize);
        assert(s =~= Seq::<usize>::empty().push(a).push(b).push(c));
        vstd::seq_lib::to_multiset_contains(Seq::<usize>::empty(), d);
        assert(s.to_multiset().count(d) == (if d == a { 1nat } else { 0nat }) + (if d == b {
            1nat
        } else {
            0nat
        }) + (if d == c { 1nat } else { 0nat }));
    } else {
        assert(s =~= Seq::<usize>::empty());
        vstd::seq_lib::to_multiset_contains(s, d);
    }
}

proof fn lemma_node_dofs_count(tags: Seq<String>, row: Seq<bool>, nd: int, t: nat, d: usize)
    requires
        0 <= nd,
        3 * nd + 2 <= usize::MAX,
        t <= tags.len(),
    ensures
        node_dofs(tags, row, nd, t).to_multiset().count(d) == (if d / 3 == nd {
            selecting_tags(tags, row, t)
        } else {
            0nat
        }),
    decreases t,
{
    broadcast use vstd::multiset::group_multiset_axioms;

    if t == 0 {
        vstd::seq_lib::to_multiset_contains(node_dofs(tags, row, nd, t), d);
    } else {
        lemma_node_dofs_count(tags, row, nd, (t - 1) as nat, d);
        lemma_tag_dofs_count(tags[t - 1]@, row, nd, d);
        vstd::seq_lib::lemma_multiset_commutative(
            node_dofs(tags, row, nd, (t - 1) as nat),
            tag_dofs(tags[t - 1]@, row, nd),
        );
    }
}

proof fn lemma_dirichlet_prefix_count(tags: Seq<String>, nodes: Seq<[bool; 6]>, k: nat, d: usize)
    requires
        k <= nodes.len(),
        3 * nodes.len() <= usize::MAX,
    ensures
        dirichlet_prefix(tags, nodes, k).to_multiset().count(d) == (if d / 3 < k {
            selecting_tags(tags, nodes[(d / 3) as int]@, tags.len())
        } else {
            0nat
        }),
    decreases k,
{
    broadcast use vstd::multiset::group_multiset_axioms;

    if k == 0 {
        vstd::seq_lib::to_multiset_contains(dirichlet_prefix(tags, nodes, k), d);
    } else {
        lemma_dirichlet_prefix_count(tags, nodes, (k - 1) as nat, d);
        lemma_node_dofs_count(tags, nodes[k - 1]@, k - 1, tags.len(), d);
        vstd::seq_lib::lemma_multiset_commutative(
            dirichlet_prefix(tags, nodes, (k - 1) as nat),
            node_dofs(tags, nodes[k - 1]@, k - 1, tags.len()),
        );
    }
}

/// Law: each degree of freedom `d` of an existing node `d / 3` is listed
/// exactly as many times as there are tags selecting that node (one entry per
/// fixed plane the node lies on, by the flag order `x_min, x_max, y_min,
/// y_max, z_min, z_max`); a degree of freedom past the last node is never
/// listed.
pub proof fn lemma_dirichlet_dofs_multiplicity(tags: Seq<String>, nodes: Seq<[bool; 6]>, d: usize)
    requires
        3 * nodes.len() <= usize::MAX,
    ensures
        dirichlet_prefix(tags, nodes, nodes.len()).to_multiset().count(d) == (if d / 3
            < nodes.len() {
            selecting_tags(tags, nodes[(d / 3) as int]@, tags.len())
        } else {
            0nat
        }),
{
    lemma_dirichlet_prefix_count(tags, nodes, nodes.len(), d);
}

/// Whether `i` is the first position of `names` holding `name`.
pub open spec fn is_first_match(names: Seq<String>, name: Seq<char>, i: int) -> bool {
    &&& 0 <= i < names.len()
    &&& names[i]@ == name
    &&& forall|k: int| 0 <= k < i ==> (#[trigger] names[k])@ != name
}

/// Whether no entry of `names` holds `name`.
pub open spec fn has_no_match(names: Seq<String>, name: Seq<char>) -> bool {
    forall|k: int| 0 <= k < names.len() ==> (#[trigger] names[k])@ != name
}

/// Position of the first material called `name` in a registry listing.
pub fn find_material(names: &Vec<String>, name: &String) -> (r: Option<usize>)
    ensures
        match r {
            Some(i) => is_first_match(names@, name@, i as int),
            None => has_no_match(names@, name@),
        },
{
    let mut i: usize = 0;
    while i < names.len()
        invariant
            i <= names@.len(),
            forall|k: int| 0 <= k < i ==> (#[trigger] names@[k])@ != name@,
        decreases names@.len() - i,
    {
        if names[i] == *name {
            return Some(i);
        }
        i = i + 1;
    }
    None
}

/// Where a material given by name was found.
#[derive(Debug, Clone, Copy, PartialEq, Eq, Structural)]
pub enum MaterialSource {
    /// Position in the registry embedded in the problem description.
    Embedded(usize),
    /// Position in the externally supplied registry.
    External(usize),
}

/// Resolve a material given by name: the embedded registry (if any) takes
/// precedence, then the external one; the first entry with that name is
/// used. Fails with [`SpecError::MaterialNotFound`] naming it when neither
/// registry has it.
pub fn resolve_material_name(
    name: &String,
    embedded: Option<&Vec<String>>,
    external: &Vec<String>,
) -> (r: Result<MaterialSource, SpecError>)
    ensures
        match r {
            Ok(MaterialSource::Embedded(i)) => embedded is Some && is_first_match(
                embedded.unwrap()@,
                name@,
                i as int,
            ),
            Ok(MaterialSource::External(i)) => (embedded is None || has_no_match(
                embedded.unwrap()@,
                name@,
            )) && is_first_match(external@, name@, i as int),
            Err(e) => (embedded is None || has_no_match(embedded.unwrap()@, name@)) && has_no_match(
                external@,
                name@,
            ) && e is MaterialNotFound && e->MaterialNotFound_0@ == name@,
        },
{
    if let Some(reg) = embedded {
        if let Some(i) = find_material(reg, name) {
            return Ok(MaterialSource::Embedded(i));
        }
    }
    match find_material(external, name) {
        Some(i) => Ok(MaterialSource::External(i)),
        None => Err(SpecError::MaterialNotFound(name.clone())),
    }
}

} // verus!
