//! Structured 2-D grids and the index logic of a two-level geometric multigrid
//! for the 5-point Laplacian.
use vstd::prelude::*;
use vstd::arithmetic::div_mod::lemma_fundamental_div_mod_converse;

verus! {

/// A structured 2-D grid with `nx × ny` nodes, indexed `j*nx + i`.
#[derive(Debug, Clone, Copy)]
pub struct Grid2D {
    /// Number of nodes in `x`.
    pub nx: usize,
    /// Number of nodes in `y`.
    pub ny: usize,
}

impl Grid2D {
    /// Total number of nodes, as a mathematical integer.
    pub open spec fn node_count(self) -> int {
        self.nx * self.ny
    }

    /// Linear index of node `(i, j)`, as a mathematical integer.
    pub open spec fn index_of(self, i: int, j: int) -> int {
        j * self.nx + i
    }

    /// The grid with the given node counts.
    pub open spec fn new_spec(nx: usize, ny: usize) -> Self {
        Grid2D { nx, ny }
    }

    /// Build a grid.
    pub fn new(nx: usize, ny: usize) -> (g: Self)
        ensures
            g == Self::new_spec(nx, ny),
    {
        Grid2D { nx, ny }
    }

    /// Linear index of node `(i, j)`.
    pub fn idx(&self, i: usize, j: usize) -> (r: usize)
        requires
            self.index_of(i as int, j as int) <= usize::MAX,
        ensures
            r == self.index_of(i as int, j as int),
    {
        assert(j * self.nx <= usize::MAX) by (nonlinear_arith)
            requires
                j * self.nx + i <= usize::MAX,
                0 <= i,
        ;
        j * self.nx + i
    }

    /// Total node count.
    pub fn len(&self) -> (r: usize)
        requires
            self.node_count() <= usize::MAX,
        ensures
            r == self.node_count(),
    {
        self.nx * self.ny
    }

    /// `true` when the grid has no nodes.
    pub fn is_empty(&self) -> (r: bool)
        ensures
            r == (self.node_count() == 0),
    {
        assert((self.nx * self.ny == 0) == (self.nx == 0 || self.ny == 0)) by (nonlinear_arith);
        self.nx == 0 || self.ny == 0
    }

    /// The stencil rows contributed by node `k` (row-major, `k = j*nx + i`) to
    /// the 5-point Laplacian of `-Δ` with unit spacing: the centre weight `4`,
    /// then `-1` for the west, east, south and north neighbours that exist.
    #[verifier::opaque]
    pub open spec fn node_stencil(self, k: int) -> Seq<(usize, usize, i8)> {
        let i = k % (self.nx as int);
        let j = k / (self.nx as int);
        seq![(k as usize, k as usize, 4i8)] + (if i > 0 {
            seq![(k as usize, (k - 1) as usize, -1i8)]
        } else {
            Seq::empty()
        }) + (if i + 1 < self.nx {
            seq![(k as usize, (k + 1) as usize, -1i8)]
        } else {
            Seq::empty()
        }) + (if j > 0 {
            seq![(k as usize, (k - self.nx) as usize, -1i8)]
        } else {
            Seq::empty()
        }) + (if j + 1 < self.ny {
            seq![(k as usize, (k + self.nx) as usize, -1i8)]
        } else {
            Seq::empty()
        })
    }

    /// The stencil entries of the first `k` nodes, in node order.
    pub open spec fn laplacian_prefix(self, k: nat) -> Seq<(usize, usize, i8)>
        decreases k,
    {
        if k == 0 {
            Seq::empty()
        } else {
            self.laplacian_prefix((k - 1) as nat) + self.node_stencil(k - 1)
        }
    }

    /// All entries `(row, col, weight)` of the assembled 5-point Laplacian.
    pub open spec fn laplacian(self) -> Seq<(usize, usize, i8)> {
        self.laplacian_prefix(self.node_count() as nat)
    }

    /// Append the stencil row of node `(i, j)` to `out`.
    fn push_node_stencil(&self, out: &mut Vec<(usize, usize, i8)>, i: usize, j: usize)
        requires
            i < self.nx,
            j < self.ny,
            self.node_count() <= usize::MAX,
        ensures
            final(out)@ == old(out)@ + self.node_stencil(self.index_of(i as int, j as int)),
    {
        proof {
            lemma_node_position(self.nx as int, self.ny as int, i as int, j as int);
        }
        let nx = self.nx;
        let r = j * nx + i;
        let ghost before = out@;
        out.push((r, r, 4i8));
        if i > 0 {
            out.push((r, r - 1, -1i8));
        }
        if i + 1 < nx {
            out.push((r, r + 1, -1i8));
        }
        if j > 0 {
            out.push((r, r - nx, -1i8));
        }
        if j + 1 < self.ny {
            out.push((r, r + nx, -1i8));
        }
        proof {
            reveal(Grid2D::node_stencil);
            assert(out@ =~= before + self.node_stencil(r as int));
        }
    }

    /// Assemble the standard 5-point Laplacian `A` for the operator `-Δ` with
    /// unit spacing, as `(row, col, weight)` triplets in row order (the
    /// interior stencil `4·centre − neighbours`). Boundary rows are left as the
    /// stencil sees them; callers pin Dirichlet rows as needed.
    pub fn laplacian_entries(&self) -> (out: Vec<(usize, usize, i8)>)
        requires
            self.node_count() <= usize::MAX,
        ensures
            out@ == self.laplacian(),
    {
        let nx = self.nx;
        let ny = self.ny;
        let mut out: Vec<(usize, usize, i8)> = Vec::new();
        let mut j: usize = 0;
        while j < ny
            invariant
                nx == self.nx,
                ny == self.ny,
                self.node_count() <= usize::MAX,
                j <= ny,
                out@ == self.laplacian_prefix((j * nx) as nat),
            decreases ny - j,
        {
            let mut i: usize = 0;
            while i < nx
                invariant
                    nx == self.nx,
                    ny == self.ny,
                    self.node_count() <= usize::MAX,
                    j < ny,
                    i <= nx,
                    out@ == self.laplacian_prefix((j * nx + i) as nat),
                decreases nx - i,
            {
                self.push_node_stencil(&mut out, i, j);
                i = i + 1;
            }
            proof {
                assert((j + 1) * nx == j * nx + nx) by (nonlinear_arith);
            }
            j = j + 1;
        }
        proof {
            assert(j * nx == nx * ny) by (nonlinear_arith)
                requires
                    j == ny,
            ;
        }
        out
    }
}

/// Law: row-major indexing is a bijection between grid positions and
/// `0..nx·ny` — `idx(i, j)` lies in range and `i`, `j` are recovered from it as
/// remainder and quotient by `nx`.
pub proof fn lemma_index_roundtrip(g: Grid2D, i: int, j: int)
    requires
        0 <= i < g.nx,
        0 <= j < g.ny,
    ensures
        0 <= g.index_of(i, j) < g.node_count(),
        g.index_of(i, j) % (g.nx as int) == i,
        g.index_of(i, j) / (g.nx as int) == j,
{
    lemma_node_position(g.nx as int, g.ny as int, i, j);
}

/// Whether distinct nodes `a` and `b` of grid `g` are 4-neighbours: same row
/// and adjacent columns, or same column and adjacent rows.
pub open spec fn grid_adjacent(g: Grid2D, a: int, b: int) -> bool {
    let nx = g.nx as int;
    let (ia, ja) = (a % nx, a / nx);
    let (ib, jb) = (b % nx, b / nx);
    &&& 0 <= a < g.node_count()
    &&& 0 <= b < g.node_count()
    &&& {
        ||| ja == jb && (ib == ia + 1 || ia == ib + 1)
        ||| ia == ib && (jb == ja + 1 || ja == jb + 1)
    }
}

/// Whether `(r, c, w)` is an entry of the 5-point Laplacian of `g`: a
/// diagonal entry `4` for every node, and `-1` for every pair of 4-neighbours.
pub open spec fn is_laplacian_entry(g: Grid2D, r: int, c: int, w: int) -> bool {
    ||| 0 <= r < g.node_count() && c == r && w == 4
    ||| grid_adjacent(g, r, c) && w == -1
}

/// An entry lies in the first `k` node blocks exactly when one of those
/// blocks holds it.
proof fn lemma_prefix_contains(g: Grid2D, k: nat, e: (usize, usize, i8))
    ensures
        g.laplacian_prefix(k).contains(e) <==> exists|m: int|
            0 <= m < k && #[trigger] g.node_stencil(m).contains(e),
    decreases k,
{
    if k > 0 {
        lemma_prefix_contains(g, (k - 1) as nat, e);
        vstd::seq_lib::lemma_seq_concat_contains_all_elements(
            g.laplacian_prefix((k - 1) as nat),
            g.node_stencil(k - 1),
            e,
        );
        if g.node_stencil(k - 1).contains(e) {
            assert(exists|m: int| 0 <= m < k && #[trigger] g.node_stencil(m).contains(e));
        }
        if exists|m: int| 0 <= m < k && #[trigger] g.node_stencil(m).contains(e) {
            let m = choose|m: int| 0 <= m < k && #[trigger] g.node_stencil(m).contains(e);
            if m < k - 1 {
                assert(exists|m2: int| 0 <= m2 < k - 1 && #[trigger] g.node_stencil(m2).contains(e));
            }
        }
    }
}

/// Membership in the stencil block of node `k = j*nx + i`.
proof fn lemma_node_stencil_members(g: Grid2D, i: int, j: int, e: (usize, usize, i8))
    requires
        0 <= i < g.nx,
        0 <= j < g.ny,
        g.node_count() <= usize::MAX,
    ensures
        g.node_stencil(j * g.nx + i).contains(e) <==> {
            let k = j * g.nx + i;
            let c = e.1 as int;
            &&& e.0 as int == k
            &&& {
                ||| c == k && e.2 == 4
                ||| e.2 == -1 && i > 0 && c == k - 1
                ||| e.2 == -1 && i + 1 < g.nx && c == k + 1
                ||| e.2 == -1 && j > 0 && c == k - g.nx
                ||| e.2 == -1 && j + 1 < g.ny && c == k + g.nx
            }
        },
{
    reveal(Grid2D::node_stencil);
    broadcast use vstd::seq_lib::lemma_seq_concat_contains_all_elements;

    lemma_node_position(g.nx as int, g.ny as int, i, j);
    let k = j * g.nx + i;
    assert(seq![(k as usize, k as usize, 4i8)].contains(e) <==> e == (k as usize, k as usize, 4i8)) by {
        if seq![(k as usize, k as usize, 4i8)].contains(e) {
            assert(seq![(k as usize, k as usize, 4i8)][0] == (k as usize, k as usize, 4i8));
        } else {
            assert(seq![(k as usize, k as usize, 4i8)][0] == (k as usize, k as usize, 4i8));
        }
    }
    if i > 0 {
        let x = (k as usize, (k - 1) as usize, -1i8);
        assert(seq![x][0] == x);
    }
    if i + 1 < g.nx {
        let x = (k as usize, (k + 1) as usize, -1i8);
        assert(seq![x][0] == x);
    }
    if j > 0 {
        let x = (k as usize, (k - g.nx) as usize, -1i8);
        assert(seq![x][0] == x);
    }
    if j + 1 < g.ny {
        let x = (k as usize, (k + g.nx) as usize, -1i8);
        assert(seq![x][0] == x);
    }
}

/// Decompose a node index into its grid position.
proof fn lemma_node_split(g: Grid2D, k: int) -> (ij: (int, int))
    requires
        0 <= k < g.node_count(),
    ensures
        0 <= ij.0 < g.nx,
        0 <= ij.1 < g.ny,
        k == ij.1 * g.nx + ij.0,
        ij.0 == k % (g.nx as int),
        ij.1 == k / (g.nx as int),
{
    let nx = g.nx as int;
    let ny = g.ny as int;
    assert(nx > 0) by (nonlinear_arith)
        requires
            0 <= k < nx * ny,
            ny >= 0,
            nx >= 0,
    ;
    let i = k % nx;
    let j = k / nx;
    vstd::arithmetic::div_mod::lemma_fundamental_div_mod(k, nx);
    assert(0 <= j < ny) by (nonlinear_arith)
        requires
            k == nx * j + i,
            0 <= i < nx,
            0 <= k < nx * ny,
            nx > 0,
    ;
    assert(k == j * nx + i) by (nonlinear_arith)
        requires
            k == nx * j + i,
    ;
    (i, j)
}

/// One direction of the exact description: every assembled entry is a
/// diagonal `4` or a neighbour coupling `-1`.
proof fn lemma_laplacian_entry_sound(g: Grid2D, e: (usize, usize, i8))
    requires
        g.node_count() <= usize::MAX,
        g.laplacian().contains(e),
    ensures
        is_laplacian_entry(g, e.0 as int, e.1 as int, e.2 as int),
{
    let n = g.node_count();
    let nx = g.nx as int;
    let ny = g.ny as int;
    lemma_prefix_contains(g, n as nat, e);
    let k = choose|m: int| 0 <= m < n && #[trigger] g.node_stencil(m).contains(e);
    let (i, j) = lemma_node_split(g, k);
    lemma_node_stencil_members(g, i, j, e);
    let c = e.1 as int;
    if c == k - 1 && i > 0 && e.2 == -1 {
        lemma_node_position(nx, ny, i - 1, j);
    } else if c == k + 1 && i + 1 < nx && e.2 == -1 {
        lemma_node_position(nx, ny, i + 1, j);
    } else if c == k - nx && j > 0 && e.2 == -1 {
        lemma_node_position(nx, ny, i, j - 1);
        assert((j - 1) * nx + i == k - nx) by (nonlinear_arith)
            requires
                k == j * nx + i,
        ;
    } else if c == k + nx && j + 1 < ny && e.2 == -1 {
        lemma_node_position(nx, ny, i, j + 1);
        assert((j + 1) * nx + i == k + nx) by (nonlinear_arith)
            requires
                k == j * nx + i,
        ;
    }
}

/// The other direction: every diagonal and neighbour coupling is assembled.
proof fn lemma_laplacian_entry_complete(g: Grid2D, e: (usize, usize, i8))
    requires
        g.node_count() <= usize::MAX,
        is_laplacian_entry(g, e.0 as int, e.1 as int, e.2 as int),
    ensures
        g.laplacian().contains(e),
{
    let n = g.node_count();
    let nx = g.nx as int;
    let ny = g.ny as int;
    let k = e.0 as int;
    let (i, j) = lemma_node_split(g, k);
    lemma_node_position(nx, ny, i, j);
    let cc = e.1 as int;
    if cc != k {
        let (ic, jc) = lemma_node_split(g, cc);
        if jc == j + 1 {
            assert(cc == k + nx) by (nonlinear_arith)
                requires
                    cc == jc * nx + ic,
                    jc == j + 1,
                    ic == i,
                    k == j * nx + i,
            ;
        } else if j == jc + 1 {
            assert(cc == k - nx) by (nonlinear_arith)
                requires
                    cc == jc * nx + ic,
                    j == jc + 1,
                    ic == i,
                    k == j * nx + i,
            ;
        } else {
            assert(jc == j);
        }
    }
    lemma_node_stencil_members(g, i, j, e);
    assert(g.node_stencil(k).contains(e));
    lemma_prefix_contains(g, n as nat, e);
}

/// Law: the assembled 5-point Laplacian holds exactly the diagonal `4` of every
/// node and a `-1` for every ordered pair of 4-neighbours, and nothing else.
pub proof fn lemma_laplacian_entries_exact(g: Grid2D, r: usize, c: usize, w: i8)
    requires
        g.node_count() <= usize::MAX,
    ensures
        g.laplacian().contains((r, c, w)) <==> is_laplacian_entry(g, r as int, c as int, w as int),
{
    if g.laplacian().contains((r, c, w)) {
        lemma_laplacian_entry_sound(g, (r, c, w));
    }
    if is_laplacian_entry(g, r as int, c as int, w as int) {
        lemma_laplacian_entry_complete(g, (r, c, w));
    }
}

/// No two entries of `s` share a `(row, column)` position, and rows never
/// decrease along `s`.
pub open spec fn row_ordered_without_repeats(s: Seq<(usize, usize, i8)>) -> bool {
    forall|a: int, b: int|
        0 <= a < b < s.len() ==> (s[a].0 < s[b].0 || (s[a].0 == s[b].0 && s[a].1 != s[b].1))
}

/// The stencil block of node `k = j*nx + i` lies in row `k` and names each
/// column once.
#[verifier::spinoff_prover]
#[verifier::rlimit(50)]
proof fn lemma_node_stencil_distinct(g: Grid2D, i: int, j: int)
    requires
        0 <= i < g.nx,
        0 <= j < g.ny,
        g.node_count() <= usize::MAX,
    ensures
        forall|x: int|
            0 <= x < g.node_stencil(j * g.nx + i).len() ==> (#[trigger] g.node_stencil(
                j * g.nx + i,
            )[x]).0 == j * g.nx + i,
        row_ordered_without_repeats(g.node_stencil(j * g.nx + i)),
{
    reveal(Grid2D::node_stencil);
    lemma_node_position(g.nx as int, g.ny as int, i, j);
    let k = j * g.nx + i;
    let nx = g.nx as int;
    let s0 = seq![(k as usize, k as usize, 4i8)];
    let s1 = if i > 0 { seq![(k as usize, (k - 1) as usize, -1i8)] } else { Seq::empty() };
    let s2 = if i + 1 < nx { seq![(k as usize, (k + 1) as usize, -1i8)] } else { Seq::empty() };
    let s3 = if j > 0 { seq![(k as usize, (k - nx) as usize, -1i8)] } else { Seq::empty() };
    let s4 = if j + 1 < g.ny { seq![(k as usize, (k + nx) as usize, -1i8)] } else { Seq::empty() };
    let cols = s0 + s1 + s2 + s3 + s4;
    assert(g.node_stencil(k) == cols);
    // Columns in block order: the centre, then west, east, south, north.
    let c = Seq::<int>::empty().push(k) + (if i > 0 { seq![k - 1] } else { Seq::empty() }) + (
    if i + 1 < nx { seq![k + 1] } else { Seq::empty() }) + (if j > 0 { seq![k - nx] } else {
        Seq::empty()
    }) + (if j + 1 < g.ny { seq![k + nx] } else { Seq::empty() });
    assert(cols.len() == c.len());
    assert forall|x: int| 0 <= x < cols.len() implies cols[x].0 == k && cols[x].1 == c[x] by {}
    assert(nx == 1 ==> i == 0);
    assert forall|a: int, b: int| 0 <= a < b < c.len() implies c[a] != c[b] by {}
    assert forall|a: int, b: int| 0 <= a < b < cols.len() implies (cols[a].0 < cols[b].0 || (
    cols[a].0 == cols[b].0 && cols[a].1 != cols[b].1)) by {
        assert(cols[a].1 == c[a] && cols[b].1 == c[b]);
    }
}

/// The first `k` node blocks: rows below `k`, ordered, without repeats.
proof fn lemma_prefix_ordered(g: Grid2D, k: nat)
    requires
        k <= g.node_count(),
        g.node_count() <= usize::MAX,
    ensures
        forall|x: int|
            0 <= x < g.laplacian_prefix(k).len() ==> (#[trigger] g.laplacian_prefix(k)[x]).0 < k,
        row_ordered_without_repeats(g.laplacian_prefix(k)),
    decreases k,
{
    if k > 0 {
        let m = (k - 1) as int;
        lemma_prefix_ordered(g, (k - 1) as nat);
        let (i, j) = lemma_node_split(g, m);
        lemma_node_stencil_distinct(g, i, j);
        let a = g.laplacian_prefix((k - 1) as nat);
        let b = g.node_stencil(m);
        let s = a + b;
        assert(g.laplacian_prefix(k) == s);
        assert forall|x: int| 0 <= x < s.len() implies (#[trigger] s[x]).0 < k by {
            if x >= a.len() {
                assert(s[x] == b[x - a.len()]);
            }
        }
        assert forall|x: int, y: int| 0 <= x < y < s.len() implies (s[x].0 < s[y].0 || (s[x].0
            == s[y].0 && s[x].1 != s[y].1)) by {
            if y < a.len() {
                assert(s[x] == a[x] && s[y] == a[y]);
            } else if x < a.len() {
                assert(s[x] == a[x] && s[y] == b[y - a.len()]);
            } else {
                assert(s[x] == b[x - a.len()] && s[y] == b[y - a.len()]);
            }
        }
    }
}

/// Law: the assembled Laplacian lists every `(row, column)` position at most
/// once (so summing duplicates when converting to a sparse matrix changes no
/// entry), grouped by row in increasing row order.
pub proof fn lemma_laplacian_no_repeats(g: Grid2D)
    requires
        g.node_count() <= usize::MAX,
    ensures
        row_ordered_without_repeats(g.laplacian()),
        forall|a: int, b: int|
            0 <= a < b < g.laplacian().len() ==> (g.laplacian()[a].0, g.laplacian()[a].1) != (
                g.laplacian()[b].0,
                g.laplacian()[b].1,
            ),
{
    let n = g.node_count();
    assert(n >= 0) by (nonlinear_arith)
        requires
            n == g.nx * g.ny,
    ;
    lemma_prefix_ordered(g, n as nat);
}

/// Law: the assembled Laplacian is symmetric — every coupling `(a, b, w)` has
/// its mirror `(b, a, w)`.
pub proof fn lemma_laplacian_symmetric(g: Grid2D, a: usize, b: usize, w: i8)
    requires
        g.node_count() <= usize::MAX,
        g.laplacian().contains((a, b, w)),
    ensures
        g.laplacian().contains((b, a, w)),
{
    lemma_laplacian_entries_exact(g, a, b, w);
    lemma_laplacian_entries_exact(g, b, a, w);
}

/// Position facts about node `(i, j)` of an `nx × ny` grid.
pub(crate) proof fn lemma_node_position(nx: int, ny: int, i: int, j: int)
    requires
        0 <= i < nx,
        0 <= j < ny,
    ensures
        0 <= j * nx + i < nx * ny,
        (j * nx + i) % nx == i,
        (j * nx + i) / nx == j,
        j > 0 ==> j * nx + i >= nx,
        j + 1 < ny ==> j * nx + i + nx < nx * ny,
{
    assert((j + 1) * nx <= nx * ny) by (nonlinear_arith)
        requires
            j < ny,
            0 <= j,
            0 < nx,
    ;
    assert((j + 1) * nx == j * nx + nx) by (nonlinear_arith);
    assert(j * nx >= 0) by (nonlinear_arith)
        requires
            j >= 0,
            nx > 0,
    ;
    if j > 0 {
        assert(j * nx >= nx) by (nonlinear_arith)
            requires
                j > 0,
                nx > 0,
        ;
    }
    if j + 1 < ny {
        assert((j + 2) * nx <= nx * ny) by (nonlinear_arith)
            requires
                j + 1 < ny,
                0 < nx,
        ;
        assert((j + 2) * nx == j * nx + nx + nx) by (nonlinear_arith);
    }
    lemma_fundamental_div_mod_converse(j * nx + i, nx, j, i);
}

/// Per-axis full-weighting factor of the restriction stencil: `4` on the
/// centre line, `2` one node away.
pub open spec fn axis_weight(d: int) -> int {
    if d == 0 {
        4
    } else {
        2
    }
}

/// The restriction term of fine node `(fi + di, fj + dj)`, if it lies on the
/// fine grid: its linear index and its weight numerator (over `16`).
pub open spec fn restrict_term(f: Grid2D, fi: int, fj: int, di: int, dj: int) -> Seq<(usize, u8)> {
    let wi = fi + di;
    let wj = fj + dj;
    if 0 <= wi < f.nx && 0 <= wj < f.ny {
        seq![((wj * f.nx + wi) as usize, (axis_weight(dj) * axis_weight(di)) as u8)]
    } else {
        Seq::empty()
    }
}

/// One stencil row (`dj` fixed), visiting `di = 0, -1, 1`.
pub open spec fn restrict_row(f: Grid2D, fi: int, fj: int, dj: int) -> Seq<(usize, u8)> {
    restrict_term(f, fi, fj, 0, dj) + restrict_term(f, fi, fj, -1, dj) + restrict_term(
        f,
        fi,
        fj,
        1,
        dj,
    )
}

/// Full-weighting restriction stencil of coarse node `(ii, jj)`: the fine
/// nodes around `(2·ii, 2·jj)` that exist, rows `dj = 0, -1, 1`, with weight
/// numerators over `16`.
pub open spec fn restriction_stencil(f: Grid2D, ii: int, jj: int) -> Seq<(usize, u8)> {
    restrict_row(f, 2 * ii, 2 * jj, 0) + restrict_row(f, 2 * ii, 2 * jj, -1) + restrict_row(
        f,
        2 * ii,
        2 * jj,
        1,
    )
}

/// Bilinear prolongation terms of fine node `(i, j)` from coarse grid `c`:
/// `(coarse index, weight)` for the base node and, where they exist, its east,
/// north and north-east neighbours. On the grid's parity pattern each weight
/// is `0` or `1`.
pub open spec fn prolongation_stencil(c: Grid2D, i: int, j: int) -> Seq<(usize, u8)> {
    let ci = if i / 2 < c.nx - 1 { i / 2 } else { c.nx - 1 };
    let cj = if j / 2 < c.ny - 1 { j / 2 } else { c.ny - 1 };
    let fx = i % 2;
    let fy = j % 2;
    seq![((cj * c.nx + ci) as usize, ((1 - fx) * (1 - fy)) as u8)] + (if ci + 1 < c.nx {
        seq![((cj * c.nx + ci + 1) as usize, (fx * (1 - fy)) as u8)]
    } else {
        Seq::empty()
    }) + (if cj + 1 < c.ny {
        seq![(((cj + 1) * c.nx + ci) as usize, ((1 - fx) * fy) as u8)]
    } else {
        Seq::empty()
    }) + (if ci + 1 < c.nx && cj + 1 < c.ny {
        seq![(((cj + 1) * c.nx + ci + 1) as usize, (fx * fy) as u8)]
    } else {
        Seq::empty()
    })
}

/// A two-level geometric multigrid V-cycle layout for a 2-D Laplacian: the
/// fine grid, its half-resolution coarse grid, and the smoothing sweep counts.
/// The grid-transfer operators are given as index stencils.
pub struct Multigrid {
    fine: Grid2D,
    coarse: Grid2D,
    /// Pre-smoothing sweeps.
    nu_pre: usize,
    /// Post-smoothing sweeps.
    nu_post: usize,
}

impl Multigrid {
    #[verifier::type_invariant]
    spec fn well_formed(self) -> bool {
        &&& self.fine.nx % 2 == 0
        &&& self.fine.ny % 2 == 0
        &&& self.coarse.nx == self.fine.nx / 2
        &&& self.coarse.ny == self.fine.ny / 2
        &&& self.fine.node_count() <= usize::MAX
    }

    /// The fine grid.
    pub closed spec fn fine_spec(self) -> Grid2D {
        self.fine
    }

    /// The coarse grid.
    pub closed spec fn coarse_spec(self) -> Grid2D {
        self.coarse
    }

    /// Pre-smoothing sweep count.
    pub closed spec fn nu_pre_spec(self) -> usize {
        self.nu_pre
    }

    /// Post-smoothing sweep count.
    pub closed spec fn nu_post_spec(self) -> usize {
        self.nu_post
    }

    /// Build a V-cycle layout from a fine grid. The coarse grid is the
    /// half-resolution grid. Both dimensions must be even.
    pub fn new(fine: Grid2D, nu_pre: usize, nu_post: usize) -> (m: Self)
        requires
            fine.nx % 2 == 0,
            fine.ny % 2 == 0,
            fine.node_count() <= usize::MAX,
        ensures
            m.fine_spec() == fine,
            m.coarse_spec() == Grid2D::new_spec(fine.nx / 2, fine.ny / 2),
            m.nu_pre_spec() == nu_pre,
            m.nu_post_spec() == nu_post,
    {
        let coarse = Grid2D::new(fine.nx / 2, fine.ny / 2);
        Multigrid { fine, coarse, nu_pre, nu_post }
    }

    /// The fine grid.
    pub fn fine_grid(&self) -> (g: Grid2D)
        ensures
            g == self.fine_spec(),
            g.nx % 2 == 0,
            g.ny % 2 == 0,
            g.node_count() <= usize::MAX,
    {
        proof {
            use_type_invariant(self);
        }
        self.fine
    }

    /// The coarse grid.
    pub fn coarse_grid(&self) -> (g: Grid2D)
        ensures
            g == self.coarse_spec(),
            g.nx == self.fine_spec().nx / 2,
            g.ny == self.fine_spec().ny / 2,
    {
        proof {
            use_type_invariant(self);
        }
        self.coarse
    }

    /// Pre-smoothing sweep count.
    pub fn nu_pre(&self) -> (r: usize)
        ensures
            r == self.nu_pre_spec(),
    {
        self.nu_pre
    }

    /// Post-smoothing sweep count.
    pub fn nu_post(&self) -> (r: usize)
        ensures
            r == self.nu_post_spec(),
    {
        self.nu_post
    }

    /// Full-weighting restriction stencil of coarse node `(ii, jj)`:
    /// `(fine index, weight numerator over 16)` pairs. The restricted value is
    /// the weighted average `Σ w·fine[idx] / Σ w` over these terms.
    pub fn restriction(&self, ii: usize, jj: usize) -> (out: Vec<(usize, u8)>)
        requires
            ii < self.coarse_spec().nx,
            jj < self.coarse_spec().ny,
        ensures
            out@ == restriction_stencil(self.fine_spec(), ii as int, jj as int),
    {
        proof {
            use_type_invariant(self);
        }
        let f = self.fine;
        let fi = 2 * ii;
        let fj = 2 * jj;
        let mut out: Vec<(usize, u8)> = Vec::new();
        push_restrict_term(f, &mut out, fi, fj, 0, 0);
        push_restrict_term(f, &mut out, fi, fj, -1, 0);
        push_restrict_term(f, &mut out, fi, fj, 1, 0);
        push_restrict_term(f, &mut out, fi, fj, 0, -1);
        push_restrict_term(f, &mut out, fi, fj, -1, -1);
        push_restrict_term(f, &mut out, fi, fj, 1, -1);
        push_restrict_term(f, &mut out, fi, fj, 0, 1);
        push_restrict_term(f, &mut out, fi, fj, -1, 1);
        push_restrict_term(f, &mut out, fi, fj, 1, 1);
        proof {
            assert(out@ =~= restriction_stencil(f, ii as int, jj as int));
        }
        out
    }

    /// Bilinear prolongation terms of fine node `(i, j)`:
    /// `(coarse index, weight)` pairs, each weight `0` or `1`; the coarse
    /// correction added at `(i, j)` is `Σ w·coarse[idx]`.
    pub fn prolongation(&self, i: usize, j: usize) -> (out: Vec<(usize, u8)>)
        requires
            i < self.fine_spec().nx,
            j < self.fine_spec().ny,
        ensures
            out@ == prolongation_stencil(self.coarse_spec(), i as int, j as int),
    {
        proof {
            use_type_invariant(self);
        }
        let cnx = self.coarse.nx;
        let cny = self.coarse.ny;
        let ci = if i / 2 < cnx - 1 {
            i / 2
        } else {
            cnx - 1
        };
        let cj = if j / 2 < cny - 1 {
            j / 2
        } else {
            cny - 1
        };
        let fx: u8 = if i % 2 == 1 {
            1
        } else {
            0
        };
        let fy: u8 = if j % 2 == 1 {
            1
        } else {
            0
        };
        proof {
            lemma_coarse_fits(self.fine, self.coarse);
            lemma_node_position(cnx as int, cny as int, ci as int, cj as int);
            assert(fx == i % 2 && fy == j % 2);
            assert((1 - fx) * (1 - fy) <= 1 && fx * (1 - fy) <= 1 && (1 - fx) * fy <= 1 && fx * fy
                <= 1 && 0 <= (1 - fx) * (1 - fy) && 0 <= fx * (1 - fy) && 0 <= (1 - fx) * fy && 0
                <= fx * fy) by (nonlinear_arith)
                requires
                    fx <= 1,
                    fy <= 1,
            ;
        }
        let base = cj * cnx + ci;
        let mut out: Vec<(usize, u8)> = Vec::new();
        out.push((base, (1 - fx) * (1 - fy)));
        if ci + 1 < cnx {
            out.push((base + 1, fx * (1 - fy)));
        }
        if cj + 1 < cny {
            out.push((base + cnx, (1 - fx) * fy));
        }
        if ci + 1 < cnx && cj + 1 < cny {
            out.push((base + cnx + 1, fx * fy));
        }
        proof {
            assert((cj + 1) * cnx == cj * cnx + cnx) by (nonlinear_arith);
            assert(out@ =~= prolongation_stencil(self.coarse, i as int, j as int));
        }
        out
    }
}

/// Append the restriction term of fine node `(fi + di, fj + dj)` to `out`.
fn push_restrict_term(f: Grid2D, out: &mut Vec<(usize, u8)>, fi: usize, fj: usize, di: i8, dj: i8)
    requires
        f.node_count() <= usize::MAX,
        -1 <= di <= 1,
        -1 <= dj <= 1,
        fi < f.nx,
        fj < f.ny,
    ensures
        final(out)@ == old(out)@ + restrict_term(f, fi as int, fj as int, di as int, dj as int),
{
    let wi_ok = if di < 0 {
        fi >= 1
    } else if di > 0 {
        fi + 1 < f.nx
    } else {
        true
    };
    let wj_ok = if dj < 0 {
        fj >= 1
    } else if dj > 0 {
        fj + 1 < f.ny
    } else {
        true
    };
    if wi_ok && wj_ok {
        let wi = if di < 0 {
            fi - 1
        } else if di > 0 {
            fi + 1
        } else {
            fi
        };
        let wj = if dj < 0 {
            fj - 1
        } else if dj > 0 {
            fj + 1
        } else {
            fj
        };
        let aw: u8 = if dj == 0 {
            4
        } else {
            2
        };
        let bw: u8 = if di == 0 {
            4
        } else {
            2
        };
        proof {
            lemma_node_position(f.nx as int, f.ny as int, wi as int, wj as int);
        }
        let ghost before = out@;
        out.push((wj * f.nx + wi, aw * bw));
        proof {
            assert(out@ =~= before + restrict_term(f, fi as int, fj as int, di as int, dj as int));
        }
    } else {
        proof {
            assert(restrict_term(f, fi as int, fj as int, di as int, dj as int) =~= Seq::empty());
            assert(out@ =~= old(out)@ + Seq::empty());
        }
    }
}

/// Every term of `s` addresses a node below `bound`.
pub open spec fn terms_in_range(s: Seq<(usize, u8)>, bound: int) -> bool {
    forall|k: int| 0 <= k < s.len() ==> (#[trigger] s[k]).0 < bound
}

proof fn lemma_terms_concat(a: Seq<(usize, u8)>, b: Seq<(usize, u8)>, bound: int)
    requires
        terms_in_range(a, bound),
        terms_in_range(b, bound),
    ensures
        terms_in_range(a + b, bound),
{
    assert forall|k: int| 0 <= k < (a + b).len() implies (#[trigger] (a + b)[k]).0 < bound by {
        if k < a.len() {
            assert((a + b)[k] == a[k]);
        } else {
            assert((a + b)[k] == b[k - a.len()]);
        }
    }
}

proof fn lemma_restrict_term_in_range(f: Grid2D, fi: int, fj: int, di: int, dj: int)
    requires
        f.node_count() <= usize::MAX,
    ensures
        terms_in_range(restrict_term(f, fi, fj, di, dj), f.node_count()),
        restrict_term(f, fi, fj, di, dj).len() <= 1,
{
    if 0 <= fi + di < f.nx && 0 <= fj + dj < f.ny {
        lemma_node_position(f.nx as int, f.ny as int, fi + di, fj + dj);
    }
}

proof fn lemma_restrict_row_in_range(f: Grid2D, fi: int, fj: int, dj: int)
    requires
        f.node_count() <= usize::MAX,
    ensures
        terms_in_range(restrict_row(f, fi, fj, dj), f.node_count()),
{
    lemma_restrict_term_in_range(f, fi, fj, 0, dj);
    lemma_restrict_term_in_range(f, fi, fj, -1, dj);
    lemma_restrict_term_in_range(f, fi, fj, 1, dj);
    lemma_terms_concat(restrict_term(f, fi, fj, 0, dj), restrict_term(f, fi, fj, -1, dj), f.node_count());
    lemma_terms_concat(
        restrict_term(f, fi, fj, 0, dj) + restrict_term(f, fi, fj, -1, dj),
        restrict_term(f, fi, fj, 1, dj),
        f.node_count(),
    );
}

/// Law: the restriction stencil of every coarse node starts with its own fine
/// node `(2·ii, 2·jj)` at full weight `16/16`, and only addresses fine nodes.
pub proof fn lemma_restriction_well_formed(f: Grid2D, ii: int, jj: int)
    requires
        f.nx % 2 == 0,
        f.ny % 2 == 0,
        0 <= ii < f.nx / 2,
        0 <= jj < f.ny / 2,
        f.node_count() <= usize::MAX,
    ensures
        restriction_stencil(f, ii, jj).len() >= 1,
        restriction_stencil(f, ii, jj)[0] == (f.index_of(2 * ii, 2 * jj) as usize, 16u8),
        terms_in_range(restriction_stencil(f, ii, jj), f.node_count()),
{
    let (fi, fj) = (2 * ii, 2 * jj);
    lemma_restrict_row_in_range(f, fi, fj, 0);
    lemma_restrict_row_in_range(f, fi, fj, -1);
    lemma_restrict_row_in_range(f, fi, fj, 1);
    lemma_terms_concat(restrict_row(f, fi, fj, 0), restrict_row(f, fi, fj, -1), f.node_count());
    lemma_terms_concat(
        restrict_row(f, fi, fj, 0) + restrict_row(f, fi, fj, -1),
        restrict_row(f, fi, fj, 1),
        f.node_count(),
    );
    let t = restrict_term(f, fi, fj, 0, 0);
    assert(t.len() == 1);
    assert(restrict_row(f, fi, fj, 0)[0] == t[0]);
    assert(restriction_stencil(f, ii, jj)[0] == restrict_row(f, fi, fj, 0)[0]);
}

/// Full-weighting weight numerator (over `16`) of the fine node at offset
/// `(di, dj)` from a coarse node's own fine node: `16` at the centre, `8` on
/// the axes, `4` on the diagonals.
pub open spec fn full_weight(di: int, dj: int) -> int {
    4 * (if di == 0 { 2int } else { 1int }) * (if dj == 0 { 2int } else { 1int })
}

/// Whether `t` is the restriction term of the fine node at offset `(di, dj)`
/// from fine node `(fi, fj)`: that node lies on the fine grid, `t` names its
/// linear index and carries its full-weighting weight.
pub open spec fn is_restriction_term(f: Grid2D, fi: int, fj: int, di: int, dj: int, t: (usize, u8)) -> bool {
    &&& -1 <= di <= 1
    &&& -1 <= dj <= 1
    &&& 0 <= fi + di < f.nx
    &&& 0 <= fj + dj < f.ny
    &&& t.0 as int == (fj + dj) * f.nx + (fi + di)
    &&& t.1 as int == full_weight(di, dj)
}

proof fn lemma_restrict_term_contains(f: Grid2D, fi: int, fj: int, di: int, dj: int, t: (usize, u8))
    requires
        -1 <= di <= 1,
        -1 <= dj <= 1,
        f.node_count() <= usize::MAX,
    ensures
        restrict_term(f, fi, fj, di, dj).contains(t) <==> is_restriction_term(f, fi, fj, di, dj, t),
{
    let wi = fi + di;
    let wj = fj + dj;
    if 0 <= wi < f.nx && 0 <= wj < f.ny {
        lemma_node_position(f.nx as int, f.ny as int, wi, wj);
        let x = ((wj * f.nx + wi) as usize, (axis_weight(dj) * axis_weight(di)) as u8);
        assert(restrict_term(f, fi, fj, di, dj) == seq![x]);
        assert(seq![x][0] == x);
        assert(axis_weight(dj) * axis_weight(di) == full_weight(di, dj));
    }
}

/// Law: the restriction stencil of coarse node `(ii, jj)` holds, for every
/// offset `(di, dj)` in `{-1, 0, 1}²` whose fine node `(2·ii + di, 2·jj + dj)`
/// lies on the fine grid, that node's index with full-weighting weight
/// `16, 8, 4` (centre, axis, diagonal), and nothing else.
pub proof fn lemma_restriction_exact(f: Grid2D, ii: int, jj: int, t: (usize, u8))
    requires
        f.nx % 2 == 0,
        f.ny % 2 == 0,
        0 <= ii < f.nx / 2,
        0 <= jj < f.ny / 2,
        f.node_count() <= usize::MAX,
    ensures
        restriction_stencil(f, ii, jj).contains(t) <==> exists|di: int, dj: int|
            #[trigger] is_restriction_term(f, 2 * ii, 2 * jj, di, dj, t),
{
    broadcast use vstd::seq_lib::lemma_seq_concat_contains_all_elements;

    let (fi, fj) = (2 * ii, 2 * jj);
    lemma_restrict_term_contains(f, fi, fj, 0, 0, t);
    lemma_restrict_term_contains(f, fi, fj, -1, 0, t);
    lemma_restrict_term_contains(f, fi, fj, 1, 0, t);
    lemma_restrict_term_contains(f, fi, fj, 0, -1, t);
    lemma_restrict_term_contains(f, fi, fj, -1, -1, t);
    lemma_restrict_term_contains(f, fi, fj, 1, -1, t);
    lemma_restrict_term_contains(f, fi, fj, 0, 1, t);
    lemma_restrict_term_contains(f, fi, fj, -1, 1, t);
    lemma_restrict_term_contains(f, fi, fj, 1, 1, t);
    if exists|di: int, dj: int| #[trigger] is_restriction_term(f, fi, fj, di, dj, t) {
        let (di, dj) = choose|di: int, dj: int| #[trigger] is_restriction_term(f, fi, fj, di, dj, t);
        assert(restrict_term(f, fi, fj, di, dj).contains(t));
    }
    if restriction_stencil(f, ii, jj).contains(t) {
        if is_restriction_term(f, fi, fj, 0, 0, t) {
        } else if is_restriction_term(f, fi, fj, -1, 0, t) {
        } else if is_restriction_term(f, fi, fj, 1, 0, t) {
        } else if is_restriction_term(f, fi, fj, 0, -1, t) {
        } else if is_restriction_term(f, fi, fj, -1, -1, t) {
        } else if is_restriction_term(f, fi, fj, 1, -1, t) {
        } else if is_restriction_term(f, fi, fj, 0, 1, t) {
        } else if is_restriction_term(f, fi, fj, -1, 1, t) {
        } else {
            assert(is_restriction_term(f, fi, fj, 1, 1, t));
        }
    }
}

/// Law: the prolongation of every fine node only reads coarse nodes, its
/// weights add up to at most one, and a node on the even sub-lattice
/// `(2·ci, 2·cj)` is injected from coarse node `(ci, cj)` with weight one.
pub proof fn lemma_prolongation_well_formed(c: Grid2D, i: int, j: int)
    requires
        0 <= i < 2 * c.nx,
        0 <= j < 2 * c.ny,
        c.node_count() <= usize::MAX,
    ensures
        terms_in_range(prolongation_stencil(c, i, j), c.node_count()),
        forall|k: int|
            0 <= k < prolongation_stencil(c, i, j).len() ==> (#[trigger] prolongation_stencil(
                c,
                i,
                j,
            )[k]).1 <= 1,
        i % 2 == 0 && j % 2 == 0 ==> prolongation_stencil(c, i, j)[0] == (c.index_of(
            i / 2,
            j / 2,
        ) as usize, 1u8) && forall|k: int|
            1 <= k < prolongation_stencil(c, i, j).len() ==> (#[trigger] prolongation_stencil(
                c,
                i,
                j,
            )[k]).1 == 0,
{
    let ci = if i / 2 < c.nx - 1 { i / 2 } else { c.nx - 1 };
    let cj = if j / 2 < c.ny - 1 { j / 2 } else { c.ny - 1 };
    let fx = i % 2;
    let fy = j % 2;
    lemma_node_position(c.nx as int, c.ny as int, ci, cj);
    if ci + 1 < c.nx {
        lemma_node_position(c.nx as int, c.ny as int, ci + 1, cj);
    }
    if cj + 1 < c.ny {
        lemma_node_position(c.nx as int, c.ny as int, ci, cj + 1);
        assert((cj + 1) * c.nx == cj * c.nx + c.nx) by (nonlinear_arith);
    }
    if ci + 1 < c.nx && cj + 1 < c.ny {
        lemma_node_position(c.nx as int, c.ny as int, ci + 1, cj + 1);
    }
    assert(fx == 0 || fx == 1);
    assert(fy == 0 || fy == 1);
    assert(((1 - fx) * (1 - fy)) == (if fx == 0 && fy == 0 { 1int } else { 0 })) by (nonlinear_arith)
        requires
            fx == 0 || fx == 1,
            fy == 0 || fy == 1,
    ;
    assert((fx * (1 - fy)) == (if fx == 1 && fy == 0 { 1int } else { 0 })) by (nonlinear_arith)
        requires
            fx == 0 || fx == 1,
            fy == 0 || fy == 1,
    ;
    assert(((1 - fx) * fy) == (if fx == 0 && fy == 1 { 1int } else { 0 })) by (nonlinear_arith)
        requires
            fx == 0 || fx == 1,
            fy == 0 || fy == 1,
    ;
    assert((fx * fy) == (if fx == 1 && fy == 1 { 1int } else { 0 })) by (nonlinear_arith)
        requires
            fx == 0 || fx == 1,
            fy == 0 || fy == 1,
    ;
    let p = prolongation_stencil(c, i, j);
    assert forall|k: int| 0 <= k < p.len() implies (#[trigger] p[k]).0 < c.node_count() && p[k].1
        <= 1 && (k >= 1 && fx == 0 && fy == 0 ==> p[k].1 == 0) by {}
    if fx == 0 && fy == 0 {
        assert(ci == i / 2 && cj == j / 2);
    }
}

/// Bilinear weight of coarse offset `a ∈ {0, 1}` along one axis for a fine
/// coordinate of parity `f`: `1 - f` for the lower coarse node, `f` for the
/// upper one.
pub open spec fn bilinear_weight(a: int, f: int) -> int {
    if a == 0 {
        1 - f
    } else {
        f
    }
}

/// Whether `t` is the prolongation term that fine node `(i, j)` takes from
/// coarse node `(i/2 + a, j/2 + b)`: that coarse node exists, `t` names its
/// linear index, and its weight is the product of the bilinear weights
/// `(1 - i%2 | i%2) · (1 - j%2 | j%2)`.
pub open spec fn is_prolongation_term(c: Grid2D, i: int, j: int, a: int, b: int, t: (usize, u8)) -> bool {
    &&& 0 <= a <= 1
    &&& 0 <= b <= 1
    &&& i / 2 + a < c.nx
    &&& j / 2 + b < c.ny
    &&& t.0 as int == (j / 2 + b) * c.nx + (i / 2 + a)
    &&& t.1 as int == bilinear_weight(a, i % 2) * bilinear_weight(b, j % 2)
}

/// Law: the prolongation of fine node `(i, j)` holds, for each of the coarse
/// nodes `(i/2, j/2)`, `(i/2 + 1, j/2)`, `(i/2, j/2 + 1)`, `(i/2 + 1, j/2 + 1)`
/// that exists, that node's index with weight `(1 - i%2)(1 - j%2)`,
/// `(i%2)(1 - j%2)`, `(1 - i%2)(j%2)`, `(i%2)(j%2)` respectively, and nothing
/// else.
pub proof fn lemma_prolongation_exact(c: Grid2D, i: int, j: int, t: (usize, u8))
    requires
        0 <= i < 2 * c.nx,
        0 <= j < 2 * c.ny,
        c.node_count() <= usize::MAX,
    ensures
        prolongation_stencil(c, i, j).contains(t) <==> exists|a: int, b: int|
            #[trigger] is_prolongation_term(c, i, j, a, b, t),
{
    let ci = i / 2;
    let cj = j / 2;
    let fx = i % 2;
    let fy = j % 2;
    assert(ci <= c.nx - 1 && cj <= c.ny - 1);
    lemma_node_position(c.nx as int, c.ny as int, ci, cj);
    if ci + 1 < c.nx {
        lemma_node_position(c.nx as int, c.ny as int, ci + 1, cj);
    }
    if cj + 1 < c.ny {
        lemma_node_position(c.nx as int, c.ny as int, ci, cj + 1);
    }
    if ci + 1 < c.nx && cj + 1 < c.ny {
        lemma_node_position(c.nx as int, c.ny as int, ci + 1, cj + 1);
    }
    assert(0 <= (1 - fx) * (1 - fy) <= 1 && 0 <= fx * (1 - fy) <= 1 && 0 <= (1 - fx) * fy <= 1
        && 0 <= fx * fy <= 1) by (nonlinear_arith)
        requires
            fx == 0 || fx == 1,
            fy == 0 || fy == 1,
    ;
    let p = prolongation_stencil(c, i, j);
    let t00 = ((cj * c.nx + ci) as usize, ((1 - fx) * (1 - fy)) as u8);
    let t10 = ((cj * c.nx + ci + 1) as usize, (fx * (1 - fy)) as u8);
    let t01 = (((cj + 1) * c.nx + ci) as usize, ((1 - fx) * fy) as u8);
    let t11 = (((cj + 1) * c.nx + ci + 1) as usize, (fx * fy) as u8);
    let s10: Seq<(usize, u8)> = if ci + 1 < c.nx { seq![t10] } else { Seq::empty() };
    let s01: Seq<(usize, u8)> = if cj + 1 < c.ny { seq![t01] } else { Seq::empty() };
    let s11: Seq<(usize, u8)> = if ci + 1 < c.nx && cj + 1 < c.ny { seq![t11] } else { Seq::empty() };
    assert(p =~= seq![t00] + s10 + s01 + s11);
    assert(p.contains(t) <==> (t == t00 || (ci + 1 < c.nx && t == t10) || (cj + 1 < c.ny && t
        == t01) || (ci + 1 < c.nx && cj + 1 < c.ny && t == t11))) by {
        broadcast use vstd::seq_lib::lemma_seq_concat_contains_all_elements;

        assert(seq![t00][0] == t00);
        if ci + 1 < c.nx {
            assert(s10[0] == t10);
        }
        if cj + 1 < c.ny {
            assert(s01[0] == t01);
        }
        if ci + 1 < c.nx && cj + 1 < c.ny {
            assert(s11[0] == t11);
        }
    }
    assert(is_prolongation_term(c, i, j, 0, 0, t) <==> t == t00);
    assert(is_prolongation_term(c, i, j, 1, 0, t) <==> (ci + 1 < c.nx && t == t10));
    assert(is_prolongation_term(c, i, j, 0, 1, t) <==> (cj + 1 < c.ny && t == t01)) by {
        assert((cj + 1) * c.nx == cj * c.nx + c.nx) by (nonlinear_arith);
    }
    assert(is_prolongation_term(c, i, j, 1, 1, t) <==> (ci + 1 < c.nx && cj + 1 < c.ny && t
        == t11)) by {
        assert((cj + 1) * c.nx == cj * c.nx + c.nx) by (nonlinear_arith);
    }
    if exists|a: int, b: int| #[trigger] is_prolongation_term(c, i, j, a, b, t) {
        let (a, b) = choose|a: int, b: int| #[trigger] is_prolongation_term(c, i, j, a, b, t);
        assert(a == 0 || a == 1);
        assert(b == 0 || b == 1);
    }
}

/// Whether the terms of `s` name pairwise different indices.
pub open spec fn indices_distinct(s: Seq<(usize, u8)>) -> bool {
    forall|a: int, b: int| 0 <= a < b < s.len() ==> s[a].0 != s[b].0
}

/// Law: the prolongation of a fine node names each coarse node at most once.
pub proof fn lemma_prolongation_distinct(c: Grid2D, i: int, j: int)
    requires
        0 <= i < 2 * c.nx,
        0 <= j < 2 * c.ny,
        c.node_count() <= usize::MAX,
    ensures
        indices_distinct(prolongation_stencil(c, i, j)),
{
    let ci = i / 2;
    let cj = j / 2;
    let nx = c.nx as int;
    lemma_node_position(nx, c.ny as int, ci, cj);
    if ci + 1 < nx {
        lemma_node_position(nx, c.ny as int, ci + 1, cj);
    }
    if cj + 1 < c.ny {
        lemma_node_position(nx, c.ny as int, ci, cj + 1);
        assert((cj + 1) * nx == cj * nx + nx) by (nonlinear_arith);
    }
    if ci + 1 < nx && cj + 1 < c.ny {
        lemma_node_position(nx, c.ny as int, ci + 1, cj + 1);
    }
    let base = cj * nx + ci;
    let p = prolongation_stencil(c, i, j);
    let idx = seq![base] + (if ci + 1 < nx { seq![base + 1] } else { Seq::<int>::empty() }) + (
    if cj + 1 < c.ny { seq![base + nx] } else { Seq::<int>::empty() }) + (if ci + 1 < nx && cj
        + 1 < c.ny { seq![base + nx + 1] } else { Seq::<int>::empty() });
    assert(p.len() == idx.len());
    assert forall|a: int| 0 <= a < p.len() implies p[a].0 as int == idx[a] by {}
    assert forall|a: int, b: int| 0 <= a < b < idx.len() implies idx[a] != idx[b] by {}
}

/// Two index-distinct term lists that share no index concatenate into an
/// index-distinct list.
proof fn lemma_concat_distinct(s1: Seq<(usize, u8)>, s2: Seq<(usize, u8)>)
    requires
        indices_distinct(s1),
        indices_distinct(s2),
        forall|a: int, b: int| 0 <= a < s1.len() && 0 <= b < s2.len() ==> s1[a].0 != s2[b].0,
    ensures
        indices_distinct(s1 + s2),
{
    let s = s1 + s2;
    assert forall|a: int, b: int| 0 <= a < b < s.len() implies s[a].0 != s[b].0 by {
        if b < s1.len() {
            assert(s[a] == s1[a] && s[b] == s1[b]);
        } else if a < s1.len() {
            assert(s[a] == s1[a] && s[b] == s2[b - s1.len()]);
        } else {
            assert(s[a] == s2[a - s1.len()] && s[b] == s2[b - s1.len()]);
        }
    }
}

/// One restriction row names pairwise different fine nodes, all in fine row
/// `fj + dj`.
proof fn lemma_restrict_row_distinct(f: Grid2D, fi: int, fj: int, dj: int)
    requires
        f.node_count() <= usize::MAX,
    ensures
        indices_distinct(restrict_row(f, fi, fj, dj)),
        forall|k: int|
            0 <= k < restrict_row(f, fi, fj, dj).len() ==> (#[trigger] restrict_row(
                f,
                fi,
                fj,
                dj,
            )[k]).0 as int / f.nx as int == fj + dj,
{
    let nx = f.nx as int;
    let wj = fj + dj;
    let r = restrict_row(f, fi, fj, dj);
    let ok = |di: int| 0 <= fi + di < f.nx && 0 <= wj < f.ny;
    if ok(0) {
        lemma_node_position(nx, f.ny as int, fi, wj);
    }
    if ok(-1) {
        lemma_node_position(nx, f.ny as int, fi - 1, wj);
    }
    if ok(1) {
        lemma_node_position(nx, f.ny as int, fi + 1, wj);
    }
    let idx = (if ok(0) { seq![wj * nx + fi] } else { Seq::<int>::empty() }) + (if ok(-1) {
        seq![wj * nx + fi - 1]
    } else {
        Seq::<int>::empty()
    }) + (if ok(1) { seq![wj * nx + fi + 1] } else { Seq::<int>::empty() });
    assert(r.len() == idx.len());
    assert forall|a: int| 0 <= a < r.len() implies r[a].0 as int == idx[a] by {}
    assert forall|a: int| 0 <= a < idx.len() implies idx[a] / nx == wj && 0 <= idx[a] by {}
    assert forall|a: int, b: int| 0 <= a < b < idx.len() implies idx[a] != idx[b] by {}
}

/// Law: the restriction stencil of a coarse node names each fine node at most
/// once.
pub proof fn lemma_restriction_distinct(f: Grid2D, ii: int, jj: int)
    requires
        f.node_count() <= usize::MAX,
    ensures
        indices_distinct(restriction_stencil(f, ii, jj)),
{
    let (fi, fj) = (2 * ii, 2 * jj);
    let r0 = restrict_row(f, fi, fj, 0);
    let r1 = restrict_row(f, fi, fj, -1);
    let r2 = restrict_row(f, fi, fj, 1);
    lemma_restrict_row_distinct(f, fi, fj, 0);
    lemma_restrict_row_distinct(f, fi, fj, -1);
    lemma_restrict_row_distinct(f, fi, fj, 1);
    assert forall|a: int, b: int| 0 <= a < r0.len() && 0 <= b < r1.len() implies r0[a].0
        != r1[b].0 by {
        assert(r0[a].0 as int / f.nx as int == fj && r1[b].0 as int / f.nx as int == fj - 1);
    }
    lemma_concat_distinct(r0, r1);
    let r01 = r0 + r1;
    assert forall|a: int, b: int| 0 <= a < r01.len() && 0 <= b < r2.len() implies r01[a].0
        != r2[b].0 by {
        assert(r2[b].0 as int / f.nx as int == fj + 1);
        if a < r0.len() {
            assert(r01[a] == r0[a]);
            assert(r0[a].0 as int / f.nx as int == fj);
        } else {
            assert(r01[a] == r1[a - r0.len()]);
            assert(r1[a - r0.len()].0 as int / f.nx as int == fj - 1);
        }
    }
    lemma_concat_distinct(r01, r2);
}

/// A half-resolution grid of an even-sized grid fits the index range too.
proof fn lemma_coarse_fits(f: Grid2D, c: Grid2D)
    requires
        f.nx % 2 == 0,
        f.ny % 2 == 0,
        c.nx == f.nx / 2,
        c.ny == f.ny / 2,
        f.node_count() <= usize::MAX,
    ensures
        c.node_count() <= f.node_count(),
{
    assert(c.nx * c.ny <= f.nx * f.ny) by (nonlinear_arith)
        requires
            0 <= c.nx <= f.nx,
            0 <= c.ny <= f.ny,
    ;
}

} // verus!
