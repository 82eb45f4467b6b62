//! Uniform-grid spatial hashing for broad-phase neighbour queries on integer
//! cell coordinates.
use vstd::prelude::*;
use vstd::hash_map::HashMapWithView;

verus! {

broadcast use vstd::std_specs::hash::group_hash_axioms;

/// Integer coordinates `(cx, cy, cz)` of a cubic broad-phase cell.
pub type CellKey = (i64, i64, i64);

/// Whether two cells coincide or touch (their coordinates differ by at most
/// one on every axis): the 27-cell neighbourhood.
pub open spec fn cells_adjacent(a: CellKey, b: CellKey) -> bool {
    &&& -1 <= a.0 - b.0 <= 1
    &&& -1 <= a.1 - b.1 <= 1
    &&& -1 <= a.2 - b.2 <= 1
}

/// Hash bucket of a cell. Distinct cells may share a bucket; lookups filter
/// by the exact cell relation.
pub open spec fn cell_bucket(k: CellKey) -> u64 {
    (k.0 as u64) ^ (((k.1 as u64) << 21u64) ^ ((k.2 as u64) << 42u64))
}

fn bucket_of(k: CellKey) -> (b: u64)
    ensures
        b == cell_bucket(k),
{
    (k.0 as u64) ^ (((k.1 as u64) << 21u64) ^ ((k.2 as u64) << 42u64))
}

/// Position of cell `b` within the 27-cell neighbourhood of cell `a`,
/// counting `z` fastest.
pub open spec fn offset_index(a: CellKey, b: CellKey) -> int {
    (b.0 - a.0 + 1) * 9 + (b.1 - a.1 + 1) * 3 + (b.2 - a.2 + 1)
}

/// The neighbourhood position `t` determines the per-axis offsets.
proof fn lemma_offset_digits(t: int, a: int, b: int, c: int)
    requires
        -1 <= a <= 1,
        -1 <= b <= 1,
        -1 <= c <= 1,
        t == (a + 1) * 9 + (b + 1) * 3 + (c + 1),
    ensures
        t / 9 - 1 == a,
        (t / 3) % 3 - 1 == b,
        t % 3 - 1 == c,
{
    vstd::arithmetic::div_mod::lemma_fundamental_div_mod_converse(t, 9, a + 1, (b + 1) * 3 + (c + 1));
    vstd::arithmetic::div_mod::lemma_fundamental_div_mod_converse(t, 3, (a + 1) * 3 + (b + 1), c + 1);
    vstd::arithmetic::div_mod::lemma_fundamental_div_mod_converse(
        (a + 1) * 3 + (b + 1),
        3,
        a + 1,
        b + 1,
    );
}

/// Lexicographic order on index pairs.
pub open spec fn pair_lt(a: (usize, usize), b: (usize, usize)) -> bool {
    a.0 < b.0 || (a.0 == b.0 && a.1 < b.1)
}

/// Whether `s` is strictly increasing in lexicographic order.
pub open spec fn pairs_strictly_increasing(s: Seq<(usize, usize)>) -> bool {
    forall|a: int, b: int| 0 <= a < b < s.len() ==> pair_lt(s[a], s[b])
}

/// Whether `s` is strictly increasing.
pub open spec fn strictly_increasing(s: Seq<usize>) -> bool {
    forall|a: int, b: int| 0 <= a < b < s.len() ==> s[a] < s[b]
}

/// Insert `x` into the strictly increasing `row`, keeping it strictly
/// increasing and without duplicates.
fn insert_sorted(row: &mut Vec<usize>, x: usize)
    requires
        strictly_increasing(old(row)@),
    ensures
        strictly_increasing(final(row)@),
        forall|y: usize| final(row)@.contains(y) <==> (old(row)@.contains(y) || y == x),
{
    let mut pos: usize = 0;
    while pos < row.len() && row[pos] < x
        invariant
            pos <= row@.len(),
            forall|k: int| 0 <= k < pos ==> row@[k] < x,
            row@ == old(row)@,
            strictly_increasing(row@),
        decreases row@.len() - pos,
    {
        pos = pos + 1;
    }
    if pos < row.len() && row[pos] == x {
        proof {
            assert forall|y: usize| row@.contains(y) <==> (old(row)@.contains(y) || y == x) by {
                if y == x {
                    assert(row@[pos as int] == x);
                }
            }
        }
        return;
    }
    let ghost before = row@;
    assert(before == old(row)@);
    row.insert(pos, x);
    proof {
        assert(row@ =~= before.insert(pos as int, x));
        assert forall|a: int, b: int| 0 <= a < b < row@.len() implies row@[a] < row@[b] by {
            if b < pos {
            } else if b == pos {
            } else if a < pos {
                assert(row@[b] == before[b - 1]);
            } else if a == pos {
                assert(row@[b] == before[b - 1]);
                assert(before[pos as int] > x || pos as int == b - 1);
            } else {
                assert(row@[a] == before[a - 1]);
                assert(row@[b] == before[b - 1]);
            }
        }
        assert forall|y: usize| row@.contains(y) <==> (before.contains(y) || y == x) by {
            if row@.contains(y) {
                let k = choose|k: int| 0 <= k < row@.len() && row@[k] == y;
                if k < pos {
                    assert(before[k] == y);
                } else if k > pos {
                    assert(before[k - 1] == y);
                }
            }
            if before.contains(y) {
                let k = choose|k: int| 0 <= k < before.len() && before[k] == y;
                if k < pos {
                    assert(row@[k] == y);
                } else {
                    assert(row@[k + 1] == y);
                }
            }
            if y == x {
                assert(row@[pos as int] == x);
            }
        }
    }
}

/// Appending the pairs `(i, row[r])` of a strictly increasing `row` after
/// pairs whose first index is below `i` keeps the order strict, and the
/// result holds exactly the old pairs and `(i, j)` for `j` in `row`.
proof fn lemma_append_row(
    start: Seq<(usize, usize)>,
    i: usize,
    row: Seq<usize>,
    all: Seq<(usize, usize)>,
)
    requires
        pairs_strictly_increasing(start),
        forall|k: int| 0 <= k < start.len() ==> (#[trigger] start[k]).0 < i,
        strictly_increasing(row),
        all.len() == start.len() + row.len(),
        forall|k: int| 0 <= k < start.len() ==> all[k] == start[k],
        forall|r: int| 0 <= r < row.len() ==> all[start.len() + r] == (i, row[r]),
    ensures
        pairs_strictly_increasing(all),
        forall|p: (usize, usize)|
            all.contains(p) <==> (start.contains(p) || (p.0 == i && row.contains(p.1))),
{
    assert forall|a: int, b: int| 0 <= a < b < all.len() implies pair_lt(all[a], all[b]) by {
        if b < start.len() {
        } else if a < start.len() {
            assert(all[a] == start[a]);
            assert(all[b] == (i, row[b - start.len()]));
        } else {
            assert(all[a] == (i, row[a - start.len()]));
            assert(all[b] == (i, row[b - start.len()]));
        }
    }
    assert forall|p: (usize, usize)| all.contains(p) <==> (start.contains(p) || (p.0 == i
        && row.contains(p.1))) by {
        if all.contains(p) {
            let k = choose|k: int| 0 <= k < all.len() && all[k] == p;
            if k >= start.len() {
                assert(all[start.len() + (k - start.len())] == (i, row[k - start.len()]));
                assert(row[k - start.len()] == p.1);
            } else {
                assert(start[k] == p);
            }
        }
        if start.contains(p) {
            let k = choose|k: int| 0 <= k < start.len() && start[k] == p;
            assert(all[k] == p);
        }
        if p.0 == i && row.contains(p.1) {
            let r = choose|r: int| 0 <= r < row.len() && row[r] == p.1;
            assert(all[start.len() + r] == p);
        }
    }
}

/// A uniform cubic grid broad-phase accelerator over particles already binned
/// into integer cells; two particles can only collide if their cells coincide
/// or touch.
pub struct SpatialHash {
    /// Cell of each particle, by particle index.
    keys: Vec<CellKey>,
    /// `bucket -> particle indices`, in increasing order of insertion.
    cells: HashMapWithView<u64, Vec<usize>>,
}

impl SpatialHash {
    #[verifier::type_invariant]
    spec fn well_formed(self) -> bool {
        &&& forall|j: int|
            0 <= j < self.keys@.len() ==> {
                let b = cell_bucket(#[trigger] self.keys@[j]);
                self.cells@.contains_key(b) && self.cells@[b]@.contains(j as usize)
            }
        &&& forall|b: u64, m: usize|
            #![trigger self.cells@[b]@.contains(m)]
            self.cells@.contains_key(b) && self.cells@[b]@.contains(m) ==> m < self.keys@.len()
                && cell_bucket(self.keys@[m as int]) == b
    }

    /// The cell of each particle.
    pub closed spec fn keys_spec(self) -> Seq<CellKey> {
        self.keys@
    }

    /// Whether particle `j` is a broad-phase neighbour of particle `i`: a
    /// different particle whose cell coincides with or touches `i`'s cell
    /// (and, when `above_only`, with a larger index).
    pub open spec fn is_neighbour(self, i: int, j: int, above_only: bool) -> bool {
        &&& 0 <= i < self.keys_spec().len()
        &&& 0 <= j < self.keys_spec().len()
        &&& j != i
        &&& cells_adjacent(self.keys_spec()[i], self.keys_spec()[j])
        &&& (above_only ==> j > i)
    }

    /// The neighbours of particle `i` in increasing index order.
    #[verifier::loop_isolation(false)]
    fn neighbours_of(&self, i: usize, above_only: bool) -> (row: Vec<usize>)
        requires
            i < self.keys_spec().len(),
        ensures
            strictly_increasing(row@),
            forall|j: usize| row@.contains(j) <==> self.is_neighbour(i as int, j as int, above_only),
    {
        proof {
            use_type_invariant(self);
        }
        let ki = self.keys[i];
        let mut row: Vec<usize> = Vec::new();
        let mut t: usize = 0;
        while t < 27
            invariant
                t <= 27,
                strictly_increasing(row@),
                forall|j: usize| row@.contains(j) ==> self.is_neighbour(i as int, j as int, above_only),
                forall|j: usize|
                    #![trigger self.keys@[j as int]]
                    self.is_neighbour(i as int, j as int, above_only) && offset_index(
                        ki,
                        self.keys@[j as int],
                    ) < t ==> row@.contains(j),
            decreases 27 - t,
        {
            let ghost row_before = row@;
            let dx = (t / 9) as i128 - 1;
            let dy = ((t / 3) % 3) as i128 - 1;
            let dz = (t % 3) as i128 - 1;
            let cx = ki.0 as i128 + dx;
            let cy = ki.1 as i128 + dy;
            let cz = ki.2 as i128 + dz;
            let lo = i64::MIN as i128;
            let hi = i64::MAX as i128;
            if lo <= cx && cx <= hi && lo <= cy && cy <= hi && lo <= cz && cz <= hi {
                let nk: CellKey = (cx as i64, cy as i64, cz as i64);
                let b = bucket_of(nk);
                match self.cells.get(&b) {
                    Some(members) => {
                        let mut q: usize = 0;
                        while q < members.len()
                            invariant
                                q <= members@.len(),
                                *members == self.cells@[b],
                                self.cells@.contains_key(b),
                                strictly_increasing(row@),
                                forall|j: usize|
                                    row@.contains(j) ==> self.is_neighbour(
                                        i as int,
                                        j as int,
                                        above_only,
                                    ),
                                forall|j: usize| row_before.contains(j) ==> row@.contains(j),
                                forall|p: int|
                                    0 <= p < q && self.is_neighbour(
                                        i as int,
                                        members@[p] as int,
                                        above_only,
                                    ) ==> row@.contains(#[trigger] members@[p]),
                            decreases members@.len() - q,
                        {
                            let m = members[q];
                            proof {
                                assert(self.cells@[b]@.contains(m));
                            }
                            let km = self.keys[m];
                            let adjacent = -1 <= ki.0 as i128 - km.0 as i128 && ki.0 as i128
                                - km.0 as i128 <= 1 && -1 <= ki.1 as i128 - km.1 as i128 && ki.1
                                as i128 - km.1 as i128 <= 1 && -1 <= ki.2 as i128 - km.2 as i128
                                && ki.2 as i128 - km.2 as i128 <= 1;
                            if m != i && (!above_only || m > i) && adjacent {
                                insert_sorted(&mut row, m);
                            }
                            q = q + 1;
                        }
                        proof {
                            assert forall|j: usize|
                                #![trigger self.keys@[j as int]]
                                self.is_neighbour(i as int, j as int, above_only) && offset_index(
                                    ki,
                                    self.keys@[j as int],
                                ) < t + 1 implies row@.contains(j) by {
                                if offset_index(ki, self.keys@[j as int]) == t {
                                    let kj = self.keys@[j as int];
                                    lemma_offset_digits(
                                        t as int,
                                        kj.0 - ki.0,
                                        kj.1 - ki.1,
                                        kj.2 - ki.2,
                                    );
                                    assert(kj == nk);
                                    assert(self.cells@[b]@.contains(j));
                                    let p = choose|p: int|
                                        0 <= p < members@.len() && members@[p] == j;
                                    assert(self.is_neighbour(i as int, members@[p] as int, above_only));
                                } else {
                                    assert(row_before.contains(j));
                                }
                            }
                        }
                    },
                    None => {
                        proof {
                            assert forall|j: usize|
                                #![trigger self.keys@[j as int]]
                                self.is_neighbour(i as int, j as int, above_only) && offset_index(
                                    ki,
                                    self.keys@[j as int],
                                ) < t + 1 implies row@.contains(j) by {
                                if offset_index(ki, self.keys@[j as int]) == t {
                                    let kj = self.keys@[j as int];
                                    lemma_offset_digits(
                                        t as int,
                                        kj.0 - ki.0,
                                        kj.1 - ki.1,
                                        kj.2 - ki.2,
                                    );
                                    assert(kj == nk);
                                    assert(self.cells@.contains_key(cell_bucket(kj)));
                                }
                            }
                        }
                    },
                }
            } else {
                proof {
                    assert forall|j: usize|
                        #![trigger self.keys@[j as int]]
                        self.is_neighbour(i as int, j as int, above_only) && offset_index(
                            ki,
                            self.keys@[j as int],
                        ) < t + 1 implies row@.contains(j) by {
                        if offset_index(ki, self.keys@[j as int]) == t {
                            let kj = self.keys@[j as int];
                            lemma_offset_digits(t as int, kj.0 - ki.0, kj.1 - ki.1, kj.2 - ki.2);
                        }
                    }
                }
            }
            t = t + 1;
        }
        proof {
            assert forall|j: usize| self.is_neighbour(i as int, j as int, above_only) implies row@.contains(
                j,
            ) by {
                let kj = self.keys@[j as int];
                assert(offset_index(ki, kj) < 27);
            }
        }
        row
    }

    /// Number of particles hashed.
    pub fn particle_count(&self) -> (n: usize)
        ensures
            n == self.keys_spec().len(),
    {
        self.keys.len()
    }

    /// Candidate collision pairs `(i, j)` with `i < j` whose cells coincide or
    /// touch (the 27-cell neighbourhood of each particle), in increasing
    /// lexicographic order and without duplicates.
    pub fn candidate_pairs(&self) -> (pairs: Vec<(usize, usize)>)
        ensures
            pairs_strictly_increasing(pairs@),
            forall|p: (usize, usize)|
                pairs@.contains(p) <==> (p.0 < p.1 && self.is_neighbour(
                    p.0 as int,
                    p.1 as int,
                    false,
                )),
    {
        let n = self.keys.len();
        let mut pairs: Vec<(usize, usize)> = Vec::new();
        let mut i: usize = 0;
        while i < n
            invariant
                n == self.keys_spec().len(),
                i <= n,
                pairs_strictly_increasing(pairs@),
                forall|k: int| 0 <= k < pairs@.len() ==> (#[trigger] pairs@[k]).0 < i,
                forall|p: (usize, usize)|
                    pairs@.contains(p) <==> (p.0 < i && p.0 < p.1 && self.is_neighbour(
                        p.0 as int,
                        p.1 as int,
                        false,
                    )),
            decreases n - i,
        {
            let row = self.neighbours_of(i, true);
            let ghost start = pairs@;
            let mut q: usize = 0;
            while q < row.len()
                invariant
                    i < n,
                    q <= row@.len(),
                    strictly_increasing(row@),
                    forall|k: int| 0 <= k < start.len() ==> (#[trigger] start[k]).0 < i,
                    pairs_strictly_increasing(start),
                    pairs@.len() == start.len() + q,
                    forall|k: int| 0 <= k < start.len() ==> pairs@[k] == start[k],
                    forall|r: int| 0 <= r < q ==> pairs@[start.len() + r] == (i, row@[r]),
                    forall|p: (usize, usize)|
                        start.contains(p) <==> (p.0 < i && p.0 < p.1 && self.is_neighbour(
                            p.0 as int,
                            p.1 as int,
                            false,
                        )),
                    forall|j: usize| row@.contains(j) <==> self.is_neighbour(i as int, j as int, true),
                decreases row@.len() - q,
            {
                let j = row[q];
                let ghost before = pairs@;
                pairs.push((i, j));
                q = q + 1;
            }
            proof {
                lemma_append_row(start, i, row@, pairs@);
                assert forall|k: int| 0 <= k < pairs@.len() implies (#[trigger] pairs@[k]).0 < i
                    + 1 by {
                    if k >= start.len() {
                        assert(pairs@[start.len() + (k - start.len())] == (i, row@[k
                            - start.len()]));
                    } else {
                        assert(pairs@[k] == start[k]);
                        assert(start[k].0 < i);
                    }
                }
                assert forall|p: (usize, usize)| pairs@.contains(p) <==> (p.0 < i + 1 && p.0 < p.1
                    && self.is_neighbour(p.0 as int, p.1 as int, false)) by {
                    if p.0 == i && p.0 < p.1 && self.is_neighbour(p.0 as int, p.1 as int, false) {
                        assert(self.is_neighbour(i as int, p.1 as int, true));
                    }
                    if row@.contains(p.1) && p.0 == i {
                        assert(self.is_neighbour(i as int, p.1 as int, true));
                    }
                }
            }
            i = i + 1;
        }
        pairs
    }

    /// Per-particle neighbour lists (both directions), each in increasing
    /// index order: `j` appears in `lists[i]` exactly when `i` and `j` are
    /// different particles whose cells coincide or touch, so every unordered
    /// contact pair `{i, j}` appears as `j` in `lists[i]` and as `i` in
    /// `lists[j]`.
    pub fn neighbour_lists(&self) -> (lists: Vec<Vec<usize>>)
        ensures
            lists@.len() == self.keys_spec().len(),
            forall|i: int|
                0 <= i < lists@.len() ==> strictly_increasing(#[trigger] lists@[i]@),
            forall|i: int, j: usize|
                0 <= i < lists@.len() ==> ((#[trigger] lists@[i]@.contains(j))
                    <==> self.is_neighbour(i, j as int, false)),
    {
        let n = self.keys.len();
        let mut lists: Vec<Vec<usize>> = Vec::new();
        let mut i: usize = 0;
        while i < n
            invariant
                n == self.keys_spec().len(),
                i <= n,
                lists@.len() == i,
                forall|a: int| 0 <= a < i ==> strictly_increasing(#[trigger] lists@[a]@),
                forall|a: int, j: usize|
                    0 <= a < i ==> ((#[trigger] lists@[a]@.contains(j)) <==> self.is_neighbour(
                        a,
                        j as int,
                        false,
                    )),
            decreases n - i,
        {
            let row = self.neighbours_of(i, false);
            lists.push(row);
            i = i + 1;
        }
        lists
    }

    /// Build the hash from the cell of each particle.
    pub fn from_keys(keys: Vec<CellKey>) -> (h: Self)
        ensures
            h.keys_spec() == keys@,
    {
        let mut cells: HashMapWithView<u64, Vec<usize>> = HashMapWithView::new();
        let n = keys.len();
        let mut i: usize = 0;
        while i < n
            invariant
                n == keys@.len(),
                i <= n,
                forall|j: int|
                    0 <= j < i ==> {
                        let b = cell_bucket(#[trigger] keys@[j]);
                        cells@.contains_key(b) && cells@[b]@.contains(j as usize)
                    },
                forall|b: u64, m: usize|
                    #![trigger cells@[b]@.contains(m)]
                    cells@.contains_key(b) && cells@[b]@.contains(m) ==> m < i && cell_bucket(
                        keys@[m as int],
                    ) == b,
            decreases n - i,
        {
            let b = bucket_of(keys[i]);
            let ghost old_cells = cells@;
            let members = match cells.remove(&b) {
                Some(v) => v,
                None => Vec::new(),
            };
            let ghost old_members = members@;
            let mut members = members;
            members.push(i);
            cells.insert(b, members);
            proof {
                assert forall|j: int| 0 <= j < i + 1 implies {
                    let bj = cell_bucket(#[trigger] keys@[j]);
                    cells@.contains_key(bj) && cells@[bj]@.contains(j as usize)
                } by {
                    let bj = cell_bucket(keys@[j]);
                    if j == i {
                        assert(cells@[b]@[old_members.len() as int] == i);
                    } else if bj == b {
                        assert(old_cells.contains_key(b) && old_cells[b]@.contains(j as usize));
                        let p = choose|p: int| 0 <= p < old_cells[b]@.len() && old_cells[b]@[p] == j as usize;
                        assert(cells@[b]@[p] == j as usize);
                    }
                }
                assert forall|bb: u64, m: usize|
                    #![trigger cells@[bb]@.contains(m)]
                    cells@.contains_key(bb) && cells@[bb]@.contains(m) implies m < i + 1
                        && cell_bucket(keys@[m as int]) == bb by {
                    if bb == b {
                        let p = choose|p: int| 0 <= p < cells@[b]@.len() && cells@[b]@[p] == m;
                        if p < old_members.len() {
                            assert(old_cells[b]@[p] == m);
                            assert(old_cells[b]@.contains(m));
                        }
                    } else {
                        assert(old_cells[bb] == cells@[bb]);
                    }
                }
            }
            i = i + 1;
        }
        SpatialHash { keys, cells }
    }
}

/// Law: the broad-phase neighbour relation is symmetric — `j` is a neighbour of
/// `i` exactly when `i` is a neighbour of `j` — so every unordered contact pair
/// appears in both neighbour lists.
pub proof fn lemma_neighbour_symmetric(h: SpatialHash, i: int, j: int)
    ensures
        h.is_neighbour(i, j, false) <==> h.is_neighbour(j, i, false),
{
}

/// Law: a particle's candidates never include itself, and particles sharing a
/// cell are always candidates of each other.
pub proof fn lemma_same_cell_neighbours(h: SpatialHash, i: int, j: int)
    requires
        0 <= i < h.keys_spec().len(),
        0 <= j < h.keys_spec().len(),
        h.keys_spec()[i] == h.keys_spec()[j],
    ensures
        h.is_neighbour(i, j, false) <==> i != j,
{
}

} // verus!
