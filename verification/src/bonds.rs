//! Cohesive-bond bookkeeping for the granular world: which particle pairs get
//! a new bond, and how many bonds are still intact.
use vstd::prelude::*;
use crate::broadphase::{pair_lt, pairs_strictly_increasing};
use crate::multigrid::lemma_node_position;

verus! {

/// Whether the unordered pair `{i, j}` is already among `existing`.
pub open spec fn bonded(existing: Seq<(usize, usize)>, i: int, j: int) -> bool {
    exists|k: int|
        0 <= k < existing.len() && #[trigger] same_pair(existing[k], i, j)
}

/// Whether `p` joins `i` and `j`, in either orientation.
pub open spec fn same_pair(p: (usize, usize), i: int, j: int) -> bool {
    (p.0 == i && p.1 == j) || (p.0 == j && p.1 == i)
}

/// The particle pairs that receive a new cohesive bond: every pair `(i, j)`
/// with `i < j < n` that is within bonding reach (`within_reach[i][j]`) and
/// not already bonded (in either orientation), in increasing lexicographic
/// order. Bonds already present are left untouched.
pub fn new_bond_pairs(
    n: usize,
    existing: &Vec<(usize, usize)>,
    within_reach: &Vec<Vec<bool>>,
) -> (pairs: Vec<(usize, usize)>)
    requires
        n * n <= usize::MAX,
        within_reach@.len() == n,
        forall|i: int| 0 <= i < n ==> (#[trigger] within_reach@[i])@.len() == n,
        forall|k: int|
            0 <= k < existing@.len() ==> (#[trigger] existing@[k]).0 < n && existing@[k].1 < n,
    ensures
        pairs_strictly_increasing(pairs@),
        forall|p: (usize, usize)|
            pairs@.contains(p) <==> (p.0 < p.1 < n && within_reach@[p.0 as int]@[p.1 as int]
                && !bonded(existing@, p.0 as int, p.1 as int)),
{
    // present[i * n + j] <=> {i, j} already bonded.
    let total = n * n;
    let mut present: Vec<bool> = Vec::new();
    let mut c: usize = 0;
    while c < total
        invariant
            total == n * n,
            c <= total,
            present@.len() == c,
            forall|x: int| 0 <= x < c ==> !(#[trigger] present@[x]),
        decreases total - c,
    {
        present.push(false);
        c = c + 1;
    }
    proof {
        assert forall|i: int, j: int|
            0 <= i < n && 0 <= j < n implies (present@[i * n + j] <==> bonded(
                existing@.take(0),
                i,
                j,
            )) by {
            lemma_node_position(n as int, n as int, j, i);
        }
    }
    let mut k: usize = 0;
    while k < existing.len()
        invariant
            total == n * n,
            n * n <= usize::MAX,
            present@.len() == total,
            k <= existing@.len(),
            forall|e: int|
                0 <= e < existing@.len() ==> (#[trigger] existing@[e]).0 < n && existing@[e].1 < n,
            forall|i: int, j: int|
                0 <= i < n && 0 <= j < n ==> (present@[i * n + j] <==> bonded(
                    existing@.take(k as int),
                    i,
                    j,
                )),
        decreases existing@.len() - k,
    {
        let (a, b) = existing[k];
        proof {
            lemma_node_position(n as int, n as int, b as int, a as int);
            lemma_node_position(n as int, n as int, a as int, b as int);
        }
        present.set(a * n + b, true);
        present.set(b * n + a, true);
        proof {
            let pre = existing@.take(k as int);
            let post = existing@.take(k + 1);
            assert forall|i: int, j: int|
                0 <= i < n && 0 <= j < n implies (present@[i * n + j] <==> bonded(post, i, j)) by {
                lemma_node_position(n as int, n as int, j, i);
                if same_pair(post[k as int], i, j) {
                    assert(bonded(post, i, j));
                }
                if bonded(pre, i, j) {
                    let e = choose|e: int| 0 <= e < pre.len() && #[trigger] same_pair(pre[e], i, j);
                    assert(post[e] == pre[e]);
                }
                if bonded(post, i, j) {
                    let e = choose|e: int| 0 <= e < post.len() && #[trigger] same_pair(post[e], i, j);
                    if e < k {
                        assert(pre[e] == post[e]);
                    }
                }
                if i * n + j == a * n + b {
                    assert(i == a && j == b);
                }
                if i * n + j == b * n + a {
                    assert(i == b && j == a);
                }
            }
        }
        k = k + 1;
    }
    proof {
        assert(existing@.take(existing@.len() as int) =~= existing@);
    }
    let mut pairs: Vec<(usize, usize)> = Vec::new();
    let mut i: usize = 0;
    while i < n
        invariant
            n * n <= usize::MAX,
            present@.len() == n * n,
            within_reach@.len() == n,
            forall|r: int| 0 <= r < n ==> (#[trigger] within_reach@[r])@.len() == n,
            forall|a: int, b: int|
                0 <= a < n && 0 <= b < n ==> (present@[a * n + b] <==> bonded(existing@, a, b)),
            i <= n,
            pairs_strictly_increasing(pairs@),
            forall|x: int| 0 <= x < pairs@.len() ==> (#[trigger] pairs@[x]).0 < i,
            forall|p: (usize, usize)|
                pairs@.contains(p) <==> (p.0 < i && p.0 < p.1 < n && within_reach@[p.0 as int]@[p.1 as int]
                    && !bonded(existing@, p.0 as int, p.1 as int)),
        decreases n - i,
    {
        let mut j: usize = i + 1;
        let ghost start = pairs@;
        while j < n
            invariant
                n * n <= usize::MAX,
                present@.len() == n * n,
                within_reach@.len() == n,
                forall|r: int| 0 <= r < n ==> (#[trigger] within_reach@[r])@.len() == n,
                forall|a: int, b: int|
                    0 <= a < n && 0 <= b < n ==> (present@[a * n + b] <==> bonded(existing@, a, b)),
                i < n,
                i + 1 <= j <= n,
                pairs_strictly_increasing(pairs@),
                forall|x: int|
                    0 <= x < pairs@.len() ==> (#[trigger] pairs@[x]).0 < i || (pairs@[x].0 == i
                        && pairs@[x].1 < j),
                forall|p: (usize, usize)|
                    pairs@.contains(p) <==> ((p.0 < i || (p.0 == i && p.1 < j)) && p.0 < p.1 < n
                        && within_reach@[p.0 as int]@[p.1 as int] && !bonded(
                        existing@,
                        p.0 as int,
                        p.1 as int,
                    )),
            decreases n - j,
        {
            proof {
                lemma_node_position(n as int, n as int, j as int, i as int);
                assert(present@[i * n + j] <==> bonded(existing@, i as int, j as int));
            }
            let ghost start_j = pairs@;
            if !present[i * n + j] && within_reach[i][j] {
                let ghost before = pairs@;
                pairs.push((i, j));
                proof {
                    assert forall|a: int, b: int| 0 <= a < b < pairs@.len() implies pair_lt(
                        pairs@[a],
                        pairs@[b],
                    ) by {
                        if b == before.len() {
                            assert(pairs@[a] == before[a]);
                        }
                    }
                    assert forall|p: (usize, usize)| pairs@.contains(p) <==> before.contains(p)
                        || p == (i, j) by {
                        if pairs@.contains(p) {
                            let x = choose|x: int| 0 <= x < pairs@.len() && pairs@[x] == p;
                            if x < before.len() {
                                assert(before[x] == p);
                            }
                        }
                        if before.contains(p) {
                            let x = choose|x: int| 0 <= x < before.len() && before[x] == p;
                            assert(pairs@[x] == p);
                        }
                        if p == (i, j) {
                            assert(pairs@[before.len() as int] == p);
                        }
                    }
                }
            }
            proof {
                assert forall|p: (usize, usize)|
                    pairs@.contains(p) <==> ((p.0 < i || (p.0 == i && p.1 < j + 1)) && p.0 < p.1
                        < n && within_reach@[p.0 as int]@[p.1 as int] && !bonded(
                        existing@,
                        p.0 as int,
                        p.1 as int,
                    )) by {
                    if start_j.contains(p) {
                        let x = choose|x: int| 0 <= x < start_j.len() && start_j[x] == p;
                        assert(start_j[x].0 < i || (start_j[x].0 == i && start_j[x].1 < j));
                    }
                    if p == (i, j) {
                        assert(!start_j.contains(p));
                    } else {
                        assert(pairs@.contains(p) <==> start_j.contains(p));
                    }
                }
            }
            j = j + 1;
        }
        i = i + 1;
    }
    pairs
}

/// Whether no two entries of `s` join the same unordered pair.
pub open spec fn pairs_unique(s: Seq<(usize, usize)>) -> bool {
    forall|a: int, b: int|
        0 <= a < b < s.len() ==> !same_pair(s[b], s[a].0 as int, s[a].1 as int)
}

/// Law: bonding never duplicates a bond — if the existing bonds join distinct
/// particle pairs, then so do the existing bonds followed by the newly created
/// ones (each new pair is ordered `i < j`, listed once, and not yet bonded).
pub proof fn lemma_new_bonds_unique(existing: Seq<(usize, usize)>, created: Seq<(usize, usize)>)
    requires
        pairs_unique(existing),
        pairs_strictly_increasing(created),
        forall|p: (usize, usize)|
            created.contains(p) ==> p.0 < p.1 && !bonded(existing, p.0 as int, p.1 as int),
    ensures
        pairs_unique(existing + created),
{
    let all = existing + created;
    assert forall|a: int, b: int| 0 <= a < b < all.len() implies !same_pair(
        all[b],
        all[a].0 as int,
        all[a].1 as int,
    ) by {
        let el = existing.len() as int;
        if b < el {
            assert(all[a] == existing[a] && all[b] == existing[b]);
        } else if a < el {
            let p = created[b - el];
            assert(all[b] == p);
            assert(created.contains(p));
            if same_pair(p, all[a].0 as int, all[a].1 as int) {
                assert(same_pair(existing[a], p.0 as int, p.1 as int));
                assert(bonded(existing, p.0 as int, p.1 as int));
            }
        } else {
            let p = created[a - el];
            let q = created[b - el];
            assert(all[a] == p && all[b] == q);
            assert(created.contains(p) && created.contains(q));
            assert(pair_lt(p, q));
        }
    }
}

/// Number of intact (not yet debonded) bonds, given each bond's `broken`
/// flag.
pub fn active_bond_count(broken: &Vec<bool>) -> (count: usize)
    ensures
        count == broken@.filter(|b: bool| !b).len(),
{
    let mut count: usize = 0;
    let mut k: usize = 0;
    while k < broken.len()
        invariant
            k <= broken@.len(),
            count == broken@.take(k as int).filter(|b: bool| !b).len(),
            count <= k,
        decreases broken@.len() - k,
    {
        proof {
            assert(broken@.take(k + 1).drop_last() =~= broken@.take(k as int));
            broken@.take(k + 1).lemma_filter_len_push(|b: bool| !b, broken@[k as int]);
            broken@.take(k as int).lemma_filter_len_push(|b: bool| !b, broken@[k as int]);
            assert(broken@.take(k as int).push(broken@[k as int]) =~= broken@.take(k + 1));
        }
        if !broken[k] {
            count = count + 1;
        }
        k = k + 1;
    }
    proof {
        assert(broken@.take(broken@.len() as int) =~= broken@);
    }
    count
}

} // verus!
