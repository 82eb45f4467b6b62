//! Index bookkeeping for scattering element matrices into a global sparse
//! (coordinate-format) matrix.
use vstd::prelude::*;
use crate::multigrid::lemma_node_position;

verus! {

/// The scatter triplets of an `n × n` row-major element matrix with global
/// degrees of freedom `dofs`: entry `t = i·n + j` is
/// `(dofs[i], dofs[j], i·n + j)` — global row, global column, and the position
/// of the element-matrix value to add there.
pub open spec fn scatter_triplet(dofs: Seq<usize>, n: int, t: int) -> (usize, usize, usize) {
    (dofs[t / n], dofs[t % n], t as usize)
}

/// Scatter plan of an `n × n` row-major element matrix into global rows and
/// columns `dofs`: for every `i` then every `j`, the triplet
/// `(dofs[i], dofs[j], i·n + j)`.
pub fn scatter_plan(dofs: &Vec<usize>, n: usize) -> (plan: Vec<(usize, usize, usize)>)
    requires
        n <= dofs@.len(),
        n * n <= usize::MAX,
    ensures
        plan@.len() == n * n,
        forall|t: int| 0 <= t < n * n ==> #[trigger] plan@[t] == scatter_triplet(dofs@, n as int, t),
{
    let mut plan: Vec<(usize, usize, usize)> = Vec::new();
    let mut i: usize = 0;
    while i < n
        invariant
            n <= dofs@.len(),
            n * n <= usize::MAX,
            i <= n,
            plan@.len() == i * n,
            forall|t: int| 0 <= t < i * n ==> #[trigger] plan@[t] == scatter_triplet(dofs@, n as int, t),
        decreases n - i,
    {
        let mut j: usize = 0;
        while j < n
            invariant
                n <= dofs@.len(),
                n * n <= usize::MAX,
                i < n,
                j <= n,
                plan@.len() == i * n + j,
                forall|t: int|
                    0 <= t < i * n + j ==> #[trigger] plan@[t] == scatter_triplet(dofs@, n as int, t),
            decreases n - j,
        {
            proof {
                lemma_node_position(n as int, n as int, j as int, i as int);
            }
            let ghost before = plan@;
            plan.push((dofs[i], dofs[j], i * n + j));
            proof {
                assert forall|t: int| 0 <= t < i * n + j + 1 implies #[trigger] plan@[t]
                    == scatter_triplet(dofs@, n as int, t) by {
                    if t < i * n + j {
                        assert(plan@[t] == before[t]);
                    }
                }
            }
            j = j + 1;
        }
        proof {
            assert((i + 1) * n == i * n + n) by (nonlinear_arith);
        }
        i = i + 1;
    }
    plan
}

} // verus!
