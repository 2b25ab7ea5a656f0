use vstd::prelude::*;

verus! {

/// The sum of `costs`.
pub open spec fn total(costs: Seq<u64>) -> int
    decreases costs.len(),
{
    if costs.len() == 0 {
        0
    } else {
        total(costs.drop_last()) + costs.last()
    }
}

/// `path` follows the edges of `rel`, the `i`-th with cost `costs[i]`.
pub open spec fn edges_in<N>(rel: spec_fn(N) -> Seq<(N, u64)>, path: Seq<N>, costs: Seq<u64>) -> bool {
    &&& path.len() == costs.len() + 1
    &&& forall|i: int|
        0 <= i < costs.len() ==> #[trigger] rel(path[i]).contains((path[i + 1], costs[i]))
}

/// Where every cost is at most `m`, the sum is at most `m` per cost.
pub proof fn lemma_total_bound(costs: Seq<u64>, m: int)
    requires
        forall|i: int| 0 <= i < costs.len() ==> costs[i] <= m,
    ensures
        0 <= total(costs) <= costs.len() * m,
    decreases costs.len(),
{
    if costs.len() > 0 {
        lemma_total_bound(costs.drop_last(), m);
        assert(costs.last() == costs[costs.len() - 1]);
        assert((costs.len() - 1) * m + m == costs.len() * m) by (nonlinear_arith);
    }
}

} // verus!
