use vstd::prelude::*;
use crate::distances::{distance, DistanceTable, UNREACHABLE};
use crate::gym_state::GymStateId;

verus! {

/// The sum of two costs, held at [`UNREACHABLE`] where it would pass it.
pub open spec fn capped_sum(a: u32, b: u32) -> u32 {
    if a + b >= UNREACHABLE {
        UNREACHABLE
    } else {
        (a + b) as u32
    }
}

/// The cost of going through the states of `path` in turn: the capped sum of
/// the distances between neighbours.
pub open spec fn path_cost(rows: Seq<Seq<u32>>, path: Seq<GymStateId>) -> u32
    decreases path.len(),
{
    if path.len() <= 1 {
        0
    } else {
        capped_sum(
            path_cost(rows, path.drop_last()),
            distance(rows, path[path.len() - 2].0, path[path.len() - 1].0),
        )
    }
}

/// The candidate lists that a vector of vectors holds.
pub open spec fn layer_views(layers: Seq<Vec<GymStateId>>) -> Seq<Seq<GymStateId>> {
    Seq::new(layers.len(), |i: int| layers[i]@)
}

/// `path` takes its first states from the first layers, one from each.
pub open spec fn is_partial_selection(layers: Seq<Seq<GymStateId>>, path: Seq<GymStateId>) -> bool {
    &&& path.len() <= layers.len()
    &&& forall|i: int| 0 <= i < path.len() ==> (#[trigger] layers[i]).contains(path[i])
}

/// `path` takes one state from every layer.
pub open spec fn is_selection(layers: Seq<Seq<GymStateId>>, path: Seq<GymStateId>) -> bool {
    path.len() == layers.len() && is_partial_selection(layers, path)
}

/// No layer is empty.
pub open spec fn all_inhabited(layers: Seq<Seq<GymStateId>>) -> bool {
    forall|i: int| 0 <= i < layers.len() ==> (#[trigger] layers[i]).len() > 0
}

/// The cost of arriving at `to` by way of the candidate at `q` of the layer
/// before, which itself is reached at `costs[q]`.
pub open spec fn arrival(
    rows: Seq<Seq<u32>>,
    from: Seq<GymStateId>,
    costs: Seq<u32>,
    to: GymStateId,
    q: int,
) -> u32 {
    capped_sum(costs[q], distance(rows, from[q].0, to.0))
}

/// The least cost of arriving at `to` by way of one of the first `k`
/// candidates of the layer before.
pub open spec fn cheapest(
    rows: Seq<Seq<u32>>,
    from: Seq<GymStateId>,
    costs: Seq<u32>,
    to: GymStateId,
    k: nat,
) -> u32
    decreases k,
{
    if k == 0 {
        UNREACHABLE
    } else {
        let before = cheapest(rows, from, costs, to, (k - 1) as nat);
        let here = arrival(rows, from, costs, to, k - 1);
        if here < before {
            here
        } else {
            before
        }
    }
}

/// For each candidate of layer `i` the least cost of a path that takes one
/// state from each layer up to `i` and ends in the candidate.
pub open spec fn layer_costs(rows: Seq<Seq<u32>>, layers: Seq<Seq<GymStateId>>, i: int) -> Seq<u32>
    decreases i,
{
    if i <= 0 {
        Seq::new(layers[0].len(), |p: int| 0u32)
    } else {
        let before = layer_costs(rows, layers, i - 1);
        Seq::new(
            layers[i].len(),
            |p: int| cheapest(rows, layers[i - 1], before, layers[i][p], layers[i - 1].len()),
        )
    }
}

/// Which of two candidates is taken where both serve equally: the one with
/// the smaller state number, and of two entries for one state the earlier.
pub open spec fn precedes(from: Seq<GymStateId>, q: int, r: int) -> bool {
    from[q].0 < from[r].0 || (from[q].0 == from[r].0 && q <= r)
}

/// Among the first `k` candidates of the layer before, the one at `q` is the
/// predecessor of `to`: by way of it `to` is reached at the least cost, and
/// it precedes every other candidate of which that is true.
pub open spec fn is_best_among(
    rows: Seq<Seq<u32>>,
    from: Seq<GymStateId>,
    costs: Seq<u32>,
    to: GymStateId,
    k: nat,
    q: int,
) -> bool {
    &&& 0 <= q < k
    &&& arrival(rows, from, costs, to, q) == cheapest(rows, from, costs, to, k)
    &&& forall|r: int|
        0 <= r < k && #[trigger] arrival(rows, from, costs, to, r) == cheapest(
            rows,
            from,
            costs,
            to,
            k,
        ) ==> precedes(from, q, r)
}

/// The position of the predecessor of `to` in the layer before.
pub open spec fn predecessor(
    rows: Seq<Seq<u32>>,
    from: Seq<GymStateId>,
    costs: Seq<u32>,
    to: GymStateId,
) -> int {
    choose|q: int| is_best_among(rows, from, costs, to, from.len(), q)
}

/// The path that ends in the candidate at `p` of layer `i` and goes back
/// from each state to its predecessor.
pub open spec fn trace(rows: Seq<Seq<u32>>, layers: Seq<Seq<GymStateId>>, i: int, p: int) -> Seq<
    GymStateId,
>
    decreases i,
{
    if i <= 0 {
        seq![layers[0][p]]
    } else {
        trace(
            rows,
            layers,
            i - 1,
            predecessor(rows, layers[i - 1], layer_costs(rows, layers, i - 1), layers[i][p]),
        ).push(layers[i][p])
    }
}

/// The least of the first `k` costs, [`UNREACHABLE`] where there is none.
pub open spec fn least(costs: Seq<u32>, k: nat) -> u32
    decreases k,
{
    if k == 0 {
        UNREACHABLE
    } else {
        let before = least(costs, (k - 1) as nat);
        if costs[k - 1] < before {
            costs[k - 1]
        } else {
            before
        }
    }
}

/// `p` is the first position among the first `k` that holds their least cost.
pub open spec fn is_first_least(costs: Seq<u32>, k: nat, p: int) -> bool {
    &&& 0 <= p < k
    &&& costs[p] == least(costs, k)
    &&& forall|r: int| 0 <= r < p ==> #[trigger] costs[r] != least(costs, k)
}

/// The position in the last layer at which the optimal path ends: the first
/// that is reached at the least cost.
pub open spec fn terminal(costs: Seq<u32>) -> int {
    choose|p: int| is_first_least(costs, costs.len(), p)
}

/// The least cost of a path that takes one state from each layer, and
/// [`UNREACHABLE`] where there is no such path or none that holds together.
pub open spec fn optimal_cost(rows: Seq<Seq<u32>>, layers: Seq<Seq<GymStateId>>) -> u32 {
    if layers.len() == 0 {
        0
    } else {
        let costs = layer_costs(rows, layers, layers.len() - 1);
        least(costs, costs.len())
    }
}

/// The path that the planner takes through the layers.
pub open spec fn optimal_path(rows: Seq<Seq<u32>>, layers: Seq<Seq<GymStateId>>) -> Seq<GymStateId> {
    if layers.len() == 0 {
        Seq::empty()
    } else {
        trace(
            rows,
            layers,
            layers.len() - 1,
            terminal(layer_costs(rows, layers, layers.len() - 1)),
        )
    }
}

/// `i` is the first layer that is empty.
pub open spec fn is_first_empty(layers: Seq<Seq<GymStateId>>, i: int) -> bool {
    &&& 0 <= i < layers.len()
    &&& layers[i].len() == 0
    &&& forall|j: int| 0 <= j < i ==> (#[trigger] layers[j]).len() > 0
}

/// The cheapest arrival is no dearer than any arrival, and it is the cost of
/// one of them unless it is [`UNREACHABLE`].
pub proof fn lemma_cheapest(
    rows: Seq<Seq<u32>>,
    from: Seq<GymStateId>,
    costs: Seq<u32>,
    to: GymStateId,
    k: nat,
)
    ensures
        forall|q: int|
            0 <= q < k ==> cheapest(rows, from, costs, to, k) <= #[trigger] arrival(
                rows,
                from,
                costs,
                to,
                q,
            ),
        cheapest(rows, from, costs, to, k) < UNREACHABLE ==> exists|q: int|
            0 <= q < k && #[trigger] arrival(rows, from, costs, to, q) == cheapest(
                rows,
                from,
                costs,
                to,
                k,
            ),
    decreases k,
{
    if k > 0 {
        lemma_cheapest(rows, from, costs, to, (k - 1) as nat);
        let before = cheapest(rows, from, costs, to, (k - 1) as nat);
        let here = arrival(rows, from, costs, to, k - 1);
        if cheapest(rows, from, costs, to, k) < UNREACHABLE {
            if here < before {
                assert(arrival(rows, from, costs, to, k - 1) == cheapest(rows, from, costs, to, k));
            } else {
                let q = choose|q: int|
                    0 <= q < k - 1 && #[trigger] arrival(rows, from, costs, to, q) == before;
                assert(arrival(rows, from, costs, to, q) == cheapest(rows, from, costs, to, k));
            }
        }
    }
}

/// Where a state can be reached at all, it has a predecessor among the
/// candidates of the layer before.
pub proof fn lemma_best_among_exists(
    rows: Seq<Seq<u32>>,
    from: Seq<GymStateId>,
    costs: Seq<u32>,
    to: GymStateId,
    k: nat,
) -> (q: int)
    requires
        cheapest(rows, from, costs, to, k) < UNREACHABLE,
    ensures
        is_best_among(rows, from, costs, to, k, q),
    decreases k,
{
    lemma_cheapest(rows, from, costs, to, k);
    lemma_cheapest(rows, from, costs, to, (k - 1) as nat);
    let before = cheapest(rows, from, costs, to, (k - 1) as nat);
    let here = arrival(rows, from, costs, to, k - 1);
    if here < before {
        k - 1
    } else {
        let q = lemma_best_among_exists(rows, from, costs, to, (k - 1) as nat);
        if here == before && !precedes(from, q, k - 1) {
            assert forall|r: int|
                0 <= r < k && #[trigger] arrival(rows, from, costs, to, r) == cheapest(
                    rows,
                    from,
                    costs,
                    to,
                    k,
                ) implies precedes(from, k - 1, r) by {
                if r < k - 1 {
                    assert(precedes(from, q, r));
                }
            }
            k - 1
        } else {
            q
        }
    }
}

/// A state has one predecessor only.
pub proof fn lemma_best_among_unique(
    rows: Seq<Seq<u32>>,
    from: Seq<GymStateId>,
    costs: Seq<u32>,
    to: GymStateId,
    k: nat,
    q: int,
    r: int,
)
    requires
        is_best_among(rows, from, costs, to, k, q),
        is_best_among(rows, from, costs, to, k, r),
    ensures
        q == r,
{
    assert(precedes(from, q, r));
    assert(precedes(from, r, q));
}

/// The least cost is no greater than any of the costs, and it is one of
/// them where there is one.
pub proof fn lemma_first_least(costs: Seq<u32>, k: nat) -> (p: int)
    requires
        k > 0,
    ensures
        is_first_least(costs, k, p),
        forall|r: int| 0 <= r < k ==> least(costs, k) <= #[trigger] costs[r],
    decreases k,
{
    if k == 1 {
        assert(least(costs, 0) == UNREACHABLE);
        0
    } else {
        let p = lemma_first_least(costs, (k - 1) as nat);
        if costs[k - 1] < least(costs, (k - 1) as nat) {
            k - 1
        } else {
            p
        }
    }
}

/// Only one position is the first to hold the least cost.
pub proof fn lemma_first_least_unique(costs: Seq<u32>, k: nat, p: int, r: int)
    requires
        is_first_least(costs, k, p),
        is_first_least(costs, k, r),
    ensures
        p == r,
{
}

/// The cost kept for a candidate is a lower bound: no path that takes one
/// state from each layer up to the candidate's and ends in the candidate is
/// cheaper.
pub proof fn lemma_cost_is_lower_bound(
    rows: Seq<Seq<u32>>,
    layers: Seq<Seq<GymStateId>>,
    path: Seq<GymStateId>,
    p: int,
)
    requires
        path.len() > 0,
        is_partial_selection(layers, path),
        0 <= p < layers[path.len() - 1].len(),
        layers[path.len() - 1][p] == path.last(),
    ensures
        layer_costs(rows, layers, path.len() - 1)[p] <= path_cost(rows, path),
    decreases path.len(),
{
    let i = path.len() - 1;
    if i > 0 {
        let head = path.drop_last();
        let from = layers[i - 1];
        assert(from.contains(path[i - 1]));
        let q = choose|q: int| 0 <= q < from.len() && from[q] == path[i - 1];
        assert(is_partial_selection(layers, head)) by {
            assert forall|j: int| 0 <= j < head.len() implies (#[trigger] layers[j]).contains(
                head[j],
            ) by {
                assert(layers[j].contains(path[j]));
            }
        }
        lemma_cost_is_lower_bound(rows, layers, head, q);
        let before = layer_costs(rows, layers, i - 1);
        lemma_cheapest(rows, from, before, path[i], from.len());
        assert(cheapest(rows, from, before, path[i], from.len()) <= arrival(
            rows,
            from,
            before,
            path[i],
            q,
        ));
    }
}

/// The path traced back from a candidate that can be reached takes one state
/// from each layer up to the candidate's, ends in the candidate, and costs
/// what is kept for the candidate.
pub proof fn lemma_trace(rows: Seq<Seq<u32>>, layers: Seq<Seq<GymStateId>>, i: int, p: int)
    requires
        0 <= i < layers.len(),
        0 <= p < layers[i].len(),
        layer_costs(rows, layers, i)[p] < UNREACHABLE,
    ensures
        trace(rows, layers, i, p).len() == i + 1,
        is_partial_selection(layers, trace(rows, layers, i, p)),
        trace(rows, layers, i, p).last() == layers[i][p],
        path_cost(rows, trace(rows, layers, i, p)) == layer_costs(rows, layers, i)[p],
    decreases i,
{
    let path = trace(rows, layers, i, p);
    if i == 0 {
        assert(layers[0].contains(path[0]));
    } else {
        let from = layers[i - 1];
        let before = layer_costs(rows, layers, i - 1);
        let to = layers[i][p];
        let witness = lemma_best_among_exists(rows, from, before, to, from.len());
        let q = predecessor(rows, from, before, to);
        assert(is_best_among(rows, from, before, to, from.len(), q));
        lemma_trace(rows, layers, i - 1, q);
        let head = trace(rows, layers, i - 1, q);
        assert(path.drop_last() =~= head);
        assert forall|j: int| 0 <= j < path.len() implies (#[trigger] layers[j]).contains(
            path[j],
        ) by {
            if j < i {
                assert(layers[j].contains(head[j]));
            } else {
                assert(layers[i][p] == path[j]);
            }
        }
    }
}

/// The planned path takes one state from every layer, and the distances
/// between its neighbours add up to the cost that the planner reports.
pub proof fn lemma_plan_is_valid(rows: Seq<Seq<u32>>, layers: Seq<Seq<GymStateId>>)
    requires
        optimal_cost(rows, layers) < UNREACHABLE,
    ensures
        is_selection(layers, optimal_path(rows, layers)),
        path_cost(rows, optimal_path(rows, layers)) == optimal_cost(rows, layers),
{
    if layers.len() > 0 {
        let n = layers.len();
        let costs = layer_costs(rows, layers, n - 1);
        assert(costs.len() == layers[n - 1].len());
        assert(costs.len() > 0) by {
            if costs.len() == 0 {
                assert(least(costs, 0) == UNREACHABLE);
            }
        }
        let witness = lemma_first_least(costs, costs.len());
        let p = terminal(costs);
        assert(is_first_least(costs, costs.len(), p));
        lemma_trace(rows, layers, n - 1, p);
    }
}

/// No path that takes one state from every layer costs less than the
/// planner reports.
pub proof fn lemma_plan_is_optimal(
    rows: Seq<Seq<u32>>,
    layers: Seq<Seq<GymStateId>>,
    path: Seq<GymStateId>,
)
    requires
        is_selection(layers, path),
    ensures
        optimal_cost(rows, layers) <= path_cost(rows, path),
{
    if layers.len() > 0 {
        let n = layers.len();
        let costs = layer_costs(rows, layers, n - 1);
        let last = layers[n - 1];
        assert(last.contains(path[n - 1]));
        let p = choose|p: int| 0 <= p < last.len() && last[p] == path[n - 1];
        lemma_cost_is_lower_bound(rows, layers, path, p);
        let witness = lemma_first_least(costs, costs.len());
    }
}

/// What the planner found: the states to go through, one for each layer, and
/// what going through them costs.
#[derive(Debug, PartialEq, Eq)]
pub struct Plan {
    pub states: Vec<GymStateId>,
    pub cost: u32,
}

/// Adds two costs and stops at [`UNREACHABLE`].
fn add_capped(a: u32, b: u32) -> (sum: u32)
    ensures
        sum == capped_sum(a, b),
{
    if a > UNREACHABLE - b {
        UNREACHABLE
    } else {
        a + b
    }
}

/// Finds for `to` its predecessor among `from`, whose candidates are reached
/// at `costs`, and the cost at which `to` is reached by way of it.
fn best_arrival(
    from: &Vec<GymStateId>,
    costs: &Vec<u32>,
    to: GymStateId,
    table: &DistanceTable,
) -> (best: (u32, usize))
    requires
        from.len() == costs.len(),
    ensures
        best.0 == cheapest(table@, from@, costs@, to, from.len() as nat),
        best.0 < UNREACHABLE ==> is_best_among(
            table@,
            from@,
            costs@,
            to,
            from.len() as nat,
            best.1 as int,
        ),
{
    let mut least_cost: u32 = UNREACHABLE;
    let mut at: usize = 0;
    let mut q: usize = 0;
    while q < from.len()
        invariant
            q <= from.len() == costs.len(),
            least_cost == cheapest(table@, from@, costs@, to, q as nat),
            least_cost < UNREACHABLE ==> is_best_among(
                table@,
                from@,
                costs@,
                to,
                q as nat,
                at as int,
            ),
        decreases from.len() - q,
    {
        let here = add_capped(costs[q], table.get(from[q], to));
        assert(here == arrival(table@, from@, costs@, to, q as int));
        let ghost old_at = at as int;
        proof {
            lemma_cheapest(table@, from@, costs@, to, q as nat);
        }
        if here < least_cost || (here == least_cost && here < UNREACHABLE && from[q].0 < from[at].0) {
            least_cost = here;
            at = q;
        }
        proof {
            if least_cost < UNREACHABLE {
                assert forall|r: int|
                    0 <= r < q + 1 && #[trigger] arrival(table@, from@, costs@, to, r)
                        == cheapest(table@, from@, costs@, to, (q + 1) as nat) implies precedes(
                    from@,
                    at as int,
                    r,
                ) by {
                    if r < q && at == q {
                        if here == cheapest(table@, from@, costs@, to, q as nat) {
                            assert(precedes(from@, old_at, r));
                        }
                    } else if r < q {
                        assert(precedes(from@, old_at, r));
                    }
                }
            }
        }
        q += 1;
    }
    (least_cost, at)
}

/// Finds the least of `costs` and the first position that holds it.
fn first_least(costs: &Vec<u32>) -> (found: (u32, usize))
    ensures
        found.0 == least(costs@, costs.len() as nat),
        costs.len() > 0 ==> is_first_least(costs@, costs.len() as nat, found.1 as int),
{
    let mut least_cost: u32 = UNREACHABLE;
    let mut at: usize = 0;
    let mut p: usize = 0;
    while p < costs.len()
        invariant
            p <= costs.len(),
            least_cost == least(costs@, p as nat),
            forall|r: int| 0 <= r < p ==> least_cost <= #[trigger] costs@[r],
            p > 0 ==> is_first_least(costs@, p as nat, at as int),
        decreases costs.len() - p,
    {
        if p == 0 || costs[p] < least_cost {
            assert(least(costs@, 0) == UNREACHABLE);
            least_cost = if costs[p] < least_cost {
                costs[p]
            } else {
                least_cost
            };
            at = p;
        }
        p += 1;
    }
    (least_cost, at)
}

/// Finds the first layer that is empty.
fn first_empty(layers: &Vec<Vec<GymStateId>>) -> (found: Option<usize>)
    ensures
        match found {
            Some(i) => is_first_empty(layer_views(layers@), i as int),
            None => all_inhabited(layer_views(layers@)),
        },
{
    let mut i: usize = 0;
    while i < layers.len()
        invariant
            i <= layers.len(),
            forall|j: int| 0 <= j < i ==> (#[trigger] layer_views(layers@)[j]).len() > 0,
        decreases layers.len() - i,
    {
        if layers[i].len() == 0 {
            assert(layer_views(layers@)[i as int].len() == 0);
            return Some(i);
        }
        i += 1;
    }
    None
}

/// The rows filled so far are right: those of the layers up to `i` hold the
/// least costs of their candidates and the positions of their predecessors.
spec fn rows_filled(
    rows: Seq<Seq<u32>>,
    layers: Seq<Seq<GymStateId>>,
    costs: Seq<Vec<u32>>,
    back: Seq<Vec<usize>>,
    i: int,
) -> bool {
    &&& costs.len() == i
    &&& back.len() == i
    &&& forall|j: int| 0 <= j < i ==> (#[trigger] costs[j])@ == layer_costs(rows, layers, j)
    &&& forall|j: int| 0 <= j < i ==> (#[trigger] back[j]).len() == layers[j].len()
    &&& forall|j: int, p: int|
        1 <= j < i && 0 <= p < layers[j].len() && layer_costs(rows, layers, j)[p] < UNREACHABLE
            ==> #[trigger] back[j]@[p] as int == predecessor(
            rows,
            layers[j - 1],
            layer_costs(rows, layers, j - 1),
            layers[j][p],
        )
}

/// Picks one state from each layer so that going through them in turn costs
/// the least, where the cost is the capped sum of the distances between
/// neighbours. Of the paths with the least cost it takes the one that ends
/// in the earliest candidate of the last layer and goes back from each state
/// to the candidate with the smallest number by way of which the state is
/// reached at its least cost.
///
/// Fails with the position of the first empty layer; where no layer is
/// empty but no path holds together, with the position of the last layer.
pub fn optimal_sequence(layers: &Vec<Vec<GymStateId>>, table: &DistanceTable) -> (found: Result<
    Plan,
    usize,
>)
    ensures
        match found {
            Ok(plan) => {
                &&& all_inhabited(layer_views(layers@))
                &&& optimal_cost(table@, layer_views(layers@)) < UNREACHABLE
                &&& plan.cost == optimal_cost(table@, layer_views(layers@))
                &&& plan.states@ == optimal_path(table@, layer_views(layers@))
            },
            Err(i) => {
                ||| is_first_empty(layer_views(layers@), i as int)
                ||| {
                    &&& all_inhabited(layer_views(layers@))
                    &&& i == layers.len() - 1
                    &&& optimal_cost(table@, layer_views(layers@)) == UNREACHABLE
                }
            },
        },
{
    let n = layers.len();
    let ghost all = layer_views(layers@);
    if n == 0 {
        return Ok(Plan { states: Vec::new(), cost: 0 });
    }
    match first_empty(layers) {
        Some(i) => {
            return Err(i);
        },
        None => {},
    }
    let mut costs: Vec<Vec<u32>> = Vec::new();
    let mut back: Vec<Vec<usize>> = Vec::new();
    let mut row: Vec<u32> = Vec::new();
    let mut steps: Vec<usize> = Vec::new();
    let mut p: usize = 0;
    while p < layers[0].len()
        invariant
            n == layers.len(),
            n > 0,
            p <= layers[0].len(),
            row.len() == p,
            steps.len() == p,
            forall|r: int| 0 <= r < p ==> row@[r] == 0,
        decreases layers[0].len() - p,
    {
        row.push(0);
        steps.push(0);
        p += 1;
    }
    assert(row@ =~= layer_costs(table@, all, 0));
    costs.push(row);
    back.push(steps);
    let mut i: usize = 1;
    while i < n
        invariant
            1 <= i <= n == layers.len(),
            all == layer_views(layers@),
            rows_filled(table@, all, costs@, back@, i as int),
        decreases n - i,
    {
        let mut row: Vec<u32> = Vec::new();
        let mut steps: Vec<usize> = Vec::new();
        let ghost before = layer_costs(table@, all, i - 1);
        let mut p: usize = 0;
        while p < layers[i as usize].len()
            invariant
                1 <= i < n == layers.len(),
                all == layer_views(layers@),
                rows_filled(table@, all, costs@, back@, i as int),
                before == layer_costs(table@, all, i - 1),
                p <= layers[i as int].len(),
                row.len() == p,
                steps.len() == p,
                forall|r: int|
                    0 <= r < p ==> #[trigger] row@[r] == cheapest(
                        table@,
                        all[i - 1],
                        before,
                        all[i as int][r],
                        all[i - 1].len(),
                    ),
                forall|r: int|
                    0 <= r < p && row@[r] < UNREACHABLE ==> #[trigger] steps@[r] as int
                        == predecessor(table@, all[i - 1], before, all[i as int][r]),
            decreases layers[i as int].len() - p,
        {
            let to = layers[i][p];
            assert(costs@[i - 1]@ == before);
            assert(all[i - 1] == layers@[i - 1]@);
            let best = best_arrival(&layers[i - 1], &costs[i - 1], to, table);
            proof {
                if best.0 < UNREACHABLE {
                    let chosen = predecessor(table@, all[i - 1], before, to);
                    lemma_best_among_unique(
                        table@,
                        all[i - 1],
                        before,
                        to,
                        all[i - 1].len(),
                        best.1 as int,
                        chosen,
                    );
                }
            }
            row.push(best.0);
            steps.push(best.1);
            p += 1;
        }
        assert(row@ =~= layer_costs(table@, all, i as int));
        costs.push(row);
        back.push(steps);
        i += 1;
    }
    let found = first_least(&costs[n - 1]);
    assert(costs@[n - 1]@ == layer_costs(table@, all, n - 1));
    if found.0 == UNREACHABLE {
        return Err(n - 1);
    }
    proof {
        let last = layer_costs(table@, all, n - 1);
        let p = terminal(last);
        assert(is_first_least(last, last.len(), found.1 as int));
        lemma_first_least_unique(last, last.len(), found.1 as int, p);
    }
    let ghost path = optimal_path(table@, all);
    let mut reversed: Vec<GymStateId> = Vec::new();
    let mut at: usize = found.1;
    let mut i: usize = n - 1;
    proof {
        lemma_trace(table@, all, n - 1, at as int);
    }
    loop
        invariant_except_break
            reversed.len() == n - 1 - i,
        invariant
            i < n == layers.len(),
            all == layer_views(layers@),
            rows_filled(table@, all, costs@, back@, n as int),
            path.len() == n,
            at < all[i as int].len(),
            layer_costs(table@, all, i as int)[at as int] < UNREACHABLE,
            trace(table@, all, i as int, at as int) == path.take(i + 1),
            forall|j: int| 0 <= j < reversed.len() ==> reversed@[j] == path[n - 1 - j],
        ensures
            reversed.len() == n,
            forall|j: int| 0 <= j < n ==> reversed@[j] == path[n - 1 - j],
        decreases i,
    {
        let ghost current = trace(table@, all, i as int, at as int);
        proof {
            lemma_trace(table@, all, i as int, at as int);
            assert(current.last() == all[i as int][at as int]);
            assert(path.take(i + 1).last() == path[i as int]);
        }
        reversed.push(layers[i][at]);
        if i == 0 {
            break;
        }
        proof {
            let from = all[i - 1];
            let before = layer_costs(table@, all, i - 1);
            let to = all[i as int][at as int];
            let q = predecessor(table@, from, before, to);
            let witness = lemma_best_among_exists(table@, from, before, to, from.len());
            assert(is_best_among(table@, from, before, to, from.len(), q));
            assert(back@[i as int]@[at as int] as int == q);
            assert(current.drop_last() =~= trace(table@, all, i - 1, q));
            assert(path.take(i + 1).drop_last() =~= path.take(i as int));
        }
        at = back[i][at];
        i -= 1;
    }
    let mut states: Vec<GymStateId> = Vec::new();
    let mut k: usize = 0;
    while k < n
        invariant
            k <= n == reversed.len(),
            path.len() == n,
            states.len() == k,
            forall|j: int| 0 <= j < n ==> reversed@[j] == path[n - 1 - j],
            forall|j: int| 0 <= j < k ==> states@[j] == path[j],
        decreases n - k,
    {
        states.push(reversed[n - 1 - k]);
        k += 1;
    }
    assert(states@ =~= path);
    Ok(Plan { states, cost: found.0 })
}

} // verus!
