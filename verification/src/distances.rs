use vstd::prelude::*;
use crate::dumbbell::Loading;
use crate::graph::{
    adjacency_edges, graph, graph_edges, graph_johnson, graph_nodes, is_chain, is_shortest,
    is_walk, johnson_distances, lemma_chain_reverse, lemma_walks_are_chains, lists_distances,
    numbers, state_views, walk_length, weights_at_most,
};
use crate::gym_state::{distinct_bars, GymState, GymStateId};

verus! {

/// The distance that stands for "no way from one state to the other".
pub const UNREACHABLE: u32 = 0xffff_ffff;

/// The distance from `from` to `to` in a table given by its rows: the cell,
/// or [`UNREACHABLE`] where the table has none.
pub open spec fn distance(rows: Seq<Seq<u32>>, from: usize, to: usize) -> u32 {
    if from < rows.len() && to < rows[from as int].len() {
        rows[from as int][to as int]
    } else {
        UNREACHABLE
    }
}

/// The distance that a list of entries gives for the pair `(from, to)`: that
/// of the last entry for the pair, or [`UNREACHABLE`] where there is none.
pub open spec fn entry_distance(entries: Seq<(usize, usize, u32)>, from: usize, to: usize) -> u32
    decreases entries.len(),
{
    if entries.len() == 0 {
        UNREACHABLE
    } else if entries.last().0 == from && entries.last().1 == to {
        entries.last().2
    } else {
        entry_distance(entries.drop_last(), from, to)
    }
}

/// The rows of the table of `n` states that `entries` fill.
pub open spec fn rows_of_entries(n: nat, entries: Seq<(usize, usize, u32)>) -> Seq<Seq<u32>> {
    Seq::new(n, |u: int| Seq::new(n, |v: int| entry_distance(entries, u as usize, v as usize)))
}

/// The distance that a map of distances gives for a pair, [`UNREACHABLE`]
/// where it has none.
pub open spec fn found_distance(found: Map<(usize, usize), u32>, from: usize, to: usize) -> u32 {
    if found.contains_key((from, to)) {
        found[(from, to)]
    } else {
        UNREACHABLE
    }
}

/// The rows of the table of `n` states that a search for shortest paths
/// fills: every distance found, and [`UNREACHABLE`] everywhere where the
/// search found nothing or gave up.
pub open spec fn rows_of_found(n: nat, found: Option<Map<(usize, usize), u32>>) -> Seq<Seq<u32>> {
    Seq::new(
        n,
        |u: int|
            Seq::new(
                n,
                |v: int|
                    match found {
                        Some(map) => found_distance(map, u as usize, v as usize),
                        None => UNREACHABLE,
                    },
            ),
    )
}

/// The table of distances between `states` as the search for shortest paths
/// on their adjacency graph fills it.
pub open spec fn oracle(states: Seq<Seq<Loading>>) -> Seq<Seq<u32>> {
    rows_of_found(
        states.len(),
        johnson_distances(numbers(states.len()), adjacency_edges(states)),
    )
}

/// The table counts the steps between the states: a state is no step from
/// itself; it is as far from one state to another as back; no chain of
/// adjacent states from one state to another has fewer steps than the table
/// says; and where the table says that there is a way, there is a chain of
/// just so many steps.
pub open spec fn measures_steps(rows: Seq<Seq<u32>>, states: Seq<Seq<Loading>>) -> bool {
    &&& forall|u: usize| u < states.len() ==> #[trigger] distance(rows, u, u) == 0
    &&& forall|u: usize, v: usize|
        u < states.len() && v < states.len() ==> #[trigger] distance(rows, u, v) == distance(
            rows,
            v,
            u,
        )
    &&& forall|chain: Seq<usize>| #[trigger]
        is_chain(states, chain) ==> distance(rows, chain[0], chain[chain.len() - 1]) <= chain.len()
            - 1
    &&& forall|u: usize, v: usize|
        u < states.len() && v < states.len() && #[trigger] distance(rows, u, v) < UNREACHABLE
            ==> exists|chain: Seq<usize>| #[trigger]
            is_chain(states, chain) && chain[0] == u && chain[chain.len() - 1] == v && chain.len()
                - 1 == distance(rows, u, v)
}

/// The lengths of the shortest walks in the adjacency graph, laid out as a
/// table, count the steps between the states.
pub proof fn lemma_shortest_measure_steps(
    states: Seq<Seq<Loading>>,
    found: Map<(usize, usize), u32>,
)
    requires
        states.len() <= usize::MAX,
        forall|i: int| 0 <= i < states.len() ==> distinct_bars(#[trigger] states[i]),
        is_shortest(found, numbers(states.len()), adjacency_edges(states)),
    ensures
        measures_steps(rows_of_found(states.len(), Some(found)), states),
{
    let n = states.len();
    let nodes = numbers(n);
    let edges = adjacency_edges(states);
    let rows = rows_of_found(n, Some(found));
    assert forall|u: usize, v: usize| u < n && v < n implies #[trigger] distance(rows, u, v)
        == found_distance(found, u, v) by {
        assert(rows[u as int][v as int] == found_distance(found, u, v));
    }
    assert forall|chain: Seq<usize>| #[trigger] is_chain(states, chain) implies found.contains_key(
        (chain[0], chain[chain.len() - 1]),
    ) && found[(chain[0], chain[chain.len() - 1])] <= chain.len() - 1 by {
        lemma_walks_are_chains(states, chain);
        assert(is_walk(nodes, edges, chain));
    }
    assert forall|u: usize| u < n implies #[trigger] distance(rows, u, u) == 0 by {
        let alone = seq![u];
        assert(is_chain(states, alone));
        assert(alone[0] == u && alone[alone.len() - 1] == u);
    }
    assert forall|u: usize, v: usize| u < n && v < n && found.contains_key((u, v)) implies found.contains_key(
        (v, u),
    ) && found[(v, u)] <= found[(u, v)] by {
        let walk = choose|walk: Seq<usize>| #[trigger]
            is_walk(nodes, edges, walk) && walk[0] == u && walk[walk.len() - 1] == v
                && walk_length(edges, walk) == found[(u, v)];
        lemma_walks_are_chains(states, walk);
        lemma_chain_reverse(states, walk);
        let back = walk.reverse();
        assert(is_chain(states, back));
    }
    assert forall|u: usize, v: usize| u < n && v < n implies #[trigger] distance(rows, u, v)
        == distance(rows, v, u) by {
        assert(distance(rows, v, u) == found_distance(found, v, u));
    }
    assert forall|chain: Seq<usize>| #[trigger] is_chain(states, chain) implies distance(
        rows,
        chain[0],
        chain[chain.len() - 1],
    ) <= chain.len() - 1 by {
        assert(chain[0] < n && chain[chain.len() - 1] < n);
    }
    assert forall|u: usize, v: usize|
        u < n && v < n && #[trigger] distance(rows, u, v) < UNREACHABLE implies exists|
        chain: Seq<usize>,
    | #[trigger]
        is_chain(states, chain) && chain[0] == u && chain[chain.len() - 1] == v && chain.len() - 1
            == distance(rows, u, v) by {
        assert(found.contains_key((u, v)));
        let walk = choose|walk: Seq<usize>| #[trigger]
            is_walk(nodes, edges, walk) && walk[0] == u && walk[walk.len() - 1] == v
                && walk_length(edges, walk) == found[(u, v)];
        lemma_walks_are_chains(states, walk);
        assert(is_chain(states, walk));
    }
}

/// A list of the pairs of a map gives for every pair the distance of the map.
pub proof fn lemma_entries_list_found(
    entries: Seq<(usize, usize, u32)>,
    found: Map<(usize, usize), u32>,
    from: usize,
    to: usize,
)
    requires
        lists_distances(entries, found),
    ensures
        entry_distance(entries, from, to) == found_distance(found, from, to),
{
    lemma_entry_distance(entries, from, to);
    if found.contains_key((from, to)) {
        let k = choose|k: int|
            0 <= k < entries.len() && (#[trigger] entries[k]).0 == from && entries[k].1 == to;
        assert(found[(entries[k].0, entries[k].1)] == entries[k].2);
        let j = choose|j: int|
            0 <= j < entries.len() && (#[trigger] entries[j]).0 == from && entries[j].1 == to
                && entry_distance(entries, from, to) == entries[j].2;
        assert(found[(entries[j].0, entries[j].1)] == entries[j].2);
    } else {
        if exists|j: int|
            0 <= j < entries.len() && (#[trigger] entries[j]).0 == from && entries[j].1 == to {
            let j = choose|j: int|
                0 <= j < entries.len() && (#[trigger] entries[j]).0 == from && entries[j].1 == to;
            assert(found.contains_key((entries[j].0, entries[j].1)));
        }
    }
}

/// The distance of a list of entries is that of one of its entries for the
/// pair, and [`UNREACHABLE`] where it has none.
proof fn lemma_entry_distance(entries: Seq<(usize, usize, u32)>, from: usize, to: usize)
    ensures
        (exists|j: int|
            0 <= j < entries.len() && (#[trigger] entries[j]).0 == from && entries[j].1 == to)
            ==> (exists|j: int|
            0 <= j < entries.len() && (#[trigger] entries[j]).0 == from && entries[j].1 == to
                && entry_distance(entries, from, to) == entries[j].2),
        !(exists|j: int|
            0 <= j < entries.len() && (#[trigger] entries[j]).0 == from && entries[j].1 == to)
            ==> entry_distance(entries, from, to) == UNREACHABLE,
    decreases entries.len(),
{
    if entries.len() > 0 {
        let head = entries.drop_last();
        let last = entries.len() - 1;
        lemma_entry_distance(head, from, to);
        if entries[last].0 == from && entries[last].1 == to {
        } else {
            if exists|j: int|
                0 <= j < entries.len() && (#[trigger] entries[j]).0 == from && entries[j].1 == to {
                let j = choose|j: int|
                    0 <= j < entries.len() && (#[trigger] entries[j]).0 == from && entries[j].1
                        == to;
                assert(head[j].0 == from && head[j].1 == to);
                let i = choose|i: int|
                    0 <= i < head.len() && (#[trigger] head[i]).0 == from && head[i].1 == to
                        && entry_distance(head, from, to) == head[i].2;
                assert(entries[i].0 == from && entries[i].1 == to && entry_distance(
                    entries,
                    from,
                    to,
                ) == entries[i].2);
            } else {
                if exists|j: int|
                    0 <= j < head.len() && (#[trigger] head[j]).0 == from && head[j].1 == to {
                    let j = choose|j: int|
                        0 <= j < head.len() && (#[trigger] head[j]).0 == from && head[j].1 == to;
                    assert(entries[j].0 == from && entries[j].1 == to);
                }
            }
        }
    }
}

/// The cell of row `u` and column `v` in a square table laid out row by row.
spec fn cell_at(cells: Seq<u32>, size: int, u: int, v: int) -> u32 {
    cells[u * size + v]
}

/// Cells of a square table laid out row by row lie apart.
proof fn lemma_cell_index(n: int, u: int, v: int, x: int, y: int)
    requires
        0 <= u < n,
        0 <= v < n,
        0 <= x < n,
        0 <= y < n,
    ensures
        0 <= u * n <= u * n + v < n * n,
        u * n + v == x * n + y ==> u == x && v == y,
{
    assert(0 <= u * n) by (nonlinear_arith)
        requires
            0 <= u < n,
    ;
    assert(0 <= u * n + v < n * n) by (nonlinear_arith)
        requires
            0 <= u < n,
            0 <= v < n,
    ;
    assert(u * n + v == x * n + y ==> u == x && v == y) by (nonlinear_arith)
        requires
            0 <= u < n,
            0 <= v < n,
            0 <= x < n,
            0 <= y < n,
    ;
}

/// The distances between the states of one bar kind: for every two states the
/// least number of single plate changes that lead from one to the other, or
/// [`UNREACHABLE`].
#[derive(Debug, PartialEq, Eq)]
pub struct DistanceTable {
    size: usize,
    cells: Vec<u32>,
}

impl View for DistanceTable {
    type V = Seq<Seq<u32>>;

    closed spec fn view(&self) -> Seq<Seq<u32>> {
        Seq::new(
            self.size as nat,
            |u: int| Seq::new(self.size as nat, |v: int| cell_at(self.cells@, self.size as int, u, v)),
        )
    }
}

impl DistanceTable {
    #[verifier::type_invariant]
    spec fn square(&self) -> bool {
        self.cells@.len() == self.size * self.size
    }

    /// The table of `size` states that `entries` fill. An entry `(from, to,
    /// d)` sets the distance from `from` to `to`; a later entry for the same
    /// pair replaces an earlier one, and entries for states that the table
    /// does not have are passed over. Everything else is [`UNREACHABLE`].
    pub fn from_entries(size: usize, entries: &Vec<(usize, usize, u32)>) -> (table: Self)
        requires
            size * size <= usize::MAX,
        ensures
            table@ == rows_of_entries(size as nat, entries@),
    {
        let total = size * size;
        let mut cells: Vec<u32> = Vec::new();
        let mut i: usize = 0;
        while i < total
            invariant
                i <= total,
                cells.len() == i,
                forall|k: int| 0 <= k < i ==> cells@[k] == UNREACHABLE,
            decreases total - i,
        {
            cells.push(UNREACHABLE);
            i += 1;
        }
        let mut k: usize = 0;
        assert forall|u: int, v: int| 0 <= u < size && 0 <= v < size implies #[trigger] cell_at(
            cells@,
            size as int,
            u,
            v,
        ) == entry_distance(entries@.take(0), u as usize, v as usize) by {
            lemma_cell_index(size as int, u, v, u, v);
        }
        while k < entries.len()
            invariant
                k <= entries.len(),
                total == size * size,
                cells.len() == total,
                forall|u: int, v: int|
                    0 <= u < size && 0 <= v < size ==> #[trigger] cell_at(cells@, size as int, u, v)
                        == entry_distance(entries@.take(k as int), u as usize, v as usize),
            decreases entries.len() - k,
        {
            let (from, to, d) = entries[k];
            let ghost before = cells@;
            assert(entries@.take(k + 1).drop_last() =~= entries@.take(k as int));
            if from < size && to < size {
                proof {
                    lemma_cell_index(size as int, from as int, to as int, from as int, to as int);
                }
                cells.set(from * size + to, d);
                assert forall|u: int, v: int| 0 <= u < size && 0 <= v < size implies #[trigger] cell_at(
                    cells@,
                    size as int,
                    u,
                    v,
                ) == entry_distance(entries@.take(k + 1), u as usize, v as usize) by {
                    lemma_cell_index(size as int, u, v, from as int, to as int);
                    assert(cell_at(before, size as int, u, v) == entry_distance(
                        entries@.take(k as int),
                        u as usize,
                        v as usize,
                    ));
                }
            }
            k += 1;
        }
        assert(entries@.take(entries.len() as int) =~= entries@);
        let table = DistanceTable { size, cells };
        assert(table@ =~~= rows_of_entries(size as nat, entries@));
        table
    }

    /// The number of states that the table knows.
    pub fn len(&self) -> (n: usize)
        ensures
            n == self@.len(),
    {
        self.size
    }

    /// The distance from `from` to `to`, [`UNREACHABLE`] where there is no
    /// way or the table does not have the states.
    pub fn get(&self, from: GymStateId, to: GymStateId) -> (d: u32)
        ensures
            d == distance(self@, from.0, to.0),
    {
        proof {
            use_type_invariant(self);
        }
        let total = self.cells.len();
        if from.0 < self.size && to.0 < self.size {
            assert(total == self.size * self.size);
            proof {
                lemma_cell_index(
                    self.size as int,
                    from.0 as int,
                    to.0 as int,
                    from.0 as int,
                    to.0 as int,
                );
            }
            self.cells[from.0 * self.size + to.0]
        } else {
            UNREACHABLE
        }
    }

    /// Measures the distances between `states`: builds their adjacency
    /// graph and has the shortest paths between all pairs searched.
    pub fn measure(states: &Vec<GymState>) -> (table: Self)
        requires
            states.len() * states.len() <= usize::MAX,
            states.len() < u32::MAX,
        ensures
            table@ == oracle(state_views(states@)),
            measures_steps(table@, state_views(states@)),
    {
        let g = graph(states);
        proof {
            assert(weights_at_most(graph_edges(g), 1));
            assert(graph_nodes(g).len() == states.len());
        }
        let found = graph_johnson(&g);
        let entries = match found {
            Some(entries) => entries,
            None => Vec::new(),
        };
        let table = DistanceTable::from_entries(states.len(), &entries);
        proof {
            let views = state_views(states@);
            let named = johnson_distances(numbers(views.len()), adjacency_edges(views));
            assert forall|u: int, v: int|
                0 <= u < states.len() && 0 <= v < states.len() implies #[trigger] table@[u][v]
                == oracle(views)[u][v] by {
                match named {
                    Some(map) => {
                        lemma_entries_list_found(entries@, map, u as usize, v as usize);
                    },
                    None => {},
                }
            }
            assert(table@ =~~= oracle(views));
            lemma_shortest_measure_steps(views, named->0);
        }
        table
    }
}

} // verus!
