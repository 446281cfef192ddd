use vstd::prelude::*;
use petgraph::graphmap::GraphMap;
use petgraph::graphmap::UnGraphMap;
use petgraph::Undirected;
use crate::dumbbell::Loading;
use crate::gym_state::{
    distinct_bars, lemma_states_adjacent_irreflexive, lemma_states_adjacent_symmetric,
    states_adjacent, GymState,
};

verus! {

/// Makes `petgraph::Undirected`, the marker of graphs whose edges have no
/// direction, known to the verifier. Nothing is said of what it holds.
#[verifier::external_type_specification]
#[verifier::external_body]
pub struct ExUndirected(Undirected);

/// Makes `petgraph::graphmap::GraphMap` known to the verifier. Nothing is
/// said of what it holds: what the library needs of a graph, its nodes and
/// its edges, goes by the names `graph_nodes` and `graph_edges`.
#[verifier::external_type_specification]
#[verifier::external_body]
#[verifier::reject_recursive_types(N)]
#[verifier::reject_recursive_types(E)]
#[verifier::reject_recursive_types(Ty)]
#[verifier::reject_recursive_types(S)]
pub struct ExGraphMap<N, E, Ty, S: core::hash::BuildHasher>(GraphMap<N, E, Ty, S>);

/// The nodes of a graph, in the order in which they were added.
pub uninterp spec fn graph_nodes(g: UnGraphMap<usize, u32>) -> Seq<usize>;

/// The edges of a graph with their weights. An edge between `a` and `b` is
/// kept under the pair with the smaller node first.
pub uninterp spec fn graph_edges(g: UnGraphMap<usize, u32>) -> Map<(usize, usize), u32>;

/// What `petgraph::algo::johnson` finds on an undirected graph with these
/// nodes and weighted edges: nothing where it reports a negative cycle,
/// else for each pair of nodes joined by a path the length of a shortest one.
pub uninterp spec fn johnson_distances(nodes: Seq<usize>, edges: Map<(usize, usize), u32>) -> Option<
    Map<(usize, usize), u32>,
>;

/// A graph without edges.
pub open spec fn no_edges() -> Map<(usize, usize), u32> {
    Map::empty()
}

/// `nodes` with `n` added behind unless it is there.
pub open spec fn with_node(nodes: Seq<usize>, n: usize) -> Seq<usize> {
    if nodes.contains(n) {
        nodes
    } else {
        nodes.push(n)
    }
}

/// The pair under which an undirected graph keeps the edge between `a` and
/// `b`.
pub open spec fn edge_key(a: usize, b: usize) -> (usize, usize) {
    if a <= b {
        (a, b)
    } else {
        (b, a)
    }
}

/// Every edge weighs at most `bound`.
pub open spec fn weights_at_most(edges: Map<(usize, usize), u32>, bound: u32) -> bool {
    forall|k: (usize, usize)| edges.contains_key(k) ==> #[trigger] edges[k] <= bound
}

/// `entries` lists what `found` maps: each entry is a pair of `found` with
/// its distance, and every pair of `found` has an entry.
pub open spec fn lists_distances(
    entries: Seq<(usize, usize, u32)>,
    found: Map<(usize, usize), u32>,
) -> bool {
    &&& forall|k: int|
        0 <= k < entries.len() ==> found.contains_key(((#[trigger] entries[k]).0, entries[k].1))
            && found[(entries[k].0, entries[k].1)] == entries[k].2
    &&& forall|a: usize, b: usize| #[trigger]
        found.contains_key((a, b)) ==> exists|k: int|
            0 <= k < entries.len() && (#[trigger] entries[k]).0 == a && entries[k].1 == b
}

/// A walk in a graph: nodes of the graph in a row, each joined to the next
/// by an edge.
pub open spec fn is_walk(nodes: Seq<usize>, edges: Map<(usize, usize), u32>, walk: Seq<usize>) -> bool {
    &&& walk.len() > 0
    &&& forall|i: int| 0 <= i < walk.len() ==> nodes.contains(#[trigger] walk[i])
    &&& forall|i: int|
        0 <= i < walk.len() - 1 ==> edges.contains_key(edge_key(#[trigger] walk[i], walk[i + 1]))
}

/// The length of a walk: the weights of its edges added up.
pub open spec fn walk_length(edges: Map<(usize, usize), u32>, walk: Seq<usize>) -> nat
    decreases walk.len(),
{
    if walk.len() <= 1 {
        0
    } else {
        walk_length(edges, walk.drop_last()) + edges[edge_key(
            walk[walk.len() - 2],
            walk[walk.len() - 1],
        )] as nat
    }
}

/// `found` holds the lengths of the shortest walks: a pair that it holds
/// has a walk from its first node to its second of just that length, and
/// for every walk it holds the pair of the walk's ends with a length that is
/// no greater than the walk's.
pub open spec fn is_shortest(
    found: Map<(usize, usize), u32>,
    nodes: Seq<usize>,
    edges: Map<(usize, usize), u32>,
) -> bool {
    &&& forall|a: usize, b: usize| #[trigger]
        found.contains_key((a, b)) ==> exists|walk: Seq<usize>| #[trigger]
            is_walk(nodes, edges, walk) && walk[0] == a && walk[walk.len() - 1] == b
                && walk_length(edges, walk) == found[(a, b)]
    &&& forall|walk: Seq<usize>| #[trigger]
        is_walk(nodes, edges, walk) ==> found.contains_key((walk[0], walk[walk.len() - 1]))
            && found[(walk[0], walk[walk.len() - 1])] <= walk_length(edges, walk)
}

/// Calls `UnGraphMap::new`. Trusted: the new graph has no node and no edge.
#[verifier::external_body]
pub(crate) fn graph_new() -> (g: UnGraphMap<usize, u32>)
    ensures
        graph_nodes(g) == Seq::<usize>::empty(),
        graph_edges(g) == no_edges(),
{
    UnGraphMap::new()
}

/// Calls `GraphMap::add_node`. Trusted: the node is added unless the graph
/// has it, and the edges stay.
#[verifier::external_body]
pub(crate) fn graph_add_node(g: &mut UnGraphMap<usize, u32>, n: usize)
    ensures
        graph_nodes(*final(g)) == with_node(graph_nodes(*old(g)), n),
        graph_edges(*final(g)) == graph_edges(*old(g)),
{
    g.add_node(n);
}

/// Calls `GraphMap::add_edge`. Trusted: the edge is kept under the pair of
/// its ends, smaller first, with the new weight, and the ends are added to
/// the nodes unless the graph has them.
#[verifier::external_body]
pub(crate) fn graph_add_edge(g: &mut UnGraphMap<usize, u32>, a: usize, b: usize, weight: u32)
    ensures
        graph_nodes(*final(g)) == with_node(with_node(graph_nodes(*old(g)), a), b),
        graph_edges(*final(g)) == graph_edges(*old(g)).insert(edge_key(a, b), weight),
{
    g.add_edge(a, b, weight);
}

/// Calls `petgraph::algo::johnson` with each edge's weight as its cost and
/// lists the distances found, in no particular order. The graph is small
/// enough for the square of its node count to fit `usize`, and no path in it
/// is as long as `u32::MAX`. Trusted: on such a graph the search always
/// answers; the entries are the pairs of `johnson_distances`; and these are
/// the lengths of the shortest walks between the nodes that a walk joins,
/// a node and itself among them.
#[verifier::external_body]
pub(crate) fn graph_johnson(g: &UnGraphMap<usize, u32>) -> (found: Option<Vec<(usize, usize, u32)>>)
    requires
        graph_nodes(*g).len() * graph_nodes(*g).len() <= usize::MAX,
        graph_nodes(*g).len() < u32::MAX,
        weights_at_most(graph_edges(*g), 1),
    ensures
        found is Some,
        found is Some == johnson_distances(graph_nodes(*g), graph_edges(*g)) is Some,
        found is Some ==> lists_distances(
            found->0@,
            johnson_distances(graph_nodes(*g), graph_edges(*g))->0,
        ),
        found is Some ==> is_shortest(
            johnson_distances(graph_nodes(*g), graph_edges(*g))->0,
            graph_nodes(*g),
            graph_edges(*g),
        ),
{
    match petgraph::algo::johnson(g, |edge| *edge.2) {
        Ok(distances) => Some(distances.into_iter().map(|((a, b), d)| (a, b, d)).collect()),
        Err(_) => None,
    }
}

/// The views of a sequence of states.
pub open spec fn state_views(states: Seq<GymState>) -> Seq<Seq<Loading>> {
    Seq::new(states.len(), |i: int| states[i]@)
}

/// The numbers `0..n` in ascending order.
pub open spec fn numbers(n: nat) -> Seq<usize> {
    Seq::new(n, |i: int| i as usize)
}

/// The edges of the adjacency graph: one of weight 1 for every two states
/// that are adjacent, kept under the pair of their numbers, smaller first.
pub open spec fn adjacency_edges(states: Seq<Seq<Loading>>) -> Map<(usize, usize), u32> {
    Map::new(
        |k: (usize, usize)|
            k.0 < k.1 < states.len() && states_adjacent(states[k.0 as int], states[k.1 as int]),
        |k: (usize, usize)| 1u32,
    )
}

/// The edges among the pairs that come before `(i, j)` when pairs are taken
/// row by row.
spec fn edges_before(states: Seq<Seq<Loading>>, i: int, j: int) -> Map<(usize, usize), u32> {
    Map::new(
        |k: (usize, usize)|
            k.0 < k.1 < states.len() && (k.0 < i || (k.0 == i && k.1 < j)) && states_adjacent(
                states[k.0 as int],
                states[k.1 as int],
            ),
        |k: (usize, usize)| 1u32,
    )
}

/// Builds the adjacency graph of `states`: a node for each state, named by
/// its position, and an edge of weight 1 between every two adjacent states.
pub fn graph(states: &Vec<GymState>) -> (g: UnGraphMap<usize, u32>)
    ensures
        graph_nodes(g) == numbers(states.len() as nat),
        graph_edges(g) == adjacency_edges(state_views(states@)),
        forall|i: int| 0 <= i < states.len() ==> distinct_bars(#[trigger] state_views(states@)[i]),
{
    let n = states.len();
    let ghost views = state_views(states@);
    let mut g = graph_new();
    let mut i: usize = 0;
    while i < n
        invariant
            i <= n == states.len(),
            graph_nodes(g) == numbers(i as nat),
            graph_edges(g) == no_edges(),
            forall|k: int| 0 <= k < i ==> distinct_bars(#[trigger] state_views(states@)[k]),
        decreases n - i,
    {
        let bars = states[i].len();
        assert(state_views(states@)[i as int] == states@[i as int]@);
        assert(!numbers(i as nat).contains(i)) by {
            if numbers(i as nat).contains(i) {
                let k = choose|k: int| 0 <= k < numbers(i as nat).len() && numbers(i as nat)[k] == i;
                assert(false);
            }
        }
        graph_add_node(&mut g, i);
        assert(graph_nodes(g) =~= numbers((i + 1) as nat));
        i += 1;
    }
    assert(graph_edges(g) =~= edges_before(views, 0, 0));
    let mut i: usize = 0;
    while i < n
        invariant
            i <= n == states.len(),
            views == state_views(states@),
            graph_nodes(g) == numbers(n as nat),
            graph_edges(g) == edges_before(views, i as int, 0),
        decreases n - i,
    {
        let mut j: usize = i + 1;
        assert(graph_edges(g) =~= edges_before(views, i as int, j as int));
        while j < n
            invariant
                i < j <= n == states.len(),
                views == state_views(states@),
                graph_nodes(g) == numbers(n as nat),
                graph_edges(g) == edges_before(views, i as int, j as int),
            decreases n - j,
        {
            if states[i].adjacent(&states[j]) {
                assert(numbers(n as nat)[i as int] == i && numbers(n as nat)[j as int] == j);
                assert(numbers(n as nat).contains(i) && numbers(n as nat).contains(j));
                graph_add_edge(&mut g, i, j, 1);
            }
            assert(graph_edges(g) =~= edges_before(views, i as int, j + 1));
            j += 1;
        }
        assert(graph_edges(g) =~= edges_before(views, i + 1, 0));
        i += 1;
    }
    assert(graph_edges(g) =~= adjacency_edges(views));
    g
}

/// A chain of states: numbers of states in a row, each state adjacent to the
/// next.
pub open spec fn is_chain(states: Seq<Seq<Loading>>, chain: Seq<usize>) -> bool {
    &&& chain.len() > 0
    &&& forall|i: int| 0 <= i < chain.len() ==> (#[trigger] chain[i]) < states.len()
    &&& forall|i: int|
        0 <= i < chain.len() - 1 ==> states_adjacent(
            states[(#[trigger] chain[i]) as int],
            states[chain[i + 1] as int],
        )
}

/// In the adjacency graph two states are joined by an edge just when they
/// are adjacent, and the edge weighs 1.
pub proof fn lemma_adjacency_edge(states: Seq<Seq<Loading>>, a: usize, b: usize)
    requires
        a < states.len(),
        b < states.len(),
        states.len() <= usize::MAX,
        forall|i: int| 0 <= i < states.len() ==> distinct_bars(#[trigger] states[i]),
    ensures
        adjacency_edges(states).contains_key(edge_key(a, b)) == states_adjacent(
            states[a as int],
            states[b as int],
        ),
        adjacency_edges(states).contains_key(edge_key(a, b)) ==> adjacency_edges(states)[edge_key(
            a,
            b,
        )] == 1,
{
    lemma_states_adjacent_symmetric(states[a as int], states[b as int]);
    if a == b {
        assert(distinct_bars(states[a as int]));
        lemma_states_adjacent_irreflexive(states[a as int]);
    }
}

/// The walks of the adjacency graph are the chains of states, and a walk is
/// as long as the chain has steps.
pub proof fn lemma_walks_are_chains(states: Seq<Seq<Loading>>, walk: Seq<usize>)
    requires
        states.len() <= usize::MAX,
        forall|i: int| 0 <= i < states.len() ==> distinct_bars(#[trigger] states[i]),
    ensures
        is_walk(numbers(states.len()), adjacency_edges(states), walk) == is_chain(states, walk),
        is_chain(states, walk) ==> walk_length(adjacency_edges(states), walk) == walk.len() - 1,
    decreases walk.len(),
{
    let nodes = numbers(states.len());
    let edges = adjacency_edges(states);
    if is_walk(nodes, edges, walk) {
        assert forall|i: int| 0 <= i < walk.len() implies (#[trigger] walk[i]) < states.len() by {
            assert(nodes.contains(walk[i]));
            let k = choose|k: int| 0 <= k < nodes.len() && nodes[k] == walk[i];
        }
        assert forall|i: int| 0 <= i < walk.len() - 1 implies states_adjacent(
            states[(#[trigger] walk[i]) as int],
            states[walk[i + 1] as int],
        ) by {
            assert(walk[i + 1] < states.len());
            lemma_adjacency_edge(states, walk[i], walk[i + 1]);
        }
    }
    if is_chain(states, walk) {
        assert forall|i: int| 0 <= i < walk.len() implies nodes.contains(#[trigger] walk[i]) by {
            assert(nodes[walk[i] as int] == walk[i]);
        }
        assert forall|i: int| 0 <= i < walk.len() - 1 implies edges.contains_key(
            edge_key(#[trigger] walk[i], walk[i + 1]),
        ) by {
            assert(walk[i + 1] < states.len());
            lemma_adjacency_edge(states, walk[i], walk[i + 1]);
        }
        if walk.len() > 1 {
            let head = walk.drop_last();
            assert(is_chain(states, head)) by {
                assert forall|i: int| 0 <= i < head.len() - 1 implies states_adjacent(
                    states[(#[trigger] head[i]) as int],
                    states[head[i + 1] as int],
                ) by {
                    assert(walk[i] == head[i]);
                }
            }
            lemma_walks_are_chains(states, head);
            let last = walk.len() - 2;
            assert(walk[last] < states.len() && walk[last + 1] < states.len());
            assert(states_adjacent(states[walk[last] as int], states[walk[last + 1] as int]));
            lemma_adjacency_edge(states, walk[last], walk[last + 1]);
        }
    }
}

/// A chain gone through backwards is a chain.
pub proof fn lemma_chain_reverse(states: Seq<Seq<Loading>>, chain: Seq<usize>)
    requires
        is_chain(states, chain),
    ensures
        is_chain(states, chain.reverse()),
        chain.reverse().len() == chain.len(),
        chain.reverse()[0] == chain[chain.len() - 1],
        chain.reverse()[chain.len() - 1] == chain[0],
{
    let back = chain.reverse();
    assert forall|i: int| 0 <= i < back.len() - 1 implies states_adjacent(
        states[(#[trigger] back[i]) as int],
        states[back[i + 1] as int],
    ) by {
        let k = chain.len() - 2 - i;
        assert(states_adjacent(states[chain[k] as int], states[chain[k + 1] as int]));
        lemma_states_adjacent_symmetric(states[chain[k] as int], states[chain[k + 1] as int]);
    }
}

} // verus!
