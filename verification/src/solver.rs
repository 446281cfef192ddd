use vstd::prelude::*;
use crate::bar::Bar;
use crate::bar_kind::BarKind;
use crate::combinatorics::{is_ranking, lemma_ranking_in_range, order_by_key, ranking};
use crate::distances::UNREACHABLE;
use crate::dumbbell::{Dumbbell, Loading};
use crate::enumerate::loadings;
use crate::graph::state_views;
use crate::gym::Gym;
use crate::gym_error::GymError;
use crate::gym_state::{plate_count, GymState, GymStateId};
use crate::planner::{
    all_inhabited, is_first_empty, is_selection, layer_views, lemma_plan_is_optimal,
    lemma_plan_is_valid, optimal_cost, optimal_path, optimal_sequence, path_cost, Plan,
};
use crate::requirement::Requirement;
use crate::states::loads_bars;
use crate::workout::{distinct_entries, entry_views, Workout};

verus! {

/// A state meets a requirement when one of its bars carries a loading that
/// meets it.
pub open spec fn satisfies(state: Seq<Loading>, requirement: Requirement) -> bool {
    exists|j: int| 0 <= j < state.len() && requirement.spec_matches(#[trigger] state[j])
}

/// The numbers below `n` of the states that meet the requirement, ascending.
pub open spec fn matching(states: Seq<Seq<Loading>>, requirement: Requirement, n: nat) -> Seq<usize>
    decreases n,
{
    if n == 0 {
        Seq::empty()
    } else {
        let before = matching(states, requirement, (n - 1) as nat);
        if satisfies(states[n - 1], requirement) {
            before.push((n - 1) as usize)
        } else {
            before
        }
    }
}

/// For each of the numbered states its plate count.
pub open spec fn plate_keys(states: Seq<Seq<Loading>>, ids: Seq<usize>) -> Seq<u64> {
    Seq::new(ids.len(), |i: int| plate_count(states[ids[i] as int]) as u64)
}

/// The candidates for a requirement: the states that meet it, those with
/// fewer plates first, and states with equally many plates by their numbers.
pub open spec fn candidates_of(states: Seq<Seq<Loading>>, requirement: Requirement) -> Seq<
    GymStateId,
> {
    let ids = matching(states, requirement, states.len());
    let order = ranking(plate_keys(states, ids));
    Seq::new(ids.len(), |k: int| GymStateId(ids[order[k] as int]))
}

/// The state `a` comes before the state `b` in a list of candidates: it
/// mounts fewer plates, or as many and has the smaller number.
pub open spec fn simpler(states: Seq<Seq<Loading>>, a: GymStateId, b: GymStateId) -> bool {
    plate_count(states[a.0 as int]) < plate_count(states[b.0 as int]) || (plate_count(
        states[a.0 as int],
    ) == plate_count(states[b.0 as int]) && a.0 < b.0)
}

/// `list` is the list of candidates for the requirement: every entry is a
/// state that meets it, every state that meets it is an entry, and the
/// simpler of two entries comes first.
pub open spec fn is_candidate_list(
    list: Seq<GymStateId>,
    states: Seq<Seq<Loading>>,
    requirement: Requirement,
) -> bool {
    &&& forall|k: int|
        0 <= k < list.len() ==> (#[trigger] list[k]).0 < states.len() && satisfies(
            states[list[k].0 as int],
            requirement,
        )
    &&& forall|state: GymStateId|
        state.0 < states.len() && satisfies(states[state.0 as int], requirement)
            ==> #[trigger] list.contains(state)
    &&& forall|k: int, l: int|
        0 <= k < l < list.len() ==> simpler(states, #[trigger] list[k], #[trigger] list[l])
}

/// For each requirement its candidates.
pub open spec fn layers_of(states: Seq<Seq<Loading>>, requirements: Seq<Requirement>) -> Seq<
    Seq<GymStateId>,
> {
    Seq::new(requirements.len(), |i: int| candidates_of(states, requirements[i]))
}

/// Whether one of the state's bars carries a loading that meets the
/// requirement.
fn state_matches(state: &GymState, requirement: Requirement) -> (b: bool)
    ensures
        b == satisfies(state@, requirement),
{
    let n = state.len();
    let mut j: usize = 0;
    while j < n
        invariant
            j <= n == state@.len(),
            forall|i: int| 0 <= i < j ==> !requirement.spec_matches(#[trigger] state@[i]),
        decreases n - j,
    {
        if requirement.matches(state.at(j)) {
            return true;
        }
        j += 1;
    }
    false
}

impl Gym {
    /// Lists the states that meet the requirement, among the states of the
    /// requirement's kind: those with fewer plates first, and states with
    /// equally many plates by their numbers.
    pub fn find_states_for_requirement(&self, requirement: Requirement) -> (list: Vec<GymStateId>)
        requires
            self.wf(),
        ensures
            list@ == candidates_of(self.spec_states(requirement.bar_kind), requirement),
            is_candidate_list(list@, self.spec_states(requirement.bar_kind), requirement),
    {
        self.find_states_of_kind(requirement.bar_kind(), requirement)
    }

    /// Lists the states of `kind` that meet the requirement: those with
    /// fewer plates first, and states with equally many plates by their
    /// numbers. No state of a kind meets a requirement for the other kind.
    pub fn find_states_of_kind(&self, kind: BarKind, requirement: Requirement) -> (list: Vec<
        GymStateId,
    >)
        requires
            self.wf(),
        ensures
            list@ == candidates_of(self.spec_states(kind), requirement),
            is_candidate_list(list@, self.spec_states(kind), requirement),
            requirement.bar_kind != kind ==> list.len() == 0,
    {
        let table = self.table(kind);
        let ghost states = self.spec_states(kind);
        let n = table.states.len();
        let mut ids: Vec<usize> = Vec::new();
        let mut keys: Vec<u64> = Vec::new();
        let mut k: usize = 0;
        while k < n
            invariant
                k <= n == table.states.len(),
                states == state_views(table.states@),
                table.wf(kind),
                ids@ == matching(states, requirement, k as nat),
                keys.len() == ids.len(),
                forall|i: int| 0 <= i < ids.len() ==> (#[trigger] ids@[i]) < k,
                forall|i: int| 0 <= i < ids.len() ==> satisfies(states[(#[trigger] ids@[i]) as int], requirement),
                forall|id: usize|
                    id < k && satisfies(states[id as int], requirement) ==> #[trigger] ids@.contains(
                        id,
                    ),
                forall|i: int|
                    0 <= i < ids.len() ==> (#[trigger] keys@[i]) == plate_count(
                        states[ids@[i] as int],
                    ),
            decreases n - k,
        {
            assert(states[k as int] == table.states@[k as int]@);
            let ghost before = ids@;
            if state_matches(&table.states[k], requirement) {
                ids.push(k);
                keys.push(table.plates[k]);
                assert forall|id: usize|
                    id < k + 1 && satisfies(states[id as int], requirement) implies #[trigger] ids@.contains(
                    id,
                ) by {
                    if id < k {
                        assert(before.contains(id));
                        let i = choose|i: int| 0 <= i < before.len() && before[i] == id;
                        assert(ids@[i] == id);
                    } else {
                        assert(ids@[ids.len() - 1] == id);
                    }
                }
            }
            k += 1;
        }
        assert(keys@ =~= plate_keys(states, ids@));
        let order = order_by_key(&keys);
        let mut list: Vec<GymStateId> = Vec::new();
        let mut i: usize = 0;
        while i < order.len()
            invariant
                i <= order.len() == ids.len(),
                keys.len() == ids.len(),
                is_ranking(order@, keys@),
                list.len() == i,
                forall|l: int| 0 <= l < i ==> (#[trigger] list@[l]) == GymStateId(ids@[order@[l] as int]),
            decreases order.len() - i,
        {
            assert(order@[i as int] < keys.len());
            list.push(GymStateId(ids[order[i]]));
            i += 1;
        }
        assert(list@ =~= candidates_of(states, requirement));
        proof {
            assert forall|k: int| 0 <= k < list@.len() implies (#[trigger] list@[k]).0 < states.len()
                && satisfies(states[list@[k].0 as int], requirement) by {
                let at = order@[k] as int;
                assert(ids@[at] < n);
            }
            assert forall|state: GymStateId|
                state.0 < states.len() && satisfies(
                    states[state.0 as int],
                    requirement,
                ) implies #[trigger] list@.contains(state) by {
                let id = state.0;
                assert(ids@.contains(id));
                let at = choose|at: int| 0 <= at < ids@.len() && ids@[at] == id;
                assert(order@.contains(at as usize));
                let l = choose|l: int| 0 <= l < order@.len() && order@[l] == at as usize;
                assert(list@[l] == state);
            }
            assert forall|k: int, l: int| 0 <= k < l < list@.len() implies simpler(
                states,
                #[trigger] list@[k],
                #[trigger] list@[l],
            ) by {
                let a = order@[k] as int;
                let b = order@[l] as int;
                assert(keys@[a] < keys@[b] || (keys@[a] == keys@[b] && a < b));
                if keys@[a] == keys@[b] {
                    lemma_matching_ascending(states, requirement, n as nat, a, b);
                }
            }
            if list.len() > 0 {
                let at = list@[0].0 as int;
                assert(satisfies(states[at], requirement));
                let j = choose|j: int|
                    0 <= j < states[at].len() && requirement.spec_matches(#[trigger] states[at][j]);
                assert(states[at] == table.states@[at]@);
                assert(loads_bars(table.states@[at]@, table.bars@));
                assert(table.bars@[j].kind == kind);
            }
        }
        list
    }
}

/// The numbers of the matching states climb.
pub proof fn lemma_matching_ascending(
    states: Seq<Seq<Loading>>,
    requirement: Requirement,
    n: nat,
    a: int,
    b: int,
)
    requires
        0 <= a < b < matching(states, requirement, n).len(),
        n <= usize::MAX,
    ensures
        matching(states, requirement, n)[a] < matching(states, requirement, n)[b] < n,
    decreases n,
{
    if n > 0 {
        let before = matching(states, requirement, (n - 1) as nat);
        if b < before.len() {
            lemma_matching_ascending(states, requirement, (n - 1) as nat, a, b);
        } else {
            lemma_matching_below(states, requirement, (n - 1) as nat, a);
        }
    }
}

/// The numbers of the matching states below `n` are below `n`.
pub proof fn lemma_matching_below(
    states: Seq<Seq<Loading>>,
    requirement: Requirement,
    n: nat,
    a: int,
)
    requires
        0 <= a < matching(states, requirement, n).len(),
        n <= usize::MAX,
    ensures
        matching(states, requirement, n)[a] < n,
    decreases n,
{
    if n > 0 {
        let before = matching(states, requirement, (n - 1) as nat);
        if a < before.len() {
            lemma_matching_below(states, requirement, (n - 1) as nat, a);
        }
    }
}

/// The requirements that ask for a bar of `kind`, in their order.
pub open spec fn of_kind(requirements: Seq<Requirement>, kind: BarKind) -> Seq<Requirement>
    decreases requirements.len(),
{
    if requirements.len() == 0 {
        Seq::empty()
    } else {
        let before = of_kind(requirements.drop_last(), kind);
        if requirements.last().bar_kind == kind {
            before.push(requirements.last())
        } else {
            before
        }
    }
}

/// The loadings that the bar at `j` contributes over the first `n` steps of
/// a path: at each step the loading that the state of the step puts on the
/// bar, where it meets the requirement of the step.
pub open spec fn lifts(
    states: Seq<Seq<Loading>>,
    path: Seq<GymStateId>,
    requirements: Seq<Requirement>,
    j: int,
    n: nat,
) -> Seq<Loading>
    decreases n,
{
    if n == 0 {
        Seq::empty()
    } else {
        let before = lifts(states, path, requirements, j, (n - 1) as nat);
        let loading = states[path[n - 1].0 as int][j];
        if requirements[n - 1].spec_matches(loading) {
            before.push(loading)
        } else {
            before
        }
    }
}

/// The entries of a workout for the first `m` bars: for each bar that
/// contributes a loading the bar with its loadings.
pub open spec fn entries_of(
    bars: Seq<Bar>,
    states: Seq<Seq<Loading>>,
    path: Seq<GymStateId>,
    requirements: Seq<Requirement>,
    m: nat,
) -> Seq<(Bar, Seq<Loading>)>
    decreases m,
{
    if m == 0 {
        Seq::empty()
    } else {
        let before = entries_of(bars, states, path, requirements, (m - 1) as nat);
        let list = lifts(states, path, requirements, m - 1, requirements.len());
        if list.len() > 0 {
            before.push((bars[m - 1], list))
        } else {
            before
        }
    }
}

/// The planner fails on the layers with the requirement at `i`: the layer at
/// `i` is the first that is empty, or no layer is empty, nothing connects
/// them, and `i` is the last.
pub open spec fn fails_at(rows: Seq<Seq<u32>>, layers: Seq<Seq<GymStateId>>, i: int) -> bool {
    ||| is_first_empty(layers, i)
    ||| {
        &&& all_inhabited(layers)
        &&& i == layers.len() - 1
        &&& optimal_cost(rows, layers) == UNREACHABLE
    }
}

/// The requirements of a kind are requirements of the kind, taken from the
/// list.
pub proof fn lemma_of_kind(requirements: Seq<Requirement>, kind: BarKind)
    ensures
        of_kind(requirements, kind).len() <= requirements.len(),
        forall|i: int|
            0 <= i < of_kind(requirements, kind).len() ==> (#[trigger] of_kind(
                requirements,
                kind,
            )[i]).bar_kind == kind && requirements.contains(of_kind(requirements, kind)[i]),
    decreases requirements.len(),
{
    if requirements.len() > 0 {
        let head = requirements.drop_last();
        lemma_of_kind(head, kind);
        let now = of_kind(requirements, kind);
        let before = of_kind(head, kind);
        assert forall|i: int| 0 <= i < now.len() implies (#[trigger] now[i]).bar_kind == kind
            && requirements.contains(now[i]) by {
            if i < before.len() {
                assert(head.contains(before[i]));
                let k = choose|k: int| 0 <= k < head.len() && head[k] == before[i];
                assert(requirements[k] == now[i]);
            } else {
                assert(requirements[requirements.len() - 1] == now[i]);
            }
        }
    }
}

impl Gym {
    /// Picks for each requirement a state of `bar_kind` that meets it so
    /// that going through the states in turn takes the fewest plate changes.
    /// A requirement for the other kind is met by no state of `bar_kind`.
    ///
    /// Fails with the first requirement that no state meets; where every
    /// requirement can be met but no sequence of states holds together, with
    /// the last requirement.
    pub fn find_optimal_sequence(&self, bar_kind: BarKind, requirements: &[Requirement]) -> (found:
        Result<Plan, GymError>)
        requires
            self.wf(),
        ensures
            match found {
                Ok(plan) => {
                    let states = self.spec_states(bar_kind);
                    let rows = self.spec_distances(bar_kind);
                    let layers = layers_of(states, requirements@);
                    &&& all_inhabited(layers)
                    &&& optimal_cost(rows, layers) < UNREACHABLE
                    &&& plan.cost == optimal_cost(rows, layers)
                    &&& plan.states@ == optimal_path(rows, layers)
                    &&& is_selection(layers, plan.states@)
                    &&& path_cost(rows, plan.states@) == plan.cost
                    &&& forall|i: int|
                        0 <= i < requirements.len() ==> (#[trigger] plan.states@[i]).0
                            < states.len() && satisfies(
                            states[plan.states@[i].0 as int],
                            requirements[i],
                        )
                    &&& forall|path: Seq<GymStateId>| #[trigger]
                        is_selection(layers, path) ==> plan.cost <= path_cost(rows, path)
                },
                Err(error) => exists|i: int|
                    0 <= i < requirements.len() && error == GymError::ImpossibleRequirement(
                        #[trigger] requirements[i],
                    ) && fails_at(
                        self.spec_distances(bar_kind),
                        layers_of(self.spec_states(bar_kind), requirements@),
                        i,
                    ),
            },
    {
        let table = self.table(bar_kind);
        let ghost states = self.spec_states(bar_kind);
        let ghost rows = self.spec_distances(bar_kind);
        let ghost wanted = layers_of(states, requirements@);
        let mut layers: Vec<Vec<GymStateId>> = Vec::new();
        let mut i: usize = 0;
        while i < requirements.len()
            invariant
                i <= requirements.len(),
                self.wf(),
                states == self.spec_states(bar_kind),
                wanted == layers_of(states, requirements@),
                layers.len() == i,
                forall|k: int| 0 <= k < i ==> (#[trigger] layers@[k])@ == wanted[k],
                forall|k: int|
                    0 <= k < i ==> is_candidate_list(
                        #[trigger] wanted[k],
                        states,
                        requirements[k],
                    ),
            decreases requirements.len() - i,
        {
            let list = self.find_states_of_kind(bar_kind, requirements[i]);
            layers.push(list);
            i += 1;
        }
        assert(layer_views(layers@) =~= wanted);
        match optimal_sequence(&layers, &table.distances) {
            Ok(plan) => {
                proof {
                    lemma_plan_is_valid(rows, wanted);
                    assert forall|i: int| 0 <= i < requirements.len() implies (
                    #[trigger] plan.states@[i]).0 < states.len() && satisfies(
                        states[plan.states@[i].0 as int],
                        requirements[i],
                    ) by {
                        assert(wanted[i].contains(plan.states@[i]));
                        assert(is_candidate_list(wanted[i], states, requirements[i]));
                        let k = choose|k: int|
                            0 <= k < wanted[i].len() && wanted[i][k] == plan.states@[i];
                        assert(wanted[i][k].0 < states.len());
                    }
                    assert forall|path: Seq<GymStateId>| #[trigger]
                        is_selection(wanted, path) implies plan.cost <= path_cost(rows, path) by {
                        lemma_plan_is_optimal(rows, wanted, path);
                    }
                }
                Ok(plan)
            },
            Err(at) => {
                assert(fails_at(rows, wanted, at as int));
                Err(GymError::ImpossibleRequirement(requirements[at]))
            },
        }
    }

    /// Plans the requirements on the bars of `bar_kind`, and
    /// lists for each bar of the kind that is used the loadings to put on
    /// it, in the order in which they are lifted: at each step the bar's
    /// loading in the state planned for the step, where that loading meets
    /// the step's requirement.
    pub fn order_by_kind_ordered(&self, bar_kind: BarKind, requirements: &[Requirement]) -> (found:
        Result<Vec<(Bar, Vec<Dumbbell>)>, GymError>)
        requires
            self.wf(),
        ensures
            match found {
                Ok(entries) => {
                    let states = self.spec_states(bar_kind);
                    let rows = self.spec_distances(bar_kind);
                    let layers = layers_of(states, requirements@);
                    &&& all_inhabited(layers)
                    &&& optimal_cost(rows, layers) < UNREACHABLE
                    &&& entry_views(entries@) == entries_of(
                        self.spec_bars(bar_kind),
                        states,
                        optimal_path(rows, layers),
                        requirements@,
                        self.spec_bars(bar_kind).len(),
                    )
                    &&& distinct_entries(entry_views(entries@))
                    &&& forall|i: int|
                        0 <= i < entries.len() ==> (#[trigger] entries[i]).0.kind == bar_kind
                },
                Err(error) => exists|i: int|
                    0 <= i < requirements.len() && error == GymError::ImpossibleRequirement(
                        #[trigger] requirements[i],
                    ) && fails_at(
                        self.spec_distances(bar_kind),
                        layers_of(self.spec_states(bar_kind), requirements@),
                        i,
                    ),
            },
    {
        let plan = match self.find_optimal_sequence(bar_kind, requirements) {
            Ok(plan) => plan,
            Err(error) => {
                return Err(error);
            },
        };
        let table = self.table(bar_kind);
        let ghost states = self.spec_states(bar_kind);
        let ghost bars = self.spec_bars(bar_kind);
        let ghost path = plan.states@;
        let n = requirements.len();
        let mut step: usize = 0;
        while step < n
            invariant
                step <= n == requirements.len(),
                path == plan.states@,
                path.len() == n,
                states == state_views(table.states@),
                forall|i: int|
                    0 <= i < n ==> (#[trigger] path[i]).0 < states.len() && satisfies(
                        states[path[i].0 as int],
                        requirements[i],
                    ),
            decreases n - step,
        {
            let state = &table.states[plan.states[step].0];
            assert(state@ == states[path[step as int].0 as int]);
            if !state_matches(state, requirements[step]) {
                return Err(GymError::ImpossibleRequirement(requirements[step]));
            }
            step += 1;
        }
        let mut entries: Vec<(Bar, Vec<Dumbbell>)> = Vec::new();
        let mut j: usize = 0;
        while j < table.bars.len()
            invariant
                j <= table.bars.len(),
                n == requirements.len(),
                path == plan.states@,
                path.len() == n,
                bars == table.bars@,
                states == state_views(table.states@),
                table.wf(bar_kind),
                forall|i: int| 0 <= i < n ==> (#[trigger] path[i]).0 < states.len(),
                entry_views(entries@) == entries_of(bars, states, path, requirements@, j as nat),
                distinct_entries(entry_views(entries@)),
                forall|i: int|
                    0 <= i < entries.len() ==> exists|k: int|
                        0 <= k < j && (#[trigger] entries[i]).0 == bars[k],
            decreases table.bars.len() - j,
        {
            let mut list: Vec<Dumbbell> = Vec::new();
            let mut step: usize = 0;
            assert(loadings(list@) =~= lifts(states, path, requirements@, j as int, 0));
            while step < n
                invariant
                    step <= n == requirements.len(),
                    j < table.bars.len(),
                    path == plan.states@,
                    path.len() == n,
                    bars == table.bars@,
                    states == state_views(table.states@),
                    table.wf(bar_kind),
                    forall|i: int| 0 <= i < n ==> (#[trigger] path[i]).0 < states.len(),
                    loadings(list@) == lifts(states, path, requirements@, j as int, step as nat),
                decreases n - step,
            {
                let at = plan.states[step].0;
                assert(path[step as int].0 < states.len());
                let state = &table.states[at];
                assert(state@ == states[at as int]);
                assert(loads_bars(table.states@[at as int]@, table.bars@));
                let dumbbell = state.at(j);
                if requirements[step].matches(dumbbell) {
                    let copy = dumbbell.clone();
                    let ghost before = list@;
                    list.push(copy);
                    assert(loadings(list@) =~= loadings(before).push(copy@));
                }
                step += 1;
            }
            if list.len() > 0 {
                let ghost before = entries@;
                let ghost views = loadings(list@);
                entries.push((table.bars[j], list));
                assert(entry_views(entries@) =~= entry_views(before).push((bars[j as int], views)));
                assert forall|a: int, b: int| 0 <= a < b < entries.len() implies (
                #[trigger] entry_views(entries@)[a]).0 != (#[trigger] entry_views(entries@)[b]).0 by {
                    if b == entries.len() - 1 {
                        let k = choose|k: int| 0 <= k < j && before[a].0 == bars[k];
                        assert(bars[k] != bars[j as int]);
                    } else {
                        assert(entry_views(before)[a].0 != entry_views(before)[b].0);
                    }
                }
                assert forall|i: int| 0 <= i < entries.len() implies exists|k: int|
                    0 <= k < j + 1 && (#[trigger] entries[i]).0 == bars[k] by {
                    if i < before.len() {
                        let k = choose|k: int| 0 <= k < j && before[i].0 == bars[k];
                        assert(entries[i].0 == bars[k]);
                    } else {
                        assert(entries[i].0 == bars[j as int]);
                    }
                }
            }
            j += 1;
        }
        proof {
            assert forall|i: int| 0 <= i < entries.len() implies (#[trigger] entries[i]).0.kind
                == bar_kind by {
                let k = choose|k: int| 0 <= k < bars.len() && entries[i].0 == bars[k];
                assert(table.bars@[k].kind == bar_kind);
            }
        }
        Ok(entries)
    }

    /// The layers of candidates for the requirements that ask for `kind`.
    pub open spec fn kind_layers(&self, requirements: Seq<Requirement>, kind: BarKind) -> Seq<
        Seq<GymStateId>,
    > {
        layers_of(self.spec_states(kind), of_kind(requirements, kind))
    }

    /// The states of `kind` that meet the requirements asking for the kind
    /// can be gone through in turn.
    pub open spec fn connected(&self, requirements: Seq<Requirement>, kind: BarKind) -> bool {
        optimal_cost(self.spec_distances(kind), self.kind_layers(requirements, kind)) < UNREACHABLE
    }

    /// No state meets the requirement.
    pub open spec fn unmet(&self, requirement: Requirement) -> bool {
        candidates_of(self.spec_states(requirement.bar_kind), requirement).len() == 0
    }

    /// The entries that the bars of `kind` contribute to the workout.
    pub open spec fn kind_entries(&self, requirements: Seq<Requirement>, kind: BarKind) -> Seq<
        (Bar, Seq<Loading>),
    > {
        entries_of(
            self.spec_bars(kind),
            self.spec_states(kind),
            optimal_path(self.spec_distances(kind), self.kind_layers(requirements, kind)),
            of_kind(requirements, kind),
            self.spec_bars(kind).len(),
        )
    }

    /// The workout for the requirements: what the dumbbell bars contribute,
    /// then what the barbell bars contribute.
    pub open spec fn workout_of(&self, requirements: Seq<Requirement>) -> Seq<(Bar, Seq<Loading>)> {
        self.kind_entries(requirements, BarKind::Dumbbell) + self.kind_entries(
            requirements,
            BarKind::Barbell,
        )
    }

    /// The requirements can be planned: each is met by a state, and for
    /// either kind the states can be gone through in turn.
    pub open spec fn plannable(&self, requirements: Seq<Requirement>) -> bool {
        &&& forall|i: int| 0 <= i < requirements.len() ==> !self.unmet(#[trigger] requirements[i])
        &&& self.connected(requirements, BarKind::Dumbbell)
        &&& self.connected(requirements, BarKind::Barbell)
    }

    /// Planning the requirements fails with `culprit`: it is the first
    /// requirement that no state meets; or every requirement is met and it
    /// is the last that asks for a dumbbell, whose states cannot be gone
    /// through in turn; or the same holds of the barbells, while the
    /// dumbbells are in order.
    pub open spec fn fails_on(&self, requirements: Seq<Requirement>, culprit: Requirement) -> bool {
        ||| exists|i: int|
            0 <= i < requirements.len() && #[trigger] requirements[i] == culprit && self.unmet(
                culprit,
            ) && forall|k: int| 0 <= k < i ==> !self.unmet(#[trigger] requirements[k])
        ||| {
            &&& forall|i: int|
                0 <= i < requirements.len() ==> !self.unmet(#[trigger] requirements[i])
            &&& !self.connected(requirements, BarKind::Dumbbell)
            &&& of_kind(requirements, BarKind::Dumbbell).len() > 0
            &&& culprit == of_kind(requirements, BarKind::Dumbbell).last()
        }
        ||| {
            &&& forall|i: int|
                0 <= i < requirements.len() ==> !self.unmet(#[trigger] requirements[i])
            &&& self.connected(requirements, BarKind::Dumbbell)
            &&& !self.connected(requirements, BarKind::Barbell)
            &&& of_kind(requirements, BarKind::Barbell).len() > 0
            &&& culprit == of_kind(requirements, BarKind::Barbell).last()
        }
    }

    /// Plans the session: for each requirement a state of the gym that meets
    /// it, chosen for each kind of bar so that going from state to state in
    /// the order of the requirements takes the fewest plate changes, and
    /// from the states the loadings to put on each bar.
    ///
    /// Fails with [`GymError::ImpossibleRequirement`]: of the first
    /// requirement that no state meets; else of the last requirement of a
    /// kind whose states cannot be gone through in turn, dumbbells before
    /// barbells.
    pub fn workout_ordered(&self, requirements: &[Requirement]) -> (found: Result<Workout, GymError>)
        requires
            self.wf(),
        ensures
            match found {
                Ok(workout) => self.plannable(requirements@) && workout@ == self.workout_of(
                    requirements@,
                ),
                Err(error) => error matches GymError::ImpossibleRequirement(culprit)
                    && self.fails_on(requirements@, culprit),
            },
    {
        let mut dumbbell: Vec<Requirement> = Vec::new();
        let mut barbell: Vec<Requirement> = Vec::new();
        let mut i: usize = 0;
        while i < requirements.len()
            invariant
                i <= requirements.len(),
                self.wf(),
                dumbbell@ == of_kind(requirements@.take(i as int), BarKind::Dumbbell),
                barbell@ == of_kind(requirements@.take(i as int), BarKind::Barbell),
                forall|k: int| 0 <= k < i ==> !self.unmet(#[trigger] requirements[k]),
            decreases requirements.len() - i,
        {
            let requirement = requirements[i];
            assert(requirements@.take(i + 1).drop_last() =~= requirements@.take(i as int));
            let list = self.find_states_for_requirement(requirement);
            if list.len() == 0 {
                return Err(GymError::ImpossibleRequirement(requirement));
            }
            match requirement.bar_kind {
                BarKind::Dumbbell => dumbbell.push(requirement),
                BarKind::Barbell => barbell.push(requirement),
            }
            i += 1;
        }
        assert(requirements@.take(requirements.len() as int) =~= requirements@);
        proof {
            lemma_of_kind(requirements@, BarKind::Dumbbell);
            lemma_of_kind(requirements@, BarKind::Barbell);
            lemma_kind_layers_inhabited(self, requirements@, BarKind::Dumbbell);
            lemma_kind_layers_inhabited(self, requirements@, BarKind::Barbell);
        }
        let mut entries = match self.order_by_kind_ordered(BarKind::Dumbbell, dumbbell.as_slice()) {
            Ok(entries) => entries,
            Err(error) => {
                return Err(error);
            },
        };
        let more = match self.order_by_kind_ordered(BarKind::Barbell, barbell.as_slice()) {
            Ok(entries) => entries,
            Err(error) => {
                return Err(error);
            },
        };
        let ghost first = entry_views(entries@);
        let mut more = more;
        let ghost second = entry_views(more@);
        let ghost dumbbells = entries@;
        let ghost barbells = more@;
        entries.append(&mut more);
        assert(entry_views(entries@) =~= first + second);
        assert(distinct_entries(entry_views(entries@))) by {
            let all = entry_views(entries@);
            assert forall|a: int, b: int| 0 <= a < b < all.len() implies (#[trigger] all[a]).0 != (
            #[trigger] all[b]).0 by {
                if b < first.len() {
                    assert(first[a].0 != first[b].0);
                } else if a >= first.len() {
                    assert(second[a - first.len()].0 != second[b - first.len()].0);
                } else {
                    assert(dumbbells[a].0.kind == BarKind::Dumbbell);
                    assert(barbells[b - first.len()].0.kind == BarKind::Barbell);
                }
            }
        }
        let workout = Workout::new(entries);
        assert(workout@ =~= self.workout_of(requirements@));
        Ok(workout)
    }

    /// Plans the session as [`Gym::workout_ordered`] does.
    pub fn workout(&self, requirements: &[Requirement]) -> (found: Result<Workout, GymError>)
        requires
            self.wf(),
        ensures
            match found {
                Ok(workout) => self.plannable(requirements@) && workout@ == self.workout_of(
                    requirements@,
                ),
                Err(error) => error matches GymError::ImpossibleRequirement(culprit)
                    && self.fails_on(requirements@, culprit),
            },
    {
        self.workout_ordered(requirements)
    }
}

/// Where every requirement is met, no layer of a kind is empty.
pub proof fn lemma_kind_layers_inhabited(gym: &Gym, requirements: Seq<Requirement>, kind: BarKind)
    requires
        forall|i: int| 0 <= i < requirements.len() ==> !gym.unmet(#[trigger] requirements[i]),
    ensures
        all_inhabited(gym.kind_layers(requirements, kind)),
{
    lemma_of_kind(requirements, kind);
    let group = of_kind(requirements, kind);
    let layers = gym.kind_layers(requirements, kind);
    assert forall|i: int| 0 <= i < layers.len() implies (#[trigger] layers[i]).len() > 0 by {
        assert(group[i].bar_kind == kind && requirements.contains(group[i]));
        let k = choose|k: int| 0 <= k < requirements.len() && requirements[k] == group[i];
        assert(!gym.unmet(requirements[k]));
    }
}

/// Every loading that a bar contributes to a workout is the bar's loading in
/// the state planned for one of the steps, and meets the requirement of that
/// step.
pub proof fn lemma_lifts(
    states: Seq<Seq<Loading>>,
    path: Seq<GymStateId>,
    requirements: Seq<Requirement>,
    j: int,
    n: nat,
    i: int,
) -> (step: int)
    requires
        0 <= i < lifts(states, path, requirements, j, n).len(),
    ensures
        0 <= step < n,
        lifts(states, path, requirements, j, n)[i] == states[path[step].0 as int][j],
        requirements[step].spec_matches(lifts(states, path, requirements, j, n)[i]),
    decreases n,
{
    let before = lifts(states, path, requirements, j, (n - 1) as nat);
    if i < before.len() {
        lemma_lifts(states, path, requirements, j, (n - 1) as nat, i)
    } else {
        n - 1
    }
}

/// Identical inputs yield identical workouts: gyms of the same plates and
/// bars plan the same requirements alike, with the same workout or the same
/// failure.
pub proof fn lemma_same_inputs_same_workout(
    a: &Gym,
    b: &Gym,
    inventory: Seq<crate::plate::Plate>,
    bars: Seq<Bar>,
    requirements: Seq<Requirement>,
)
    requires
        a.is_gym_of(inventory, bars),
        b.is_gym_of(inventory, bars),
    ensures
        a.plannable(requirements) == b.plannable(requirements),
        a.workout_of(requirements) == b.workout_of(requirements),
        forall|culprit: Requirement|
            a.fails_on(requirements, culprit) == b.fails_on(requirements, culprit),
{
    crate::gym::lemma_same_inputs_same_gym(a, b, inventory, bars, BarKind::Dumbbell);
    crate::gym::lemma_same_inputs_same_gym(a, b, inventory, bars, BarKind::Barbell);
    assert forall|r: Requirement| a.unmet(r) == b.unmet(r) by {
        match r.bar_kind {
            BarKind::Dumbbell => {},
            BarKind::Barbell => {},
        }
    }
}

/// Planning fails with one requirement only, and only where the
/// requirements cannot be planned.
pub proof fn lemma_one_culprit(
    gym: &Gym,
    requirements: Seq<Requirement>,
    first: Requirement,
    second: Requirement,
)
    requires
        gym.fails_on(requirements, first),
        gym.fails_on(requirements, second),
    ensures
        first == second,
        !gym.plannable(requirements),
{
    if exists|i: int|
        0 <= i < requirements.len() && #[trigger] requirements[i] == first && gym.unmet(first)
            && forall|k: int| 0 <= k < i ==> !gym.unmet(#[trigger] requirements[k]) {
        let i = choose|i: int|
            0 <= i < requirements.len() && #[trigger] requirements[i] == first && gym.unmet(first)
                && forall|k: int| 0 <= k < i ==> !gym.unmet(#[trigger] requirements[k]);
        assert(gym.unmet(requirements[i]));
        let j = choose|j: int|
            0 <= j < requirements.len() && #[trigger] requirements[j] == second && gym.unmet(
                second,
            ) && forall|k: int| 0 <= k < j ==> !gym.unmet(#[trigger] requirements[k]);
        assert(i == j) by {
            if i < j {
                assert(!gym.unmet(requirements[i]));
            }
            if j < i {
                assert(gym.unmet(requirements[j]));
                assert(!gym.unmet(requirements[j]));
            }
        }
    } else if exists|j: int|
        0 <= j < requirements.len() && #[trigger] requirements[j] == second && gym.unmet(second)
            && forall|k: int| 0 <= k < j ==> !gym.unmet(#[trigger] requirements[k]) {
        let j = choose|j: int|
            0 <= j < requirements.len() && #[trigger] requirements[j] == second && gym.unmet(
                second,
            ) && forall|k: int| 0 <= k < j ==> !gym.unmet(#[trigger] requirements[k]);
        assert(gym.unmet(requirements[j]));
    }
}

/// Where every planned state loads a single bar and meets the requirement of
/// its step, the bar contributes a loading at every step: the loading of the
/// state planned for the step, which lifts the weight asked for.
pub proof fn lemma_single_bar_lifts(
    states: Seq<Seq<Loading>>,
    path: Seq<GymStateId>,
    requirements: Seq<Requirement>,
    n: nat,
)
    requires
        n <= path.len(),
        n <= requirements.len(),
        forall|i: int|
            0 <= i < n ==> (#[trigger] path[i]).0 < states.len() && states[path[i].0 as int].len()
                == 1 && satisfies(states[path[i].0 as int], requirements[i]),
    ensures
        lifts(states, path, requirements, 0, n).len() == n,
        forall|i: int|
            0 <= i < n ==> #[trigger] lifts(states, path, requirements, 0, n)[i]
                == states[path[i].0 as int][0] && lifts(
                states,
                path,
                requirements,
                0,
                n,
            )[i].lifted_weight() == requirements[i].weight,
    decreases n,
{
    if n > 0 {
        lemma_single_bar_lifts(states, path, requirements, (n - 1) as nat);
        let state = states[path[n - 1].0 as int];
        assert(satisfies(state, requirements[n - 1]));
        let j = choose|j: int|
            0 <= j < state.len() && requirements[n - 1].spec_matches(#[trigger] state[j]);
        assert(j == 0);
    }
}

/// A kind with a single bar has a single entry in the workout, with a
/// loading for every requirement, where every planned state meets the
/// requirement of its step; and a kind for which nothing is asked has none.
pub proof fn lemma_single_bar_entries(
    bars: Seq<Bar>,
    states: Seq<Seq<Loading>>,
    path: Seq<GymStateId>,
    requirements: Seq<Requirement>,
)
    requires
        bars.len() == 1,
        path.len() == requirements.len(),
        forall|i: int|
            0 <= i < path.len() ==> (#[trigger] path[i]).0 < states.len()
                && states[path[i].0 as int].len() == 1 && satisfies(
                states[path[i].0 as int],
                requirements[i],
            ),
    ensures
        requirements.len() == 0 ==> entries_of(bars, states, path, requirements, 1).len() == 0,
        requirements.len() > 0 ==> entries_of(bars, states, path, requirements, 1) == seq![
            (bars[0], lifts(states, path, requirements, 0, requirements.len())),
        ],
        lifts(states, path, requirements, 0, requirements.len()).len() == requirements.len(),
{
    lemma_single_bar_lifts(states, path, requirements, requirements.len());
    reveal_with_fuel(entries_of, 2);
    let list = lifts(states, path, requirements, 0, requirements.len());
    if requirements.len() > 0 {
        assert(entries_of(bars, states, path, requirements, 1) =~= seq![(bars[0], list)]);
    }
}

/// Where nothing is asked of a kind, its bars contribute no entry.
pub proof fn lemma_no_requirements_no_entries(
    bars: Seq<Bar>,
    states: Seq<Seq<Loading>>,
    path: Seq<GymStateId>,
    m: nat,
)
    ensures
        entries_of(bars, states, path, Seq::<Requirement>::empty(), m).len() == 0,
    decreases m,
{
    if m > 0 {
        lemma_no_requirements_no_entries(bars, states, path, (m - 1) as nat);
    }
}

/// The matching states meet the requirement.
pub proof fn lemma_matching_satisfies(
    states: Seq<Seq<Loading>>,
    requirement: Requirement,
    n: nat,
    a: int,
)
    requires
        0 <= a < matching(states, requirement, n).len(),
        n <= usize::MAX,
    ensures
        matching(states, requirement, n)[a] < n,
        satisfies(states[matching(states, requirement, n)[a] as int], requirement),
    decreases n,
{
    if n > 0 {
        let before = matching(states, requirement, (n - 1) as nat);
        if a < before.len() {
            lemma_matching_satisfies(states, requirement, (n - 1) as nat, a);
        }
    }
}

/// Every candidate for a requirement is a state that meets it.
pub proof fn lemma_candidates_satisfy(
    states: Seq<Seq<Loading>>,
    requirement: Requirement,
    candidate: GymStateId,
)
    requires
        states.len() <= usize::MAX,
        candidates_of(states, requirement).contains(candidate),
    ensures
        candidate.0 < states.len(),
        satisfies(states[candidate.0 as int], requirement),
{
    let ids = matching(states, requirement, states.len());
    let keys = plate_keys(states, ids);
    let list = candidates_of(states, requirement);
    lemma_matching_len(states, requirement, states.len());
    lemma_ranking_in_range(keys);
    let k = choose|k: int| 0 <= k < list.len() && list[k] == candidate;
    let at = ranking(keys)[k] as int;
    assert(0 <= at < ids.len());
    lemma_matching_satisfies(states, requirement, states.len(), at);
}

/// No more states match than there are.
pub proof fn lemma_matching_len(states: Seq<Seq<Loading>>, requirement: Requirement, n: nat)
    ensures
        matching(states, requirement, n).len() <= n,
    decreases n,
{
    if n > 0 {
        lemma_matching_len(states, requirement, (n - 1) as nat);
    }
}

/// In a workout that was planned, a kind with a single bar has one entry,
/// for that bar, with one loading for each requirement that asks for the
/// kind, in their order, each lifting the weight asked for; and a kind for
/// which nothing is asked has no entry.
pub proof fn lemma_single_bar_workout(gym: &Gym, requirements: Seq<Requirement>, kind: BarKind)
    requires
        gym.wf(),
        gym.plannable(requirements),
        gym.spec_bars(kind).len() == 1,
    ensures
        of_kind(requirements, kind).len() == 0 ==> gym.kind_entries(requirements, kind).len() == 0,
        of_kind(requirements, kind).len() > 0 ==> {
            let entries = gym.kind_entries(requirements, kind);
            &&& entries.len() == 1
            &&& entries[0].0 == gym.spec_bars(kind)[0]
            &&& entries[0].1.len() == of_kind(requirements, kind).len()
            &&& forall|i: int|
                0 <= i < entries[0].1.len() ==> (#[trigger] entries[0].1[i]).lifted_weight()
                    == of_kind(requirements, kind)[i].weight
        },
{
    let group = of_kind(requirements, kind);
    let states = gym.spec_states(kind);
    let rows = gym.spec_distances(kind);
    let layers = gym.kind_layers(requirements, kind);
    let path = optimal_path(rows, layers);
    match kind {
        BarKind::Dumbbell => {},
        BarKind::Barbell => {},
    }
    assert(gym.connected(requirements, kind));
    lemma_plan_is_valid(rows, layers);
    gym.lemma_wf(kind);
    assert forall|i: int| 0 <= i < path.len() implies (#[trigger] path[i]).0 < states.len()
        && states[path[i].0 as int].len() == 1 && satisfies(
        states[path[i].0 as int],
        group[i],
    ) by {
        assert(layers[i].contains(path[i]));
        lemma_candidates_satisfy(states, group[i], path[i]);
        assert(loads_bars(states[path[i].0 as int], gym.spec_bars(kind)));
    }
    lemma_single_bar_entries(gym.spec_bars(kind), states, path, group);
    lemma_single_bar_lifts(states, path, group, group.len());
}

} // verus!
