use vstd::prelude::*;
use crate::bar::Bar;
use crate::combinatorics::{
    cartesian_of, in_dictionary_order, index_tuples, lex_less, product_of, tuple_below,
};
use crate::dumbbell::{Dumbbell, Loading};
use crate::enumerate::loadings;
use crate::graph::state_views;
use crate::gym_state::{
    distinct_bars, lemma_states_adjacent_differ, plate_count, states_adjacent, GymState,
};

verus! {

/// For each bar the loadings that a vector of options holds.
pub open spec fn option_loadings(options: Seq<Vec<Dumbbell>>) -> Seq<Seq<Loading>> {
    Seq::new(options.len(), |j: int| loadings(options[j]@))
}

/// For each bar the number of its options.
pub open spec fn sizes_of(options: Seq<Seq<Loading>>) -> Seq<usize> {
    Seq::new(options.len(), |j: int| options[j].len() as usize)
}

/// The state that takes for each bar the option that `tuple` names.
pub open spec fn combine(options: Seq<Seq<Loading>>, tuple: Seq<usize>) -> Seq<Loading> {
    Seq::new(options.len(), |j: int| options[j][tuple[j] as int])
}

/// The states of the bars with these options, in the order in which
/// [`gym_states`] returns them: the order of a dictionary of the positions
/// that the states' loadings have among the options.
pub open spec fn product_states(options: Seq<Seq<Loading>>) -> Seq<Seq<Loading>> {
    let tuples = cartesian_of(sizes_of(options));
    Seq::new(tuples.len(), |k: int| combine(options, tuples[k]))
}

/// `state` takes for each bar one of its options.
pub open spec fn is_choice(state: Seq<Loading>, options: Seq<Seq<Loading>>) -> bool {
    &&& state.len() == options.len()
    &&& forall|j: int| 0 <= j < state.len() ==> (#[trigger] options[j]).contains(state[j])
}

/// `states` is the cartesian product of the options: each state takes for
/// each bar one of its options, and every such combination is there once.
pub open spec fn is_product(states: Seq<Seq<Loading>>, options: Seq<Seq<Loading>>) -> bool {
    &&& forall|k: int| 0 <= k < states.len() ==> is_choice(#[trigger] states[k], options)
    &&& forall|c: Seq<Loading>| #[trigger] is_choice(c, options) ==> states.contains(c)
    &&& states.no_duplicates()
}

/// The options at `j` are loadings of the bar at `j`.
pub open spec fn on_bars(options: Seq<Seq<Loading>>, bars: Seq<Bar>) -> bool {
    &&& options.len() == bars.len()
    &&& forall|j: int, a: int|
        0 <= j < options.len() && 0 <= a < options[j].len() ==> (#[trigger] options[j][a]).bar
            == bars[j]
}

/// `state` loads the bars in their order, each once.
pub open spec fn loads_bars(state: Seq<Loading>, bars: Seq<Bar>) -> bool {
    &&& state.len() == bars.len()
    &&& forall|j: int| 0 <= j < state.len() ==> (#[trigger] state[j]).bar == bars[j]
}

/// Builds for each tuple the state that takes for the bar at `j` the option
/// that the tuple names at `j`.
pub fn states_from_tuples(
    bars: &Vec<Bar>,
    options: &Vec<Vec<Dumbbell>>,
    tuples: &Vec<Vec<usize>>,
) -> (states: Vec<GymState>)
    requires
        bars@.no_duplicates(),
        on_bars(option_loadings(options@), bars@),
        forall|k: int|
            0 <= k < tuples.len() ==> tuple_below(
                (#[trigger] tuples[k])@,
                sizes_of(option_loadings(options@)),
            ),
    ensures
        states.len() == tuples.len(),
        forall|k: int|
            0 <= k < states.len() ==> (#[trigger] states[k])@ == combine(
                option_loadings(options@),
                tuples[k]@,
            ),
        forall|k: int| 0 <= k < states.len() ==> loads_bars((#[trigger] states[k])@, bars@),
{
    let ghost opts = option_loadings(options@);
    let n = options.len();
    let mut states: Vec<GymState> = Vec::new();
    let mut k: usize = 0;
    while k < tuples.len()
        invariant
            k <= tuples.len(),
            n == options.len(),
            opts == option_loadings(options@),
            bars@.no_duplicates(),
            on_bars(opts, bars@),
            forall|k: int| 0 <= k < tuples.len() ==> tuple_below((#[trigger] tuples[k])@, sizes_of(opts)),
            states.len() == k,
            forall|i: int| 0 <= i < k ==> (#[trigger] states[i])@ == combine(opts, tuples[i]@),
            forall|i: int| 0 <= i < k ==> loads_bars((#[trigger] states[i])@, bars@),
        decreases tuples.len() - k,
    {
        let tuple = &tuples[k];
        assert(tuple_below(tuple@, sizes_of(opts)));
        let mut chosen: Vec<Dumbbell> = Vec::new();
        let mut j: usize = 0;
        while j < n
            invariant
                j <= n == options.len(),
                opts == option_loadings(options@),
                tuple_below(tuple@, sizes_of(opts)),
                chosen.len() == j,
                forall|i: int|
                    0 <= i < j ==> (#[trigger] chosen[i])@ == opts[i][tuple@[i] as int],
            decreases n - j,
        {
            assert(tuple@[j as int] < sizes_of(opts)[j as int]);
            assert(opts[j as int].len() == options[j as int].len());
            let copy = options[j][tuple[j]].clone();
            assert(copy@ == opts[j as int][tuple@[j as int] as int]);
            chosen.push(copy);
            j += 1;
        }
        assert(loadings(chosen@) =~= combine(opts, tuple@));
        assert(loads_bars(loadings(chosen@), bars@));
        assert(distinct_bars(loadings(chosen@)));
        let state = GymState::new(chosen);
        states.push(state);
        k += 1;
    }
    states
}

/// The cartesian product of the options is what its name says.
pub proof fn lemma_product_states(states: Seq<Seq<Loading>>, options: Seq<Seq<Loading>>, tuples: Seq<Seq<usize>>)
    requires
        forall|j: int| 0 <= j < options.len() ==> (#[trigger] options[j]).no_duplicates(),
        forall|j: int| 0 <= j < options.len() ==> (#[trigger] options[j]).len() <= usize::MAX,
        states.len() == tuples.len(),
        forall|k: int| 0 <= k < states.len() ==> #[trigger] states[k] == combine(options, tuples[k]),
        forall|k: int| 0 <= k < tuples.len() ==> tuple_below(#[trigger] tuples[k], sizes_of(options)),
        forall|t: Seq<usize>| #[trigger] tuple_below(t, sizes_of(options)) ==> tuples.contains(t),
        tuples.no_duplicates(),
    ensures
        is_product(states, options),
{
    assert forall|k: int| 0 <= k < states.len() implies is_choice(#[trigger] states[k], options) by {
        assert(tuple_below(tuples[k], sizes_of(options)));
        assert forall|j: int| 0 <= j < states[k].len() implies (#[trigger] options[j]).contains(
            states[k][j],
        ) by {
            assert(tuples[k][j] < sizes_of(options)[j]);
        }
    }
    assert forall|c: Seq<Loading>| #[trigger] is_choice(c, options) implies states.contains(c) by {
        let t = Seq::new(
            options.len(),
            |j: int| (choose|a: int| 0 <= a < options[j].len() && options[j][a] == c[j]) as usize,
        );
        assert(tuple_below(t, sizes_of(options))) by {
            assert forall|j: int| 0 <= j < t.len() implies t[j] < sizes_of(options)[j] by {
                assert(options[j].contains(c[j]));
            }
        }
        assert(tuples.contains(t));
        let k = choose|k: int| 0 <= k < tuples.len() && tuples[k] == t;
        assert(states[k] =~= c) by {
            assert forall|j: int| 0 <= j < c.len() implies states[k][j] == c[j] by {
                assert(options[j].contains(c[j]));
            }
        }
    }
    assert forall|k: int, l: int| 0 <= k < l < states.len() implies states[k] != states[l] by {
        if states[k] == states[l] {
            assert(tuple_below(tuples[k], sizes_of(options)));
            assert(tuple_below(tuples[l], sizes_of(options)));
            assert(tuples[k] =~= tuples[l]) by {
                assert forall|j: int| 0 <= j < tuples[k].len() implies tuples[k][j]
                    == tuples[l][j] by {
                    assert(tuples[k][j] < sizes_of(options)[j]);
                    assert(tuples[l][j] < sizes_of(options)[j]);
                    assert(states[k][j] == options[j][tuples[k][j] as int]);
                    assert(states[l][j] == options[j][tuples[l][j] as int]);
                    assert(options[j].no_duplicates());
                }
            }
        }
    }
}

/// Builds the states of the bars with these options: every way to take for
/// each bar one of its options, once.
pub fn gym_states(bars: &Vec<Bar>, options: &Vec<Vec<Dumbbell>>) -> (states: Vec<GymState>)
    requires
        bars@.no_duplicates(),
        on_bars(option_loadings(options@), bars@),
        product_of(sizes_of(option_loadings(options@))) <= usize::MAX,
    ensures
        state_views(states@) == product_states(option_loadings(options@)),
        states.len() == product_of(sizes_of(option_loadings(options@))),
        forall|k: int| 0 <= k < states.len() ==> loads_bars((#[trigger] states[k])@, bars@),
        (forall|j: int|
            0 <= j < options.len() ==> (#[trigger] option_loadings(options@)[j]).no_duplicates())
            ==> is_product(state_views(states@), option_loadings(options@)),
        in_dictionary_order(cartesian_of(sizes_of(option_loadings(options@)))),
{
    let ghost opts = option_loadings(options@);
    let mut sizes: Vec<usize> = Vec::new();
    let mut j: usize = 0;
    while j < options.len()
        invariant
            j <= options.len(),
            opts == option_loadings(options@),
            sizes@ == sizes_of(opts).take(j as int),
        decreases options.len() - j,
    {
        sizes.push(options[j].len());
        assert(sizes@ =~= sizes_of(opts).take(j + 1));
        j += 1;
    }
    assert(sizes@ =~= sizes_of(opts));
    let tuples = index_tuples(&sizes);
    let states = states_from_tuples(bars, options, &tuples);
    proof {
        let lists = Seq::new(tuples@.len(), |k: int| tuples@[k]@);
        assert(lists =~= cartesian_of(sizes_of(opts)));
        assert(in_dictionary_order(lists)) by {
            assert forall|k: int, l: int| 0 <= k < l < lists.len() implies lex_less(
                #[trigger] lists[k],
                #[trigger] lists[l],
            ) by {
                assert(lex_less(tuples[k]@, tuples[l]@));
            }
        }
        assert(state_views(states@) =~= product_states(opts));
        if forall|j: int| 0 <= j < options.len() ==> (#[trigger] opts[j]).no_duplicates() {
            assert forall|t: Seq<usize>| #[trigger]
                tuple_below(t, sizes_of(opts)) implies lists.contains(t) by {
                let k = choose|k: int| 0 <= k < tuples.len() && (#[trigger] tuples[k])@ == t;
                assert(lists[k] == t);
            }
            assert(lists.no_duplicates()) by {
                assert forall|k: int, l: int| 0 <= k < l < lists.len() implies lists[k]
                    != lists[l] by {
                    assert(tuples[k]@ != tuples[l]@);
                }
            }
            assert forall|j: int| 0 <= j < opts.len() implies (#[trigger] opts[j]).len()
                <= usize::MAX by {
                assert(opts[j].len() == options@[j].len());
            }
            lemma_product_states(state_views(states@), opts, lists);
        }
    }
    states
}

/// States that differ at one position only differ in their plate counts by
/// what the loadings at that position differ.
pub proof fn lemma_plate_count_differs_at(a: Seq<Loading>, b: Seq<Loading>, at: int)
    requires
        a.len() == b.len(),
        0 <= at < a.len(),
        forall|k: int| 0 <= k < a.len() && k != at ==> a[k] == b[k],
    ensures
        plate_count(a) + b[at].plates.len() == plate_count(b) + a[at].plates.len(),
    decreases a.len(),
{
    if at == a.len() - 1 {
        assert(a.drop_last() =~= b.drop_last());
    } else {
        lemma_plate_count_differs_at(a.drop_last(), b.drop_last(), at);
        assert(a[a.len() - 1] == b[a.len() - 1]);
    }
}

/// Adjacent states of the same bars differ by one mounted plate.
pub proof fn lemma_adjacent_plate_counts(a: Seq<Loading>, b: Seq<Loading>, bars: Seq<Bar>)
    requires
        bars.no_duplicates(),
        loads_bars(a, bars),
        loads_bars(b, bars),
        states_adjacent(a, b),
    ensures
        plate_count(a) == plate_count(b) + 1 || plate_count(b) == plate_count(a) + 1,
{
    let at = lemma_states_adjacent_differ(a, b);
    assert(a[at.0].bar == bars[at.0] && b[at.1].bar == bars[at.1]);
    assert(at.0 == at.1);
    assert forall|k: int| 0 <= k < a.len() && k != at.0 implies a[k] == b[k] by {
        assert(a[k].bar == bars[k] && b[k].bar == bars[k]);
    }
    lemma_plate_count_differs_at(a, b, at.0);
}

} // verus!
