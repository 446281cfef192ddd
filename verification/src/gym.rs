use vstd::prelude::*;
use vstd::pervasive::unreached;
use crate::bar::Bar;
use crate::bar_kind::BarKind;
use crate::combinatorics::{
    by_length_then_dictionary, cartesian_of, in_dictionary_order, powerset_of, product_of,
};
use crate::distances::{measures_steps, oracle, DistanceTable};
use crate::dumbbell::{Dumbbell, Loading};
use crate::enumerate::{
    dumbbells, fits_bar, is_enumeration, loadings, loadings_of, realizable,
};
use crate::graph::state_views;
use crate::gym_state::{plate_count, GymState};
use crate::inventory::{usable_plates, usable_plates_of};
use crate::plate::Plate;
use crate::states::{
    gym_states, is_choice, is_product, loads_bars, on_bars, option_loadings, product_states,
    sizes_of,
};
use crate::weights::{strictly_ascending, Weights};

verus! {

/// The bars of `bars` that are of `kind`, each once, in the order in which
/// they first appear.
pub open spec fn bars_of_kind(bars: Seq<Bar>, kind: BarKind) -> Seq<Bar>
    decreases bars.len(),
{
    if bars.len() == 0 {
        Seq::empty()
    } else {
        let before = bars_of_kind(bars.drop_last(), kind);
        if bars.last().kind == kind && !before.contains(bars.last()) {
            before.push(bars.last())
        } else {
            before
        }
    }
}

/// For each bar its loadings.
pub open spec fn options_of(inventory: Seq<Plate>, bars: Seq<Bar>) -> Seq<Seq<Loading>> {
    Seq::new(bars.len(), |j: int| loadings_of(inventory, bars[j]))
}

/// The states of the bars: every way to load each with one of its loadings.
pub open spec fn states_of(inventory: Seq<Plate>, bars: Seq<Bar>) -> Seq<Seq<Loading>> {
    product_states(options_of(inventory, bars))
}

/// The number of plates that one side of each of the bars can carry, added
/// up over the bars.
pub open spec fn total_slots(inventory: Seq<Plate>, bars: Seq<Bar>) -> nat
    decreases bars.len(),
{
    if bars.len() == 0 {
        0
    } else {
        total_slots(inventory, bars.drop_last()) + usable_plates(inventory, bars.last()).len()
    }
}

/// The most states that the bars of one kind may have. With more, the table
/// of the distances between them could have more cells than `usize` counts
/// on a machine of 32 bits.
pub const MAX_STATES: usize = 0xffff;

/// The machine limits under which the states of the bars of one kind can be
/// built: every bar keeps the limits of [`fits_bar`], the plates that the
/// bars can carry can be counted, and the bars have no more than
/// [`MAX_STATES`] states.
pub open spec fn fits_kind(inventory: Seq<Plate>, bars: Seq<Bar>) -> bool {
    &&& forall|j: int| 0 <= j < bars.len() ==> fits_bar(inventory, #[trigger] bars[j])
    &&& total_slots(inventory, bars) <= usize::MAX
    &&& product_of(sizes_of(options_of(inventory, bars))) <= MAX_STATES
}

/// The machine limits under which a gym can be built of these plates and
/// bars: those of [`fits_kind`] for the bars of either kind.
pub open spec fn fits(inventory: Seq<Plate>, bars: Seq<Bar>) -> bool {
    &&& fits_kind(inventory, bars_of_kind(bars, BarKind::Dumbbell))
    &&& fits_kind(inventory, bars_of_kind(bars, BarKind::Barbell))
}

/// `weight` can be lifted on one of the bars with the plates of the
/// inventory.
pub open spec fn liftable(inventory: Seq<Plate>, bars: Seq<Bar>, weight: u64) -> bool {
    exists|j: int, loading: Loading|
        0 <= j < bars.len() && #[trigger] realizable(loading, inventory, bars[j])
            && loading.lifted_weight() == weight
}

/// The bars of a kind are of the kind, differ from each other, and are the
/// bars of the kind that the list holds.
pub proof fn lemma_bars_of_kind(bars: Seq<Bar>, kind: BarKind)
    ensures
        bars_of_kind(bars, kind).no_duplicates(),
        bars_of_kind(bars, kind).len() <= bars.len(),
        forall|b: Bar|
            #![trigger bars_of_kind(bars, kind).contains(b)]
            #![trigger bars.contains(b)]
            bars_of_kind(bars, kind).contains(b) <==> bars.contains(b) && b.kind == kind,
    decreases bars.len(),
{
    if bars.len() > 0 {
        let head = bars.drop_last();
        let before = bars_of_kind(head, kind);
        let now = bars_of_kind(bars, kind);
        lemma_bars_of_kind(head, kind);
        assert(bars =~= head.push(bars.last()));
        assert forall|b: Bar|
            #![trigger now.contains(b)]
            #![trigger bars.contains(b)]
            now.contains(b) <==> bars.contains(b) && b.kind == kind by {
            if now.contains(b) {
                let k = choose|k: int| 0 <= k < now.len() && now[k] == b;
                if k < before.len() {
                    assert(before[k] == b);
                    assert(before.contains(b));
                    let i = choose|i: int| 0 <= i < head.len() && head[i] == b;
                    assert(bars[i] == b);
                } else {
                    assert(bars[bars.len() - 1] == b);
                }
            }
            if bars.contains(b) && b.kind == kind {
                let i = choose|i: int| 0 <= i < bars.len() && bars[i] == b;
                if i < head.len() {
                    assert(head[i] == b);
                    assert(head.contains(b));
                    let k = choose|k: int| 0 <= k < before.len() && before[k] == b;
                    assert(now[k] == b);
                } else if !before.contains(b) {
                    assert(now[before.len() as int] == b);
                }
            }
        }
    }
}

/// The first bars can carry no more plates than all the bars together.
pub proof fn lemma_total_slots_prefix(inventory: Seq<Plate>, bars: Seq<Bar>, n: int)
    requires
        0 <= n <= bars.len(),
    ensures
        total_slots(inventory, bars.take(n)) <= total_slots(inventory, bars),
    decreases bars.len() - n,
{
    if n == bars.len() {
        assert(bars.take(n) =~= bars);
    } else {
        lemma_total_slots_prefix(inventory, bars, n + 1);
        assert(bars.take(n + 1).drop_last() =~= bars.take(n));
    }
}

/// Where every size is at least one, the product of the first sizes is no
/// greater than the product of all.
pub proof fn lemma_product_prefix(sizes: Seq<usize>, n: int)
    requires
        0 <= n <= sizes.len(),
        forall|j: int| 0 <= j < sizes.len() ==> #[trigger] sizes[j] >= 1,
    ensures
        1 <= product_of(sizes.take(n)) <= product_of(sizes),
    decreases sizes.len() - n,
{
    if n == sizes.len() {
        assert(sizes.take(n) =~= sizes);
        lemma_product_positive(sizes);
    } else {
        lemma_product_prefix(sizes, n + 1);
        assert(sizes.take(n + 1).drop_last() =~= sizes.take(n));
        lemma_product_positive(sizes.take(n));
        let a = product_of(sizes.take(n));
        let b = sizes[n] as nat;
        assert(a <= a * b) by (nonlinear_arith)
            requires
                a >= 1,
                b >= 1,
        ;
    }
}

/// Where every size is at least one, so is the product.
pub proof fn lemma_product_positive(sizes: Seq<usize>)
    requires
        forall|j: int| 0 <= j < sizes.len() ==> #[trigger] sizes[j] >= 1,
    ensures
        product_of(sizes) >= 1,
    decreases sizes.len(),
{
    if sizes.len() > 0 {
        lemma_product_positive(sizes.drop_last());
        let a = product_of(sizes.drop_last());
        let b = sizes.last() as nat;
        assert(sizes[sizes.len() - 1] >= 1);
        assert(a * b >= 1) by (nonlinear_arith)
            requires
                a >= 1,
                b >= 1,
        ;
    }
}

/// A state mounts no more plates than its bars can carry.
pub proof fn lemma_plate_count_bound(state: Seq<Loading>, inventory: Seq<Plate>, bars: Seq<Bar>)
    requires
        state.len() == bars.len(),
        forall|j: int|
            0 <= j < state.len() ==> (#[trigger] state[j]).plates.len() <= usable_plates(
                inventory,
                bars[j],
            ).len(),
    ensures
        plate_count(state) <= total_slots(inventory, bars),
    decreases state.len(),
{
    if state.len() > 0 {
        let head = state.drop_last();
        let fewer = bars.drop_last();
        assert forall|j: int| 0 <= j < head.len() implies (#[trigger] head[j]).plates.len()
            <= usable_plates(inventory, fewer[j]).len() by {
            assert(state[j].plates.len() <= usable_plates(inventory, bars[j]).len());
        }
        lemma_plate_count_bound(head, inventory, fewer);
        assert(state[state.len() - 1].plates.len() <= usable_plates(
            inventory,
            bars[state.len() - 1],
        ).len());
    }
}

/// Whether `bar` is among `bars`.
fn holds_bar(bars: &Vec<Bar>, bar: Bar) -> (held: bool)
    ensures
        held == bars@.contains(bar),
{
    let mut k: usize = 0;
    while k < bars.len()
        invariant
            k <= bars.len(),
            forall|j: int| 0 <= j < k ==> bars@[j] != bar,
        decreases bars.len() - k,
    {
        if bars[k] == bar {
            return true;
        }
        k += 1;
    }
    false
}

/// Lists the bars of `bars` that are of `kind`, each once, in the order in
/// which they first appear.
pub fn bars_of(bars: &[Bar], kind: BarKind) -> (found: Vec<Bar>)
    ensures
        found@ == bars_of_kind(bars@, kind),
{
    let mut found: Vec<Bar> = Vec::new();
    let mut i: usize = 0;
    while i < bars.len()
        invariant
            i <= bars.len(),
            found@ == bars_of_kind(bars@.take(i as int), kind),
        decreases bars.len() - i,
    {
        assert(bars@.take(i + 1).drop_last() =~= bars@.take(i as int));
        let bar = bars[i];
        if bar.kind == kind && !holds_bar(&found, bar) {
            found.push(bar);
        }
        i += 1;
    }
    assert(bars@.take(bars.len() as int) =~= bars@);
    found
}

/// What [`enumerate_bars`] found for the bars: for each bar the enumeration
/// of its loadings, none of which mounts more plates than the bar can carry.
pub open spec fn enumerates(options: Seq<Seq<Loading>>, inventory: Seq<Plate>, bars: Seq<Bar>) -> bool {
    &&& options == options_of(inventory, bars)
    &&& forall|j: int|
        0 <= j < bars.len() ==> by_length_then_dictionary(
            powerset_of(usable_plates(inventory, #[trigger] bars[j]).len() as usize),
        )
    &&& forall|j: int|
        0 <= j < bars.len() ==> is_enumeration(#[trigger] options[j], inventory, bars[j])
    &&& forall|j: int, a: int|
        0 <= j < bars.len() && 0 <= a < options[j].len() ==> (#[trigger] options[j][a]).plates.len()
            <= usable_plates(inventory, bars[j]).len()
}

/// Enumerates for each of the bars its loadings, unless a bar breaks the
/// limits of [`fits_bar`] or the bars can carry more plates than can be
/// counted.
pub fn enumerate_bars(plates: &[Plate], bars: &Vec<Bar>) -> (found: Option<Vec<Vec<Dumbbell>>>)
    ensures
        match found {
            Some(options) => {
                &&& forall|j: int| 0 <= j < bars.len() ==> fits_bar(plates@, #[trigger] bars@[j])
                &&& total_slots(plates@, bars@) <= usize::MAX
                &&& enumerates(option_loadings(options@), plates@, bars@)
            },
            None => !(forall|j: int| 0 <= j < bars.len() ==> fits_bar(plates@, #[trigger] bars@[j]))
                || total_slots(plates@, bars@) > usize::MAX,
        },
{
    let ghost inventory = plates@;
    let mut options: Vec<Vec<Dumbbell>> = Vec::new();
    let mut total: usize = 0;
    let mut j: usize = 0;
    assert(option_loadings(options@) =~= options_of(inventory, bars@.take(0)));
    while j < bars.len()
        invariant
            j <= bars.len(),
            inventory == plates@,
            options.len() == j,
            total == total_slots(inventory, bars@.take(j as int)),
            forall|i: int| 0 <= i < j ==> fits_bar(inventory, #[trigger] bars@[i]),
            enumerates(option_loadings(options@), inventory, bars@.take(j as int)),
        decreases bars.len() - j,
    {
        let bar = bars[j];
        let slots = usable_plates_of(plates, &bar);
        proof {
            assert(bars@.take(j + 1).drop_last() =~= bars@.take(j as int));
            assert(bars@.take(j + 1).last() == bar);
            lemma_total_slots_prefix(inventory, bars@, j + 1);
        }
        let found = match dumbbells(plates, &bar) {
            Some(found) => found,
            None => {
                assert(!fits_bar(inventory, bars@[j as int]));
                return None;
            },
        };
        if slots.len() > usize::MAX - total {
            return None;
        }
        total = total + slots.len();
        let ghost before = options@;
        options.push(found);
        proof {
            let now = option_loadings(options@);
            let was = option_loadings(before);
            let first = bars@.take(j + 1);
            assert(now =~= options_of(inventory, first)) by {
                assert forall|i: int| 0 <= i < now.len() implies now[i] == options_of(
                    inventory,
                    first,
                )[i] by {
                    if i < j {
                        assert(now[i] == was[i]);
                        assert(was[i] == options_of(inventory, bars@.take(j as int))[i]);
                    }
                }
            }
            assert forall|i: int| 0 <= i < first.len() implies is_enumeration(
                #[trigger] now[i],
                inventory,
                first[i],
            ) by {
                if i < j {
                    assert(now[i] == was[i]);
                    assert(bars@.take(j as int)[i] == first[i]);
                }
            }
            assert forall|i: int, a: int|
                0 <= i < first.len() && 0 <= a < now[i].len() implies (
            #[trigger] now[i][a]).plates.len() <= usable_plates(inventory, first[i]).len() by {
                if i < j {
                    assert(now[i][a] == was[i][a]);
                    assert(bars@.take(j as int)[i] == first[i]);
                } else {
                    assert(now[i][a] == found[a]@);
                }
            }
        }
        j += 1;
    }
    assert(bars@.take(bars.len() as int) =~= bars@);
    Some(options)
}

/// Every enumeration holds the bare bar, so no bar is without options.
proof fn lemma_options_inhabited(options: Seq<Seq<Loading>>, inventory: Seq<Plate>, bars: Seq<Bar>)
    requires
        enumerates(options, inventory, bars),
        forall|j: int| 0 <= j < options.len() ==> (#[trigger] options[j]).len() <= usize::MAX,
    ensures
        forall|j: int| 0 <= j < sizes_of(options).len() ==> #[trigger] sizes_of(options)[j] >= 1,
{
    broadcast use vstd::seq_lib::group_to_multiset_ensures;

    assert forall|j: int| 0 <= j < sizes_of(options).len() implies #[trigger] sizes_of(options)[j]
        >= 1 by {
        let bare = Loading { plates: Seq::empty(), bar: bars[j] };
        assert(is_enumeration(options[j], inventory, bars[j]));
        assert(realizable(bare, inventory, bars[j])) by {
            assert forall|p: Plate| #[trigger] bare.plates.to_multiset().count(p) == 0 by {
                assert(!bare.plates.contains(p));
            }
        }
        assert(options[j].contains(bare));
    }
}

/// Whether the bars of `kind` among `bars` keep the limits of
/// [`fits_kind`].
fn kind_fits(plates: &[Plate], bars: &[Bar], kind: BarKind) -> (ok: bool)
    ensures
        ok == fits_kind(plates@, bars_of_kind(bars@, kind)),
{
    let kind_bars = bars_of(bars, kind);
    let options = match enumerate_bars(plates, &kind_bars) {
        Some(options) => options,
        None => {
            return false;
        },
    };
    let ghost sizes = sizes_of(option_loadings(options@));
    proof {
        assert forall|j: int| 0 <= j < options.len() implies (#[trigger] option_loadings(
            options@,
        )[j]).len() <= usize::MAX by {
            assert(option_loadings(options@)[j].len() == options@[j].len());
        }
        lemma_options_inhabited(option_loadings(options@), plates@, kind_bars@);
    }
    let mut product: usize = 1;
    let mut j: usize = 0;
    while j < options.len()
        invariant
            j <= options.len(),
            sizes == sizes_of(option_loadings(options@)),
            sizes == sizes_of(options_of(plates@, bars_of_kind(bars@, kind))),
            forall|i: int| 0 <= i < sizes.len() ==> #[trigger] sizes[i] >= 1,
            product == product_of(sizes.take(j as int)),
            1 <= product <= MAX_STATES,
        decreases options.len() - j,
    {
        let size = options[j].len();
        proof {
            assert(sizes.take(j + 1).drop_last() =~= sizes.take(j as int));
            assert(sizes.take(j + 1).last() == size);
            lemma_product_prefix(sizes, j + 1);
            assert(product_of(sizes.take(j + 1)) == product * size);
        }
        if size > MAX_STATES / product {
            assert(product * size > MAX_STATES) by (nonlinear_arith)
                requires
                    size > MAX_STATES / product,
                    product >= 1,
            ;
            return false;
        }
        assert(product * size <= MAX_STATES) by (nonlinear_arith)
            requires
                size <= MAX_STATES / product,
                product >= 1,
        ;
        product = product * size;
        j += 1;
    }
    assert(sizes.take(options.len() as int) =~= sizes);
    true
}

/// One of the options lifts `weight`.
pub open spec fn offers(options: Seq<Seq<Loading>>, weight: u64) -> bool {
    exists|j: int, a: int|
        0 <= j < options.len() && 0 <= a < options[j].len() && (
        #[trigger] options[j][a]).lifted_weight() == weight
}

/// Puts `weight` into the ascending list unless it is there.
fn insert_ascending(weights: &mut Vec<u64>, weight: u64)
    requires
        strictly_ascending(old(weights)@),
    ensures
        strictly_ascending(final(weights)@),
        forall|x: u64|
            final(weights)@.contains(x) <==> old(weights)@.contains(x) || x == weight,
{
    let mut at: usize = 0;
    while at < weights.len() && weights[at] < weight
        invariant
            at <= weights.len(),
            *weights == *old(weights),
            forall|k: int| 0 <= k < at ==> weights@[k] < weight,
        decreases weights.len() - at,
    {
        at += 1;
    }
    if at < weights.len() && weights[at] == weight {
        assert(weights@.contains(weight));
        return ;
    }
    weights.insert(at, weight);
    assert forall|x: u64| weights@.contains(x) <==> old(weights)@.contains(x) || x == weight by {
        if weights@.contains(x) {
            let k = choose|k: int| 0 <= k < weights@.len() && weights@[k] == x;
            if k < at {
                assert(old(weights)@[k] == x);
            } else if k > at {
                assert(old(weights)@[k - 1] == x);
            }
        }
        if old(weights)@.contains(x) {
            let k = choose|k: int| 0 <= k < old(weights)@.len() && old(weights)@[k] == x;
            if k < at {
                assert(weights@[k] == x);
            } else {
                assert(weights@[k + 1] == x);
            }
        }
        if x == weight {
            assert(weights@[at as int] == x);
        }
    }
}

/// Lists in ascending order, each once, the weights that the options lift.
fn offered_weights(options: &Vec<Vec<Dumbbell>>) -> (weights: Vec<u64>)
    ensures
        strictly_ascending(weights@),
        forall|x: u64| weights@.contains(x) <==> offers(option_loadings(options@), x),
{
    let ghost opts = option_loadings(options@);
    let mut weights: Vec<u64> = Vec::new();
    let mut j: usize = 0;
    while j < options.len()
        invariant
            j <= options.len(),
            opts == option_loadings(options@),
            strictly_ascending(weights@),
            forall|x: u64| weights@.contains(x) <==> offers(opts.take(j as int), x),
        decreases options.len() - j,
    {
        let mut a: usize = 0;
        while a < options[j].len()
            invariant
                j < options.len(),
                a <= options[j as int].len(),
                opts == option_loadings(options@),
                strictly_ascending(weights@),
                forall|x: u64|
                    weights@.contains(x) <==> offers(opts.take(j as int), x) || exists|b: int|
                        0 <= b < a && (#[trigger] opts[j as int][b]).lifted_weight() == x,
            decreases options[j as int].len() - a,
        {
            let weight = *options[j][a].weight();
            let ghost before = weights@;
            assert(opts[j as int][a as int] == options[j as int][a as int]@);
            insert_ascending(&mut weights, weight);
            assert forall|x: u64|
                weights@.contains(x) <==> offers(opts.take(j as int), x) || exists|b: int|
                    0 <= b < a + 1 && (#[trigger] opts[j as int][b]).lifted_weight() == x by {
                if x == weight {
                    assert(opts[j as int][a as int].lifted_weight() == x);
                }
                if before.contains(x) {
                    if !offers(opts.take(j as int), x) {
                        let b = choose|b: int|
                            0 <= b < a && (#[trigger] opts[j as int][b]).lifted_weight() == x;
                        assert(opts[j as int][b].lifted_weight() == x);
                    }
                }
            }
            a += 1;
        }
        assert forall|x: u64| weights@.contains(x) <==> offers(opts.take(j + 1), x) by {
            let now = opts.take(j + 1);
            let was = opts.take(j as int);
            if offers(now, x) {
                let (i, b) = choose|i: int, b: int|
                    0 <= i < now.len() && 0 <= b < now[i].len() && (
                    #[trigger] now[i][b]).lifted_weight() == x;
                if i < j {
                    assert(was[i][b].lifted_weight() == x);
                } else {
                    assert(opts[j as int][b].lifted_weight() == x);
                }
            }
            if offers(was, x) {
                let (i, b) = choose|i: int, b: int|
                    0 <= i < was.len() && 0 <= b < was[i].len() && (
                    #[trigger] was[i][b]).lifted_weight() == x;
                assert(now[i][b].lifted_weight() == x);
            }
            if exists|b: int|
                0 <= b < opts[j as int].len() && (#[trigger] opts[j as int][b]).lifted_weight()
                    == x {
                let b = choose|b: int|
                    0 <= b < opts[j as int].len() && (#[trigger] opts[j as int][b]).lifted_weight()
                        == x;
                assert(now[j as int][b].lifted_weight() == x);
            }
        }
        j += 1;
    }
    assert(opts.take(options.len() as int) =~= opts);
    weights
}

/// What a gym keeps for the bars of one kind.
pub(crate) struct Table {
    pub(crate) bars: Vec<Bar>,
    pub(crate) states: Vec<GymState>,
    pub(crate) plates: Vec<u64>,
    pub(crate) distances: DistanceTable,
}

impl Table {
    /// The bars are of the kind and differ, every state loads each of them,
    /// and the plate counts are those of the states.
    pub(crate) open spec fn wf(&self, kind: BarKind) -> bool {
        &&& self.bars@.no_duplicates()
        &&& forall|j: int| 0 <= j < self.bars@.len() ==> (#[trigger] self.bars@[j]).kind == kind
        &&& forall|k: int|
            0 <= k < self.states@.len() ==> loads_bars((#[trigger] self.states@[k])@, self.bars@)
        &&& self.plates@.len() == self.states@.len()
        &&& self.states@.len() <= usize::MAX
        &&& forall|k: int|
            0 <= k < self.states@.len() ==> (#[trigger] self.plates@[k]) == plate_count(
                self.states@[k]@,
            )
    }
}

/// The table of one kind is what the inventory and the bars make it: its
/// bars are the bars of the kind, the loadings of each bar are its
/// enumeration, the states are their cartesian product, and the distances
/// are those that the search for shortest paths finds between the states:
/// the least numbers of single plate changes that lead from one state to
/// another.
pub open spec fn is_table_of(
    kind_bars: Seq<Bar>,
    states: Seq<Seq<Loading>>,
    distances: Seq<Seq<u32>>,
    weights: Seq<u64>,
    inventory: Seq<Plate>,
    bars: Seq<Bar>,
    kind: BarKind,
) -> bool {
    &&& kind_bars == bars_of_kind(bars, kind)
    &&& states == states_of(inventory, kind_bars)
    &&& distances == oracle(states)
    &&& measures_steps(distances, states)
    &&& forall|j: int|
        0 <= j < kind_bars.len() ==> is_enumeration(
            #[trigger] options_of(inventory, kind_bars)[j],
            inventory,
            kind_bars[j],
        )
    &&& is_product(states, options_of(inventory, kind_bars))
    &&& in_dictionary_order(cartesian_of(sizes_of(options_of(inventory, kind_bars))))
    &&& forall|j: int|
        0 <= j < kind_bars.len() ==> by_length_then_dictionary(
            powerset_of(usable_plates(inventory, #[trigger] kind_bars[j]).len() as usize),
        )
    &&& strictly_ascending(weights)
    &&& forall|x: u64| weights.contains(x) <==> liftable(inventory, kind_bars, x)
}

/// Builds what a gym keeps for the bars of `kind`, and lists the weights that
/// can be lifted on them.
fn build_table(plates: &[Plate], bars: &[Bar], kind: BarKind) -> (built: (Table, Vec<u64>))
    requires
        fits_kind(plates@, bars_of_kind(bars@, kind)),
    ensures
        built.0.wf(kind),
        is_table_of(
            built.0.bars@,
            state_views(built.0.states@),
            built.0.distances@,
            built.1@,
            plates@,
            bars@,
            kind,
        ),
{
    let kind_bars = bars_of(bars, kind);
    let ghost inventory = plates@;
    proof {
        lemma_bars_of_kind(bars@, kind);
        assert forall|j: int| 0 <= j < kind_bars@.len() implies (#[trigger] kind_bars@[j]).kind
            == kind by {
            assert(kind_bars@.contains(kind_bars@[j]));
        }
    }
    let options = match enumerate_bars(plates, &kind_bars) {
        Some(options) => options,
        None => {
            assert(false);
            unreached()
        },
    };
    let ghost opts = option_loadings(options@);
    proof {
        assert(on_bars(opts, kind_bars@)) by {
            assert forall|i: int, a: int|
                0 <= i < opts.len() && 0 <= a < opts[i].len() implies (#[trigger] opts[i][a]).bar
                == kind_bars@[i] by {
                assert(is_enumeration(opts[i], inventory, kind_bars@[i]));
                assert(realizable(opts[i][a], inventory, kind_bars@[i]));
            }
        }
    }
    let states = gym_states(&kind_bars, &options);
    proof {
        assert forall|i: int| 0 <= i < options.len() implies (#[trigger] opts[i]).no_duplicates() by {
            assert(is_enumeration(opts[i], inventory, kind_bars@[i]));
        }
        assert(is_product(state_views(states@), opts));
    }
    let mut counts: Vec<u64> = Vec::new();
    let mut k: usize = 0;
    while k < states.len()
        invariant
            k <= states.len(),
            states.len() <= MAX_STATES,
            counts.len() == k,
            opts == option_loadings(options@),
            opts.len() == kind_bars@.len(),
            total_slots(inventory, kind_bars@) <= usize::MAX,
            is_product(state_views(states@), opts),
            forall|i: int, a: int|
                0 <= i < opts.len() && 0 <= a < opts[i].len() ==> (
                #[trigger] opts[i][a]).plates.len() <= usable_plates(inventory, kind_bars@[i]).len(),
            forall|i: int| 0 <= i < k ==> (#[trigger] counts@[i]) == plate_count(states@[i]@),
        decreases states.len() - k,
    {
        proof {
            let state = states@[k as int]@;
            assert(state == state_views(states@)[k as int]);
            assert(is_choice(state, opts));
            assert forall|i: int| 0 <= i < state.len() implies (#[trigger] state[i]).plates.len()
                <= usable_plates(inventory, kind_bars@[i]).len() by {
                assert(opts[i].contains(state[i]));
                let a = choose|a: int| 0 <= a < opts[i].len() && opts[i][a] == state[i];
                assert(opts[i][a].plates.len() <= usable_plates(inventory, kind_bars@[i]).len());
            }
            lemma_plate_count_bound(state, inventory, kind_bars@);
        }
        let count = states[k].plates();
        counts.push(count as u64);
        k += 1;
    }
    assert(states.len() * states.len() <= 0xfffe_0001) by (nonlinear_arith)
        requires
            states.len() <= 0xffff,
    ;
    let distances = DistanceTable::measure(&states);
    let weights = offered_weights(&options);
    proof {
        assert forall|x: u64| weights@.contains(x) <==> liftable(inventory, kind_bars@, x) by {
            if offers(opts, x) {
                let (i, a) = choose|i: int, a: int|
                    0 <= i < opts.len() && 0 <= a < opts[i].len() && (
                    #[trigger] opts[i][a]).lifted_weight() == x;
                assert(is_enumeration(opts[i], inventory, kind_bars@[i]));
                assert(realizable(opts[i][a], inventory, kind_bars@[i]));
            }
            if liftable(inventory, kind_bars@, x) {
                let (i, loading) = choose|i: int, loading: Loading|
                    0 <= i < kind_bars@.len() && #[trigger] realizable(
                        loading,
                        inventory,
                        kind_bars@[i],
                    ) && loading.lifted_weight() == x;
                assert(is_enumeration(opts[i], inventory, kind_bars@[i]));
                assert(opts[i].contains(loading));
                let a = choose|a: int| 0 <= a < opts[i].len() && opts[i][a] == loading;
                assert(opts[i][a].lifted_weight() == x);
            }
        }
    }
    (Table { bars: kind_bars, states, plates: counts, distances }, weights)
}

/// A gym: the plates and bars at hand, worked out into the states in which
/// the bars of each kind can be loaded and the distances between the states.
pub struct Gym {
    dumbbell: Table,
    barbell: Table,
    weights: Weights,
}

impl Gym {
    /// The bars of `kind` that the gym has, each once.
    pub closed spec fn spec_bars(&self, kind: BarKind) -> Seq<Bar> {
        match kind {
            BarKind::Dumbbell => self.dumbbell.bars@,
            BarKind::Barbell => self.barbell.bars@,
        }
    }

    /// The states of the bars of `kind`; a state's number is its position.
    pub closed spec fn spec_states(&self, kind: BarKind) -> Seq<Seq<Loading>> {
        match kind {
            BarKind::Dumbbell => state_views(self.dumbbell.states@),
            BarKind::Barbell => state_views(self.barbell.states@),
        }
    }

    /// The distances between the states of the bars of `kind`.
    pub closed spec fn spec_distances(&self, kind: BarKind) -> Seq<Seq<u32>> {
        match kind {
            BarKind::Dumbbell => self.dumbbell.distances@,
            BarKind::Barbell => self.barbell.distances@,
        }
    }

    /// The weights that can be lifted on a bar of `kind`.
    pub closed spec fn spec_weights(&self, kind: BarKind) -> Seq<u64> {
        self.weights.of(kind)
    }

    /// What every gym is held to: the bars of a kind are of the kind and
    /// differ from each other, and every state of a kind loads each bar of
    /// the kind, in the order of the bars.
    pub closed spec fn wf(&self) -> bool {
        &&& self.dumbbell.wf(BarKind::Dumbbell)
        &&& self.barbell.wf(BarKind::Barbell)
    }

    /// The gym is the one that these plates and bars make.
    pub open spec fn is_gym_of(&self, inventory: Seq<Plate>, bars: Seq<Bar>) -> bool {
        &&& is_table_of(
            self.spec_bars(BarKind::Dumbbell),
            self.spec_states(BarKind::Dumbbell),
            self.spec_distances(BarKind::Dumbbell),
            self.spec_weights(BarKind::Dumbbell),
            inventory,
            bars,
            BarKind::Dumbbell,
        )
        &&& is_table_of(
            self.spec_bars(BarKind::Barbell),
            self.spec_states(BarKind::Barbell),
            self.spec_distances(BarKind::Barbell),
            self.spec_weights(BarKind::Barbell),
            inventory,
            bars,
            BarKind::Barbell,
        )
    }

    /// What [`Gym::wf`] holds of the bars and states of a kind.
    pub proof fn lemma_wf(&self, kind: BarKind)
        requires
            self.wf(),
        ensures
            self.spec_bars(kind).no_duplicates(),
            self.spec_states(kind).len() <= usize::MAX,
            forall|j: int|
                0 <= j < self.spec_bars(kind).len() ==> (#[trigger] self.spec_bars(kind)[j]).kind
                    == kind,
            forall|k: int|
                0 <= k < self.spec_states(kind).len() ==> loads_bars(
                    #[trigger] self.spec_states(kind)[k],
                    self.spec_bars(kind),
                ),
    {
        match kind {
            BarKind::Dumbbell => {
                assert forall|k: int| 0 <= k < self.spec_states(kind).len() implies loads_bars(
                    #[trigger] self.spec_states(kind)[k],
                    self.spec_bars(kind),
                ) by {
                    assert(loads_bars(self.dumbbell.states@[k]@, self.dumbbell.bars@));
                }
            },
            BarKind::Barbell => {
                assert forall|k: int| 0 <= k < self.spec_states(kind).len() implies loads_bars(
                    #[trigger] self.spec_states(kind)[k],
                    self.spec_bars(kind),
                ) by {
                    assert(loads_bars(self.barbell.states@[k]@, self.barbell.bars@));
                }
            },
        }
    }

    /// What the gym keeps for the bars of `kind`.
    pub(crate) fn table(&self, kind: BarKind) -> (table: &Table)
        ensures
            table.bars@ == self.spec_bars(kind),
            state_views(table.states@) == self.spec_states(kind),
            table.distances@ == self.spec_distances(kind),
            self.wf() ==> table.wf(kind),
    {
        match kind {
            BarKind::Dumbbell => &self.dumbbell,
            BarKind::Barbell => &self.barbell,
        }
    }

    /// Whether a gym can be built of these plates and bars within the limits
    /// of the machine.
    #[must_use]
    pub fn fits(plates: &[Plate], bars: &[Bar]) -> (ok: bool)
        ensures
            ok == fits(plates@, bars@),
    {
        kind_fits(plates, bars, BarKind::Dumbbell) && kind_fits(plates, bars, BarKind::Barbell)
    }

    /// Works out the gym of these plates and bars: for each bar the loadings
    /// that the plates allow, for each kind the states of its bars, and the
    /// distances between them. A plate that is at hand several times is
    /// listed as often; a bar that is listed twice counts once.
    #[must_use]
    pub fn new(plates: &[Plate], bars: &[Bar]) -> (gym: Self)
        requires
            fits(plates@, bars@),
        ensures
            gym.wf(),
            gym.is_gym_of(plates@, bars@),
    {
        let (dumbbell, dumbbell_weights) = build_table(plates, bars, BarKind::Dumbbell);
        let (barbell, barbell_weights) = build_table(plates, bars, BarKind::Barbell);
        let weights = Weights::new(dumbbell_weights, barbell_weights);
        Gym { dumbbell, barbell, weights }
    }

    /// Works out the gym of these plates and bars where that can be done
    /// within the limits of the machine, and nothing where it cannot.
    #[must_use]
    pub fn try_new(plates: &[Plate], bars: &[Bar]) -> (gym: Option<Self>)
        ensures
            match gym {
                Some(gym) => fits(plates@, bars@) && gym.wf() && gym.is_gym_of(plates@, bars@),
                None => !fits(plates@, bars@),
            },
    {
        if Gym::fits(plates, bars) {
            Some(Gym::new(plates, bars))
        } else {
            None
        }
    }

    /// The weights that can be lifted, for each kind of bar in ascending
    /// order and each once.
    #[must_use]
    pub fn weights(self) -> (weights: Weights)
        ensures
            weights.of(BarKind::Dumbbell) == self.spec_weights(BarKind::Dumbbell),
            weights.of(BarKind::Barbell) == self.spec_weights(BarKind::Barbell),
    {
        self.weights
    }
}

/// Every loading in every state of a gym is one that the inventory allows
/// on its bar: its plates fit the bar, lie heaviest first, and none is used
/// more often than the inventory has sets of it for one side.
pub proof fn lemma_state_loadings_realizable(
    gym: &Gym,
    inventory: Seq<Plate>,
    bars: Seq<Bar>,
    kind: BarKind,
    k: int,
    j: int,
)
    requires
        gym.is_gym_of(inventory, bars),
        0 <= k < gym.spec_states(kind).len(),
        0 <= j < gym.spec_bars(kind).len(),
    ensures
        gym.spec_states(kind)[k].len() == gym.spec_bars(kind).len(),
        realizable(gym.spec_states(kind)[k][j], inventory, gym.spec_bars(kind)[j]),
{
    let kind_bars = gym.spec_bars(kind);
    let options = options_of(inventory, kind_bars);
    let state = gym.spec_states(kind)[k];
    assert(is_table_of(
        kind_bars,
        gym.spec_states(kind),
        gym.spec_distances(kind),
        gym.spec_weights(kind),
        inventory,
        bars,
        kind,
    ));
    assert(is_choice(state, options));
    assert(options[j].contains(state[j]));
    assert(is_enumeration(options[j], inventory, kind_bars[j]));
}

/// Gyms of the same plates and bars have the same bars, states and
/// distances.
pub proof fn lemma_same_inputs_same_gym(
    a: &Gym,
    b: &Gym,
    inventory: Seq<Plate>,
    bars: Seq<Bar>,
    kind: BarKind,
)
    requires
        a.is_gym_of(inventory, bars),
        b.is_gym_of(inventory, bars),
    ensures
        a.spec_bars(kind) == b.spec_bars(kind),
        a.spec_states(kind) == b.spec_states(kind),
        a.spec_distances(kind) == b.spec_distances(kind),
{
    assert(is_table_of(
        a.spec_bars(kind),
        a.spec_states(kind),
        a.spec_distances(kind),
        a.spec_weights(kind),
        inventory,
        bars,
        kind,
    ));
    assert(is_table_of(
        b.spec_bars(kind),
        b.spec_states(kind),
        b.spec_distances(kind),
        b.spec_weights(kind),
        inventory,
        bars,
        kind,
    ));
}

} // verus!
