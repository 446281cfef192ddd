use vstd::prelude::*;
use vstd::arithmetic::power2::{lemma2_to64, lemma_pow2_strictly_increases, pow2};
use crate::bar::Bar;
use crate::combinatorics::{
    by_length_then_dictionary, increasing_below, index_subsets, is_ranking, order_by_key,
    powerset_of, ranking,
};
use crate::dumbbell::{Dumbbell, Loading};
use crate::inventory::{is_usable_plates, usable_count, usable_plates, usable_plates_of};
use crate::plate::{heaviest_first, plates_weight, Plate};

verus! {

broadcast use vstd::seq_lib::group_to_multiset_ensures;

/// The most plates that one side of a bar may be able to carry. With more,
/// the subsets of the plates could outnumber what `usize` counts on a machine
/// of 32 bits.
pub const MAX_SLOTS: usize = 31;

/// The plates of `slots` at the positions `indices`.
pub open spec fn pick(slots: Seq<Plate>, indices: Seq<usize>) -> Seq<Plate> {
    Seq::new(indices.len(), |k: int| slots[indices[k] as int])
}

/// `plates` is a subsequence of `slots`.
pub open spec fn picked_from(plates: Seq<Plate>, slots: Seq<Plate>) -> bool {
    exists|indices: Seq<usize>|
        increasing_below(indices, slots.len()) && plates == #[trigger] pick(slots, indices)
}

/// For each list of positions the plates that it picks.
pub open spec fn picks(slots: Seq<Plate>, subsets: Seq<Seq<usize>>) -> Seq<Seq<Plate>> {
    Seq::new(subsets.len(), |i: int| pick(slots, subsets[i]))
}

/// `items` without the items that repeat an earlier one.
pub open spec fn first_occurrences(items: Seq<Seq<Plate>>) -> Seq<Seq<Plate>>
    decreases items.len(),
{
    if items.len() == 0 {
        Seq::empty()
    } else {
        let before = first_occurrences(items.drop_last());
        if before.contains(items.last()) {
            before
        } else {
            before.push(items.last())
        }
    }
}

/// A loading that the inventory allows on `bar`: the plates fit the bar, lie
/// heaviest first, and none is used more often than one side can carry it.
pub open spec fn realizable(loading: Loading, inventory: Seq<Plate>, bar: Bar) -> bool {
    &&& loading.bar == bar
    &&& loading.canonical()
    &&& forall|p: Plate| #[trigger]
        loading.plates.to_multiset().count(p) <= usable_count(inventory, bar, p)
}

/// `loadings` is the enumeration of the loadings of `bar`: each is
/// realizable, every realizable loading is there, none twice, and the lifted
/// weight never falls from one to the next.
pub open spec fn is_enumeration(loadings: Seq<Loading>, inventory: Seq<Plate>, bar: Bar) -> bool {
    &&& forall|i: int| 0 <= i < loadings.len() ==> realizable(#[trigger] loadings[i], inventory, bar)
    &&& forall|l: Loading| #[trigger] realizable(l, inventory, bar) ==> loadings.contains(l)
    &&& loadings.no_duplicates()
    &&& forall|i: int, j: int|
        0 <= i <= j < loadings.len() ==> (#[trigger] loadings[i]).lifted_weight() <= (
        #[trigger] loadings[j]).lifted_weight()
}

/// The machine limits under which the loadings of `bar` can be enumerated:
/// one side carries at most [`MAX_SLOTS`] plates, and the heaviest loading
/// stays within `u64`.
pub open spec fn fits_bar(inventory: Seq<Plate>, bar: Bar) -> bool {
    &&& usable_plates(inventory, bar).len() <= MAX_SLOTS
    &&& bar.weight + 2 * plates_weight(usable_plates(inventory, bar)) <= u64::MAX
}

/// The lifted weights of bare plate lists on `bar`.
pub open spec fn weights_on(bar: Bar, lists: Seq<Seq<Plate>>) -> Seq<u64> {
    Seq::new(lists.len(), |i: int| (Loading { plates: lists[i], bar }).lifted_weight() as u64)
}

/// The loadings of `bar` in the order in which [`dumbbells`] returns them:
/// by lifted weight, and loadings of one weight in the order in which the
/// subsets of the usable plates first give them. The subsets come by their
/// lengths, and subsets of one length in the order of a dictionary of the
/// positions that they take.
pub open spec fn loadings_of(inventory: Seq<Plate>, bar: Bar) -> Seq<Loading> {
    let slots = usable_plates(inventory, bar);
    let distinct = first_occurrences(picks(slots, powerset_of(slots.len() as usize)));
    let order = ranking(weights_on(bar, distinct));
    Seq::new(distinct.len(), |k: int| Loading { plates: distinct[order[k] as int], bar })
}

/// The views of a sequence of dumbbells.
pub open spec fn loadings(dumbbells: Seq<Dumbbell>) -> Seq<Loading> {
    Seq::new(dumbbells.len(), |i: int| dumbbells[i]@)
}

/// The plate lists of a sequence of dumbbells.
pub open spec fn plate_lists(dumbbells: Seq<Dumbbell>) -> Seq<Seq<Plate>> {
    Seq::new(dumbbells.len(), |i: int| dumbbells[i]@.plates)
}

/// The index lists that a vector of vectors holds.
pub open spec fn index_lists(subsets: Seq<Vec<usize>>) -> Seq<Seq<usize>> {
    Seq::new(subsets.len(), |i: int| subsets[i]@)
}

/// Positions that climb strictly below `n` are at most `n`.
pub proof fn lemma_increasing_len(indices: Seq<usize>, n: nat)
    requires
        increasing_below(indices, n),
    ensures
        indices.len() <= n,
    decreases indices.len(),
{
    if indices.len() > 0 {
        let fewer = indices.drop_last();
        assert(indices[indices.len() - 1] < n);
        assert(increasing_below(fewer, (n - 1) as nat)) by {
            assert forall|i: int| 0 <= i < fewer.len() implies fewer[i] < n - 1 by {
                assert(indices[i] < indices[indices.len() - 1]);
            }
        }
        lemma_increasing_len(fewer, (n - 1) as nat);
    }
}

/// What is picked out of `slots` weighs no more than `slots`, and holds no
/// plate more often.
pub proof fn lemma_pick_within(slots: Seq<Plate>, indices: Seq<usize>)
    requires
        increasing_below(indices, slots.len()),
    ensures
        plates_weight(pick(slots, indices)) <= plates_weight(slots),
        forall|p: Plate| #[trigger]
            pick(slots, indices).to_multiset().count(p) <= slots.to_multiset().count(p),
    decreases slots.len(),
{
    let picked = pick(slots, indices);
    if slots.len() == 0 {
        assert(indices.len() == 0) by {
            if indices.len() > 0 {
                assert(indices[0] < 0);
            }
        }
        assert(picked =~= Seq::<Plate>::empty());
    } else {
        let head = slots.drop_last();
        assert(slots =~= head.push(slots.last()));
        if indices.len() > 0 && indices.last() == slots.len() - 1 {
            let fewer = indices.drop_last();
            assert(increasing_below(fewer, head.len()));
            lemma_pick_within(head, fewer);
            assert(picked.drop_last() =~= pick(head, fewer));
            assert(picked =~= pick(head, fewer).push(slots.last()));
        } else {
            assert(increasing_below(indices, head.len())) by {
                assert forall|i: int| 0 <= i < indices.len() implies indices[i] < head.len() by {
                    assert(indices[i] <= indices.last());
                }
            }
            lemma_pick_within(head, indices);
            assert(picked =~= pick(head, indices));
        }
    }
}

/// What is picked out of the usable plates of a bar is a realizable loading.
pub proof fn lemma_pick_realizable(
    slots: Seq<Plate>,
    indices: Seq<usize>,
    inventory: Seq<Plate>,
    bar: Bar,
)
    requires
        is_usable_plates(slots, inventory, bar),
        increasing_below(indices, slots.len()),
    ensures
        realizable(Loading { plates: pick(slots, indices), bar }, inventory, bar),
{
    let picked = pick(slots, indices);
    lemma_pick_within(slots, indices);
    crate::inventory::lemma_usable_plates_unique(slots, inventory, bar);
    assert forall|p: Plate| #[trigger]
        picked.to_multiset().count(p) <= usable_count(inventory, bar, p) by {
        assert(slots.to_multiset().count(p) == usable_count(inventory, bar, p));
    }
    assert(heaviest_first(picked)) by {
        assert forall|i: int, j: int| 0 <= i <= j < picked.len() implies picked[i].weight
            >= picked[j].weight by {
            assert(indices[i] <= indices[j]);
        }
    }
}

/// A list of plates that lies heaviest first and takes no plate more often
/// than `slots` holds it can be picked out of `slots`.
pub proof fn lemma_picked_by(plates: Seq<Plate>, slots: Seq<Plate>, gauge: u64) -> (indices: Seq<
    usize,
>)
    requires
        heaviest_first(plates),
        heaviest_first(slots),
        slots.len() <= usize::MAX,
        forall|i: int| 0 <= i < plates.len() ==> (#[trigger] plates[i]).gauge == gauge,
        forall|i: int| 0 <= i < slots.len() ==> (#[trigger] slots[i]).gauge == gauge,
        forall|p: Plate| #[trigger] plates.to_multiset().count(p) <= slots.to_multiset().count(p),
    ensures
        increasing_below(indices, slots.len()),
        pick(slots, indices) == plates,
    decreases slots.len(),
{
    if plates.len() == 0 {
        let indices = Seq::<usize>::empty();
        assert(pick(slots, indices) =~= plates);
        indices
    } else if slots.len() == 0 {
        assert(plates.contains(plates[0]));
        assert(plates.to_multiset().count(plates[0]) <= slots.to_multiset().count(plates[0]));
        Seq::<usize>::empty()
    } else {
        let head = slots.drop_last();
        let lightest = slots.last();
        let last = plates.last();
        assert(slots =~= head.push(lightest));
        if last == lightest {
            let fewer = plates.drop_last();
            assert(plates =~= fewer.push(last));
            assert forall|p: Plate| #[trigger]
                fewer.to_multiset().count(p) <= head.to_multiset().count(p) by {
                assert(plates.to_multiset().count(p) <= slots.to_multiset().count(p));
            }
            let before = lemma_picked_by(fewer, head, gauge);
            let indices = before.push((slots.len() - 1) as usize);
            assert(pick(slots, indices) =~= plates);
            indices
        } else {
            assert(!plates.contains(lightest)) by {
                if plates.contains(lightest) {
                    let i = choose|i: int| 0 <= i < plates.len() && plates[i] == lightest;
                    assert(plates[i].weight >= last.weight);
                    assert(plates.contains(last));
                    assert(plates.to_multiset().count(last) <= slots.to_multiset().count(last));
                    assert(slots.contains(last));
                    let j = choose|j: int| 0 <= j < slots.len() && slots[j] == last;
                    assert(slots[j].weight >= lightest.weight);
                    assert(last.gauge == lightest.gauge);
                }
            }
            assert forall|p: Plate| #[trigger]
                plates.to_multiset().count(p) <= head.to_multiset().count(p) by {
                assert(plates.to_multiset().count(p) <= slots.to_multiset().count(p));
                if p == lightest {
                    assert(plates.to_multiset().count(p) == 0);
                }
            }
            let indices = lemma_picked_by(plates, head, gauge);
            assert(pick(slots, indices) =~= pick(head, indices));
            indices
        }
    }
}

/// The first occurrences of a list hold what the list holds, once each.
pub proof fn lemma_first_occurrences(items: Seq<Seq<Plate>>)
    ensures
        first_occurrences(items).no_duplicates(),
        first_occurrences(items).len() <= items.len(),
        forall|x: Seq<Plate>| first_occurrences(items).contains(x) <==> items.contains(x),
    decreases items.len(),
{
    if items.len() > 0 {
        let head = items.drop_last();
        lemma_first_occurrences(head);
        let before = first_occurrences(head);
        assert(items =~= head.push(items.last()));
        assert forall|x: Seq<Plate>| first_occurrences(items).contains(x) <==> items.contains(
            x,
        ) by {
            if items.contains(x) {
                let i = choose|i: int| 0 <= i < items.len() && items[i] == x;
                if i < head.len() {
                    assert(head[i] == x);
                    assert(head.contains(x));
                    assert(before.contains(x));
                    let k = choose|k: int| 0 <= k < before.len() && before[k] == x;
                    assert(first_occurrences(items)[k] == x);
                } else {
                    if before.contains(x) {
                    } else {
                        assert(first_occurrences(items)[before.len() as int] == x);
                    }
                }
            }
            if first_occurrences(items).contains(x) {
                let k = choose|k: int|
                    0 <= k < first_occurrences(items).len() && first_occurrences(items)[k] == x;
                if k < before.len() {
                    assert(before[k] == x);
                    assert(before.contains(x));
                    assert(head.contains(x));
                    let i = choose|i: int| 0 <= i < head.len() && head[i] == x;
                    assert(items[i] == x);
                } else {
                    assert(items[items.len() - 1] == x);
                }
            }
        }
    }
}

/// Picks the plates at the positions `indices` out of `slots`.
fn pick_plates(slots: &Vec<Plate>, indices: &Vec<usize>) -> (plates: Vec<Plate>)
    requires
        forall|k: int| 0 <= k < indices.len() ==> indices[k] < slots.len(),
    ensures
        plates@ == pick(slots@, indices@),
{
    let mut plates: Vec<Plate> = Vec::new();
    let mut k: usize = 0;
    while k < indices.len()
        invariant
            k <= indices.len(),
            forall|k: int| 0 <= k < indices.len() ==> indices[k] < slots.len(),
            plates@ == pick(slots@, indices@).take(k as int),
        decreases indices.len() - k,
    {
        plates.push(slots[indices[k]]);
        assert(plates@ =~= pick(slots@, indices@).take(k + 1));
        k += 1;
    }
    assert(plates@ =~= pick(slots@, indices@));
    plates
}

/// Whether two lists hold the same plates in the same order.
fn same_plates(a: &[Plate], b: &Vec<Plate>) -> (same: bool)
    ensures
        same == (a@ == b@),
{
    if a.len() != b.len() {
        return false;
    }
    let mut i: usize = 0;
    while i < a.len()
        invariant
            i <= a.len() == b.len(),
            forall|j: int| 0 <= j < i ==> a@[j] == b@[j],
        decreases a.len() - i,
    {
        if a[i] != b[i] {
            return false;
        }
        i += 1;
    }
    assert(a@ =~= b@);
    true
}

/// Whether one of `kept` holds exactly `plates`.
fn holds_plates(kept: &Vec<Dumbbell>, plates: &Vec<Plate>) -> (found: bool)
    ensures
        found == plate_lists(kept@).contains(plates@),
{
    let mut i: usize = 0;
    while i < kept.len()
        invariant
            i <= kept.len(),
            forall|j: int| 0 <= j < i ==> plate_lists(kept@)[j] != plates@,
        decreases kept.len() - i,
    {
        if same_plates(kept[i].plates(), plates) {
            assert(plate_lists(kept@)[i as int] == plates@);
            return true;
        }
        i += 1;
    }
    false
}

/// Mounts on `bar` what each of `subsets` picks out of `slots`, and keeps of
/// loadings with the same plates the first.
pub fn distinct_loadings(slots: &Vec<Plate>, subsets: &Vec<Vec<usize>>, bar: &Bar) -> (kept: Vec<
    Dumbbell,
>)
    requires
        forall|i: int|
            0 <= i < subsets.len() ==> increasing_below((#[trigger] subsets[i])@, slots.len() as nat),
        (Loading { plates: slots@, bar: *bar }).canonical(),
        bar.weight + 2 * plates_weight(slots@) <= u64::MAX,
    ensures
        plate_lists(kept@) == first_occurrences(picks(slots@, index_lists(subsets@))),
        forall|i: int| 0 <= i < kept.len() ==> (#[trigger] kept[i])@.bar == *bar,
{
    let ghost all = picks(slots@, index_lists(subsets@));
    let mut kept: Vec<Dumbbell> = Vec::new();
    let mut i: usize = 0;
    assert(plate_lists(kept@) =~= first_occurrences(all.take(0)));
    while i < subsets.len()
        invariant
            i <= subsets.len(),
            all == picks(slots@, index_lists(subsets@)),
            forall|i: int|
                0 <= i < subsets.len() ==> increasing_below(
                    (#[trigger] subsets[i])@,
                    slots.len() as nat,
                ),
            (Loading { plates: slots@, bar: *bar }).canonical(),
            bar.weight + 2 * plates_weight(slots@) <= u64::MAX,
            plate_lists(kept@) == first_occurrences(all.take(i as int)),
            forall|j: int| 0 <= j < kept.len() ==> (#[trigger] kept[j])@.bar == *bar,
        decreases subsets.len() - i,
    {
        assert(increasing_below(subsets[i as int]@, slots.len() as nat));
        let plates = pick_plates(slots, &subsets[i]);
        proof {
            lemma_pick_within(slots@, subsets[i as int]@);
            assert(all.take(i + 1).drop_last() =~= all.take(i as int));
            assert(all.take(i + 1).last() == plates@);
        }
        if !holds_plates(&kept, &plates) {
            let ghost before = kept@;
            let ghost picked = plates@;
            proof {
                let indices = subsets[i as int]@;
                assert forall|a: int, b: int| 0 <= a <= b < picked.len() implies picked[a].weight
                    >= picked[b].weight by {
                    assert(indices[a] <= indices[b]);
                }
            }
            let dumbbell = Dumbbell::new(plates, *bar);
            kept.push(dumbbell);
            assert(plate_lists(kept@) =~= plate_lists(before).push(picked));
        }
        i += 1;
    }
    assert(all.take(subsets.len() as int) =~= all);
    kept
}

/// Every loading that `slots` allows on `bar`, once each: the subsets of
/// `slots`, each mounted on the bar, without those that repeat the plates of
/// an earlier one.
pub fn available_dumbbells(slots: &Vec<Plate>, bar: &Bar) -> (kept: Vec<Dumbbell>)
    requires
        slots.len() <= MAX_SLOTS,
        (Loading { plates: slots@, bar: *bar }).canonical(),
        bar.weight + 2 * plates_weight(slots@) <= u64::MAX,
    ensures
        plate_lists(kept@) == first_occurrences(picks(slots@, powerset_of(slots.len()))),
        forall|i: int| 0 <= i < kept.len() ==> (#[trigger] kept[i])@.bar == *bar,
        forall|i: int| 0 <= i < kept.len() ==> picked_from((#[trigger] kept[i])@.plates, slots@),
        forall|indices: Seq<usize>| #[trigger]
            increasing_below(indices, slots.len() as nat) ==> plate_lists(kept@).contains(
                pick(slots@, indices),
            ),
        plate_lists(kept@).no_duplicates(),
        kept.len() <= pow2(slots.len() as nat),
        by_length_then_dictionary(powerset_of(slots.len())),
{
    proof {
        lemma2_to64();
        if slots.len() < 31 {
            lemma_pow2_strictly_increases(slots.len() as nat, 31);
        }
    }
    let subsets = index_subsets(slots.len());
    let kept = distinct_loadings(slots, &subsets, bar);
    proof {
        let lists = index_lists(subsets@);
        assert(lists =~= powerset_of(slots.len()));
        assert(by_length_then_dictionary(lists)) by {
            assert forall|k: int, l: int| 0 <= k < l < lists.len() implies crate::combinatorics::shorter_or_less(
                #[trigger] lists[k],
                #[trigger] lists[l],
            ) by {
                assert(crate::combinatorics::shorter_or_less(subsets[k]@, subsets[l]@));
            }
        }
        let all = picks(slots@, lists);
        lemma_first_occurrences(all);
        assert forall|i: int| 0 <= i < kept.len() implies picked_from(
            (#[trigger] kept[i])@.plates,
            slots@,
        ) by {
            assert(plate_lists(kept@)[i] == kept[i]@.plates);
            assert(plate_lists(kept@).contains(kept[i]@.plates));
            assert(all.contains(kept[i]@.plates));
            let j = choose|j: int| 0 <= j < all.len() && all[j] == kept[i]@.plates;
            assert(increasing_below(subsets[j]@, slots.len() as nat));
            assert(kept[i]@.plates == pick(slots@, subsets[j]@));
        }
        assert forall|indices: Seq<usize>| #[trigger]
            increasing_below(indices, slots.len() as nat) implies plate_lists(kept@).contains(
            pick(slots@, indices),
        ) by {
            let j = choose|j: int| 0 <= j < subsets.len() && (#[trigger] subsets[j])@ == indices;
            assert(all[j] == pick(slots@, indices));
            assert(all.contains(pick(slots@, indices)));
        }
    }
    kept
}

/// Loadings picked out of the usable plates of a bar, once each and ordered
/// by their weights, are the enumeration of the bar's loadings.
proof fn lemma_ordered_is_enumeration(
    out: Seq<Loading>,
    distinct: Seq<Seq<Plate>>,
    order: Seq<usize>,
    slots: Seq<Plate>,
    inventory: Seq<Plate>,
    bar: Bar,
)
    requires
        is_usable_plates(slots, inventory, bar),
        slots.len() <= usize::MAX,
        distinct.len() <= usize::MAX,
        distinct.no_duplicates(),
        forall|i: int| 0 <= i < distinct.len() ==> picked_from(#[trigger] distinct[i], slots),
        forall|indices: Seq<usize>| #[trigger]
            increasing_below(indices, slots.len()) ==> distinct.contains(pick(slots, indices)),
        forall|i: int|
            0 <= i < distinct.len() ==> (Loading {
                plates: #[trigger] distinct[i],
                bar,
            }).lifted_weight() <= u64::MAX,
        is_ranking(order, weights_on(bar, distinct)),
        out.len() == distinct.len(),
        forall|k: int|
            0 <= k < out.len() ==> #[trigger] out[k] == (Loading {
                plates: distinct[order[k] as int],
                bar,
            }),
    ensures
        is_enumeration(out, inventory, bar),
{
    let keys = weights_on(bar, distinct);
    crate::inventory::lemma_usable_plates_unique(slots, inventory, bar);
    assert forall|k: int| 0 <= k < out.len() implies realizable(
        #[trigger] out[k],
        inventory,
        bar,
    ) by {
        let i = order[k] as int;
        assert(picked_from(distinct[i], slots));
        let indices = choose|indices: Seq<usize>|
            increasing_below(indices, slots.len()) && distinct[i] == #[trigger] pick(
                slots,
                indices,
            );
        lemma_pick_realizable(slots, indices, inventory, bar);
        assert(out[k] =~= (Loading { plates: pick(slots, indices), bar }));
    }
    assert forall|l: Loading| #[trigger] realizable(l, inventory, bar) implies out.contains(l) by {
        assert forall|p: Plate| #[trigger]
            l.plates.to_multiset().count(p) <= slots.to_multiset().count(p) by {
            assert(l.plates.to_multiset().count(p) <= usable_count(inventory, bar, p));
            assert(slots.to_multiset().count(p) == usable_count(inventory, bar, p));
        }
        let indices = lemma_picked_by(l.plates, slots, bar.gauge);
        assert(distinct.contains(l.plates));
        let i = choose|i: int| 0 <= i < distinct.len() && distinct[i] == l.plates;
        let at = i as usize;
        assert(order.contains(at));
        let k = choose|k: int| 0 <= k < order.len() && order[k] == at;
        assert(out[k] =~= l);
    }
    assert forall|k: int, m: int| 0 <= k < m < out.len() implies out[k] != out[m] by {
        let a = order[k] as int;
        let b = order[m] as int;
        assert(a != b);
        assert(distinct[a] != distinct[b]);
    }
    assert forall|k: int, m: int| 0 <= k <= m < out.len() implies (#[trigger] out[k]).lifted_weight()
        <= (#[trigger] out[m]).lifted_weight() by {
        let a = order[k] as int;
        let b = order[m] as int;
        if k < m {
            assert(keys[a] <= keys[b]);
        }
    }
}

/// Adds up the weights of the plates, of which there are few.
fn weigh(plates: &Vec<Plate>) -> (sum: u128)
    requires
        plates.len() <= MAX_SLOTS,
    ensures
        sum == plates_weight(plates@),
        sum <= MAX_SLOTS * u64::MAX,
{
    let mut sum: u128 = 0;
    let mut i: usize = 0;
    while i < plates.len()
        invariant
            i <= plates.len() <= MAX_SLOTS,
            sum == plates_weight(plates@.take(i as int)),
            sum <= i * u64::MAX,
        decreases plates.len() - i,
    {
        assert(plates@.take(i + 1).drop_last() =~= plates@.take(i as int));
        sum = sum + plates[i].weight as u128;
        i += 1;
    }
    assert(plates@.take(plates.len() as int) =~= plates@);
    sum
}

/// Enumerates the loadings of `bar`: every list of plates that fit the bar,
/// lie heaviest first and use no plate more often than the inventory allows
/// on one side, the bare bar among them. The loadings come by ascending
/// lifted weight. Nothing is enumerated where the bar breaks the limits of
/// [`fits_bar`].
pub fn dumbbells(plates: &[Plate], bar: &Bar) -> (found: Option<Vec<Dumbbell>>)
    ensures
        match found {
            Some(out) => {
                &&& fits_bar(plates@, *bar)
                &&& is_enumeration(loadings(out@), plates@, *bar)
                &&& loadings(out@) == loadings_of(plates@, *bar)
                &&& by_length_then_dictionary(
                    powerset_of(usable_plates(plates@, *bar).len() as usize),
                )
                &&& out.len() <= pow2(usable_plates(plates@, *bar).len())
                &&& forall|i: int|
                    0 <= i < out.len() ==> (#[trigger] out[i])@.plates.len() <= usable_plates(
                        plates@,
                        *bar,
                    ).len()
            },
            None => !fits_bar(plates@, *bar),
        },
{
    let slots = usable_plates_of(plates, bar);
    if slots.len() > MAX_SLOTS {
        return None;
    }
    let side = weigh(&slots);
    if bar.weight as u128 + 2 * side > u64::MAX as u128 {
        return None;
    }
    Some(loadings_within_limits(plates, bar))
}

/// Enumerates the loadings of a bar that keeps the limits of [`fits_bar`].
fn loadings_within_limits(plates: &[Plate], bar: &Bar) -> (out: Vec<Dumbbell>)
    requires
        fits_bar(plates@, *bar),
    ensures
        is_enumeration(loadings(out@), plates@, *bar),
        loadings(out@) == loadings_of(plates@, *bar),
        by_length_then_dictionary(powerset_of(usable_plates(plates@, *bar).len() as usize)),
        out.len() <= pow2(usable_plates(plates@, *bar).len()),
        forall|i: int|
            0 <= i < out.len() ==> (#[trigger] out[i])@.plates.len() <= usable_plates(
                plates@,
                *bar,
            ).len(),
{
    let slots = usable_plates_of(plates, bar);
    proof {
        crate::inventory::lemma_usable_plates_unique(slots@, plates@, *bar);
    }
    let kept = available_dumbbells(&slots, bar);
    let mut keys: Vec<u64> = Vec::new();
    let mut i: usize = 0;
    while i < kept.len()
        invariant
            i <= kept.len(),
            keys.len() == i,
            forall|j: int| 0 <= j < kept.len() ==> (#[trigger] kept[j])@.bar == *bar,
            forall|j: int| 0 <= j < i ==> (#[trigger] kept[j])@.lifted_weight() == keys@[j],
        decreases kept.len() - i,
    {
        let weight = *kept[i].weight();
        keys.push(weight);
        i += 1;
    }
    assert(keys@ =~= weights_on(*bar, plate_lists(kept@))) by {
        assert forall|j: int| 0 <= j < kept.len() implies keys@[j] == weights_on(
            *bar,
            plate_lists(kept@),
        )[j] by {
            assert(kept[j]@ =~= (Loading { plates: plate_lists(kept@)[j], bar: *bar }));
        }
    }
    let order = order_by_key(&keys);
    let mut out: Vec<Dumbbell> = Vec::new();
    let mut k: usize = 0;
    while k < order.len()
        invariant
            k <= order.len() == kept.len(),
            out.len() == k,
            is_ranking(order@, keys@),
            keys.len() == kept.len(),
            forall|j: int| 0 <= j < kept.len() ==> (#[trigger] kept[j])@.bar == *bar,
            forall|j: int|
                0 <= j < k ==> (#[trigger] out[j])@ == (Loading {
                    plates: plate_lists(kept@)[order[j] as int],
                    bar: *bar,
                }),
        decreases order.len() - k,
    {
        assert(order@[k as int] < keys.len());
        let copy = kept[order[k]].clone();
        assert(copy@ =~= (Loading { plates: plate_lists(kept@)[order[k as int] as int], bar: *bar }));
        out.push(copy);
        k += 1;
    }
    proof {
        let distinct = plate_lists(kept@);
        assert forall|i: int| 0 <= i < distinct.len() implies (Loading {
            plates: #[trigger] distinct[i],
            bar: *bar,
        }).lifted_weight() <= u64::MAX by {
            assert(kept[i]@ =~= (Loading { plates: distinct[i], bar: *bar }));
            assert(kept[i]@.lifted_weight() == keys@[i]);
        }
        assert forall|i: int| 0 <= i < distinct.len() implies picked_from(
            #[trigger] distinct[i],
            slots@,
        ) by {
            assert(picked_from(kept[i]@.plates, slots@));
        }
        lemma_ordered_is_enumeration(loadings(out@), distinct, order@, slots@, plates@, *bar);
        assert(loadings(out@) =~= loadings_of(plates@, *bar));
        assert forall|i: int| 0 <= i < out.len() implies (#[trigger] out[i])@.plates.len()
            <= slots@.len() by {
            let j = order@[i] as int;
            assert(picked_from(distinct[j], slots@));
            let indices = choose|indices: Seq<usize>|
                increasing_below(indices, slots@.len()) && distinct[j] == #[trigger] pick(
                    slots@,
                    indices,
                );
            lemma_increasing_len(indices, slots@.len());
        }
    }
    out
}

} // verus!
