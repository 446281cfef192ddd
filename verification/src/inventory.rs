use vstd::prelude::*;
use crate::bar::Bar;
use crate::plate::{heaviest_first, insert_heaviest_first, Plate};

verus! {

broadcast use vstd::seq_lib::group_to_multiset_ensures;

/// How often one side of `bar` can carry a plate like `plate`: a plate that
/// fits the bar is usable once for every full set of identical plates that
/// the bar's kind needs.
pub open spec fn usable_count(inventory: Seq<Plate>, bar: Bar, plate: Plate) -> nat {
    if plate.gauge == bar.gauge {
        inventory.to_multiset().count(plate) / bar.kind.spec_required_similar_plates()
    } else {
        0
    }
}

/// `slots` lists, heaviest first, each plate as often as one side of `bar`
/// can carry it.
pub open spec fn is_usable_plates(slots: Seq<Plate>, inventory: Seq<Plate>, bar: Bar) -> bool {
    &&& heaviest_first(slots)
    &&& forall|p: Plate| #[trigger] slots.to_multiset().count(p) == usable_count(inventory, bar, p)
}

/// The plates that one side of `bar` can carry, heaviest first.
pub open spec fn usable_plates(inventory: Seq<Plate>, bar: Bar) -> Seq<Plate> {
    choose|slots: Seq<Plate>| is_usable_plates(slots, inventory, bar)
}

/// The order in which usable plates are listed, made total by the gauge.
spec fn plate_ge(a: Plate, b: Plate) -> bool {
    a.weight > b.weight || (a.weight == b.weight && a.gauge >= b.gauge)
}

/// There is one list of usable plates only.
pub proof fn lemma_usable_plates_unique(slots: Seq<Plate>, inventory: Seq<Plate>, bar: Bar)
    requires
        is_usable_plates(slots, inventory, bar),
    ensures
        slots == usable_plates(inventory, bar),
        forall|i: int| 0 <= i < slots.len() ==> (#[trigger] slots[i]).gauge == bar.gauge,
{
    let other = usable_plates(inventory, bar);
    assert(is_usable_plates(other, inventory, bar));
    assert forall|s: Seq<Plate>| is_usable_plates(s, inventory, bar) implies forall|i: int|
        0 <= i < s.len() ==> (#[trigger] s[i]).gauge == bar.gauge by {
        assert forall|i: int| 0 <= i < s.len() implies (#[trigger] s[i]).gauge == bar.gauge by {
            assert(s.to_multiset().count(s[i]) > 0);
            assert(s.to_multiset().count(s[i]) == usable_count(inventory, bar, s[i]));
        }
    }
    assert(slots.to_multiset() =~= other.to_multiset()) by {
        assert forall|p: Plate| slots.to_multiset().count(p) == other.to_multiset().count(p) by {
            assert(slots.to_multiset().count(p) == usable_count(inventory, bar, p));
            assert(other.to_multiset().count(p) == usable_count(inventory, bar, p));
        }
    }
    let ge = |a: Plate, b: Plate| plate_ge(a, b);
    assert(vstd::relations::sorted_by(slots, ge));
    assert(vstd::relations::sorted_by(other, ge));
    assert(vstd::relations::total_ordering(ge));
    vstd::seq_lib::lemma_sorted_unique(slots, other, ge);
}

/// Counts the plates like `plate` among the first `n` of `plates`.
fn count_among_first(plates: &[Plate], n: usize, plate: Plate) -> (count: usize)
    requires
        n <= plates.len(),
    ensures
        count == plates@.take(n as int).to_multiset().count(plate),
        count <= n,
{
    let mut count: usize = 0;
    let mut i: usize = 0;
    while i < n
        invariant
            i <= n <= plates.len(),
            count <= i,
            count == plates@.take(i as int).to_multiset().count(plate),
        decreases n - i,
    {
        assert(plates@.take(i + 1) =~= plates@.take(i as int).push(plates@[i as int]));
        if plates[i] == plate {
            count += 1;
        }
        i += 1;
    }
    count
}

/// Lists, heaviest first, the plates of `plates` that one side of `bar` can
/// carry: of the plates that fit the bar, one for every full set of identical
/// plates that the bar's kind needs.
pub fn usable_plates_of(plates: &[Plate], bar: &Bar) -> (slots: Vec<Plate>)
    ensures
        is_usable_plates(slots@, plates@, *bar),
        slots@ == usable_plates(plates@, *bar),
        slots.len() <= plates.len(),
{
    let needed = bar.kind.required_similar_plates();
    let mut slots: Vec<Plate> = Vec::new();
    let mut i: usize = 0;
    while i < plates.len()
        invariant
            i <= plates.len(),
            slots.len() <= i,
            needed == bar.kind.spec_required_similar_plates(),
            is_usable_plates(slots@, plates@.take(i as int), *bar),
        decreases plates.len() - i,
    {
        let plate = plates[i];
        let ghost before = slots@;
        assert(plates@.take(i + 1) =~= plates@.take(i as int).push(plate));
        if plate.gauge == bar.gauge {
            let rank = count_among_first(plates, i + 1, plate);
            if rank % needed == 0 {
                insert_heaviest_first(&mut slots, plate);
            }
        }
        assert forall|p: Plate| #[trigger]
            slots@.to_multiset().count(p) == usable_count(plates@.take(i + 1), *bar, p) by {
            assert(before.to_multiset().count(p) == usable_count(plates@.take(i as int), *bar, p));
        }
        i += 1;
    }
    assert(plates@.take(plates.len() as int) =~= plates@);
    proof {
        lemma_usable_plates_unique(slots@, plates@, *bar);
    }
    slots
}

} // verus!
