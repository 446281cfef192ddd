use vstd::prelude::*;

verus! {

broadcast use vstd::seq_lib::group_to_multiset_ensures;

/// A weight plate. `weight` is its mass in milligrams and `gauge` the
/// diameter of its hole in micrometres, so that every quantity is a whole
/// number and equal quantities are equal numbers. Two plates with the same
/// weight and gauge are interchangeable.
#[derive(Clone, Copy, Debug, PartialEq, Eq, Structural, Hash, PartialOrd, Ord)]
pub struct Plate {
    pub weight: u64,
    pub gauge: u64,
}

impl Plate {
    #[must_use]
    pub fn new(weight: u64, gauge: u64) -> (plate: Self)
        ensures
            plate == (Plate { weight, gauge }),
    {
        Plate { weight, gauge }
    }

    #[must_use]
    pub fn weight(self) -> (w: u64)
        ensures
            w == self.weight,
    {
        self.weight
    }

    #[must_use]
    pub fn gauge(self) -> (g: u64)
        ensures
            g == self.gauge,
    {
        self.gauge
    }
}

/// The summed weight of a sequence of plates.
pub open spec fn plates_weight(plates: Seq<Plate>) -> nat
    decreases plates.len(),
{
    if plates.len() == 0 {
        0
    } else {
        plates_weight(plates.drop_last()) + plates.last().weight as nat
    }
}

/// Heaviest first: no plate is lighter than one that follows it.
pub open spec fn heaviest_first(plates: Seq<Plate>) -> bool {
    forall|i: int, j: int| 0 <= i <= j < plates.len() ==> plates[i].weight >= plates[j].weight
}

/// A prefix of a sequence of plates weighs no more than the whole.
pub proof fn lemma_plates_weight_prefix(plates: Seq<Plate>, n: int)
    requires
        0 <= n <= plates.len(),
    ensures
        plates_weight(plates.take(n)) <= plates_weight(plates),
    decreases plates.len() - n,
{
    if n == plates.len() {
        assert(plates.take(n) =~= plates);
    } else {
        lemma_plates_weight_prefix(plates, n + 1);
        assert(plates.take(n + 1).drop_last() =~= plates.take(n));
    }
}

/// A plate put into a sequence adds its weight to that of the sequence.
pub proof fn lemma_plates_weight_insert(plates: Seq<Plate>, at: int, plate: Plate)
    requires
        0 <= at <= plates.len(),
    ensures
        plates_weight(plates.insert(at, plate)) == plates_weight(plates) + plate.weight,
    decreases plates.len(),
{
    let longer = plates.insert(at, plate);
    if at == plates.len() {
        assert(longer.drop_last() =~= plates);
    } else {
        lemma_plates_weight_insert(plates.drop_last(), at, plate);
        assert(longer.drop_last() =~= plates.drop_last().insert(at, plate));
    }
}

/// Puts `plate` into `slots` behind the plates that are no lighter.
pub(crate) fn insert_heaviest_first(slots: &mut Vec<Plate>, plate: Plate)
    requires
        heaviest_first(old(slots)@),
    ensures
        heaviest_first(final(slots)@),
        final(slots)@.to_multiset() == old(slots)@.to_multiset().insert(plate),
        final(slots)@.len() == old(slots)@.len() + 1,
        plates_weight(final(slots)@) == plates_weight(old(slots)@) + plate.weight,
        forall|i: int|
            0 <= i < final(slots)@.len() ==> (#[trigger] final(slots)@[i]) == plate || old(
                slots,
            )@.contains(final(slots)@[i]),
{
    let mut at: usize = 0;
    while at < slots.len() && slots[at].weight >= plate.weight
        invariant
            at <= slots.len(),
            *slots == *old(slots),
            forall|k: int| 0 <= k < at ==> slots@[k].weight >= plate.weight,
        decreases slots.len() - at,
    {
        at += 1;
    }
    slots.insert(at, plate);
    proof {
        lemma_plates_weight_insert(old(slots)@, at as int, plate);
        assert forall|i: int, j: int| 0 <= i <= j < slots@.len() implies slots@[i].weight
            >= slots@[j].weight by {
            if i < at && j > at {
                assert(old(slots)@[i].weight >= old(slots)@[j - 1].weight);
            }
        }
        assert forall|i: int| 0 <= i < slots@.len() implies (#[trigger] slots@[i]) == plate || old(
            slots,
        )@.contains(slots@[i]) by {
            if i < at {
                assert(old(slots)@[i] == slots@[i]);
            } else if i > at {
                assert(old(slots)@[i - 1] == slots@[i]);
            }
        }
    }
}

} // verus!
