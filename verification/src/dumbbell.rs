use vstd::prelude::*;
use crate::bar::Bar;
use crate::plate::{
    heaviest_first, insert_heaviest_first, lemma_plates_weight_prefix, plates_weight, Plate,
};

verus! {

broadcast use vstd::seq_lib::group_to_multiset_ensures;

/// The mathematical content of a [`Dumbbell`]: the plates mounted on one side
/// of a bar, innermost first, and the bar itself. The far side mirrors them.
#[verifier::ext_equal]
pub struct Loading {
    pub plates: Seq<Plate>,
    pub bar: Bar,
}

impl Loading {
    /// The weight that is lifted: the bar and the plates of both sides.
    pub open spec fn lifted_weight(self) -> nat {
        self.bar.weight as nat + 2 * plates_weight(self.plates)
    }

    /// Every plate fits the bar.
    pub open spec fn gauge_consistent(self) -> bool {
        forall|i: int| 0 <= i < self.plates.len() ==> (#[trigger] self.plates[i]).gauge == self.bar.gauge
    }

    /// The form in which every dumbbell keeps its plates: plates that fit
    /// the bar, the heaviest innermost.
    pub open spec fn canonical(self) -> bool {
        self.gauge_consistent() && heaviest_first(self.plates)
    }

    /// `self` with its outermost plate taken off is `shorter`.
    pub open spec fn extends(self, shorter: Loading) -> bool {
        &&& self.bar == shorter.bar
        &&& self.plates.len() == shorter.plates.len() + 1
        &&& self.plates.take(shorter.plates.len() as int) == shorter.plates
    }

    /// Two loadings of one bar are adjacent when one becomes the other by
    /// putting on or taking off the outermost plate.
    pub open spec fn adjacent(self, other: Loading) -> bool {
        self.extends(other) || other.extends(self)
    }
}

/// A bar with the plates mounted on it, and the weight this makes. The
/// plates fit the bar and lie heaviest first.
#[derive(Debug, PartialEq, Eq, Hash)]
pub struct Dumbbell {
    plates: Vec<Plate>,
    bar: Bar,
    weight: u64,
}

impl View for Dumbbell {
    type V = Loading;

    closed spec fn view(&self) -> Loading {
        Loading { plates: self.plates@, bar: self.bar }
    }
}

impl Clone for Dumbbell {
    fn clone(&self) -> (copy: Self)
        ensures
            copy@ == self@,
    {
        proof {
            use_type_invariant(self);
        }
        let mut plates: Vec<Plate> = Vec::new();
        let mut i: usize = 0;
        while i < self.plates.len()
            invariant
                i <= self.plates.len(),
                plates@ == self.plates@.take(i as int),
            decreases self.plates.len() - i,
        {
            plates.push(self.plates[i]);
            i += 1;
        }
        assert(self.plates@.take(self.plates.len() as int) =~= self.plates@);
        Dumbbell { plates, bar: self.bar, weight: self.weight }
    }
}

impl Dumbbell {
    #[verifier::type_invariant]
    spec fn canonical_with_its_weight(&self) -> bool {
        self@.canonical() && self.weight == self@.lifted_weight()
    }

    /// Mounts `plates` on `bar`, the heaviest innermost: the dumbbell holds
    /// the plates that are given, each as often as it is given, heaviest
    /// first. Plates that are given heaviest first stay as they are. The
    /// plates fit the bar, and the lifted weight fits the integer that holds
    /// it.
    #[must_use]
    pub fn new(plates: Vec<Plate>, bar: Bar) -> (dumbbell: Self)
        requires
            (Loading { plates: plates@, bar }).gauge_consistent(),
            (Loading { plates: plates@, bar }).lifted_weight() <= u64::MAX,
        ensures
            dumbbell@.bar == bar,
            dumbbell@.canonical(),
            dumbbell@.plates.to_multiset() == plates@.to_multiset(),
            dumbbell@.lifted_weight() == (Loading { plates: plates@, bar }).lifted_weight(),
            heaviest_first(plates@) ==> dumbbell@.plates == plates@,
    {
        let mut side: u64 = 0;
        let mut ordered: bool = true;
        let mut i: usize = 0;
        while i < plates.len()
            invariant
                i <= plates.len(),
                side == plates_weight(plates@.take(i as int)),
                bar.weight + 2 * plates_weight(plates@) <= u64::MAX,
                ordered == heaviest_first(plates@.take(i as int)),
            decreases plates.len() - i,
        {
            proof {
                lemma_plates_weight_prefix(plates@, i + 1);
                assert(plates@.take(i + 1).drop_last() =~= plates@.take(i as int));
            }
            let ghost was = plates@.take(i as int);
            let ghost now = plates@.take(i + 1);
            if i > 0 && plates[i - 1].weight < plates[i].weight {
                assert(now[i - 1].weight < now[i as int].weight);
                ordered = false;
            } else if ordered {
                assert forall|a: int, b: int| 0 <= a <= b < now.len() implies now[a].weight
                    >= now[b].weight by {
                    if b == i && a < i {
                        assert(was[a].weight >= was[i - 1].weight);
                    } else if b < i {
                        assert(was[a].weight >= was[b].weight);
                    }
                }
            } else {
                proof {
                    if heaviest_first(now) {
                        assert forall|a: int, b: int| 0 <= a <= b < was.len() implies was[a].weight
                            >= was[b].weight by {
                            assert(now[a].weight >= now[b].weight);
                        }
                    }
                }
            }
            side = side + plates[i].weight;
            i += 1;
        }
        assert(plates@.take(plates.len() as int) =~= plates@);
        let weight = bar.weight + side + side;
        if ordered {
            return Dumbbell { plates, bar, weight };
        }
        let mut sorted: Vec<Plate> = Vec::new();
        let mut k: usize = 0;
        while k < plates.len()
            invariant
                k <= plates.len(),
                heaviest_first(sorted@),
                sorted@.to_multiset() == plates@.take(k as int).to_multiset(),
                plates_weight(sorted@) == plates_weight(plates@.take(k as int)),
                forall|i: int| 0 <= i < plates.len() ==> (#[trigger] plates@[i]).gauge == bar.gauge,
                forall|i: int| 0 <= i < sorted.len() ==> (#[trigger] sorted@[i]).gauge == bar.gauge,
            decreases plates.len() - k,
        {
            let ghost before = sorted@;
            assert(plates@.take(k + 1) =~= plates@.take(k as int).push(plates@[k as int]));
            assert(plates@.take(k + 1).drop_last() =~= plates@.take(k as int));
            insert_heaviest_first(&mut sorted, plates[k]);
            proof {
                let first = plates@.take(k as int);
                let next = first.push(plates@[k as int]);
                assert(plates@.take(k + 1) =~= next);
                assert(next.to_multiset() =~= first.to_multiset().insert(plates@[k as int]));
            }
            assert forall|i: int| 0 <= i < sorted.len() implies (#[trigger] sorted@[i]).gauge
                == bar.gauge by {
                if sorted@[i] != plates@[k as int] {
                    let at = choose|at: int| 0 <= at < before.len() && before[at] == sorted@[i];
                    assert(before[at].gauge == bar.gauge);
                }
            }
            k += 1;
        }
        Dumbbell { plates: sorted, bar, weight }
    }

    #[must_use]
    pub fn plates(&self) -> (plates: &[Plate])
        ensures
            plates@ == self@.plates,
    {
        self.plates.as_slice()
    }

    #[must_use]
    pub fn bar(&self) -> (bar: &Bar)
        ensures
            *bar == self@.bar,
    {
        &self.bar
    }

    /// The lifted weight: the bar's own weight and twice that of the plates
    /// on one side.
    #[must_use]
    pub fn weight(&self) -> (weight: &u64)
        ensures
            *weight == self@.lifted_weight(),
    {
        proof {
            use_type_invariant(self);
        }
        &self.weight
    }

    /// Whether both hold the same plates in the same order on the same bar.
    #[must_use]
    pub fn same_as(&self, other: &Self) -> (same: bool)
        ensures
            same == (self@ == other@),
    {
        if self.bar != other.bar || self.plates.len() != other.plates.len() {
            return false;
        }
        let mut i: usize = 0;
        while i < self.plates.len()
            invariant
                i <= self.plates.len(),
                self.plates.len() == other.plates.len(),
                forall|j: int| 0 <= j < i ==> self.plates@[j] == other.plates@[j],
            decreases self.plates.len() - i,
        {
            if self.plates[i] != other.plates[i] {
                return false;
            }
            i += 1;
        }
        assert(self.plates@ =~= other.plates@);
        true
    }

    /// Whether `self` is `shorter` with one more plate on the outside.
    fn extends(&self, shorter: &Self) -> (b: bool)
        ensures
            b == self@.extends(shorter@),
    {
        let n = shorter.plates.len();
        let m = self.plates.len();
        if self.bar != shorter.bar || m == 0 || m - 1 != n {
            return false;
        }
        let mut i: usize = 0;
        while i < n
            invariant
                i <= n,
                n == shorter.plates.len(),
                self.plates.len() == n + 1,
                forall|j: int| 0 <= j < i ==> self.plates@[j] == shorter.plates@[j],
            decreases n - i,
        {
            if self.plates[i] != shorter.plates[i] {
                assert(self.plates@.take(n as int)[i as int] != shorter.plates@[i as int]);
                return false;
            }
            i += 1;
        }
        assert(self.plates@.take(n as int) =~= shorter.plates@);
        true
    }

    /// Whether one plate, put on or taken off the outside of one, gives the
    /// other.
    #[must_use]
    pub fn adjacent(&self, other: &Self) -> (b: bool)
        ensures
            b == self@.adjacent(other@),
    {
        self.extends(other) || other.extends(self)
    }
}

/// Adjacency of loadings is symmetric.
pub proof fn lemma_loading_adjacent_symmetric(a: Loading, b: Loading)
    ensures
        a.adjacent(b) == b.adjacent(a),
{
}

/// No loading is adjacent to itself, and adjacent loadings differ by exactly
/// one plate.
pub proof fn lemma_loading_adjacent_differs(a: Loading, b: Loading)
    requires
        a.adjacent(b),
    ensures
        a != b,
        a.bar == b.bar,
        a.plates.len() == b.plates.len() + 1 || b.plates.len() == a.plates.len() + 1,
{
}

} // verus!
