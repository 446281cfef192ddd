use vstd::prelude::*;
use crate::bar_kind::BarKind;

verus! {

/// `weights` climbs strictly: it is ordered and holds nothing twice.
pub open spec fn strictly_ascending(weights: Seq<u64>) -> bool {
    forall|i: int, j: int| 0 <= i < j < weights.len() ==> weights[i] < weights[j]
}

/// For each kind of bar the weights that can be lifted on a bar of the kind.
#[derive(Debug, PartialEq, Eq)]
pub struct Weights {
    dumbbell: Vec<u64>,
    barbell: Vec<u64>,
}

impl Weights {
    /// The weights of a kind as a sequence.
    pub closed spec fn of(&self, kind: BarKind) -> Seq<u64> {
        match kind {
            BarKind::Dumbbell => self.dumbbell@,
            BarKind::Barbell => self.barbell@,
        }
    }

    /// Keeps the two lists of weights.
    pub fn new(dumbbell: Vec<u64>, barbell: Vec<u64>) -> (weights: Self)
        ensures
            weights.of(BarKind::Dumbbell) == dumbbell@,
            weights.of(BarKind::Barbell) == barbell@,
    {
        Weights { dumbbell, barbell }
    }

    /// The weights that can be lifted on a bar of the kind.
    #[must_use]
    pub fn get(&self, kind: BarKind) -> (weights: Vec<u64>)
        ensures
            weights@ == self.of(kind),
    {
        let list = match kind {
            BarKind::Dumbbell => &self.dumbbell,
            BarKind::Barbell => &self.barbell,
        };
        let mut weights: Vec<u64> = Vec::new();
        let mut i: usize = 0;
        while i < list.len()
            invariant
                i <= list.len(),
                weights@ == list@.take(i as int),
            decreases list.len() - i,
        {
            weights.push(list[i]);
            assert(weights@ =~= list@.take(i + 1));
            i += 1;
        }
        assert(list@.take(list.len() as int) =~= list@);
        weights
    }
}

impl Clone for Weights {
    fn clone(&self) -> (copy: Self)
        ensures
            copy.of(BarKind::Dumbbell) == self.of(BarKind::Dumbbell),
            copy.of(BarKind::Barbell) == self.of(BarKind::Barbell),
    {
        Weights { dumbbell: self.get(BarKind::Dumbbell), barbell: self.get(BarKind::Barbell) }
    }
}

} // verus!
