use vstd::prelude::*;
use crate::bar_kind::BarKind;
use crate::dumbbell::{Dumbbell, Loading};

verus! {

/// A weight to be lifted on a bar of a given kind. The weight is counted in
/// milligrams.
#[derive(Debug, Clone, Copy, PartialEq, Eq, Structural)]
pub struct Requirement {
    pub weight: u64,
    pub bar_kind: BarKind,
}

impl Requirement {
    /// A loading meets the requirement when it is on a bar of the kind asked
    /// for and lifts exactly the weight asked for.
    pub open spec fn spec_matches(self, loading: Loading) -> bool {
        self.weight == loading.lifted_weight() && self.bar_kind == loading.bar.kind
    }

    #[must_use]
    pub fn new(weight: u64, bar_kind: BarKind) -> (requirement: Self)
        ensures
            requirement == (Requirement { weight, bar_kind }),
    {
        Requirement { weight, bar_kind }
    }

    /// Whether the dumbbell is on a bar of the kind asked for and lifts
    /// exactly the weight asked for.
    #[must_use]
    pub fn matches(self, dumbbell: &Dumbbell) -> (b: bool)
        ensures
            b == self.spec_matches(dumbbell@),
    {
        self.weight == *dumbbell.weight() && self.bar_kind == *dumbbell.bar().kind()
    }

    #[must_use]
    pub fn bar_kind(self) -> (kind: BarKind)
        ensures
            kind == self.bar_kind,
    {
        self.bar_kind
    }

    #[must_use]
    pub fn weight(self) -> (weight: u64)
        ensures
            weight == self.weight,
    {
        self.weight
    }
}

} // verus!
