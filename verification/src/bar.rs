use vstd::prelude::*;
use crate::bar_kind::BarKind;

verus! {

/// A lifting bar: its own weight in milligrams, the gauge of the plates that
/// fit it in micrometres, and its kind.
#[derive(Clone, Copy, Debug, PartialEq, Eq, Structural, Hash, PartialOrd, Ord)]
pub struct Bar {
    pub weight: u64,
    pub gauge: u64,
    pub kind: BarKind,
}

impl Bar {
    #[must_use]
    pub fn new(weight: u64, gauge: u64, kind: BarKind) -> (bar: Self)
        ensures
            bar == (Bar { weight, gauge, kind }),
    {
        Bar { weight, gauge, kind }
    }

    #[must_use]
    pub fn weight(&self) -> (w: u64)
        ensures
            w == self.weight,
    {
        self.weight
    }

    #[must_use]
    pub fn gauge(&self) -> (g: u64)
        ensures
            g == self.gauge,
    {
        self.gauge
    }

    #[must_use]
    pub fn kind(&self) -> (k: &BarKind)
        ensures
            *k == self.kind,
    {
        &self.kind
    }
}

} // verus!
