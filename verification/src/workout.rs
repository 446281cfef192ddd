use vstd::prelude::*;
use crate::bar::Bar;
use crate::dumbbell::{Dumbbell, Loading};
use crate::enumerate::loadings;

verus! {

/// The loadings scheduled for `bar` in a list of entries: those of the first
/// entry for the bar, and none where there is no entry.
pub open spec fn scheduled(entries: Seq<(Bar, Seq<Loading>)>, bar: Bar) -> Seq<Loading>
    decreases entries.len(),
{
    if entries.len() == 0 {
        Seq::empty()
    } else if entries[0].0 == bar {
        entries[0].1
    } else {
        scheduled(entries.drop_first(), bar)
    }
}

/// No two entries are for the same bar.
pub open spec fn distinct_entries(entries: Seq<(Bar, Seq<Loading>)>) -> bool {
    forall|i: int, j: int|
        0 <= i < j < entries.len() ==> (#[trigger] entries[i]).0 != (#[trigger] entries[j]).0
}

/// The entries that a vector of entries holds.
pub open spec fn entry_views(entries: Seq<(Bar, Vec<Dumbbell>)>) -> Seq<(Bar, Seq<Loading>)> {
    Seq::new(entries.len(), |i: int| (entries[i].0, loadings(entries[i].1@)))
}

/// The session that was planned: for each bar that is used the loadings to
/// put on it, in the order in which they are lifted. A bar has one entry.
#[derive(Debug, PartialEq, Eq)]
pub struct Workout {
    entries: Vec<(Bar, Vec<Dumbbell>)>,
}

impl View for Workout {
    type V = Seq<(Bar, Seq<Loading>)>;

    closed spec fn view(&self) -> Seq<(Bar, Seq<Loading>)> {
        entry_views(self.entries@)
    }
}

impl Default for Workout {
    fn default() -> (workout: Self)
        ensures
            workout@.len() == 0,
    {
        Workout { entries: Vec::new() }
    }
}

impl Workout {
    #[verifier::type_invariant]
    spec fn one_entry_per_bar(&self) -> bool {
        distinct_entries(entry_views(self.entries@))
    }

    /// The workout of the given entries, of which no two are for the same
    /// bar.
    pub fn new(entries: Vec<(Bar, Vec<Dumbbell>)>) -> (workout: Self)
        requires
            distinct_entries(entry_views(entries@)),
        ensures
            workout@ == entry_views(entries@),
    {
        Workout { entries }
    }

    /// The bars that are used, each once, in the order of the entries.
    #[must_use]
    pub fn bars(&self) -> (bars: Vec<Bar>)
        ensures
            distinct_entries(self@),
            bars@.no_duplicates(),
            bars.len() == self@.len(),
            forall|i: int| 0 <= i < bars.len() ==> bars[i] == (#[trigger] self@[i]).0,
    {
        proof {
            use_type_invariant(self);
        }
        let mut bars: Vec<Bar> = Vec::new();
        let mut i: usize = 0;
        while i < self.entries.len()
            invariant
                i <= self.entries.len(),
                distinct_entries(self@),
                bars.len() == i,
                forall|k: int| 0 <= k < i ==> bars[k] == (#[trigger] self@[k]).0,
            decreases self.entries.len() - i,
        {
            bars.push(self.entries[i].0);
            i += 1;
        }
        assert forall|a: int, b: int| 0 <= a < b < bars.len() implies bars@[a] != bars@[b] by {
            assert(self@[a].0 != self@[b].0);
        }
        bars
    }

    /// The loadings to put on `bar`, in the order in which they are lifted;
    /// none where the bar is not used.
    #[must_use]
    pub fn get(&self, bar: Bar) -> (list: Vec<Dumbbell>)
        ensures
            loadings(list@) == scheduled(self@, bar),
    {
        let mut i: usize = 0;
        assert(self@.skip(0) =~= self@);
        while i < self.entries.len()
            invariant
                i <= self.entries.len(),
                scheduled(self@, bar) == scheduled(self@.skip(i as int), bar),
            decreases self.entries.len() - i,
        {
            assert(self@.skip(i as int)[0] == self@[i as int]);
            assert(self@.skip(i as int).drop_first() =~= self@.skip(i + 1));
            if self.entries[i].0 == bar {
                let found = &self.entries[i].1;
                let mut list: Vec<Dumbbell> = Vec::new();
                let mut k: usize = 0;
                while k < found.len()
                    invariant
                        k <= found.len(),
                        loadings(list@) == loadings(found@).take(k as int),
                    decreases found.len() - k,
                {
                    let copy = found[k].clone();
                    let ghost before = list@;
                    list.push(copy);
                    assert(loadings(list@) =~= loadings(before).push(copy@));
                    assert(loadings(list@) =~= loadings(found@).take(k + 1));
                    k += 1;
                }
                assert(loadings(found@).take(found.len() as int) =~= loadings(found@));
                return list;
            }
            i += 1;
        }
        let list: Vec<Dumbbell> = Vec::new();
        assert(loadings(list@) =~= Seq::<Loading>::empty());
        list
    }
}

} // verus!
