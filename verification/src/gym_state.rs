use vstd::prelude::*;
use crate::bar::Bar;
use crate::dumbbell::{Dumbbell, Loading};
use crate::enumerate::loadings;

verus! {

/// The number under which a gym keeps one of its states. Numbers of the
/// states of different bar kinds have nothing to do with each other.
#[derive(Clone, Copy, Debug, PartialEq, Eq, Structural, PartialOrd, Ord, Hash)]
pub struct GymStateId(pub usize);

/// No two loadings of `state` are on the same bar.
pub open spec fn distinct_bars(state: Seq<Loading>) -> bool {
    forall|i: int, j: int|
        0 <= i < j < state.len() ==> (#[trigger] state[i]).bar != (#[trigger] state[j]).bar
}

/// The loading at `i` in `a` and the loading at `j` in `b` are adjacent, so
/// they are two loadings of one bar that differ by their outermost plate.
pub open spec fn shows_adjacent(a: Seq<Loading>, b: Seq<Loading>, i: int, j: int) -> bool {
    0 <= i < a.len() && 0 <= j < b.len() && a[i].adjacent(b[j])
}

/// Two states are adjacent when one plate is put on or taken off one bar and
/// nothing else changes: on every bar that both load, the loadings are the
/// same or adjacent, and exactly one bar shows adjacent loadings.
pub open spec fn states_adjacent(a: Seq<Loading>, b: Seq<Loading>) -> bool {
    &&& forall|i: int, j: int|
        0 <= i < a.len() && 0 <= j < b.len() && (#[trigger] a[i]).bar == (#[trigger] b[j]).bar
            ==> a[i] == b[j] || a[i].adjacent(b[j])
    &&& exists|i: int, j: int| shows_adjacent(a, b, i, j)
    &&& forall|i: int, j: int, k: int, l: int|
        shows_adjacent(a, b, i, j) && shows_adjacent(a, b, k, l) ==> i == k && j == l
}

/// The plates mounted in a state, over all its bars.
pub open spec fn plate_count(state: Seq<Loading>) -> nat
    decreases state.len(),
{
    if state.len() == 0 {
        0
    } else {
        plate_count(state.drop_last()) + state.last().plates.len()
    }
}

/// The loadings of the bars of one kind at one moment: for each bar one.
#[derive(Debug, PartialEq, Eq)]
pub struct GymState {
    state: Vec<Dumbbell>,
}

impl View for GymState {
    type V = Seq<Loading>;

    closed spec fn view(&self) -> Seq<Loading> {
        loadings(self.state@)
    }
}

impl Clone for GymState {
    fn clone(&self) -> (copy: Self)
        ensures
            copy@ == self@,
    {
        proof {
            use_type_invariant(self);
        }
        let mut state: Vec<Dumbbell> = Vec::new();
        let mut i: usize = 0;
        while i < self.state.len()
            invariant
                i <= self.state.len(),
                loadings(state@) == loadings(self.state@).take(i as int),
            decreases self.state.len() - i,
        {
            let copy = self.state[i].clone();
            let ghost before = state@;
            state.push(copy);
            assert(loadings(state@) =~= loadings(before).push(copy@));
            assert(loadings(state@) =~= loadings(self.state@).take(i + 1));
            i += 1;
        }
        assert(loadings(self.state@).take(self.state.len() as int) =~= loadings(self.state@));
        GymState { state }
    }
}

impl GymState {
    #[verifier::type_invariant]
    spec fn one_loading_per_bar(&self) -> bool {
        distinct_bars(loadings(self.state@))
    }

    /// A state of the given loadings, which are on bars that all differ.
    #[must_use]
    pub fn new(state: Vec<Dumbbell>) -> (gym_state: Self)
        requires
            distinct_bars(loadings(state@)),
        ensures
            gym_state@ == loadings(state@),
    {
        GymState { state }
    }

    /// Whether one plate, put on or taken off one bar, turns this state into
    /// the other.
    #[must_use]
    pub fn adjacent(&self, other: &Self) -> (b: bool)
        ensures
            b == states_adjacent(self@, other@),
    {
        let n = self.state.len();
        let m = other.state.len();
        let mut found: bool = false;
        let ghost mut wi: int = 0;
        let ghost mut wj: int = 0;
        let mut i: usize = 0;
        while i < n
            invariant
                i <= n == self.state.len(),
                m == other.state.len(),
                forall|k: int, l: int|
                    0 <= k < i && 0 <= l < m && (#[trigger] self@[k]).bar == (
                    #[trigger] other@[l]).bar ==> self@[k] == other@[l] || self@[k].adjacent(
                        other@[l],
                    ),
                !found ==> forall|k: int, l: int|
                    0 <= k < i && 0 <= l < m ==> !shows_adjacent(self@, other@, k, l),
                found ==> 0 <= wi < i && shows_adjacent(self@, other@, wi, wj),
                found ==> forall|k: int, l: int|
                    0 <= k < i && shows_adjacent(self@, other@, k, l) ==> k == wi && l == wj,
            decreases n - i,
        {
            let mut j: usize = 0;
            while j < m
                invariant
                    i < n == self.state.len(),
                    j <= m == other.state.len(),
                    forall|k: int, l: int|
                        0 <= k < i && 0 <= l < m && (#[trigger] self@[k]).bar == (
                        #[trigger] other@[l]).bar ==> self@[k] == other@[l] || self@[k].adjacent(
                            other@[l],
                        ),
                    forall|l: int|
                        0 <= l < j && self@[i as int].bar == (#[trigger] other@[l]).bar
                            ==> self@[i as int] == other@[l] || self@[i as int].adjacent(
                            other@[l],
                        ),
                    !found ==> forall|k: int, l: int|
                        (0 <= k < i && 0 <= l < m) || (k == i && 0 <= l < j) ==> !shows_adjacent(
                            self@,
                            other@,
                            k,
                            l,
                        ),
                    found ==> 0 <= wi <= i && shows_adjacent(self@, other@, wi, wj),
                    found ==> wi == i ==> wj < j,
                    found ==> forall|k: int, l: int|
                        (0 <= k < i || (k == i && l < j)) && shows_adjacent(self@, other@, k, l)
                            ==> k == wi && l == wj,
                decreases m - j,
            {
                let mine = &self.state[i];
                let theirs = &other.state[j];
                assert(mine@ == self@[i as int] && theirs@ == other@[j as int]);
                if mine.adjacent(theirs) {
                    if found {
                        assert(shows_adjacent(self@, other@, i as int, j as int));
                        return false;
                    }
                    found = true;
                    proof {
                        wi = i as int;
                        wj = j as int;
                    }
                } else if mine.bar() == theirs.bar() && !mine.same_as(theirs) {
                    return false;
                }
                j += 1;
            }
            i += 1;
        }
        found
    }

    /// The loading of `bar` in this state, if it has one. There is at most
    /// one.
    #[must_use]
    pub fn get(&self, bar: &Bar) -> (found: Option<&Dumbbell>)
        ensures
            distinct_bars(self@),
            match found {
                Some(dumbbell) => dumbbell@.bar == *bar && self@.contains(dumbbell@),
                None => forall|i: int| 0 <= i < self@.len() ==> (#[trigger] self@[i]).bar != *bar,
            },
    {
        proof {
            use_type_invariant(self);
        }
        let mut i: usize = 0;
        while i < self.state.len()
            invariant
                i <= self.state.len(),
                distinct_bars(self@),
                forall|k: int| 0 <= k < i ==> (#[trigger] self@[k]).bar != *bar,
            decreases self.state.len() - i,
        {
            if self.state[i].bar() == bar {
                assert(self@[i as int] == self.state[i as int]@);
                return Some(&self.state[i]);
            }
            i += 1;
        }
        None
    }

    /// How many bars the state loads. No two of its loadings are on the
    /// same bar.
    #[must_use]
    pub fn len(&self) -> (n: usize)
        ensures
            n == self@.len(),
            distinct_bars(self@),
    {
        proof {
            use_type_invariant(self);
        }
        self.state.len()
    }

    /// The loading at position `i`.
    #[must_use]
    pub fn at(&self, i: usize) -> (dumbbell: &Dumbbell)
        requires
            i < self@.len(),
        ensures
            dumbbell@ == self@[i as int],
    {
        &self.state[i]
    }

    /// The number of plates mounted in this state, over all its bars.
    #[must_use]
    pub fn plates(&self) -> (count: usize)
        requires
            plate_count(self@) <= usize::MAX,
        ensures
            count == plate_count(self@),
    {
        let mut count: usize = 0;
        let mut i: usize = 0;
        while i < self.state.len()
            invariant
                i <= self.state.len(),
                count == plate_count(self@.take(i as int)),
                plate_count(self@) <= usize::MAX,
            decreases self.state.len() - i,
        {
            proof {
                lemma_plate_count_prefix(self@, i + 1);
                assert(self@.take(i + 1).drop_last() =~= self@.take(i as int));
            }
            count = count + self.state[i].plates().len();
            i += 1;
        }
        assert(self@.take(self.state.len() as int) =~= self@);
        count
    }
}

/// A prefix of a state mounts no more plates than the state.
pub proof fn lemma_plate_count_prefix(state: Seq<Loading>, n: int)
    requires
        0 <= n <= state.len(),
    ensures
        plate_count(state.take(n)) <= plate_count(state),
    decreases state.len() - n,
{
    if n == state.len() {
        assert(state.take(n) =~= state);
    } else {
        lemma_plate_count_prefix(state, n + 1);
        assert(state.take(n + 1).drop_last() =~= state.take(n));
    }
}

/// Adjacency of states is symmetric.
pub proof fn lemma_states_adjacent_symmetric(a: Seq<Loading>, b: Seq<Loading>)
    ensures
        states_adjacent(a, b) == states_adjacent(b, a),
{
    lemma_adjacent_one_way(a, b);
    lemma_adjacent_one_way(b, a);
}

proof fn lemma_adjacent_one_way(a: Seq<Loading>, b: Seq<Loading>)
    ensures
        states_adjacent(a, b) ==> states_adjacent(b, a),
{
    if states_adjacent(a, b) {
        let (i, j) = choose|i: int, j: int| shows_adjacent(a, b, i, j);
        assert(shows_adjacent(b, a, j, i));
        assert forall|i: int, j: int, k: int, l: int|
            shows_adjacent(b, a, i, j) && shows_adjacent(b, a, k, l) implies i == k && j == l by {
            assert(shows_adjacent(a, b, j, i) && shows_adjacent(a, b, l, k));
        }
    }
}

/// No state is adjacent to itself.
pub proof fn lemma_states_adjacent_irreflexive(a: Seq<Loading>)
    requires
        distinct_bars(a),
    ensures
        !states_adjacent(a, a),
{
    if states_adjacent(a, a) {
        let (i, j) = choose|i: int, j: int| shows_adjacent(a, a, i, j);
        assert(a[i].bar == a[j].bar);
    }
}

/// Adjacent states differ on exactly one bar, and there by one plate: there
/// are a position in the one and a position in the other whose loadings are
/// on one bar and of which one has one plate more than the other, and every
/// other pair of loadings on a common bar is equal.
pub proof fn lemma_states_adjacent_differ(a: Seq<Loading>, b: Seq<Loading>) -> (at: (int, int))
    requires
        states_adjacent(a, b),
    ensures
        0 <= at.0 < a.len() && 0 <= at.1 < b.len(),
        a[at.0].adjacent(b[at.1]),
        a[at.0].bar == b[at.1].bar,
        a[at.0].plates.len() == b[at.1].plates.len() + 1 || b[at.1].plates.len()
            == a[at.0].plates.len() + 1,
        forall|i: int, j: int|
            0 <= i < a.len() && 0 <= j < b.len() && (#[trigger] a[i]).bar == (#[trigger] b[j]).bar
                && (i != at.0 || j != at.1) ==> a[i] == b[j],
{
    let (i, j) = choose|i: int, j: int| shows_adjacent(a, b, i, j);
    assert forall|k: int, l: int|
        0 <= k < a.len() && 0 <= l < b.len() && (#[trigger] a[k]).bar == (#[trigger] b[l]).bar && (k
            != i || l != j) implies a[k] == b[l] by {
        if a[k].adjacent(b[l]) {
            assert(shows_adjacent(a, b, k, l));
        }
    }
    (i, j)
}

} // verus!
