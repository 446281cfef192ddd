use vstd::prelude::*;

verus! {

/// The two kinds of bar a gym holds.
#[derive(Clone, Copy, Debug, PartialEq, Eq, Structural, Hash, PartialOrd, Ord)]
pub enum BarKind {
    Dumbbell,
    Barbell,
}

impl BarKind {
    /// How many identical plates one symmetric unit of load takes: a dumbbell
    /// is lifted as a pair, each with a plate on either side, a barbell alone.
    pub open spec fn spec_required_similar_plates(self) -> nat {
        match self {
            BarKind::Dumbbell => 4,
            BarKind::Barbell => 2,
        }
    }

    pub fn required_similar_plates(self) -> (n: usize)
        ensures
            n == self.spec_required_similar_plates(),
            n == 2 || n == 4,
    {
        match self {
            BarKind::Dumbbell => 4,
            BarKind::Barbell => 2,
        }
    }

    /// The text is one of the names of a dumbbell.
    pub open spec fn names_dumbbell(text: Seq<char>) -> bool {
        text == "d"@ || text == "db"@ || text == "dumbbell"@
    }

    /// The text is one of the names of a barbell.
    pub open spec fn names_barbell(text: Seq<char>) -> bool {
        text == "b"@ || text == "bb"@ || text == "barbell"@
    }

    /// The kind that a text names, if it names one.
    pub open spec fn named(text: Seq<char>) -> Option<BarKind> {
        if BarKind::names_dumbbell(text) {
            Some(BarKind::Dumbbell)
        } else if BarKind::names_barbell(text) {
            Some(BarKind::Barbell)
        } else {
            None
        }
    }

    /// Reads the kind that a text names: `d`, `db` or `dumbbell` for a
    /// dumbbell, `b`, `bb` or `barbell` for a barbell. Any other text is
    /// answered with the message `Invalid bar kind`.
    pub fn from_str(s: &str) -> (kind: Result<BarKind, String>)
        ensures
            match kind {
                Ok(kind) => BarKind::named(s@) == Some(kind),
                Err(message) => BarKind::named(s@) is None && message@ == "Invalid bar kind"@,
            },
    {
        let text = s.to_owned();
        if text == "d".to_owned() || text == "db".to_owned() || text == "dumbbell".to_owned() {
            Ok(BarKind::Dumbbell)
        } else if text == "b".to_owned() || text == "bb".to_owned() || text == "barbell".to_owned() {
            Ok(BarKind::Barbell)
        } else {
            Err("Invalid bar kind".to_owned())
        }
    }
}

} // verus!
