//! What one query of the match engine returns.

use vstd::prelude::*;

verus! {

/// Where the value that belongs to a matched option is found.
#[derive(Debug, Clone, Copy)]
pub enum ValueLocation {
    /// No value was seen.
    Unknown,
    /// The token holds `=` at this offset, and the value follows it.
    HasEqual(usize),
    /// The value is the token that follows.
    TakesNext,
}

/// A [`ValueLocation`] over mathematical integers.
pub enum Place {
    Absent,
    Equals(int),
    Next,
}

impl View for ValueLocation {
    type V = Place;

    open spec fn view(&self) -> Place {
        match *self {
            ValueLocation::Unknown => Place::Absent,
            ValueLocation::HasEqual(off) => Place::Equals(off as int),
            ValueLocation::TakesNext => Place::Next,
        }
    }
}

/// A structural match: the token, how many characters of a cluster were
/// claimed (0 where the token is no cluster), and where the value is.
#[derive(Debug, Clone, Copy)]
pub struct FoundMatch {
    pub index: usize,
    pub run_count: usize,
    pub value: ValueLocation,
}

/// A [`FoundMatch`] over mathematical integers.
pub struct Found {
    pub index: int,
    pub run_count: nat,
    pub place: Place,
}

impl View for FoundMatch {
    type V = Found;

    open spec fn view(&self) -> Found {
        Found { index: self.index as int, run_count: self.run_count as nat, place: self.value@ }
    }
}

impl FoundMatch {
    pub fn new(idx: usize, runs: usize, loc: ValueLocation) -> (r: FoundMatch)
        ensures
            r.index == idx,
            r.run_count == runs,
            r.value == loc,
    {
        FoundMatch { index: idx, run_count: runs, value: loc }
    }
}

} // verus!
