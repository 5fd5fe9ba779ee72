//! The outcome of one attempt to take work from someone else.

use vstd::prelude::*;

verus! {

/// Why a steal came back with or without something.
#[derive(Debug, PartialEq, Eq)]
pub enum Steal<T> {
    /// The victim has nothing: look elsewhere.
    Empty,
    /// The victim still has work but this attempt could not take it (contention, or no room at
    /// the destination): come back later.
    Busy,
    /// What was taken.
    Success(T),
}

impl<T> Steal<T> {
    /// The taken value, dropping the reason for a miss.
    pub fn success(self) -> (r: Option<T>)
        ensures
            self matches Steal::Success(v) ==> r == Some(v),
            !(self is Success) ==> r is None,
    {
        match self {
            Steal::Success(v) => Some(v),
            _ => None,
        }
    }
}

} // verus!
