//! The employee record the scheduler consumes.

use vstd::prelude::*;
use crate::calendar::Shifts;

verus! {

/// An employee: a display name and the shift the employee prefers to work.
///
/// The scheduler identifies an employee by position in the input roster, not
/// by this record's contents: two distinct entries are two distinct employees
/// even when name and preference coincide. The record itself is display data.
#[derive(Debug, PartialEq, Eq, Hash)]
pub struct Employee {
    pub name: String,
    pub preferred_shift: Shifts,
}

impl Clone for Employee {
    /// Cloning reproduces the record exactly.
    fn clone(&self) -> (r: Self)
        ensures
            r == *self,
    {
        Employee { name: self.name.clone(), preferred_shift: self.preferred_shift }
    }
}

} // verus!
