//! What a scheduling run produces: a complete staffing table, or a typed
//! failure.

use vstd::prelude::*;
use crate::calendar::{Days, Shifts};
use crate::employee::Employee;
use crate::limits::{DAY_NUM_SHIFTS, OPERATIONAL_DAYS};

verus! {

/// Why a schedule could not be produced.
#[derive(Debug, Copy, Clone, PartialEq, Eq, Structural)]
pub enum FailureReason {
    /// The roster cannot cover the week's staffing demand, either in
    /// aggregate or at some single day and shift.
    InsufficientStaff,
}

impl FailureReason {
    /// A short description of the failure, fit for showing to a user.
    pub fn message(self) -> (m: &'static str)
        ensures
            m@ == "Not enough employees"@,
    {
        match self {
            FailureReason::InsufficientStaff => "Not enough employees",
        }
    }
}

/// A complete staffing table for the week.
///
/// `table[d][s]` lists the employees on duty on the day at calendar position
/// `d` (see [`Days::position`]) for the shift at time-of-day position `s`
/// (see [`Shifts::position`]), in the order they were selected.
pub struct Schedule {
    pub table: Vec<Vec<Vec<Employee>>>,
}

impl Schedule {
    /// The table covers all seven days, each with all three shifts.
    pub open spec fn complete(self) -> bool {
        &&& self.table@.len() == OPERATIONAL_DAYS
        &&& forall|d: int|
            0 <= d < self.table@.len() ==> (#[trigger] self.table@[d])@.len() == DAY_NUM_SHIFTS
    }

    /// The employees on duty for one day and shift.
    pub fn shift_employees(&self, day: Days, shift: Shifts) -> (v: &Vec<Employee>)
        requires
            self.complete(),
        ensures
            *v == self.table@[day.position()]@[shift.position()],
    {
        &self.table[day.index()][shift.index()]
    }
}

} // verus!
