//! The fixed dimensions of the scheduling problem.

use vstd::prelude::*;

verus! {

/// Days in the operational week.
pub const OPERATIONAL_DAYS: usize = 7;

/// Shifts staffed on each day.
pub const DAY_NUM_SHIFTS: usize = 3;

/// Minimum number of employees on every shift.
pub const SHIFT_MIN_EMPS: usize = 2;

/// Most distinct days any one employee may work in the week.
pub const EMP_MAX_DAYS: usize = 5;

} // verus!
