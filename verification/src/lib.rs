//! A weekly shift scheduler: assigns a roster of employees to a fixed grid of
//! seven days with three shifts each, keeping every shift at its minimum
//! staffing, never placing an employee twice on one day, capping each
//! employee's working days, and favouring each employee's preferred shift
//! where possible.

use vstd::prelude::*;

pub mod assign;
pub mod calendar;
pub mod employee;
pub mod laws;
pub mod limits;
pub mod model;
pub mod outcome;

verus! {

pub use crate::assign::Scheduler;
pub use crate::calendar::Days;
pub use crate::calendar::Shifts;
pub use crate::employee::Employee;
pub use crate::outcome::FailureReason;
pub use crate::outcome::Schedule;

} // verus!
