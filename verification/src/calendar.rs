//! The closed, ordered sets the schedule is built over: the days of the
//! operational week and the shifts of a day.

use vstd::prelude::*;

verus! {

/// A day of the operational week, in calendar order.
#[derive(Debug, Copy, Clone, PartialEq, Eq, Hash, Structural)]
pub enum Days {
    Monday,
    Tuesday,
    Wednesday,
    Thursday,
    Friday,
    Saturday,
    Sunday,
}

impl Days {
    /// Position of the day in calendar order: Monday is 0, Sunday is 6.
    pub open spec fn position(self) -> int {
        match self {
            Days::Monday => 0,
            Days::Tuesday => 1,
            Days::Wednesday => 2,
            Days::Thursday => 3,
            Days::Friday => 4,
            Days::Saturday => 5,
            Days::Sunday => 6,
        }
    }

    /// The week in calendar order.
    pub open spec fn week_order() -> Seq<Days> {
        seq![
            Days::Monday,
            Days::Tuesday,
            Days::Wednesday,
            Days::Thursday,
            Days::Friday,
            Days::Saturday,
            Days::Sunday,
        ]
    }

    /// Calendar position of the day, as an index into a schedule table.
    pub fn index(self) -> (p: usize)
        ensures
            p == self.position(),
            p < 7,
    {
        match self {
            Days::Monday => 0,
            Days::Tuesday => 1,
            Days::Wednesday => 2,
            Days::Thursday => 3,
            Days::Friday => 4,
            Days::Saturday => 5,
            Days::Sunday => 6,
        }
    }

    /// All seven days, Monday first.
    pub fn iter() -> (days: Vec<Days>)
        ensures
            days@ == Days::week_order(),
    {
        let mut days: Vec<Days> = Vec::new();
        days.push(Days::Monday);
        days.push(Days::Tuesday);
        days.push(Days::Wednesday);
        days.push(Days::Thursday);
        days.push(Days::Friday);
        days.push(Days::Saturday);
        days.push(Days::Sunday);
        proof {
            assert(days@ =~= Days::week_order());
        }
        days
    }

    /// The day's English name.
    pub fn label(self) -> (s: &'static str)
        ensures
            s@ == self.label_text(),
    {
        match self {
            Days::Monday => "Monday",
            Days::Tuesday => "Tuesday",
            Days::Wednesday => "Wednesday",
            Days::Thursday => "Thursday",
            Days::Friday => "Friday",
            Days::Saturday => "Saturday",
            Days::Sunday => "Sunday",
        }
    }

    /// The text `label` returns for each day.
    pub open spec fn label_text(self) -> Seq<char> {
        match self {
            Days::Monday => "Monday"@,
            Days::Tuesday => "Tuesday"@,
            Days::Wednesday => "Wednesday"@,
            Days::Thursday => "Thursday"@,
            Days::Friday => "Friday"@,
            Days::Saturday => "Saturday"@,
            Days::Sunday => "Sunday"@,
        }
    }
}

/// A shift of the day, in time-of-day order.
#[derive(Debug, Copy, Clone, PartialEq, Eq, Hash, Structural)]
pub enum Shifts {
    Morning,
    Afternoon,
    Evening,
}

impl Shifts {
    /// Position of the shift in time-of-day order: Morning is 0, Evening is 2.
    pub open spec fn position(self) -> int {
        match self {
            Shifts::Morning => 0,
            Shifts::Afternoon => 1,
            Shifts::Evening => 2,
        }
    }

    /// The day's shifts in time-of-day order.
    pub open spec fn day_order() -> Seq<Shifts> {
        seq![Shifts::Morning, Shifts::Afternoon, Shifts::Evening]
    }

    /// Time-of-day position of the shift, as an index into a day's roster.
    pub fn index(self) -> (p: usize)
        ensures
            p == self.position(),
            p < 3,
    {
        match self {
            Shifts::Morning => 0,
            Shifts::Afternoon => 1,
            Shifts::Evening => 2,
        }
    }

    /// All three shifts, Morning first.
    pub fn iter() -> (shifts: Vec<Shifts>)
        ensures
            shifts@ == Shifts::day_order(),
    {
        let mut shifts: Vec<Shifts> = Vec::new();
        shifts.push(Shifts::Morning);
        shifts.push(Shifts::Afternoon);
        shifts.push(Shifts::Evening);
        proof {
            assert(shifts@ =~= Shifts::day_order());
        }
        shifts
    }

    /// The shift's English name.
    pub fn label(self) -> (s: &'static str)
        ensures
            s@ == self.label_text(),
    {
        match self {
            Shifts::Morning => "Morning",
            Shifts::Afternoon => "Afternoon",
            Shifts::Evening => "Evening",
        }
    }

    /// The text `label` returns for each shift.
    pub open spec fn label_text(self) -> Seq<char> {
        match self {
            Shifts::Morning => "Morning"@,
            Shifts::Afternoon => "Afternoon"@,
            Shifts::Evening => "Evening"@,
        }
    }
}

} // verus!
