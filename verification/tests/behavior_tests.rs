use std::collections::HashMap;

use scheduler::calendar::{Days, Shifts};
use scheduler::employee::Employee;
use scheduler::limits::{DAY_NUM_SHIFTS, EMP_MAX_DAYS, OPERATIONAL_DAYS, SHIFT_MIN_EMPS};
use scheduler::assign::Scheduler;
use scheduler::outcome::Schedule;

fn emp(name: &str, shift: Shifts) -> Employee {
    Employee { name: name.to_string(), preferred_shift: shift }
}

fn roster(prefs: &[Shifts]) -> Vec<Employee> {
    prefs
        .iter()
        .enumerate()
        .map(|(i, p)| Employee { name: format!("Emp {}", i), preferred_shift: *p })
        .collect()
}

fn run(prefs: &[Shifts]) -> Result<Schedule, scheduler::outcome::FailureReason> {
    Scheduler { employees: roster(prefs) }.get_schedule()
}

#[test]
fn test_calendar_orders() {
    let days = Days::iter();
    assert_eq!(days.len(), OPERATIONAL_DAYS);
    let day_names: Vec<&str> = days.iter().map(|d| d.label()).collect();
    assert_eq!(
        day_names,
        vec!["Monday", "Tuesday", "Wednesday", "Thursday", "Friday", "Saturday", "Sunday"]
    );

    let shifts = Shifts::iter();
    assert_eq!(shifts.len(), DAY_NUM_SHIFTS);
    let shift_names: Vec<&str> = shifts.iter().map(|s| s.label()).collect();
    assert_eq!(shift_names, vec!["Morning", "Afternoon", "Evening"]);
}

#[test]
fn test_empty_roster_rejected() {
    let result = Scheduler { employees: Vec::new() }.get_schedule();
    assert!(result.is_err());
    assert_eq!(result.err().map(|e| e.message()), Some("Not enough employees"));
}

#[test]
fn test_capacity_gate_boundary() {
    // Eight employees give 40 person-days, one short of the 42 the week
    // demands: rejected before any assignment. Nine give 45: schedulable.
    let eight = vec![Shifts::Morning; 8];
    assert!(run(&eight).is_err());

    let nine = vec![Shifts::Morning; 9];
    assert!(run(&nine).is_ok());
}

#[test]
fn test_feasible_minimum() {
    // Ten employees with preferences spread 4/3/3: a full schedule comes
    // back and every one of the 21 cells has at least two employees.
    let prefs = [
        Shifts::Morning,
        Shifts::Morning,
        Shifts::Morning,
        Shifts::Morning,
        Shifts::Afternoon,
        Shifts::Afternoon,
        Shifts::Afternoon,
        Shifts::Evening,
        Shifts::Evening,
        Shifts::Evening,
    ];
    let schedule = run(&prefs).expect("ten employees cover the week");
    assert_eq!(schedule.table.len(), OPERATIONAL_DAYS);
    for day in Days::iter() {
        for shift in Shifts::iter() {
            assert!(schedule.shift_employees(day, shift).len() >= SHIFT_MIN_EMPS);
        }
    }
}

#[test]
fn test_determinism_identical_runs() {
    let prefs = [
        Shifts::Morning,
        Shifts::Evening,
        Shifts::Morning,
        Shifts::Afternoon,
        Shifts::Afternoon,
        Shifts::Evening,
        Shifts::Morning,
        Shifts::Evening,
        Shifts::Afternoon,
        Shifts::Morning,
    ];
    let first = run(&prefs).expect("schedulable");
    let second = run(&prefs).expect("schedulable");
    for day in Days::iter() {
        for shift in Shifts::iter() {
            let a = first.shift_employees(day, shift);
            let b = second.shift_employees(day, shift);
            assert_eq!(a.len(), b.len());
            for (x, y) in a.iter().zip(b.iter()) {
                assert_eq!(x.name, y.name);
                assert_eq!(x.preferred_shift, y.preferred_shift);
            }
        }
    }
}

#[test]
fn test_preference_bias_first_day() {
    // Exactly two employees prefer Afternoon. On Monday everyone is fresh,
    // so the Afternoon cell takes precisely those two, in input order,
    // ahead of any fill-pass candidate.
    let employees = vec![
        emp("m1", Shifts::Morning),
        emp("m2", Shifts::Morning),
        emp("m3", Shifts::Morning),
        emp("m4", Shifts::Morning),
        emp("a1", Shifts::Afternoon),
        emp("a2", Shifts::Afternoon),
        emp("e1", Shifts::Evening),
        emp("e2", Shifts::Evening),
        emp("e3", Shifts::Evening),
        emp("e4", Shifts::Evening),
    ];
    let schedule = Scheduler { employees }.get_schedule().expect("schedulable");

    let monday_morning = schedule.shift_employees(Days::Monday, Shifts::Morning);
    let names: Vec<&str> = monday_morning.iter().map(|e| e.name.as_str()).collect();
    assert_eq!(names, vec!["m1", "m2"]);

    let monday_afternoon = schedule.shift_employees(Days::Monday, Shifts::Afternoon);
    let names: Vec<&str> = monday_afternoon.iter().map(|e| e.name.as_str()).collect();
    assert_eq!(names, vec!["a1", "a2"]);

    let monday_evening = schedule.shift_employees(Days::Monday, Shifts::Evening);
    let names: Vec<&str> = monday_evening.iter().map(|e| e.name.as_str()).collect();
    assert_eq!(names, vec!["e1", "e2"]);
}

#[test]
fn test_fill_pass_fallback() {
    // All ten employees prefer Morning. Afternoon and Evening can only be
    // staffed by the fill pass, and still reach minimum staffing on every
    // day, with nobody booked twice on one day.
    let prefs = vec![Shifts::Morning; 10];
    let schedule = run(&prefs).expect("fill pass covers the other shifts");
    for day in Days::iter() {
        let mut seen: Vec<String> = Vec::new();
        for shift in Shifts::iter() {
            let cell = schedule.shift_employees(day, shift);
            assert!(cell.len() >= SHIFT_MIN_EMPS);
            for e in cell {
                assert!(!seen.contains(&e.name), "{} booked twice on {:?}", e.name, day);
                seen.push(e.name.clone());
            }
        }
    }
}

#[test]
fn test_day_cap_with_minimal_roster() {
    // Nine employees barely cover the 42 person-day demand; even then no
    // one is scheduled on more than five days.
    let prefs = vec![Shifts::Evening; 9];
    let schedule = run(&prefs).expect("nine employees cover the week");
    let mut days_by_name: HashMap<String, usize> = HashMap::new();
    for day in Days::iter() {
        for shift in Shifts::iter() {
            for e in schedule.shift_employees(day, shift) {
                *days_by_name.entry(e.name.clone()).or_insert(0) += 1;
            }
        }
    }
    for (_, count) in days_by_name {
        assert!(count <= EMP_MAX_DAYS);
    }
}

#[test]
fn test_failure_message() {
    let result = run(&[Shifts::Morning, Shifts::Afternoon]);
    let reason = result.err().expect("two employees cannot cover the week");
    assert_eq!(reason.message(), "Not enough employees");
}
