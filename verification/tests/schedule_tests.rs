use std::collections::HashMap;

use rand::prelude::IteratorRandom;
use rand::rng;

use scheduler::calendar::{Days, Shifts};
use scheduler::employee::Employee;
use scheduler::limits::{EMP_MAX_DAYS, SHIFT_MIN_EMPS};
use scheduler::assign::Scheduler;

fn get_random_shift() -> Shifts {
    let mut rng = rng();
    Shifts::iter().into_iter().choose(&mut rng).unwrap()
}

fn create_employees(count: usize) -> Vec<Employee> {
    (0..count)
        .map(|i| Employee { name: format!("Emp {}", i), preferred_shift: get_random_shift() })
        .collect()
}

#[test]
fn test_not_enough_employees() {
    let emps = create_employees(8);
    let scheduler = Scheduler { employees: emps };

    let result = scheduler.get_schedule();
    assert!(result.is_err());
    assert_eq!(result.err().map(|e| e.message()), Some("Not enough employees"));
}

#[test]
fn test_schedule_possible() {
    let emps = create_employees(10);
    let scheduler = Scheduler { employees: emps };

    let result = scheduler.get_schedule();
    assert!(result.is_ok());
}

#[test]
fn test_rules() {
    let emps = create_employees(10);

    let scheduler = Scheduler { employees: emps };

    let schedule = scheduler.get_schedule().expect("Schedule should be created");

    let mut emp_shifts: HashMap<String, usize> = HashMap::new();

    for day in Days::iter() {
        let mut day_employees: Vec<String> = Vec::new();

        for shift in Shifts::iter() {
            let employees = schedule.shift_employees(day, shift);
            assert!(employees.len() >= SHIFT_MIN_EMPS, "Shift size too small, {:?}, {:?}", day, shift);

            for emp in employees {
                *emp_shifts.entry(emp.name.clone()).or_insert(0) += 1;

                day_employees.push(emp.name.clone());
            }
        }

        let day_emp_count = day_employees.len();
        day_employees.sort();
        day_employees.dedup();

        assert_eq!(day_emp_count, day_employees.len(), "Duplicate shift on {:?}", day);
    }

    for (name, count) in emp_shifts {
        assert!(count <= EMP_MAX_DAYS, "Employee {} worked too many days {}", name, count);
    }
}
