//! The scheduler itself: the verified assignment procedure.

use vstd::prelude::*;
use vstd::pervasive::VecAdditionalExecFns;
use crate::calendar::Shifts;
use crate::employee::Employee;
use crate::limits::{DAY_NUM_SHIFTS, EMP_MAX_DAYS, OPERATIONAL_DAYS, SHIFT_MIN_EMPS};
use crate::model::{
    all_unplaced, apply_picks, best, best_upto, cell_picks, cont_days, cont_shifts, day_matches,
    eligible, lemma_best_upto, lemma_cell_picks, no_days_worked, pick_until,
    run_days, run_shifts, schedule_matches, scheduled_week, shift_at, table_matches,
};
use crate::outcome::{FailureReason, Schedule};

verus! {

/// Holds the roster a schedule is to be built for. Employee identity is the
/// position in `employees`; the records themselves are display data.
pub struct Scheduler {
    pub employees: Vec<Employee>,
}

/// A vector of `n` zero day counts.
fn zero_vec(n: usize) -> (v: Vec<usize>)
    ensures
        v@ == no_days_worked(n as nat),
{
    let mut v: Vec<usize> = Vec::new();
    let mut k: usize = 0;
    while k < n
        invariant
            k <= n,
            v@.len() == k,
            forall|i: int| 0 <= i < k ==> v@[i] == 0,
        decreases n - k,
    {
        v.push(0);
        k += 1;
    }
    proof {
        assert(v@ =~= no_days_worked(n as nat));
    }
    v
}

/// A vector marking all `n` employees as not yet placed today.
fn false_vec(n: usize) -> (v: Vec<bool>)
    ensures
        v@ == all_unplaced(n as nat),
{
    let mut v: Vec<bool> = Vec::new();
    let mut k: usize = 0;
    while k < n
        invariant
            k <= n,
            v@.len() == k,
            forall|i: int| 0 <= i < k ==> !v@[i],
        decreases n - k,
    {
        v.push(false);
        k += 1;
    }
    proof {
        assert(v@ =~= all_unplaced(n as nat));
    }
    v
}

/// The shift staffed at step `s` of a day.
fn shift_from(s: usize) -> (sh: Shifts)
    requires
        s < DAY_NUM_SHIFTS,
    ensures
        sh == shift_at(s as int),
{
    if s == 0 {
        Shifts::Morning
    } else if s == 1 {
        Shifts::Afternoon
    } else {
        Shifts::Evening
    }
}

/// Whether `x` is already among the picked positions.
fn contains_index(v: &Vec<usize>, x: usize) -> (b: bool)
    ensures
        b == v@.contains(x),
{
    let mut j: usize = 0;
    while j < v.len()
        invariant
            j <= v@.len(),
            forall|k: int| 0 <= k < j ==> v@[k] != x,
        decreases v@.len() - j,
    {
        if v[j] == x {
            return true;
        }
        j += 1;
    }
    false
}

/// The eligible employee with the fewest assigned days, earliest on a tie.
fn best_candidate(
    emps: &Vec<Employee>,
    loads: &Vec<usize>,
    today: &Vec<bool>,
    picked: &Vec<usize>,
    pref: Option<Shifts>,
) -> (r: Option<usize>)
    requires
        loads@.len() == emps@.len(),
        today@.len() == emps@.len(),
    ensures
        r == best(emps@, loads@, today@, picked@, pref),
{
    let n = emps.len();
    let mut r: Option<usize> = None;
    let mut i: usize = 0;
    while i < n
        invariant
            loads@.len() == emps@.len(),
            today@.len() == emps@.len(),
            n == emps@.len(),
            i <= n,
            r == best_upto(emps@, loads@, today@, picked@, pref, i as int),
        decreases n - i,
    {
        proof {
            lemma_best_upto(emps@, loads@, today@, picked@, pref, i as int);
        }
        let mut ok: bool = loads[i] < EMP_MAX_DAYS && !today[i];
        if ok {
            ok = !contains_index(picked, i);
        }
        if ok {
            ok = match pref {
                Some(sh) => emps[i].preferred_shift == sh,
                None => true,
            };
        }
        proof {
            assert(ok == eligible(emps@, loads@, today@, picked@, pref, i as int));
        }
        if ok {
            r = match r {
                None => Some(i),
                Some(m) => if loads[i] < loads[m] {
                    Some(i)
                } else {
                    Some(m)
                },
            };
        }
        i += 1;
        proof {
            assert(r == best_upto(emps@, loads@, today@, picked@, pref, i as int));
        }
    }
    r
}

/// One selection pass: extend `picks` towards `SHIFT_MIN_EMPS` entries with
/// the best still-eligible candidates, under `pref` when one is demanded.
fn run_pass(
    emps: &Vec<Employee>,
    loads: &Vec<usize>,
    today: &Vec<bool>,
    picks: &mut Vec<usize>,
    pref: Option<Shifts>,
)
    requires
        loads@.len() == emps@.len(),
        today@.len() == emps@.len(),
        old(picks)@.len() <= SHIFT_MIN_EMPS,
    ensures
        final(picks)@ == pick_until(
            emps@,
            loads@,
            today@,
            old(picks)@,
            pref,
            (SHIFT_MIN_EMPS - old(picks)@.len()) as nat,
        ),
        final(picks)@.len() <= SHIFT_MIN_EMPS,
{
    let ghost goal = pick_until(
        emps@,
        loads@,
        today@,
        old(picks)@,
        pref,
        (SHIFT_MIN_EMPS - old(picks)@.len()) as nat,
    );
    let mut more = true;
    while more && picks.len() < SHIFT_MIN_EMPS
        invariant
            loads@.len() == emps@.len(),
            today@.len() == emps@.len(),
            picks@.len() <= SHIFT_MIN_EMPS,
            if more {
                goal == pick_until(
                    emps@,
                    loads@,
                    today@,
                    picks@,
                    pref,
                    (SHIFT_MIN_EMPS - picks@.len()) as nat,
                )
            } else {
                goal == picks@
            },
        decreases SHIFT_MIN_EMPS - picks@.len() + (if more {
            1int
        } else {
            0int
        }),
    {
        match best_candidate(emps, loads, today, picks, pref) {
            Some(a) => {
                picks.push(a);
            },
            None => {
                more = false;
            },
        }
    }
}

/// The roster for one cell of the grid: the preference pass, then, if the
/// cell is still short, the fill pass.
fn pick_for_cell(
    emps: &Vec<Employee>,
    loads: &Vec<usize>,
    today: &Vec<bool>,
    shift: Shifts,
) -> (picks: Vec<usize>)
    requires
        loads@.len() == emps@.len(),
        today@.len() == emps@.len(),
    ensures
        picks@ == cell_picks(emps@, loads@, today@, shift),
        picks@.len() <= SHIFT_MIN_EMPS,
{
    let mut picks: Vec<usize> = Vec::new();
    run_pass(emps, loads, today, &mut picks, Some(shift));
    if picks.len() < SHIFT_MIN_EMPS {
        run_pass(emps, loads, today, &mut picks, None);
    }
    picks
}

impl Scheduler {
    /// Build the week's staffing table for the roster, or report that the
    /// roster cannot cover it.
    ///
    /// The result is exactly what the model [`scheduled_week`] prescribes
    /// for the input: an `Err` precisely when the model rejects the roster,
    /// and otherwise a complete table realising the model's picks, so the
    /// outcome is a function of the input roster alone.
    #[verifier::loop_isolation(false)]
    pub fn get_schedule(self) -> (r: Result<Schedule, FailureReason>)
        ensures
            match (r, scheduled_week(self.employees@)) {
                (Result::Ok(s), Result::Ok(m)) => schedule_matches(s, self.employees@, m)
                    && s.complete(),
                (Result::Err(e), Result::Err(me)) => e == me,
                _ => false,
            },
    {
        let emps = self.employees;
        let ghost eview = emps@;
        let n = emps.len();
        let capacity = (n as u128) * (EMP_MAX_DAYS as u128);
        let demand = (OPERATIONAL_DAYS as u128) * (DAY_NUM_SHIFTS as u128) * (
        SHIFT_MIN_EMPS as u128);
        if capacity < demand {
            return Result::Err(FailureReason::InsufficientStaff);
        }
        let mut loads: Vec<usize> = zero_vec(n);
        let mut table: Vec<Vec<Vec<Employee>>> = Vec::new();
        let ghost mut model: Seq<Seq<Seq<usize>>> = Seq::empty();
        let mut d: usize = 0;
        while d < OPERATIONAL_DAYS
            invariant
                emps@ == eview,
                n == eview.len(),
                !(eview.len() * EMP_MAX_DAYS < OPERATIONAL_DAYS * DAY_NUM_SHIFTS * SHIFT_MIN_EMPS),
                loads@.len() == n,
                forall|i: int| 0 <= i < n ==> loads@[i] <= EMP_MAX_DAYS,
                d <= OPERATIONAL_DAYS,
                table@.len() == d,
                model.len() == d,
                forall|dd: int| 0 <= dd < d ==> (#[trigger] table@[dd])@.len() == DAY_NUM_SHIFTS,
                table_matches(eview, table@, model),
                run_days(eview, no_days_worked(eview.len()), 0) == cont_days(
                    model,
                    run_days(eview, loads@, d as int),
                ),
            decreases OPERATIONAL_DAYS - d,
        {
            let mut today: Vec<bool> = false_vec(n);
            let mut day_cells: Vec<Vec<Employee>> = Vec::new();
            let ghost mut day_model: Seq<Seq<usize>> = Seq::empty();
            let ghost day_loads = loads@;
            let mut s: usize = 0;
            while s < DAY_NUM_SHIFTS
                invariant
                    emps@ == eview,
                    n == eview.len(),
                    loads@.len() == n,
                    today@.len() == n,
                    forall|i: int| 0 <= i < n ==> loads@[i] <= EMP_MAX_DAYS,
                    s <= DAY_NUM_SHIFTS,
                    day_cells@.len() == s,
                    day_model.len() == s,
                    day_matches(eview, day_cells@, day_model),
                    run_shifts(eview, day_loads, all_unplaced(eview.len()), 0) == cont_shifts(
                        day_model,
                        run_shifts(eview, loads@, today@, s as int),
                    ),
                decreases DAY_NUM_SHIFTS - s,
            {
                let shift = shift_from(s);
                let picks = pick_for_cell(&emps, &loads, &today, shift);
                proof {
                    lemma_cell_picks(eview, loads@, today@, shift);
                }
                if picks.len() < SHIFT_MIN_EMPS {
                    proof {
                        assert(run_shifts(eview, loads@, today@, s as int) is None);
                        assert(run_shifts(eview, day_loads, all_unplaced(eview.len()), 0) is None);
                        assert(run_days(eview, day_loads, d as int) is None);
                        assert(run_days(eview, no_days_worked(eview.len()), 0) is None);
                    }
                    return Result::Err(FailureReason::InsufficientStaff);
                }
                let mut cell: Vec<Employee> = Vec::new();
                let mut j: usize = 0;
                while j < picks.len()
                    invariant
                        emps@ == eview,
                        j <= picks@.len(),
                        cell@.len() == j,
                        forall|q: int|
                            0 <= q < picks@.len() ==> ((#[trigger] picks@[q]) as int) < eview.len(),
                        forall|q: int| 0 <= q < j ==> #[trigger] cell@[q] == eview[picks@[q] as int],
                    decreases picks@.len() - j,
                {
                    let idx = picks[j];
                    let e = &emps[idx];
                    cell.push(e.clone());
                    j += 1;
                }
                let ghost pre_loads = loads@;
                let ghost pre_today = today@;
                proof {
                    assert(picks@.skip(0) =~= picks@);
                }
                let mut u: usize = 0;
                while u < picks.len()
                    invariant
                        u <= picks@.len(),
                        loads@.len() == n,
                        today@.len() == n,
                        n == eview.len(),
                        picks@.no_duplicates(),
                        forall|q: int|
                            0 <= q < picks@.len() ==> ((#[trigger] picks@[q]) as int) < n,
                        forall|q: int|
                            u <= q < picks@.len() ==> #[trigger] loads@[picks@[q] as int] < EMP_MAX_DAYS,
                        forall|i: int| 0 <= i < n ==> loads@[i] <= EMP_MAX_DAYS,
                        apply_picks(pre_loads, pre_today, picks@) == apply_picks(
                            loads@,
                            today@,
                            picks@.skip(u as int),
                        ),
                    decreases picks@.len() - u,
                {
                    let idx = picks[u];
                    let cur = loads[idx];
                    loads.set(idx, cur + 1);
                    today.set(idx, true);
                    u += 1;
                    proof {
                        assert(picks@.skip(u - 1).drop_first() =~= picks@.skip(u as int));
                        assert(picks@.skip(u - 1)[0] == picks@[u - 1]);
                    }
                }
                proof {
                    assert(picks@.skip(picks@.len() as int) =~= Seq::<usize>::empty());
                    assert(apply_picks(pre_loads, pre_today, picks@) == (loads@, today@));
                }
                day_cells.push(cell);
                proof {
                    day_model = day_model.push(picks@);
                    // One more cell of the day is settled; push it through the
                    // continuation equation.
                    assert(run_shifts(eview, pre_loads, pre_today, s as int) == cont_shifts(
                        seq![picks@],
                        run_shifts(eview, loads@, today@, (s + 1) as int),
                    ));
                    assert forall|rest: Option<(Seq<Seq<usize>>, Seq<usize>, Seq<bool>)>|
                        true implies cont_shifts(
                        day_model.drop_last(),
                        cont_shifts(seq![picks@], rest),
                    ) == cont_shifts(day_model, rest) by {
                        match rest {
                            None => {},
                            Some((cells, lf, tf)) => {
                                assert(day_model.drop_last() + (seq![picks@] + cells) =~= day_model
                                    + cells);
                            },
                        }
                    }
                }
                s += 1;
            }
            proof {
                assert(run_shifts(eview, loads@, today@, DAY_NUM_SHIFTS as int) == Some(
                    (Seq::<Seq<usize>>::empty(), loads@, today@),
                ));
                assert(day_model + Seq::<Seq<usize>>::empty() =~= day_model);
                assert(run_shifts(eview, day_loads, all_unplaced(eview.len()), 0) == Some(
                    (day_model, loads@, today@),
                ));
            }
            table.push(day_cells);
            proof {
                model = model.push(day_model);
                // One more day is settled; push it through the continuation
                // equation for the week.
                assert(run_days(eview, day_loads, d as int) == cont_days(
                    seq![day_model],
                    run_days(eview, loads@, (d + 1) as int),
                ));
                assert forall|rest: Option<(Seq<Seq<Seq<usize>>>, Seq<usize>)>| true implies cont_days(
                    model.drop_last(),
                    cont_days(seq![day_model], rest),
                ) == cont_days(model, rest) by {
                    match rest {
                        None => {},
                        Some((days, lf)) => {
                            assert(model.drop_last() + (seq![day_model] + days) =~= model + days);
                        },
                    }
                }
            }
            d += 1;
        }
        proof {
            assert(run_days(eview, loads@, OPERATIONAL_DAYS as int) == Some(
                (Seq::<Seq<Seq<usize>>>::empty(), loads@),
            ));
            assert(model + Seq::<Seq<Seq<usize>>>::empty() =~= model);
            assert(run_days(eview, no_days_worked(eview.len()), 0) == Some((model, loads@)));
        }
        let result = Schedule { table };
        Result::Ok(result)
    }
}

} // verus!
