//! The mathematical model of the assignment algorithm.
//!
//! The model works over employee *positions* in the input roster (explicit
//! identity), a `loads` sequence counting each employee's assigned days, and
//! a `today` sequence marking who is already placed on the current day.
//!
//! Selection for one cell of the grid takes candidates one at a time, each
//! time the eligible employee with the fewest assigned days, the earliest on
//! a tie. Taking up to two candidates this way yields exactly the first two
//! entries of a stable sort of the candidate list by assigned days, which is
//! how the selection is usually described.

use vstd::prelude::*;
use crate::calendar::Shifts;
use crate::employee::Employee;
use crate::limits::{DAY_NUM_SHIFTS, EMP_MAX_DAYS, OPERATIONAL_DAYS, SHIFT_MIN_EMPS};
use crate::outcome::{FailureReason, Schedule};

verus! {

/// The shift staffed at step `s` of each day: Morning, then Afternoon, then
/// Evening.
pub open spec fn shift_at(s: int) -> Shifts {
    if s == 0 {
        Shifts::Morning
    } else if s == 1 {
        Shifts::Afternoon
    } else {
        Shifts::Evening
    }
}

/// Employee `i` may still be chosen for the cell being staffed: below the
/// weekly day cap, not yet placed today, not already chosen for this cell,
/// and — when a preference `pref` is demanded — preferring that shift.
pub open spec fn eligible(
    emps: Seq<Employee>,
    loads: Seq<usize>,
    today: Seq<bool>,
    picked: Seq<usize>,
    pref: Option<Shifts>,
    i: int,
) -> bool {
    &&& 0 <= i < emps.len()
    &&& loads[i] < EMP_MAX_DAYS
    &&& !today[i]
    &&& !picked.contains(i as usize)
    &&& match pref {
        Some(s) => emps[i].preferred_shift == s,
        None => true,
    }
}

/// Among the first `k` employees, the eligible one with the fewest assigned
/// days, the earliest position on a tie; `None` when none is eligible.
pub open spec fn best_upto(
    emps: Seq<Employee>,
    loads: Seq<usize>,
    today: Seq<bool>,
    picked: Seq<usize>,
    pref: Option<Shifts>,
    k: int,
) -> Option<usize>
    decreases k,
{
    if k <= 0 {
        None
    } else {
        let prev = best_upto(emps, loads, today, picked, pref, k - 1);
        if eligible(emps, loads, today, picked, pref, k - 1) {
            match prev {
                None => Some((k - 1) as usize),
                Some(m) => if loads[k - 1] < loads[m as int] {
                    Some((k - 1) as usize)
                } else {
                    Some(m)
                },
            }
        } else {
            prev
        }
    }
}

/// The next employee a cell takes: the least-loaded eligible one, earliest
/// on a tie.
pub open spec fn best(
    emps: Seq<Employee>,
    loads: Seq<usize>,
    today: Seq<bool>,
    picked: Seq<usize>,
    pref: Option<Shifts>,
) -> Option<usize> {
    best_upto(emps, loads, today, picked, pref, emps.len() as int)
}

/// Extend `picked` with up to `need` further candidates, each the best still
/// eligible; stops early when no candidate is left.
pub open spec fn pick_until(
    emps: Seq<Employee>,
    loads: Seq<usize>,
    today: Seq<bool>,
    picked: Seq<usize>,
    pref: Option<Shifts>,
    need: nat,
) -> Seq<usize>
    decreases need,
{
    if need == 0 {
        picked
    } else {
        match best(emps, loads, today, picked, pref) {
            None => picked,
            Some(a) => pick_until(emps, loads, today, picked.push(a), pref, (need - 1) as nat),
        }
    }
}

/// The roster chosen for one cell of the grid: a preference pass takes up to
/// `SHIFT_MIN_EMPS` employees who prefer `shift`; when it comes up short, a
/// fill pass tops the cell up from the whole roster, preference ignored.
/// Fewer than `SHIFT_MIN_EMPS` picks means the cell cannot be staffed.
pub open spec fn cell_picks(
    emps: Seq<Employee>,
    loads: Seq<usize>,
    today: Seq<bool>,
    shift: Shifts,
) -> Seq<usize> {
    let preferred = pick_until(emps, loads, today, Seq::empty(), Some(shift), SHIFT_MIN_EMPS as nat);
    if preferred.len() >= SHIFT_MIN_EMPS {
        preferred
    } else {
        pick_until(emps, loads, today, preferred, None, (SHIFT_MIN_EMPS - preferred.len()) as nat)
    }
}

/// Record one cell's picks: each chosen employee has worked one more day and
/// is busy for the rest of today.
pub open spec fn apply_picks(
    loads: Seq<usize>,
    today: Seq<bool>,
    picks: Seq<usize>,
) -> (Seq<usize>, Seq<bool>)
    decreases picks.len(),
{
    if picks.len() == 0 {
        (loads, today)
    } else {
        let i = picks[0] as int;
        apply_picks(
            loads.update(i, (loads[i] + 1) as usize),
            today.update(i, true),
            picks.drop_first(),
        )
    }
}

/// Staff one day's shifts from step `s` on. `None` means some cell fell
/// short of `SHIFT_MIN_EMPS`; otherwise the result carries the rosters of
/// the remaining cells and the final `loads` and `today` state.
pub open spec fn run_shifts(
    emps: Seq<Employee>,
    loads: Seq<usize>,
    today: Seq<bool>,
    s: int,
) -> Option<(Seq<Seq<usize>>, Seq<usize>, Seq<bool>)>
    decreases DAY_NUM_SHIFTS - s,
{
    if s >= DAY_NUM_SHIFTS {
        Some((Seq::empty(), loads, today))
    } else {
        let picks = cell_picks(emps, loads, today, shift_at(s));
        if picks.len() < SHIFT_MIN_EMPS {
            None
        } else {
            let (l2, t2) = apply_picks(loads, today, picks);
            match run_shifts(emps, l2, t2, s + 1) {
                None => None,
                Some((cells, lf, tf)) => Some((seq![picks] + cells, lf, tf)),
            }
        }
    }
}

/// Nobody has been placed yet today.
pub open spec fn all_unplaced(n: nat) -> Seq<bool> {
    Seq::new(n, |i: int| false)
}

/// At the start of the week nobody has worked a day.
pub open spec fn no_days_worked(n: nat) -> Seq<usize> {
    Seq::new(n, |i: int| 0usize)
}

/// Staff the week from day `d` on. Each day starts with a fresh `today`;
/// `loads` carries over. `None` means some cell of some day fell short.
pub open spec fn run_days(
    emps: Seq<Employee>,
    loads: Seq<usize>,
    d: int,
) -> Option<(Seq<Seq<Seq<usize>>>, Seq<usize>)>
    decreases OPERATIONAL_DAYS - d,
{
    if d >= OPERATIONAL_DAYS {
        Some((Seq::empty(), loads))
    } else {
        match run_shifts(emps, loads, all_unplaced(emps.len()), 0) {
            None => None,
            Some((cells, l2, _)) => match run_days(emps, l2, d + 1) {
                None => None,
                Some((days, lf)) => Some((seq![cells] + days, lf)),
            },
        }
    }
}

/// What a scheduling run computes over the input roster: the capacity gate
/// first — total person-day capacity must cover the week's person-day
/// demand — then the week, day by day, shift by shift. The result indexes
/// employees by position in the roster.
pub open spec fn scheduled_week(emps: Seq<Employee>) -> Result<
    Seq<Seq<Seq<usize>>>,
    FailureReason,
> {
    if emps.len() * EMP_MAX_DAYS < OPERATIONAL_DAYS * DAY_NUM_SHIFTS * SHIFT_MIN_EMPS {
        Err(FailureReason::InsufficientStaff)
    } else {
        match run_days(emps, no_days_worked(emps.len()), 0) {
            None => Err(FailureReason::InsufficientStaff),
            Some((days, _)) => Ok(days),
        }
    }
}

/// What `best_upto` returns: nothing when no candidate among the first `k`
/// is eligible; otherwise an eligible candidate that no other eligible
/// candidate beats — strictly fewer assigned days, or as few and earlier.
pub proof fn lemma_best_upto(
    emps: Seq<Employee>,
    loads: Seq<usize>,
    today: Seq<bool>,
    picked: Seq<usize>,
    pref: Option<Shifts>,
    k: int,
)
    requires
        emps.len() <= usize::MAX,
        k <= emps.len(),
    ensures
        match best_upto(emps, loads, today, picked, pref, k) {
            None => forall|i: int| 0 <= i < k ==> !eligible(emps, loads, today, picked, pref, i),
            Some(m) => {
                &&& eligible(emps, loads, today, picked, pref, m as int)
                &&& (m as int) < k
                &&& forall|i: int|
                    0 <= i < k && eligible(emps, loads, today, picked, pref, i)
                        ==> (loads[m as int] < loads[i]
                        || (loads[m as int] == loads[i] && m <= i))
            },
        },
    decreases k,
{
    if k > 0 {
        lemma_best_upto(emps, loads, today, picked, pref, k - 1);
        let prev = best_upto(emps, loads, today, picked, pref, k - 1);
        let cur = best_upto(emps, loads, today, picked, pref, k);
        assert(cur == if eligible(emps, loads, today, picked, pref, k - 1) {
            match prev {
                None => Some((k - 1) as usize),
                Some(m) => if loads[k - 1] < loads[m as int] {
                    Some((k - 1) as usize)
                } else {
                    Some(m)
                },
            }
        } else {
            prev
        });
        match cur {
            None => {},
            Some(m) => {
                assert forall|i: int|
                    0 <= i < k && eligible(emps, loads, today, picked, pref, i) implies (loads[m as int]
                    < loads[i] || (loads[m as int] == loads[i] && m <= i)) by {
                    match prev {
                        None => {
                            assert(i == k - 1);
                            assert(m == (k - 1) as usize);
                        },
                        Some(pm) => {
                            assert(eligible(emps, loads, today, picked, pref, pm as int));
                            if eligible(emps, loads, today, picked, pref, k - 1) {
                                if loads[k - 1] < loads[pm as int] {
                                    assert(m == (k - 1) as usize);
                                    if i < k - 1 {
                                        assert(loads[pm as int] < loads[i] || (loads[pm as int]
                                            == loads[i] && pm <= i));
                                    }
                                } else {
                                    assert(m == pm);
                                }
                            } else {
                                assert(m == pm);
                                assert(i != k - 1);
                            }
                        },
                    }
                }
            },
        }
    }
}

/// What a picking pass returns: it keeps `picked` as a prefix, adds at most
/// `need` candidates, each eligible against everything chosen before it, and
/// stops short of `need` only when no candidate was left.
pub proof fn lemma_pick_until(
    emps: Seq<Employee>,
    loads: Seq<usize>,
    today: Seq<bool>,
    picked: Seq<usize>,
    pref: Option<Shifts>,
    need: nat,
)
    requires
        emps.len() <= usize::MAX,
    ensures
        ({
            let r = pick_until(emps, loads, today, picked, pref, need);
            &&& picked.len() <= r.len() <= picked.len() + need
            &&& forall|j: int| 0 <= j < picked.len() ==> r[j] == picked[j]
            &&& forall|j: int|
                picked.len() <= j < r.len() ==> eligible(
                    emps,
                    loads,
                    today,
                    r.take(j),
                    pref,
                    #[trigger] r[j] as int,
                )
            &&& r.len() < picked.len() + need ==> best(emps, loads, today, r, pref) is None
        }),
    decreases need,
{
    if need > 0 {
        let r = pick_until(emps, loads, today, picked, pref, need);
        match best(emps, loads, today, picked, pref) {
            None => {},
            Some(a) => {
                lemma_best_upto(emps, loads, today, picked, pref, emps.len() as int);
                lemma_pick_until(emps, loads, today, picked.push(a), pref, (need - 1) as nat);
                assert(r.take(picked.len() as int) =~= picked);
                assert(eligible(emps, loads, today, r.take(picked.len() as int), pref, a as int));
                assert forall|j: int| picked.len() <= j < r.len() implies eligible(
                    emps,
                    loads,
                    today,
                    r.take(j),
                    pref,
                    #[trigger] r[j] as int,
                ) by {
                    if j == picked.len() {
                        assert(r[j] == a);
                    } else {
                        assert(eligible(
                            emps,
                            loads,
                            today,
                            r.take(j),
                            pref,
                            r[j] as int,
                        ));
                    }
                }
            },
        }
    }
}

/// What one cell's selection yields: at most `SHIFT_MIN_EMPS` picks, all
/// distinct roster positions of employees that were below the day cap and
/// free today.
pub proof fn lemma_cell_picks(
    emps: Seq<Employee>,
    loads: Seq<usize>,
    today: Seq<bool>,
    shift: Shifts,
)
    requires
        emps.len() <= usize::MAX,
    ensures
        ({
            let r = cell_picks(emps, loads, today, shift);
            &&& r.len() <= SHIFT_MIN_EMPS
            &&& r.no_duplicates()
            &&& forall|j: int|
                0 <= j < r.len() ==> ((#[trigger] r[j]) as int) < emps.len()
                    && loads[r[j] as int] < EMP_MAX_DAYS && !today[r[j] as int]
        }),
{
    let preferred = pick_until(emps, loads, today, Seq::empty(), Some(shift), SHIFT_MIN_EMPS as nat);
    let r = cell_picks(emps, loads, today, shift);
    lemma_pick_until(emps, loads, today, Seq::empty(), Some(shift), SHIFT_MIN_EMPS as nat);
    lemma_pick_until(
        emps,
        loads,
        today,
        preferred,
        None,
        (SHIFT_MIN_EMPS - preferred.len()) as nat,
    );
    assert forall|j: int| 0 <= j < r.len() implies eligible(
        emps,
        loads,
        today,
        r.take(j),
        if j < preferred.len() { Some(shift) } else { None },
        #[trigger] r[j] as int,
    ) by {
        if j < preferred.len() {
            assert(eligible(emps, loads, today, preferred.take(j), Some(shift), preferred[j] as int));
            assert(r.take(j) =~= preferred.take(j));
        }
    }
    assert forall|j1: int, j2: int|
        0 <= j1 < r.len() && 0 <= j2 < r.len() && j1 != j2 implies r[j1] != r[j2] by {
        let (lo, hi) = if j1 < j2 {
            (j1, j2)
        } else {
            (j2, j1)
        };
        assert(eligible(
            emps,
            loads,
            today,
            r.take(hi),
            if hi < preferred.len() { Some(shift) } else { None },
            r[hi] as int,
        ));
        if r[lo] == r[hi] {
            assert(r.take(hi)[lo] == r[lo]);
            assert(r.take(hi).contains(r[hi]));
        }
    }
}

/// What recording one cell's picks does to the state: each picked
/// employee's day count rises by one and the employee is busy today; nobody
/// else's state moves.
pub proof fn lemma_apply_picks(loads: Seq<usize>, today: Seq<bool>, picks: Seq<usize>)
    requires
        loads.len() == today.len(),
        loads.len() <= usize::MAX,
        picks.no_duplicates(),
        forall|j: int|
            0 <= j < picks.len() ==> ((#[trigger] picks[j]) as int) < loads.len()
                && loads[picks[j] as int] < EMP_MAX_DAYS,
    ensures
        ({
            let (l2, t2) = apply_picks(loads, today, picks);
            &&& l2.len() == loads.len()
            &&& t2.len() == today.len()
            &&& forall|i: int|
                0 <= i < loads.len() ==> l2[i] == loads[i] + (if picks.contains(i as usize) {
                    1int
                } else {
                    0int
                })
            &&& forall|i: int|
                0 <= i < today.len() ==> t2[i] == (today[i] || picks.contains(i as usize))
        }),
    decreases picks.len(),
{
    if picks.len() > 0 {
        let a = picks[0];
        let rest = picks.drop_first();
        let l1 = loads.update(a as int, (loads[a as int] + 1) as usize);
        let t1 = today.update(a as int, true);
        assert forall|j: int| 0 <= j < rest.len() implies ((#[trigger] rest[j]) as int) < l1.len()
            && l1[rest[j] as int] < EMP_MAX_DAYS by {
            assert(rest[j] == picks[j + 1]);
        }
        lemma_apply_picks(l1, t1, rest);
        assert(apply_picks(loads, today, picks) == apply_picks(l1, t1, rest));
        let (l2, t2) = apply_picks(loads, today, picks);
        assert forall|i: int| 0 <= i < loads.len() implies l2[i] == loads[i] + (if picks.contains(
            i as usize,
        ) {
            1int
        } else {
            0int
        }) && t2[i] == (today[i] || picks.contains(i as usize)) by {
            let x = i as usize;
            assert(l1[i] == loads[i] + (if i == a as int {
                1int
            } else {
                0int
            }));
            assert(t1[i] == (today[i] || i == a as int));
            assert(l2[i] == l1[i] + (if rest.contains(x) {
                1int
            } else {
                0int
            }));
            assert(t2[i] == (t1[i] || rest.contains(x)));
            if picks.contains(x) {
                let w = choose|w: int| 0 <= w < picks.len() && picks[w] == x;
                if w > 0 {
                    assert(rest[w - 1] == x);
                    assert(rest.contains(x));
                }
            }
            if rest.contains(x) {
                let w = choose|w: int| 0 <= w < rest.len() && rest[w] == x;
                assert(picks[w + 1] == x);
                assert(picks.contains(x));
                assert(x != a);
            }
            if x == a {
                assert(picks[0] == x);
                assert(picks.contains(x));
            }
        }
    }
}

/// Prepend a day's already-staffed cells to the outcome of staffing its
/// remaining shifts.
pub open spec fn cont_shifts(
    prefix: Seq<Seq<usize>>,
    rest: Option<(Seq<Seq<usize>>, Seq<usize>, Seq<bool>)>,
) -> Option<(Seq<Seq<usize>>, Seq<usize>, Seq<bool>)> {
    match rest {
        None => None,
        Some((cells, lf, tf)) => Some((prefix + cells, lf, tf)),
    }
}

/// Prepend the already-staffed days to the outcome of staffing the rest of
/// the week.
pub open spec fn cont_days(
    prefix: Seq<Seq<Seq<usize>>>,
    rest: Option<(Seq<Seq<Seq<usize>>>, Seq<usize>)>,
) -> Option<(Seq<Seq<Seq<usize>>>, Seq<usize>)> {
    match rest {
        None => None,
        Some((days, lf)) => Some((prefix + days, lf)),
    }
}

/// `cell` holds exactly the records of the picked employees, in pick order.
pub open spec fn cell_matches(emps: Seq<Employee>, cell: Seq<Employee>, picks: Seq<usize>) -> bool {
    &&& cell.len() == picks.len()
    &&& forall|j: int|
        0 <= j < picks.len() ==> ((#[trigger] picks[j]) as int) < emps.len() && cell[j] == emps[picks[j] as int]
}

/// One day of the table realises one day of the model.
pub open spec fn day_matches(
    emps: Seq<Employee>,
    day: Seq<Vec<Employee>>,
    cells: Seq<Seq<usize>>,
) -> bool {
    &&& day.len() == cells.len()
    &&& forall|s: int| 0 <= s < cells.len() ==> cell_matches(emps, (#[trigger] day[s])@, cells[s])
}

/// The whole table realises the model, day by day and cell by cell.
pub open spec fn table_matches(
    emps: Seq<Employee>,
    table: Seq<Vec<Vec<Employee>>>,
    m: Seq<Seq<Seq<usize>>>,
) -> bool {
    &&& table.len() == m.len()
    &&& forall|d: int| 0 <= d < m.len() ==> day_matches(emps, (#[trigger] table[d])@, m[d])
}

/// The returned `Schedule` realises the model produced for `emps`.
pub open spec fn schedule_matches(
    s: Schedule,
    emps: Seq<Employee>,
    m: Seq<Seq<Seq<usize>>>,
) -> bool {
    table_matches(emps, s.table@, m)
}

} // verus!
