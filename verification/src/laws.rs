//! Properties every scheduling run obeys, stated and proved over the model.

use vstd::prelude::*;
use crate::employee::Employee;
use crate::calendar::Shifts;
use crate::limits::{DAY_NUM_SHIFTS, EMP_MAX_DAYS, OPERATIONAL_DAYS, SHIFT_MIN_EMPS};
use crate::model::{
    all_unplaced, apply_picks, best, cell_matches, cell_picks, eligible, lemma_apply_picks,
    lemma_best_upto, lemma_cell_picks, lemma_pick_until, no_days_worked, pick_until, run_days,
    run_shifts, schedule_matches, scheduled_week, shift_at,
};
use crate::outcome::{FailureReason, Schedule};

verus! {

/// Employee position `i` could still cover a cell today, preference put
/// aside: below the weekly day cap and not yet placed today.
pub open spec fn can_cover(emps: Seq<Employee>, loads: Seq<usize>, today: Seq<bool>, i: int) -> bool {
    &&& 0 <= i < emps.len()
    &&& loads[i] < EMP_MAX_DAYS
    &&& !today[i]
}

/// Whether any shift of the day lists employee position `x`.
pub open spec fn day_lists(day: Seq<Seq<usize>>, x: usize) -> bool {
    exists|s: int| 0 <= s < day.len() && (#[trigger] day[s]).contains(x)
}

/// On how many of the given days employee position `x` appears.
pub open spec fn days_worked(days: Seq<Seq<Seq<usize>>>, x: usize) -> int
    decreases days.len(),
{
    if days.len() == 0 {
        0
    } else {
        (if day_lists(days[0], x) {
            1int
        } else {
            0int
        }) + days_worked(days.drop_first(), x)
    }
}

/// A well-formed day of a schedule: all three shifts present, each staffed
/// with exactly `SHIFT_MIN_EMPS` distinct roster positions, and no position
/// listed by two different shifts of the day.
pub open spec fn day_wf(emps: Seq<Employee>, day: Seq<Seq<usize>>) -> bool {
    &&& day.len() == DAY_NUM_SHIFTS
    &&& forall|s: int| 0 <= s < day.len() ==> (#[trigger] day[s]).len() == SHIFT_MIN_EMPS
    &&& forall|s: int| 0 <= s < day.len() ==> (#[trigger] day[s]).no_duplicates()
    &&& forall|s: int, j: int|
        0 <= s < day.len() && 0 <= j < day[s].len() ==> ((#[trigger] day[s][j]) as int)
            < emps.len()
    &&& forall|s1: int, s2: int, x: usize|
        #![trigger day[s1].contains(x), day[s2].contains(x)]
        0 <= s1 < day.len() && 0 <= s2 < day.len() && s1 != s2 ==> !(day[s1].contains(x)
            && day[s2].contains(x))
}

/// The invariants the shift loop maintains over one day: each staffed cell
/// holds exactly `SHIFT_MIN_EMPS` distinct, in-range positions, cells of the
/// day are pairwise disjoint, nobody placed before the day's start is
/// listed, and the day counts rise by exactly one for everyone listed.
pub proof fn lemma_run_shifts(emps: Seq<Employee>, loads: Seq<usize>, today: Seq<bool>, s: int)
    requires
        emps.len() <= usize::MAX,
        loads.len() == emps.len(),
        today.len() == emps.len(),
        0 <= s <= DAY_NUM_SHIFTS,
        forall|i: int| 0 <= i < loads.len() ==> #[trigger] loads[i] <= EMP_MAX_DAYS,
    ensures
        match run_shifts(emps, loads, today, s) {
            None => true,
            Some((cells, lf, tf)) => {
                &&& cells.len() == DAY_NUM_SHIFTS - s
                &&& lf.len() == loads.len()
                &&& tf.len() == today.len()
                &&& forall|c: int| 0 <= c < cells.len() ==> (#[trigger] cells[c]).len() == SHIFT_MIN_EMPS
                &&& forall|c: int| 0 <= c < cells.len() ==> (#[trigger] cells[c]).no_duplicates()
                &&& forall|c: int, j: int|
                    0 <= c < cells.len() && 0 <= j < cells[c].len() ==> ((#[trigger] cells[c][j]) as int)
                        < emps.len()
                &&& forall|i: int|
                    0 <= i < loads.len() ==> #[trigger] lf[i] == loads[i] + (if day_lists(
                        cells,
                        i as usize,
                    ) {
                        1int
                    } else {
                        0int
                    })
                &&& forall|i: int| 0 <= i < loads.len() ==> #[trigger] lf[i] <= EMP_MAX_DAYS
                &&& forall|i: int|
                    0 <= i < today.len() ==> #[trigger] tf[i] == (today[i] || day_lists(
                        cells,
                        i as usize,
                    ))
                &&& forall|i: int|
                    0 <= i < today.len() && today[i] ==> !(#[trigger] day_lists(cells, i as usize))
                &&& forall|s1: int, s2: int, x: usize|
                    #![trigger cells[s1].contains(x), cells[s2].contains(x)]
                    0 <= s1 < cells.len() && 0 <= s2 < cells.len() && s1 != s2 ==> !(cells[s1].contains(x) && cells[s2].contains(x))
            },
        },
    decreases DAY_NUM_SHIFTS - s,
{
    if s < DAY_NUM_SHIFTS {
        let shift = shift_at(s);
        let picks = cell_picks(emps, loads, today, shift);
        lemma_cell_picks(emps, loads, today, shift);
        if picks.len() >= SHIFT_MIN_EMPS {
            let (l2, t2) = apply_picks(loads, today, picks);
            lemma_apply_picks(loads, today, picks);
            lemma_run_shifts(emps, l2, t2, s + 1);
            match run_shifts(emps, l2, t2, s + 1) {
                None => {},
                Some((cells2, lf, tf)) => {
                    let cells = seq![picks] + cells2;
                    assert(run_shifts(emps, loads, today, s) == Some((cells, lf, tf)));
                    assert(cells[0] == picks);
                    assert forall|c: int| 1 <= c < cells.len() implies cells[c] == cells2[c - 1] by {}
                    assert forall|x: usize| #[trigger] day_lists(cells, x) == (picks.contains(x)
                        || day_lists(cells2, x)) by {
                        if day_lists(cells, x) {
                            let c = choose|c: int| 0 <= c < cells.len() && (#[trigger] cells[c]).contains(x);
                            if c != 0 {
                                assert(cells2[c - 1].contains(x));
                            }
                        }
                        if picks.contains(x) {
                            assert(cells[0].contains(x));
                        }
                        if day_lists(cells2, x) {
                            let c = choose|c: int| 0 <= c < cells2.len() && (#[trigger] cells2[c]).contains(x);
                            assert(cells[c + 1].contains(x));
                        }
                    }
                    // A position picked for this cell is busy for the rest of
                    // the day, so the later cells cannot list it again.
                    assert forall|x: usize| picks.contains(x) implies !day_lists(cells2, x) by {
                        let w = choose|w: int| 0 <= w < picks.len() && picks[w] == x;
                        assert(!today[picks[w] as int]);
                        assert(t2[x as int]);
                    }
                    assert forall|i: int|
                        0 <= i < today.len() && today[i] implies !(#[trigger] day_lists(
                        cells,
                        i as usize,
                    )) by {
                        if picks.contains(i as usize) {
                            let w = choose|w: int| 0 <= w < picks.len() && picks[w] == i as usize;
                            assert(!today[picks[w] as int]);
                        }
                    }
                },
            }
        }
    }
}

/// The invariants the day loop maintains over the week: every completed day
/// is well formed and every employee's day count rises by exactly the
/// number of days that list the employee, never beyond the cap.
pub proof fn lemma_run_days(emps: Seq<Employee>, loads: Seq<usize>, d: int)
    requires
        emps.len() <= usize::MAX,
        loads.len() == emps.len(),
        0 <= d <= OPERATIONAL_DAYS,
        forall|i: int| 0 <= i < loads.len() ==> #[trigger] loads[i] <= EMP_MAX_DAYS,
    ensures
        match run_days(emps, loads, d) {
            None => true,
            Some((days, lf)) => {
                &&& days.len() == OPERATIONAL_DAYS - d
                &&& lf.len() == loads.len()
                &&& forall|k: int| 0 <= k < days.len() ==> day_wf(emps, #[trigger] days[k])
                &&& forall|i: int|
                    0 <= i < loads.len() ==> #[trigger] lf[i] == loads[i] + days_worked(
                        days,
                        i as usize,
                    )
                &&& forall|i: int| 0 <= i < loads.len() ==> #[trigger] lf[i] <= EMP_MAX_DAYS
            },
        },
    decreases OPERATIONAL_DAYS - d,
{
    if d < OPERATIONAL_DAYS {
        let today0 = all_unplaced(emps.len());
        lemma_run_shifts(emps, loads, today0, 0);
        match run_shifts(emps, loads, today0, 0) {
            None => {},
            Some((cells, l2, _)) => {
                lemma_run_days(emps, l2, d + 1);
                match run_days(emps, l2, d + 1) {
                    None => {},
                    Some((days2, lf)) => {
                        let days = seq![cells] + days2;
                        assert(run_days(emps, loads, d) == Some((days, lf)));
                        assert(days[0] == cells);
                        assert(days.drop_first() =~= days2);
                        assert forall|k: int| 1 <= k < days.len() implies days[k] == days2[k - 1] by {}
                        assert(day_wf(emps, cells));
                        assert forall|i: int| 0 <= i < loads.len() implies #[trigger] lf[i]
                            == loads[i] + days_worked(days, i as usize) by {
                            assert(days_worked(days, i as usize) == (if day_lists(
                                cells,
                                i as usize,
                            ) {
                                1int
                            } else {
                                0int
                            }) + days_worked(days2, i as usize));
                        }
                    },
                }
            },
        }
    }
}

/// Capacity gate: a roster whose total person-day capacity falls short of
/// the week's person-day demand is rejected outright, before any assignment
/// work.
pub proof fn lemma_capacity_gate(emps: Seq<Employee>)
    requires
        emps.len() * EMP_MAX_DAYS < OPERATIONAL_DAYS * DAY_NUM_SHIFTS * SHIFT_MIN_EMPS,
    ensures
        scheduled_week(emps) == Err::<Seq<Seq<Seq<usize>>>, FailureReason>(
            FailureReason::InsufficientStaff,
        ),
{
}

/// Every successful run fills the whole grid: seven days, each with all
/// three shifts, each shift with exactly `SHIFT_MIN_EMPS` distinct roster
/// positions — so no shift is ever below minimum staffing — and every
/// listed position indexes the roster.
pub proof fn lemma_schedule_shape(emps: Seq<Employee>, m: Seq<Seq<Seq<usize>>>)
    requires
        emps.len() <= usize::MAX,
        scheduled_week(emps) == Ok::<Seq<Seq<Seq<usize>>>, FailureReason>(m),
    ensures
        m.len() == OPERATIONAL_DAYS,
        forall|d: int| 0 <= d < m.len() ==> day_wf(emps, #[trigger] m[d]),
{
    lemma_run_days(emps, no_days_worked(emps.len()), 0);
}

/// No double-booking: in a successful run, no day lists an employee in two
/// different shifts, and no shift lists an employee twice.
pub proof fn lemma_no_double_booking(emps: Seq<Employee>, m: Seq<Seq<Seq<usize>>>)
    requires
        emps.len() <= usize::MAX,
        scheduled_week(emps) == Ok::<Seq<Seq<Seq<usize>>>, FailureReason>(m),
    ensures
        forall|d: int, s1: int, s2: int, x: usize|
            #![trigger m[d][s1].contains(x), m[d][s2].contains(x)]
            0 <= d < m.len() && 0 <= s1 < m[d].len() && 0 <= s2 < m[d].len() && s1 != s2 ==> !(m[d][s1].contains(x) && m[d][s2].contains(x)),
        forall|d: int, s: int|
            0 <= d < m.len() && 0 <= s < m[d].len() ==> (#[trigger] m[d][s]).no_duplicates(),
{
    lemma_schedule_shape(emps, m);
    assert forall|d: int, s: int|
        0 <= d < m.len() && 0 <= s < m[d].len() implies (#[trigger] m[d][s]).no_duplicates() by {
        assert(day_wf(emps, m[d]));
    }
    assert forall|d: int, s1: int, s2: int, x: usize|
        #![trigger m[d][s1].contains(x), m[d][s2].contains(x)]
        0 <= d < m.len() && 0 <= s1 < m[d].len() && 0 <= s2 < m[d].len() && s1 != s2 implies !(m[d][s1].contains(x) && m[d][s2].contains(x)) by {
        assert(day_wf(emps, m[d]));
    }
}

/// Day cap respected: in a successful run, no employee appears on more than
/// `EMP_MAX_DAYS` distinct days of the week.
pub proof fn lemma_day_cap(emps: Seq<Employee>, m: Seq<Seq<Seq<usize>>>)
    requires
        emps.len() <= usize::MAX,
        scheduled_week(emps) == Ok::<Seq<Seq<Seq<usize>>>, FailureReason>(m),
    ensures
        forall|x: usize| (x as int) < emps.len() ==> #[trigger] days_worked(m, x) <= EMP_MAX_DAYS,
{
    lemma_run_days(emps, no_days_worked(emps.len()), 0);
    match run_days(emps, no_days_worked(emps.len()), 0) {
        None => {},
        Some((days, lf)) => {
            assert(m == days);
            assert forall|x: usize| (x as int) < emps.len() implies #[trigger] days_worked(m, x)
                <= EMP_MAX_DAYS by {
                assert(lf[x as int] == no_days_worked(emps.len())[x as int] + days_worked(days, x));
                assert(lf[x as int] <= EMP_MAX_DAYS);
            }
        },
    }
}

/// Determinism: the model fixes the output completely. Any two schedules
/// that realise the model computed for the same roster agree cell for cell
/// and employee for employee, so two runs over the same input can only
/// return identical tables.
pub proof fn lemma_deterministic(
    a: Schedule,
    b: Schedule,
    emps: Seq<Employee>,
    m: Seq<Seq<Seq<usize>>>,
)
    requires
        schedule_matches(a, emps, m),
        schedule_matches(b, emps, m),
    ensures
        a.table@.len() == b.table@.len(),
        forall|d: int| 0 <= d < m.len() ==> (#[trigger] a.table@[d])@.len() == b.table@[d]@.len(),
        forall|d: int, s: int|
            0 <= d < m.len() && 0 <= s < m[d].len() ==> (#[trigger] a.table@[d]@[s])@ == b.table@[d]@[s]@,
{
    assert forall|d: int, s: int|
        0 <= d < m.len() && 0 <= s < m[d].len() implies (#[trigger] a.table@[d]@[s])@ == b.table@[d]@[s]@ by {
        assert(cell_matches(emps, a.table@[d]@[s]@, m[d][s]));
        assert(cell_matches(emps, b.table@[d]@[s]@, m[d][s]));
        let pk = m[d][s];
        assert forall|j: int| 0 <= j < pk.len() implies a.table@[d]@[s]@[j] == b.table@[d]@[s]@[j] by {
            assert(a.table@[d]@[s]@[j] == emps[pk[j] as int]);
            assert(b.table@[d]@[s]@[j] == emps[pk[j] as int]);
        }
        assert(a.table@[d]@[s]@ =~= b.table@[d]@[s]@);
    }
}

/// Preference bias: when employee `i` prefers the cell's shift, may still
/// work it, and holds the strictly smallest day count among all candidates
/// that prefer it, the cell takes `i` first — ahead of every fill-pass
/// candidate.
pub proof fn lemma_preference_bias(
    emps: Seq<Employee>,
    loads: Seq<usize>,
    today: Seq<bool>,
    shift: Shifts,
    i: int,
)
    requires
        emps.len() <= usize::MAX,
        loads.len() == emps.len(),
        today.len() == emps.len(),
        eligible(emps, loads, today, Seq::empty(), Some(shift), i),
        forall|j: int|
            eligible(emps, loads, today, Seq::empty(), Some(shift), j) && j != i ==> loads[i]
                < #[trigger] loads[j],
    ensures
        cell_picks(emps, loads, today, shift).len() >= 1,
        cell_picks(emps, loads, today, shift)[0] == i as usize,
{
    let empty = Seq::<usize>::empty();
    lemma_best_upto(emps, loads, today, empty, Some(shift), emps.len() as int);
    match best(emps, loads, today, empty, Some(shift)) {
        None => {
            assert(!eligible(emps, loads, today, empty, Some(shift), i));
        },
        Some(m) => {
            assert(eligible(emps, loads, today, empty, Some(shift), m as int));
            if m as int != i {
                assert(loads[i] < loads[m as int]);
                assert(loads[m as int] < loads[i] || (loads[m as int] == loads[i] && m <= i));
                assert(false);
            }
            let after = empty.push(m);
            assert(pick_until(emps, loads, today, empty, Some(shift), SHIFT_MIN_EMPS as nat)
                == pick_until(
                emps,
                loads,
                today,
                after,
                Some(shift),
                (SHIFT_MIN_EMPS - 1) as nat,
            ));
            lemma_pick_until(emps, loads, today, after, Some(shift), (SHIFT_MIN_EMPS - 1) as nat);
            let preferred = pick_until(emps, loads, today, empty, Some(shift), SHIFT_MIN_EMPS as nat);
            assert(preferred[0] == m);
            if preferred.len() < SHIFT_MIN_EMPS {
                lemma_pick_until(
                    emps,
                    loads,
                    today,
                    preferred,
                    None,
                    (SHIFT_MIN_EMPS - preferred.len()) as nat,
                );
            }
        },
    }
}

/// Fill-pass fallback: a cell reaches minimum staffing exactly when at
/// least two distinct employees — preference put aside — still have
/// remaining weekly capacity and are free today; with fewer, the run fails
/// with `InsufficientStaff` at that cell.
pub proof fn lemma_cell_shortfall(
    emps: Seq<Employee>,
    loads: Seq<usize>,
    today: Seq<bool>,
    shift: Shifts,
)
    requires
        emps.len() <= usize::MAX,
        loads.len() == emps.len(),
        today.len() == emps.len(),
    ensures
        cell_picks(emps, loads, today, shift).len() >= SHIFT_MIN_EMPS <==> (exists|i: int, j: int|
            i != j && #[trigger] can_cover(emps, loads, today, i) && #[trigger] can_cover(
                emps,
                loads,
                today,
                j,
            )),
{
    let r = cell_picks(emps, loads, today, shift);
    lemma_cell_picks(emps, loads, today, shift);
    if r.len() >= SHIFT_MIN_EMPS {
        assert(can_cover(emps, loads, today, r[0] as int));
        assert(can_cover(emps, loads, today, r[1] as int));
        assert(r[0] != r[1]);
        assert(r[0] as int != r[1] as int);
    } else {
        let preferred = pick_until(
            emps,
            loads,
            today,
            Seq::<usize>::empty(),
            Some(shift),
            SHIFT_MIN_EMPS as nat,
        );
        lemma_pick_until(emps, loads, today, Seq::<usize>::empty(), Some(shift), SHIFT_MIN_EMPS as nat);
        assert(preferred.len() < SHIFT_MIN_EMPS);
        assert(r == pick_until(
            emps,
            loads,
            today,
            preferred,
            None,
            (SHIFT_MIN_EMPS - preferred.len()) as nat,
        ));
        lemma_pick_until(emps, loads, today, preferred, None, (SHIFT_MIN_EMPS - preferred.len()) as nat);
        assert(best(emps, loads, today, r, None) is None);
        lemma_best_upto(emps, loads, today, r, None, emps.len() as int);
        assert forall|i: int, j: int|
            i != j && can_cover(emps, loads, today, i) && can_cover(emps, loads, today, j)
            implies false by {
            assert(!eligible(emps, loads, today, r, None, i));
            assert(!eligible(emps, loads, today, r, None, j));
            assert(r.contains(i as usize));
            assert(r.contains(j as usize));
            let wi = choose|w: int| 0 <= w < r.len() && r[w] == i as usize;
            let wj = choose|w: int| 0 <= w < r.len() && r[w] == j as usize;
            assert(wi != wj);
            assert(r.len() >= 2);
        }
    }
}

} // verus!
