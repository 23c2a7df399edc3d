//! When tasks fire and how their cadence reads, in terms of what is stored of them.
use vstd::prelude::*;
use vstd::string::*;
use crate::number;
use crate::scheduled::approver;
use crate::scheduled::approver::Safety;
use crate::scheduled::cron;
use crate::scheduled::store;
use crate::scheduled::task;
use crate::scheduled::task::{
    CreateScheduledTaskInput,
    RunRecord,
    RunStatus,
    SafetyCeiling,
    ScheduledTask,
    TaskRow,
};
use crate::text;
use crate::text::CharClass;

verus! {

// ---------------------------------------------------------------------------
// Due tasks
// ---------------------------------------------------------------------------

/// A task that is not paused is due just where it has an occurrence that is later
/// than its last run, or never ran and has an occurrence at all.
pub proof fn law_a_task_is_due_once_an_occurrence_is_later_than_its_last_run(
    row: TaskRow,
    last: i64,
    p: i64,
)
    requires
        !row.paused,
    ensures
        row.last_run == Some(last) && p > last ==> store::due(row, Some(p)),
        row.last_run == Some(last) && p <= last ==> !store::due(row, Some(p)),
        row.last_run is None ==> store::due(row, Some(p)),
        !store::due(row, None),
{
}

/// A stamp keeps a task from firing for the occurrences up to it, and for none of
/// the later ones: the next occurrence makes the task due again, and the one after
/// that once more.
pub proof fn law_a_stamped_task_fires_at_its_next_occurrence(
    tasks: Seq<TaskRow>,
    i: int,
    fired_ms: i64,
    next: i64,
)
    requires
        0 <= i < tasks.len(),
        !tasks[i].paused,
        fired_ms < next,
    ensures
        store::due(store::stamped(tasks, i, fired_ms)[i], Some(next)),
        !store::due(store::stamped(tasks, i, next)[i], Some(next)),
        store::stamped(store::stamped(tasks, i, fired_ms), i, next) == store::stamped(
            tasks,
            i,
            next,
        ),
{
    assert(store::stamped(store::stamped(tasks, i, fired_ms), i, next) =~= store::stamped(
        tasks,
        i,
        next,
    ));
}

/// Stamping or pausing a task touches no other task and nothing else of it, and a
/// paused task keeps when it last ran.
pub proof fn law_stamping_and_pausing_touch_one_task(
    tasks: Seq<TaskRow>,
    i: int,
    j: int,
    fired_ms: i64,
)
    requires
        0 <= i < tasks.len(),
        0 <= j < tasks.len(),
    ensures
        ({
            let s = store::stamped(tasks, i, fired_ms);
            let t = store::toggled(tasks, i);
            &&& s.len() == tasks.len() && t.len() == tasks.len()
            &&& i != j ==> s[j] == tasks[j] && t[j] == tasks[j]
            &&& s[i].last_run == Some(fired_ms) && t[i].last_run == tasks[i].last_run
            &&& s[i].paused == tasks[i].paused && t[i].paused == !tasks[i].paused
            &&& same_task(s[i], tasks[i]) && same_task(t[i], tasks[i])
        }),
{
}

/// Whether two rows agree in what a task is.
pub open spec fn same_task(a: TaskRow, b: TaskRow) -> bool {
    &&& a.id == b.id
    &&& a.name == b.name
    &&& a.cron == b.cron
    &&& a.kind == b.kind
    &&& a.workspace == b.workspace
    &&& a.profile == b.profile
    &&& a.safety_ceiling == b.safety_ceiling
    &&& a.created_ms == b.created_ms
}

/// Whether `rows` holds the tasks at those places, in order, and these are the places
/// of the tasks that are not paused and have an occurrence since they last ran.
pub open spec fn picks_due(
    tasks: Seq<TaskRow>,
    prevs: Seq<Option<i64>>,
    rows: Seq<TaskRow>,
    at: Seq<int>,
) -> bool {
    &&& at.len() == rows.len()
    &&& forall|a: int|
        0 <= a < at.len() ==> 0 <= (#[trigger] at[a]) < tasks.len() && rows[a] == tasks[at[a]]
    &&& forall|a: int, b: int| 0 <= a < b < at.len() ==> #[trigger] at[a] < #[trigger] at[b]
    &&& forall|i: int| 0 <= i < tasks.len() ==> (at.contains(i) <==> #[trigger] fires(tasks[i], prevs[i]))
}

/// Whether a task is not paused and has an occurrence since it last ran.
pub open spec fn fires(row: TaskRow, prev: Option<i64>) -> bool {
    !row.paused && prev is Some && (row.last_run is None || row.last_run->0 < prev->0)
}

/// The due tasks are all that are not paused and have an occurrence since they last
/// ran, and no other, in the order of the tasks.
pub proof fn law_just_the_tasks_with_a_newer_occurrence_are_due(
    tasks: Seq<TaskRow>,
    prevs: Seq<Option<i64>>,
)
    requires
        prevs.len() == tasks.len(),
    ensures
        exists|at: Seq<int>| #[trigger]
            picks_due(tasks, prevs, store::due_rows(tasks, prevs, tasks.len() as int), at),
{
    let n = tasks.len() as int;
    lemma_picks_due(tasks, prevs, n);
    assert(tasks.take(n) =~= tasks);
    assert(prevs.take(n) =~= prevs);
}

proof fn lemma_picks_due(tasks: Seq<TaskRow>, prevs: Seq<Option<i64>>, n: int)
    requires
        0 <= n <= tasks.len() == prevs.len(),
    ensures
        exists|at: Seq<int>| #[trigger]
            picks_due(tasks.take(n), prevs.take(n), store::due_rows(tasks, prevs, n), at),
    decreases n,
{
    let now = tasks.take(n);
    let pn = prevs.take(n);
    let out = store::due_rows(tasks, prevs, n);
    if n == 0 {
        assert(picks_due(now, pn, out, Seq::<int>::empty()));
    } else {
        lemma_picks_due(tasks, prevs, n - 1);
        let before = tasks.take(n - 1);
        let pb = prevs.take(n - 1);
        let prev = store::due_rows(tasks, prevs, n - 1);
        let at = choose|at: Seq<int>| #[trigger] picks_due(before, pb, prev, at);
        assert(forall|a: int| 0 <= a < at.len() ==> now[#[trigger] at[a]] == before[at[a]]);
        let next = if fires(tasks[n - 1], prevs[n - 1]) {
            at.push(n - 1)
        } else {
            at
        };
        assert forall|i: int| 0 <= i < now.len() implies (next.contains(i) <==> #[trigger] fires(
            now[i],
            pn[i],
        )) by {
            if i < n - 1 {
                assert(fires(before[i], pb[i]) <==> at.contains(i));
                if at.contains(i) {
                    let a = choose|a: int| 0 <= a < at.len() && at[a] == i;
                    assert(next[a] == i);
                }
                if next.contains(i) {
                    let a = choose|a: int| 0 <= a < next.len() && next[a] == i;
                    assert(at[a] == i);
                }
            } else {
                if fires(tasks[n - 1], prevs[n - 1]) {
                    assert(next[at.len() as int] == i);
                } else if at.contains(i) {
                    let a = choose|a: int| 0 <= a < at.len() && at[a] == i;
                    assert(at[a] < n - 1);
                }
            }
        }
        assert forall|a: int| 0 <= a < next.len() implies 0 <= (#[trigger] next[a]) < now.len()
            && out[a] == now[next[a]] by {
            if a < at.len() {
                assert(next[a] == at[a]);
            }
        }
        assert(picks_due(now, pn, out, next));
    }
}

/// A task is shown as it is stored, and a new one is stored as it was asked for: it
/// is not paused and has not run, so its first occurrence makes it due.
pub proof fn law_a_task_is_shown_as_it_is_stored(
    t: ScheduledTask,
    row: TaskRow,
    now_ms: i64,
    id: String,
    input: CreateScheduledTaskInput,
    p: i64,
)
    requires
        store::shows(t, row, now_ms),
    ensures
        t.id == row.id && t.name == row.name && t.cron == row.cron && t.kind == row.kind,
        t.workspace == row.workspace && t.profile == row.profile,
        t.safety_ceiling == row.safety_ceiling && t.paused == row.paused,
        t.last_run == row.last_run,
        t.next_run is Some ==> t.next_run->0 > now_ms,
        ({
            let new = store::new_row(id, input, now_ms);
            &&& new.id == id && new.name == input.name && new.cron == input.cron
            &&& new.kind == input.kind && new.workspace == input.workspace
            &&& new.profile == input.profile && new.safety_ceiling == input.safety_ceiling
            &&& !new.paused && new.last_run is None && new.created_ms == now_ms
            &&& store::due(new, Some(p))
        }),
{
}

/// A new task goes behind those that are as new or newer and ahead of the others.
pub proof fn law_a_task_goes_behind_the_newer_ones(tasks: Seq<TaskRow>, created_ms: i64)
    ensures
        ({
            let n = store::newer_count(tasks, created_ms) as int;
            &&& n <= tasks.len()
            &&& forall|i: int| 0 <= i < n ==> (#[trigger] tasks[i]).created_ms >= created_ms
            &&& n < tasks.len() ==> tasks[n].created_ms < created_ms
        }),
    decreases tasks.len(),
{
    if tasks.len() > 0 && tasks[0].created_ms >= created_ms {
        let rest = tasks.skip(1);
        law_a_task_goes_behind_the_newer_ones(rest, created_ms);
        let n = store::newer_count(tasks, created_ms) as int;
        assert forall|i: int| 0 <= i < n implies (#[trigger] tasks[i]).created_ms >= created_ms by {
            if i > 0 {
                assert(rest[i - 1] == tasks[i]);
            }
        }
        if n < tasks.len() {
            assert(rest[n - 1] == tasks[n]);
        }
    }
}

/// The next run is the first of the occurrences that lies after the instant, and the
/// one before the first that does not: none is passed over that would do.
pub proof fn law_the_first_occurrence_that_will_do_is_taken(
    now_ms: i64,
    first: Option<i64>,
    second: Option<i64>,
)
    ensures
        first is Some && first->0 > now_ms ==> cron::after_instant(now_ms, first, second) == first,
        (first is None || first->0 <= now_ms) && second is Some && second->0 > now_ms
            ==> cron::after_instant(now_ms, first, second) == second,
        (first is None || first->0 <= now_ms) && (second is None || second->0 <= now_ms)
            ==> cron::after_instant(now_ms, first, second) is None,
        first is Some && first->0 <= now_ms ==> cron::up_to_instant(now_ms, first, second) == first,
        (first is None || first->0 > now_ms) && second is Some && second->0 <= now_ms
            ==> cron::up_to_instant(now_ms, first, second) == second,
        (first is None || first->0 > now_ms) && (second is None || second->0 > now_ms)
            ==> cron::up_to_instant(now_ms, first, second) is None,
{
}

/// What a schedule gave is used: a next run is an occurrence that it gave from the
/// instant on, and there is none only where neither of the first two lies after it.
/// A past occurrence is one that it gave backwards, likewise, from no later than a
/// second after the instant.
pub proof fn law_occurrences_are_those_of_the_schedule(
    source: Seq<char>,
    now_ms: i64,
    next: Option<i64>,
    prev: Option<i64>,
)
    requires
        cron::follows(source, now_ms, next),
        cron::precedes(source, now_ms, prev),
    ensures
        exists|s: &str, a: Option<i64>, b: Option<i64>|
            s@ == source && #[trigger] cron::given_after(s, now_ms, 0, a) && #[trigger] cron::given_after(
                s,
                now_ms,
                1,
                b,
            ) && (next is Some ==> next->0 > now_ms && (next == a || next == b)) && (next is None
                ==> (a is None || a->0 <= now_ms) && (b is None || b->0 <= now_ms)),
        exists|s: &str, from_ms: i64, a: Option<i64>, b: Option<i64>|
            s@ == source && now_ms < from_ms <= now_ms + 1000 && #[trigger] cron::given_before(
                s,
                from_ms,
                0,
                a,
            ) && #[trigger] cron::given_before(s, from_ms, 1, b) && (prev is Some ==> prev->0
                <= now_ms && (prev == a || prev == b)) && (prev is None ==> (a is None || a->0
                > now_ms) && (b is None || b->0 > now_ms)),
{
    let (s, a, b) = choose|s: &str, a: Option<i64>, b: Option<i64>| #[trigger]
        cron::given_after(s, now_ms, 0, a) && #[trigger] cron::given_after(s, now_ms, 1, b) && s@
            == source && next == cron::after_instant(now_ms, a, b);
    assert(cron::given_after(s, now_ms, 0, a) && cron::given_after(s, now_ms, 1, b));
    let (t, from_ms, c, d) = choose|t: &str, from_ms: i64, c: Option<i64>, d: Option<i64>|
        #[trigger]
        cron::given_before(t, from_ms, 0, c) && #[trigger] cron::given_before(t, from_ms, 1, d)
            && t@ == source && now_ms < from_ms <= now_ms + 1000 && (from_ms
            - cron::FIRST_INSTANT_MS) % 1000 == 0 && prev == cron::up_to_instant(now_ms, c, d);
    assert(cron::given_before(t, from_ms, 0, c) && cron::given_before(t, from_ms, 1, d));
}

// ---------------------------------------------------------------------------
// Labels
// ---------------------------------------------------------------------------

/// A time of day reads on a twelve-hour clock: midnight and noon as twelve, the hours
/// before noon as they are, those after it less twelve, and the minute by two digits.
pub proof fn law_times_read_on_a_twelve_hour_clock(hour: int, minute: int)
    requires
        0 <= hour < 24,
        0 <= minute < 60,
    ensures
        ({
            let m = ":"@ + number::two_digits(minute as nat);
            let t = cron::clock_text(hour, minute);
            &&& hour == 0 ==> t == number::decimal(12) + m + " AM"@
            &&& 1 <= hour <= 11 ==> t == number::decimal(hour as nat) + m + " AM"@
            &&& hour == 12 ==> t == number::decimal(12) + m + " PM"@
            &&& 13 <= hour ==> t == number::decimal((hour - 12) as nat) + m + " PM"@
        }),
{
    let m = ":"@ + number::two_digits(minute as nat);
    let t = cron::clock_text(hour, minute);
    let h = if hour == 0 || hour == 12 {
        12int
    } else if hour < 12 {
        hour
    } else {
        hour - 12
    };
    if hour >= 12 {
        assert(t =~= number::decimal(h as nat) + m + " PM"@);
    } else {
        assert(t =~= number::decimal(h as nat) + m + " AM"@);
    }
}

/// An expression of six fields reads by them: hourly where any hour will do at a
/// minute that is given, daily where any day will do, by its days of the week where
/// any day of the month will do, and monthly by a day of the month that is a number
/// where any day of the week will do.
pub proof fn law_a_cadence_reads_by_its_fields(
    expr: Seq<char>,
    f: Seq<Seq<char>>,
    hour: u32,
    minute: u32,
)
    requires
        text::runs(expr, CharClass::NonSpace) == f,
        f.len() == 6,
    ensures
        ({
            let time = cron::clock_text(hour as int, minute as int);
            let r = cron::label(expr, Some((hour, minute)));
            let hourly = f[2] == "*"@ && f[1] != "*"@;
            let day = number::number_of(f[3]);
            &&& hourly ==> r == "Hourly"@
            &&& !hourly && f[3] == "*"@ && f[5] == "*"@ ==> r == "Daily at "@ + time
            &&& !hourly && f[3] == "*"@ && f[5] != "*"@ ==> r == cron::days_label(expr, f[5], time)
            &&& !hourly && f[3] != "*"@ && f[5] == "*"@ && day is Some && day->0 <= u32::MAX ==> r
                == "Monthly on day "@ + number::decimal(day->0) + " at "@ + time
            &&& !hourly && f[3] != "*"@ && (f[5] != "*"@ || day is None) ==> r == expr
        }),
{
}

/// An expression that has another number of fields, or no next occurrence, stands for
/// itself.
pub proof fn law_other_expressions_stand_for_themselves(
    expr: Seq<char>,
    at: Option<(u32, u32)>,
)
    requires
        at is None || text::runs(expr, CharClass::NonSpace).len() != 6,
    ensures
        cron::label(expr, at) == expr,
{
}

/// The days of a field read in week order, each that the field takes in and no other:
/// as weekdays where they are Monday to Friday, else by their names.
pub proof fn law_days_read_in_week_order(expr: Seq<char>, dow: Seq<char>, time: Seq<char>)
    ensures
        ({
            let days = cron::field_days(dow, 7);
            let r = cron::days_label(expr, dow, time);
            let weekdays = forall|d: int|
                0 <= d < 7 ==> (#[trigger] cron::field_has_day(dow, d) <==> d < 5);
            &&& forall|a: int, b: int| 0 <= a < b < days.len() ==> #[trigger] days[a] < #[trigger] days[b]
            &&& forall|d: int| #[trigger]
                days.contains(d) <==> 0 <= d < 7 && cron::field_has_day(dow, d)
            &&& weekdays ==> r == "Weekdays at "@ + time
            &&& !weekdays && days.len() > 0 ==> r == text::join(
                Seq::new(days.len(), |i: int| cron::weekday_text(days[i])),
                ", "@,
            ) + " at "@ + time
            &&& days.len() == 0 ==> r == expr
        }),
{
    let days = cron::field_days(dow, 7);
    let r = cron::days_label(expr, dow, time);
    lemma_field_days(dow, 7);
    let five = seq![0int, 1int, 2int, 3int, 4int];
    let weekdays = forall|d: int|
        0 <= d < 7 ==> (#[trigger] cron::field_has_day(dow, d) <==> d < 5);
    if weekdays {
        assert(cron::field_has_day(dow, 0) && cron::field_has_day(dow, 1) && cron::field_has_day(
            dow,
            2,
        ) && cron::field_has_day(dow, 3) && cron::field_has_day(dow, 4));
        assert(!cron::field_has_day(dow, 5) && !cron::field_has_day(dow, 6));
        reveal_with_fuel(cron::field_days, 8);
        assert(days =~= five);
    }
    if days == five {
        assert forall|d: int| 0 <= d < 7 implies (#[trigger] cron::field_has_day(dow, d) <==> d
            < 5) by {
            if d < 5 {
                assert(five[d] == d);
                assert(days.contains(d));
            } else if cron::field_has_day(dow, d) {
                assert(days.contains(d));
            }
        }
    }
    assert(cron::weekday_texts(days) =~= Seq::new(days.len(), |i: int| cron::weekday_text(days[i])));
}

proof fn lemma_field_days(dow: Seq<char>, n: nat)
    ensures
        ({
            let days = cron::field_days(dow, n);
            &&& forall|a: int, b: int| 0 <= a < b < days.len() ==> #[trigger] days[a] < #[trigger] days[b]
            &&& forall|a: int| 0 <= a < days.len() ==> 0 <= #[trigger] days[a] < n
            &&& forall|d: int| #[trigger]
                days.contains(d) <==> 0 <= d < n && cron::field_has_day(dow, d)
        }),
    decreases n,
{
    let days = cron::field_days(dow, n);
    if n > 0 {
        lemma_field_days(dow, (n - 1) as nat);
        let prev = cron::field_days(dow, (n - 1) as nat);
        assert forall|d: int| #[trigger] days.contains(d) <==> 0 <= d < n && cron::field_has_day(
            dow,
            d,
        ) by {
            assert(prev.contains(d) <==> 0 <= d < n - 1 && cron::field_has_day(dow, d));
            if prev.contains(d) {
                let a = choose|a: int| 0 <= a < prev.len() && prev[a] == d;
                assert(days[a] == d);
            }
            if d == n - 1 && cron::field_has_day(dow, d) {
                assert(days[prev.len() as int] == d);
            }
            if days.contains(d) && !prev.contains(d) {
                let a = choose|a: int| 0 <= a < days.len() && days[a] == d;
                if a < prev.len() {
                    assert(prev[a] == d);
                }
            }
        }
    }
}

/// A field takes in a day where one of its parts does: a part that names the day, or a
/// range from a day that is not after it to one that is not before it.
pub proof fn law_a_field_takes_in_the_days_of_its_parts(
    dow: Seq<char>,
    part: Seq<char>,
    lo: Seq<char>,
    hi: Seq<char>,
    i: int,
    d: int,
)
    requires
        0 <= i < text::split_char(dow, ',').len(),
        text::split_char(dow, ',')[i] == part,
        forall|j: int| 0 <= j < lo.len() ==> #[trigger] lo[j] != '-',
    ensures
        !part.contains('-') && cron::day_of_token(part) == Some(d) ==> cron::field_has_day(dow, d),
        part == lo + seq!['-'] + hi && cron::day_of_token(lo) is Some && cron::day_of_token(hi)
            is Some && cron::day_of_token(lo)->0 <= d <= cron::day_of_token(hi)->0
            ==> cron::field_has_day(dow, d),
{
    let dash = text::find_char(part, '-', 0);
    text::lemma_find_char(part, '-', 0);
    if !part.contains('-') && cron::day_of_token(part) == Some(d) {
        if dash < part.len() {
            assert(part.contains(part[dash]));
        }
        assert(cron::part_has_day(text::split_char(dow, ',')[i], d));
    }
    if part == lo + seq!['-'] + hi {
        let n = lo.len() as int;
        assert(part[n] == '-');
        if dash < n {
            assert(part[dash] == lo[dash]);
        }
        assert(dash == n);
        assert(part.take(n) =~= lo);
        assert(part.skip(n + 1) =~= hi);
        if cron::day_of_token(lo) is Some && cron::day_of_token(hi) is Some
            && cron::day_of_token(lo)->0 <= d <= cron::day_of_token(hi)->0 {
            assert(cron::part_has_day(text::split_char(dow, ',')[i], d));
        }
    }
}

/// Days are counted from Monday in fields, by number with Sunday at either end of the
/// week, and in labels alike.
pub proof fn law_days_are_counted_from_monday(d: int)
    requires
        0 <= d < 7,
    ensures
        cron::day_of_token("0"@) == Some(6int),
        cron::day_of_token(number::decimal((d + 1) as nat)) == Some(d),
        cron::day_of_token(cron::weekday_text(d)) == Some(d),
{
    reveal_strlit("0");
    reveal_strlit("1");
    reveal_strlit("2");
    reveal_strlit("3");
    reveal_strlit("4");
    reveal_strlit("5");
    reveal_strlit("6");
    reveal_strlit("7");
    assert("0"@[0] == '0' && "1"@[0] == '1' && "2"@[0] == '2' && "3"@[0] == '3');
    assert("4"@[0] == '4' && "5"@[0] == '5' && "6"@[0] == '6' && "7"@[0] == '7');
    let digits = seq!["1"@, "2"@, "3"@, "4"@, "5"@, "6"@, "7"@];
    assert(number::decimal((d + 1) as nat) =~= digits[d]);
    reveal_strlit("Mon");
    reveal_strlit("Tue");
    reveal_strlit("Wed");
    reveal_strlit("Thu");
    reveal_strlit("Fri");
    reveal_strlit("Sat");
    reveal_strlit("Sun");
    reveal_strlit("mon");
    reveal_strlit("tue");
    reveal_strlit("wed");
    reveal_strlit("thu");
    reveal_strlit("fri");
    reveal_strlit("sat");
    reveal_strlit("sun");
    reveal_strlit("monday");
    reveal_strlit("tuesday");
    reveal_strlit("wednesday");
    reveal_strlit("thursday");
    reveal_strlit("friday");
    reveal_strlit("saturday");
    assert("mon"@[0] == 'm' && "tue"@[1] == 'u' && "wed"@[0] == 'w' && "thu"@[1] == 'h');
    assert("tue"@[0] == 't' && "thu"@[0] == 't' && "fri"@[0] == 'f');
    assert("sat"@[0] == 's' && "sun"@[0] == 's' && "sat"@[1] == 'a' && "sun"@[1] == 'u');
    assert("0"@.len() == 1 && "1"@.len() == 1 && "2"@.len() == 1 && "3"@.len() == 1);
    assert("4"@.len() == 1 && "5"@.len() == 1 && "6"@.len() == 1 && "7"@.len() == 1);
    assert("monday"@.len() == 6 && "tuesday"@.len() == 7 && "wednesday"@.len() == 9);
    assert("thursday"@.len() == 8 && "friday"@.len() == 6 && "saturday"@.len() == 8);
    let names = seq!["mon"@, "tue"@, "wed"@, "thu"@, "fri"@, "sat"@, "sun"@];
    assert(text::ascii_lowered(cron::weekday_text(d)) =~= names[d]);
}

// ---------------------------------------------------------------------------
// Approval and records
// ---------------------------------------------------------------------------

/// An unattended run may read whatever its ceiling; write, or touch what is
/// sensitive, just under a ceiling that lets it write; and do nothing beyond.
pub proof fn law_a_run_may_do_what_its_ceiling_lets_it(ceiling: SafetyCeiling, safety: Safety)
    ensures
        safety is ReadOnly ==> approver::permits(ceiling, safety),
        safety is Write || safety is Sensitive ==> (approver::permits(ceiling, safety) <==> ceiling
            is Write),
        safety is Publish || safety is Dangerous ==> !approver::permits(ceiling, safety),
{
}

/// Every way in which a run can end is stored under a name of its own, and a task's
/// ceiling is read back as it was stored and is read-only for any other text.
pub proof fn law_each_status_has_a_name_of_its_own(a: RunStatus, b: RunStatus, s: Seq<char>)
    ensures
        task::status_text(a) == task::status_text(b) ==> a == b,
        task::ceiling_of(s) is Write <==> s == task::ceiling_text(SafetyCeiling::Write),
{
    reveal_strlit("ok");
    reveal_strlit("error");
    reveal_strlit("cancelled");
    reveal_strlit("needs_attention");
    assert("ok"@.len() == 2 && "error"@.len() == 5 && "cancelled"@.len() == 9);
    assert("needs_attention"@.len() == 15);
}

/// A task is found by its id where there is one of that id, and each task is found by
/// its own.
pub proof fn law_a_task_is_found_by_its_id(tasks: Seq<TaskRow>, id: Seq<char>, i: int)
    requires
        0 <= i < tasks.len(),
        forall|a: int, b: int|
            #![trigger tasks[a], tasks[b]]
            0 <= a < b < tasks.len() ==> tasks[a].id@ != tasks[b].id@,
    ensures
        store::has_task(tasks, id) ==> tasks[store::task_place(tasks, id)].id@ == id,
        (forall|a: int| 0 <= a < tasks.len() ==> (#[trigger] tasks[a]).id@ != id)
            ==> !store::has_task(tasks, id),
        store::has_task(tasks, tasks[i].id@),
        store::task_place(tasks, tasks[i].id@) == i,
{
    if store::has_task(tasks, id) {
        let k = store::task_place(tasks, id);
        assert(0 <= k < tasks.len() && tasks[k].id@ == id);
    }
    let k = store::task_place(tasks, tasks[i].id@);
    assert(0 <= k < tasks.len() && tasks[k].id@ == tasks[i].id@);
    if k < i {
        assert(tasks[k].id@ != tasks[i].id@);
    }
    if i < k {
        assert(tasks[i].id@ != tasks[k].id@);
    }
}

/// The runs of a task are told by how they ended, in the order in which they were
/// recorded: one more run of the task is told last, and a run of another changes nothing.
pub proof fn law_runs_are_told_in_order(runs: Seq<RunRecord>, run: RunRecord, id: Seq<char>)
    ensures
        run.task_id@ == id ==> store::statuses(store::runs_of(runs.push(run), id))
            == store::statuses(store::runs_of(runs, id)).push(task::status_text(run.status)),
        run.task_id@ != id ==> store::runs_of(runs.push(run), id) == store::runs_of(runs, id),
        run.task_id@ == id ==> store::other_runs(runs.push(run), id) == store::other_runs(runs, id),
        run.task_id@ != id ==> store::other_runs(runs.push(run), id) == store::other_runs(
            runs,
            id,
        ).push(run),
        store::runs_of(Seq::empty(), id).len() == 0,
        store::other_runs(Seq::empty(), id).len() == 0,
{
    reveal(Seq::filter);
    let more = runs.push(run);
    assert(more.drop_last() =~= runs);
    assert(more.last() == run);
    if run.task_id@ == id {
        assert(store::statuses(store::runs_of(more, id)) =~= store::statuses(
            store::runs_of(runs, id),
        ).push(task::status_text(run.status)));
    }
}

/// What is known of the past occurrence of a task comes from its own schedule, and a
/// task whose expression cannot be read has none.
pub proof fn law_past_occurrences_are_those_of_each_schedule(
    tasks: Seq<TaskRow>,
    prevs: Seq<Option<i64>>,
    now_ms: i64,
    i: int,
)
    requires
        store::past_occurrences(tasks, prevs, now_ms),
        0 <= i < tasks.len(),
    ensures
        prevs.len() == tasks.len(),
        prevs[i] is Some ==> prevs[i]->0 <= now_ms,
        cron::cron_fault(tasks[i].cron@) is Some ==> prevs[i] is None,
        cron::cron_fault(tasks[i].cron@) is None ==> cron::precedes(
            tasks[i].cron@,
            now_ms,
            prevs[i],
        ),
{
    assert(store::past_occurrence(tasks[i], prevs[i], now_ms));
}

/// A label tells the time of day of the first occurrence that the schedule gave from the
/// instant on; where it gave none, the expression stands for itself.
pub proof fn law_a_label_tells_the_clock_of_the_first_occurrence(
    expr: Seq<char>,
    now_ms: i64,
    r: Seq<char>,
)
    requires
        cron::labels(expr, now_ms, r),
    ensures
        exists|s: &str, t: Option<i64>| #[trigger]
            cron::given_after(s, now_ms, 0, t) && s@ == expr && (t is None ==> r == expr) && (t
                is Some ==> exists|at: Option<(u32, u32)>| #[trigger]
                cron::given_clock(t->0, at) && r == cron::label(expr, at)),
{
    let (s, t, at) = choose|s: &str, t: Option<i64>, at: Option<(u32, u32)>| #[trigger]
        cron::given_after(s, now_ms, 0, t) && s@ == expr && (t is None ==> at is None) && (
        t matches Some(x) ==> cron::given_clock(x, at)) && (at matches Some(clock) ==> clock.0 < 24
            && clock.1 < 60) && r == #[trigger] cron::label(expr, at);
    if t is Some {
        assert(cron::given_clock(t->0, at));
    }
    assert(cron::given_after(s, now_ms, 0, t));
}

} // verus!
